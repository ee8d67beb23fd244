use vstd::prelude::*;
use vstd::std_specs::ops::{BitAndSpec, BitOrSpec};

verus! {

/// The look of one terminal cell: background, foreground and secondary
/// colour as RGB, and a set of flag bits (`Style::BOLD` ..).
#[derive(Clone, Copy, Debug, Eq)]
pub struct Style {
    pub bg: [u8; 3],
    pub fg: [u8; 3],
    pub secondary_color: [u8; 3],
    /// A set of the flag bits `Style::BOLD` ..
    pub flags: u8,
}

/// One terminal cell: a style and an optional letter.
#[derive(Clone, Copy, Eq)]
pub struct Cell {
    pub style: Style,
    pub letter: Option<char>,
}

impl Style {
    /// Letters in the bold (or bold italic) face.
    pub const BOLD: u8 = 1;
    /// Letters in half the foreground's intensity.
    pub const DIM: u8 = 2;
    /// Letters in the italic (or bold italic) face.
    pub const ITALIC: u8 = 4;
    /// A straight line under the cell.
    pub const UNDERLINE: u8 = 8;
    /// A line through the cell.
    pub const STRIKETHROUGH: u8 = 16;
    /// A wavy line under the cell.
    pub const UNDERCURL: u8 = 32;
    /// Underlines and undercurls in the secondary colour.
    pub const USE_SECONDARY_COLOR: u8 = 128;

    /// A cell of this style that shows `c`.
    pub fn basic(self, c: char) -> (r: Cell)
        ensures
            r.style == self,
            r.letter == Some(c),
    {
        Cell { style: self, letter: Some(c) }
    }

    /// A cell of this style that shows nothing.
    pub fn empty(self) -> (r: Cell)
        ensures
            r.style == self,
            r.letter == None::<char>,
    {
        Cell { style: self, letter: None }
    }
}

/// Whether two colours hold the same three channels.
fn same_rgb(a: &[u8; 3], b: &[u8; 3]) -> (r: bool)
    ensures
        r == (*a == *b),
{
    let r = a[0] == b[0] && a[1] == b[1] && a[2] == b[2];
    proof {
        if r {
            assert(*a =~= *b);
        }
    }
    r
}

impl PartialEq for Style {
    fn eq(&self, other: &Self) -> (r: bool) {
        same_rgb(&self.bg, &other.bg) && same_rgb(&self.fg, &other.fg) && same_rgb(
            &self.secondary_color,
            &other.secondary_color,
        ) && self.flags == other.flags
    }
}

impl vstd::std_specs::cmp::PartialEqSpecImpl for Style {
    open spec fn obeys_eq_spec() -> bool {
        true
    }

    open spec fn eq_spec(&self, other: &Self) -> bool {
        *self == *other
    }
}

impl PartialEq for Cell {
    fn eq(&self, other: &Self) -> (r: bool) {
        let same_letter = match (self.letter, other.letter) {
            (Some(a), Some(b)) => a == b,
            (None, None) => true,
            _ => false,
        };
        self.style.eq(&other.style) && same_letter
    }
}

impl vstd::std_specs::cmp::PartialEqSpecImpl for Cell {
    open spec fn obeys_eq_spec() -> bool {
        true
    }

    open spec fn eq_spec(&self, other: &Self) -> bool {
        *self == *other
    }
}

/// The default style is white letters on black, with a black secondary
/// colour and no flags.
pub proof fn lemma_default_style()
    ensures
        Style::spec_default().bg[0] == 0 && Style::spec_default().bg[1] == 0
            && Style::spec_default().bg[2] == 0,
        Style::spec_default().fg[0] == 255 && Style::spec_default().fg[1] == 255
            && Style::spec_default().fg[2] == 255,
        Style::spec_default().secondary_color[0] == 0 && Style::spec_default().secondary_color[1]
            == 0 && Style::spec_default().secondary_color[2] == 0,
        Style::spec_default().flags == 0,
{
}

impl Style {
    /// The style that `Style::default` gives: black background, white
    /// foreground, black secondary colour, no flags.
    pub open spec fn spec_default() -> Style {
        Style { bg: [0, 0, 0], fg: [255, 255, 255], secondary_color: [0, 0, 0], flags: 0 }
    }
}

impl Default for Style {
    fn default() -> (r: Self)
        ensures
            r == Style::spec_default(),
    {
        Style { bg: [0, 0, 0], fg: [255, 255, 255], secondary_color: [0, 0, 0], flags: 0 }
    }
}

impl Default for Cell {
    fn default() -> (r: Self)
        ensures
            r.style == Style::spec_default(),
            r.letter == None::<char>,
    {
        Cell { style: Style::default(), letter: None }
    }
}

impl Cell {
    /// The character that a cell shows when printed for debugging: its
    /// letter, or a space where it has none.
    pub fn debug_char(&self) -> (r: char)
        ensures
            r == (match self.letter {
                Some(c) => c,
                None => ' ',
            }),
    {
        match self.letter {
            Some(c) => c,
            None => ' ',
        }
    }

    /// A cell in the default style that shows `c`.
    pub fn basic(c: char) -> (r: Self)
        ensures
            r.style == Style::spec_default(),
            r.letter == Some(c),
    {
        Cell { letter: Some(c), style: Style::default() }
    }
}

impl Style {
    /// Which of the four faces draws a letter of this style: 3 for bold
    /// italic, 2 for bold, 1 for italic, 0 for regular.
    pub open spec fn spec_face(self) -> u8 {
        if self.flags & Style::BOLD != 0 && self.flags & Style::ITALIC != 0 {
            3
        } else if self.flags & Style::BOLD != 0 {
            2
        } else if self.flags & Style::ITALIC != 0 {
            1
        } else {
            0
        }
    }

    /// Which of the four faces draws a letter of this style: 3 for bold
    /// italic, 2 for bold, 1 for italic, 0 for regular.
    pub fn face(&self) -> (r: u8)
        ensures
            r == self.spec_face(),
            r as int == (if self.flags & 1u8 != 0 { 2int } else { 0int }) + (if self.flags & 4u8
                != 0 {
                1int
            } else {
                0int
            }),
    {
        let bold = self.flags & Style::BOLD != 0;
        let italic = self.flags & Style::ITALIC != 0;
        if bold && italic {
            3
        } else if bold {
            2
        } else if italic {
            1
        } else {
            0
        }
    }

    /// The colour of the letter: the foreground, each channel halved where
    /// the style is dim.
    pub open spec fn spec_letter_color(self) -> [u8; 3] {
        if self.flags & Style::DIM != 0 {
            [(self.fg[0] / 2) as u8, (self.fg[1] / 2) as u8, (self.fg[2] / 2) as u8]
        } else {
            self.fg
        }
    }

    /// The colour of underlines and undercurls: the secondary colour where
    /// the style asks for it, else the (undimmed) foreground.
    pub open spec fn spec_line_color(self) -> [u8; 3] {
        if self.flags & Style::USE_SECONDARY_COLOR != 0 {
            self.secondary_color
        } else {
            self.fg
        }
    }

    /// The colours a cell of this style is drawn in: the letter's colour
    /// and the colour of its underline or undercurl.
    pub fn colors(&self) -> (r: ([u8; 3], [u8; 3]))
        ensures
            r.0 == self.spec_letter_color(),
            r.1 == self.spec_line_color(),
            self.flags & 2u8 == 0 ==> r.0 == self.fg,
            self.flags & 2u8 != 0 ==> r.0[0] == self.fg[0] / 2 && r.0[1] == self.fg[1] / 2
                && r.0[2] == self.fg[2] / 2,
            self.flags & 128u8 == 0 ==> r.1 == self.fg,
            self.flags & 128u8 != 0 ==> r.1 == self.secondary_color,
    {
        let mut color = self.fg;
        let sec = if self.flags & Style::USE_SECONDARY_COLOR != 0 {
            self.secondary_color
        } else {
            color
        };
        if self.flags & Style::DIM != 0 {
            color = [color[0] / 2, color[1] / 2, color[2] / 2];
        }
        (color, sec)
    }

    /// Whether the style asks for an underline.
    pub fn underlined(&self) -> (r: bool)
        ensures
            r == (self.flags & Style::UNDERLINE != 0),
    {
        self.flags & Style::UNDERLINE != 0
    }

    /// Whether the style asks for an undercurl.
    pub fn undercurled(&self) -> (r: bool)
        ensures
            r == (self.flags & Style::UNDERCURL != 0),
    {
        self.flags & Style::UNDERCURL != 0
    }

    /// Whether the style asks for italic letters.
    pub fn italic(&self) -> (r: bool)
        ensures
            r == (self.flags & Style::ITALIC != 0),
    {
        self.flags & Style::ITALIC != 0
    }
}

/// The face depends on the bold and italic bits alone: bold adds 2, italic
/// adds 1, and setting any other flag bits leaves the face as it was.
pub proof fn lemma_face_reads_bold_and_italic(s: Style, g: u8)
    ensures
        s.spec_face() as int == (if s.flags & 1u8 != 0 { 2int } else { 0int }) + (if s.flags & 4u8
            != 0 {
            1int
        } else {
            0int
        }),
        s.flags & 1u8 == 0 && s.flags & 4u8 == 0 ==> s.spec_face() == 0,
        g & 5u8 == 0 ==> (Style { flags: s.flags | g, ..s }).spec_face() == s.spec_face(),
{
    let f = s.flags;
    assert(g & 5u8 == 0 ==> ((f | g) & 1u8 == f & 1u8 && (f | g) & 4u8 == f & 4u8))
        by (bit_vector);
}

/// The letter keeps the foreground unless the style is dim, and then each
/// channel is halved; the line colour is the foreground unless the style
/// asks for the secondary colour. Other flag bits change neither.
pub proof fn lemma_colors_read_dim_and_secondary(s: Style, g: u8)
    ensures
        s.flags & 2u8 == 0 ==> s.spec_letter_color() == s.fg,
        s.flags & 2u8 != 0 ==> s.spec_letter_color()[0] == s.fg[0] / 2 && s.spec_letter_color()[1]
            == s.fg[1] / 2 && s.spec_letter_color()[2] == s.fg[2] / 2,
        s.flags & 128u8 == 0 ==> s.spec_line_color() == s.fg,
        s.flags & 128u8 != 0 ==> s.spec_line_color() == s.secondary_color,
        g & 130u8 == 0 ==> (Style { flags: s.flags | g, ..s }).spec_letter_color()
            == s.spec_letter_color() && (Style { flags: s.flags | g, ..s }).spec_line_color()
            == s.spec_line_color(),
{
    let f = s.flags;
    assert(g & 130u8 == 0 ==> ((f | g) & 2u8 == f & 2u8 && (f | g) & 128u8 == f & 128u8))
        by (bit_vector);
}

/// `style | flags` sets the given flag bits and keeps the rest.
impl core::ops::BitOr<u8> for Style {
    type Output = Style;

    fn bitor(self, rhs: u8) -> (r: Style)
        ensures
            r.flags == self.flags | rhs,
            r.bg == self.bg,
            r.fg == self.fg,
            r.secondary_color == self.secondary_color,
    {
        Style { flags: self.flags | rhs, ..self }
    }
}

impl vstd::std_specs::ops::BitOrSpecImpl<u8> for Style {
    open spec fn obeys_bitor_spec() -> bool {
        true
    }

    open spec fn bitor_req(self, rhs: u8) -> bool {
        true
    }

    open spec fn bitor_spec(self, rhs: u8) -> Style {
        Style { flags: self.flags | rhs, ..self }
    }
}

/// `style & (flags, bg)` sets the given flag bits and replaces the background.
impl core::ops::BitAnd<(u8, [u8; 3])> for Style {
    type Output = Style;

    fn bitand(self, rhs: (u8, [u8; 3])) -> (r: Style)
        ensures
            r.flags == self.flags | rhs.0,
            r.bg == rhs.1,
            r.fg == self.fg,
            r.secondary_color == self.secondary_color,
    {
        let (flags, bg) = rhs;
        let mut s = self;
        s.flags = s.flags | flags;
        s.bg = bg;
        s
    }
}

impl vstd::std_specs::ops::BitAndSpecImpl<(u8, [u8; 3])> for Style {
    open spec fn obeys_bitand_spec() -> bool {
        true
    }

    open spec fn bitand_req(self, rhs: (u8, [u8; 3])) -> bool {
        true
    }

    open spec fn bitand_spec(self, rhs: (u8, [u8; 3])) -> Style {
        Style { flags: self.flags | rhs.0, bg: rhs.1, ..self }
    }
}

/// `style | f` changes the flags alone, setting the bits of `f`; `style &
/// (f, bg)` also replaces the background and nothing else. Setting bits twice
/// is setting them once.
pub proof fn lemma_flag_operators(s: Style, f: u8, bg: [u8; 3])
    ensures
        s.bitor_spec(f).flags == s.flags | f,
        s.bitor_spec(f).bg == s.bg,
        s.bitor_spec(f).fg == s.fg,
        s.bitor_spec(f).secondary_color == s.secondary_color,
        s.bitor_spec(f).flags & f == f,
        s.bitor_spec(f).bitor_spec(f) == s.bitor_spec(f),
        s.bitor_spec(0) == s,
        s.bitand_spec((f, bg)).flags == s.flags | f,
        s.bitand_spec((f, bg)).bg == bg,
        s.bitand_spec((f, bg)).fg == s.fg,
        s.bitand_spec((f, bg)).secondary_color == s.secondary_color,
{
    let x = s.flags;
    assert((x | f) & f == f) by (bit_vector);
    assert((x | f) | f == x | f) by (bit_vector);
    assert(x | 0u8 == x) by (bit_vector);
}

/// `style |= (flags, fg)` sets the given flag bits and replaces the foreground.
impl core::ops::BitOrAssign<(u8, [u8; 3])> for Style {
    fn bitor_assign(&mut self, rhs: (u8, [u8; 3]))
        ensures
            *final(self) == (Style { flags: old(self).flags | rhs.0, fg: rhs.1, ..*old(self) }),
    {
        let (f, c) = rhs;
        self.flags = self.flags | f;
        self.fg = c;
    }
}

/// `style &= (flags, bg)` is `style = style & (flags, bg)`.
impl core::ops::BitAndAssign<(u8, [u8; 3])> for Style {
    fn bitand_assign(&mut self, rhs: (u8, [u8; 3]))
        ensures
            *final(self) == (Style { flags: old(self).flags | rhs.0, bg: rhs.1, ..*old(self) }),
    {
        *self = *self & rhs;
    }
}

/// `u8`'s `Hash::hash`: feeds the byte to the hasher. Nothing is stated of
/// the hasher's state afterwards.
pub assume_specification<H: core::hash::Hasher>[<u8 as core::hash::Hash>::hash::<H>](
    data: &u8,
    state: &mut H,
);

/// `Option`'s `Hash::hash`: feeds the variant and the payload to the hasher.
/// Nothing is stated of the hasher's state afterwards.
pub assume_specification<T: core::hash::Hash, H: core::hash::Hasher>[<Option<T> as core::hash::Hash>::hash::<H>](
    data: &Option<T>,
    state: &mut H,
);

/// A cell hashes by its flag bits and its letter alone: cells that differ
/// only in colour hash alike.
impl core::hash::Hash for Cell {
    fn hash<H: core::hash::Hasher>(&self, state: &mut H) {
        self.style.flags.hash(state);
        self.letter.hash(state);
    }
}

/// The number of bytes that one cell takes in the byte form of
/// `Cell::store` and `Cell::load`.
pub const CELL_BYTES: usize = 16;

/// The code that stands for a letter in the byte form: its scalar value, or
/// `NO_LETTER` where there is none.
pub open spec fn letter_code(l: Option<char>) -> u32 {
    match l {
        Some(c) => c as u32,
        None => NO_LETTER,
    }
}

/// The code that stands for "no letter" (the first value past the last
/// Unicode scalar value).
pub const NO_LETTER: u32 = 0x110000;

/// Whether `v` is the scalar value of a `char`.
pub open spec fn is_scalar(v: u32) -> bool {
    v <= 0xD7FF || (0xE000 <= v && v <= 0x10FFFF)
}

/// Whether `v` is a code that `letter_code` can give.
pub open spec fn is_letter_code(v: u32) -> bool {
    is_scalar(v) || v == NO_LETTER
}

/// The letter that a code stands for.
pub open spec fn code_letter(v: u32) -> Option<char> {
    if v == NO_LETTER {
        None
    } else {
        Some(v as char)
    }
}

/// Byte `k` (0 is the least significant) of `v`.
pub open spec fn byte_of(v: u32, k: int) -> u8 {
    ((v as int / pow256(k)) % 256) as u8
}

/// `256` to the power `k`, for `k` from 0 to 3.
pub open spec fn pow256(k: int) -> int {
    if k <= 0 {
        1
    } else if k == 1 {
        256
    } else if k == 2 {
        65536
    } else {
        16777216
    }
}

/// The little-endian `u32` in the four bytes `b[at..at + 4]`.
pub open spec fn le_u32(b: Seq<u8>, at: int) -> int {
    b[at] + 256 * b[at + 1] + 65536 * b[at + 2] + 16777216 * b[at + 3]
}

/// The byte form of one cell: the letter's code as a little-endian `u32`,
/// then background, foreground and secondary colour, then the flags, then
/// two zero bytes.
pub open spec fn cell_bytes(c: Cell) -> Seq<u8> {
    let v = letter_code(c.letter);
    seq![
        byte_of(v, 0), byte_of(v, 1), byte_of(v, 2), byte_of(v, 3),
        c.style.bg[0], c.style.bg[1], c.style.bg[2],
        c.style.fg[0], c.style.fg[1], c.style.fg[2],
        c.style.secondary_color[0], c.style.secondary_color[1], c.style.secondary_color[2],
        c.style.flags, 0u8, 0u8,
    ]
}

/// Whether the cell-sized chunk at `at` holds a letter code that stands
/// for a letter or for none.
pub open spec fn valid_chunk(b: Seq<u8>, at: int) -> bool {
    le_u32(b, at) <= 0xD7FF || (0xE000 <= le_u32(b, at) && le_u32(b, at) <= 0x10FFFF)
        || le_u32(b, at) == NO_LETTER
}

/// The cell that the cell-sized chunk of `b` at `at` holds.
pub open spec fn chunk_cell(b: Seq<u8>, at: int) -> Cell {
    Cell {
        style: Style {
            bg: [b[at + 4], b[at + 5], b[at + 6]],
            fg: [b[at + 7], b[at + 8], b[at + 9]],
            secondary_color: [b[at + 10], b[at + 11], b[at + 12]],
            flags: b[at + 13],
        },
        letter: code_letter(le_u32(b, at) as u32),
    }
}

/// Whether every whole cell-sized chunk of `b` is the byte form of a cell.
pub open spec fn loadable(b: Seq<u8>) -> bool {
    forall|i: int| 0 <= i < b.len() / 16 ==> #[trigger] valid_chunk(b, 16 * i)
}

/// `char::from_u32`: the `char` whose scalar value is `v`, or `None` where
/// `v` is no scalar value (a surrogate or past `0x10FFFF`).
#[verifier::external_body]
fn char_from_u32(v: u32) -> (r: Option<char>)
    ensures
        is_scalar(v) ==> r == Some(v as char),
        !is_scalar(v) ==> r == None::<char>,
{
    char::from_u32(v)
}

/// The byte form of a run of cells: the byte forms of the cells, one after
/// the other.
pub open spec fn stored(cells: Seq<Cell>) -> Seq<u8> {
    Seq::new(16 * cells.len(), |n: int| cell_bytes(cells[n / 16])[n % 16])
}

/// The cells that the whole cell-sized chunks of `b` hold; bytes past the
/// last whole chunk are not read.
pub open spec fn loaded(b: Seq<u8>) -> Seq<Cell> {
    Seq::new(b.len() / 16, |i: int| chunk_cell(b, 16 * i))
}

proof fn lemma_u32_bytes(v: u32)
    ensures
        byte_of(v, 0) == v & 0xff,
        byte_of(v, 1) == (v >> 8) & 0xff,
        byte_of(v, 2) == (v >> 16) & 0xff,
        byte_of(v, 3) == (v >> 24) & 0xff,
        byte_of(v, 0) + 256 * byte_of(v, 1) + 65536 * byte_of(v, 2) + 16777216 * byte_of(v, 3)
            == v,
{
    assert(v & 0xff == v % 256) by (bit_vector);
    assert((v >> 8) & 0xff == (v / 256) % 256) by (bit_vector);
    assert((v >> 16) & 0xff == (v / 65536) % 256) by (bit_vector);
    assert((v >> 24) & 0xff == (v / 16777216) % 256) by (bit_vector);
    assert(v % 256 + 256 * ((v / 256) % 256) + 65536 * ((v / 65536) % 256) + 16777216 * ((v
        / 16777216) % 256) == v) by (bit_vector);
}

proof fn lemma_le_u32(b0: u8, b1: u8, b2: u8, b3: u8)
    ensures
        (b0 as u32 | (b1 as u32) << 8u32 | (b2 as u32) << 16u32 | (b3 as u32) << 24u32) == b0
            + 256 * b1 + 65536 * b2 + 16777216 * b3,
{
    assert((b0 as u32 | (b1 as u32) << 8u32 | (b2 as u32) << 16u32 | (b3 as u32) << 24u32)
        == b0 + 256 * b1 + 65536 * b2 + 16777216 * b3) by (bit_vector);
}

/// A letter's code stands for that letter again.
proof fn lemma_letter_code(l: Option<char>)
    ensures
        is_letter_code(letter_code(l)),
        code_letter(letter_code(l)) == l,
{
    if let Some(c) = l {
        lemma_char_scalar(c);
    }
}

/// A `char`'s scalar value is a scalar value.
proof fn lemma_char_scalar(c: char)
    ensures
        is_scalar(c as u32),
        (c as u32) as char == c,
{
}

/// Appends the byte form of `c`.
fn push_cell_bytes(out: &mut Vec<u8>, c: &Cell)
    ensures
        final(out)@ == old(out)@ + cell_bytes(*c),
{
    let v: u32 = match c.letter {
        Some(ch) => ch as u32,
        None => NO_LETTER,
    };
    proof {
        lemma_u32_bytes(v);
    }
    out.push((v & 0xff) as u8);
    out.push(((v >> 8) & 0xff) as u8);
    out.push(((v >> 16) & 0xff) as u8);
    out.push(((v >> 24) & 0xff) as u8);
    out.push(c.style.bg[0]);
    out.push(c.style.bg[1]);
    out.push(c.style.bg[2]);
    out.push(c.style.fg[0]);
    out.push(c.style.fg[1]);
    out.push(c.style.fg[2]);
    out.push(c.style.secondary_color[0]);
    out.push(c.style.secondary_color[1]);
    out.push(c.style.secondary_color[2]);
    out.push(c.style.flags);
    out.push(0);
    out.push(0);
    assert(out@ =~= old(out)@ + cell_bytes(*c));
}

/// The cell that the cell-sized chunk of `x` at `at` holds.
fn read_chunk(x: &[u8], at: usize) -> (r: Cell)
    requires
        at + 16 <= x@.len(),
        valid_chunk(x@, at as int),
    ensures
        r == chunk_cell(x@, at as int),
{
    let v: u32 = x[at] as u32 | (x[at + 1] as u32) << 8u32 | (x[at + 2] as u32) << 16u32
        | (x[at + 3] as u32) << 24u32;
    proof {
        lemma_le_u32(x@[at as int], x@[at + 1], x@[at + 2], x@[at + 3]);
    }
    let letter = if v == NO_LETTER {
        None
    } else {
        char_from_u32(v)
    };
    Cell {
        style: Style {
            bg: [x[at + 4], x[at + 5], x[at + 6]],
            fg: [x[at + 7], x[at + 8], x[at + 9]],
            secondary_color: [x[at + 10], x[at + 11], x[at + 12]],
            flags: x[at + 13],
        },
        letter,
    }
}

impl Cell {
    /// The byte form of `x`: `CELL_BYTES` bytes per cell, in order.
    pub fn store(x: &[Cell]) -> (r: Vec<u8>)
        ensures
            r@ == stored(x@),
    {
        let mut out: Vec<u8> = Vec::new();
        let mut i: usize = 0;
        while i < x.len()
            invariant
                i <= x@.len(),
                out@ == stored(x@.take(i as int)),
            decreases x@.len() - i,
        {
            let ghost before = out@;
            push_cell_bytes(&mut out, &x[i]);
            proof {
                let t = x@.take(i as int);
                let t1 = x@.take(i + 1);
                assert forall|n: int| 0 <= n < 16 * t1.len() implies #[trigger] out@[n]
                    == cell_bytes(t1[n / 16])[n % 16] by {
                    if n < 16 * t.len() {
                        assert(before[n] == cell_bytes(t[n / 16])[n % 16]);
                    } else {
                        assert(n / 16 == i);
                    }
                }
                assert(out@ =~= stored(t1));
            }
            i = i + 1;
        }
        assert(x@.take(x@.len() as int) =~= x@);
        out
    }

    /// The cells that the whole `CELL_BYTES`-byte chunks of `x` hold, in
    /// order; bytes past the last whole chunk are not read. Each chunk must
    /// be the byte form of a cell (its letter code stands for a letter or
    /// for none).
    pub fn load(x: &[u8]) -> (r: Vec<Cell>)
        requires
            loadable(x@),
        ensures
            r@ == loaded(x@),
    {
        let len = x.len();
        let n = len / 16;
        let mut out: Vec<Cell> = Vec::new();
        let mut i: usize = 0;
        while i < n
            invariant
                len == x@.len(),
                n == len / 16,
                i <= n,
                loadable(x@),
                out@.len() == i,
                forall|j: int| 0 <= j < i ==> #[trigger] out@[j] == chunk_cell(x@, 16 * j),
            decreases n - i,
        {
            assert(valid_chunk(x@, 16 * (i as int)));
            assert(i * 16 + 16 <= len) by (nonlinear_arith)
                requires
                    i < n,
                    n == len / 16,
            ;
            let c = read_chunk(x, i * 16);
            out.push(c);
            i = i + 1;
        }
        assert(out@ =~= loaded(x@));
        out
    }
}

/// The byte form of a cell reads back as that cell.
proof fn lemma_cell_bytes_read_back(c: Cell)
    ensures
        valid_chunk(cell_bytes(c), 0),
        chunk_cell(cell_bytes(c), 0) == c,
{
    let v = letter_code(c.letter);
    lemma_u32_bytes(v);
    lemma_letter_code(c.letter);
    let b = cell_bytes(c);
    assert(le_u32(b, 0) == v);
    let d = chunk_cell(b, 0);
    assert(d.style.bg =~= c.style.bg);
    assert(d.style.fg =~= c.style.fg);
    assert(d.style.secondary_color =~= c.style.secondary_color);
}

/// The `i`th chunk of the byte form of `cells` reads back as `cells[i]`.
proof fn lemma_stored_chunk(cells: Seq<Cell>, i: int)
    requires
        0 <= i < cells.len(),
    ensures
        valid_chunk(stored(cells), 16 * i),
        chunk_cell(stored(cells), 16 * i) == cells[i],
{
    let b = stored(cells);
    let cb = cell_bytes(cells[i]);
    lemma_cell_bytes_read_back(cells[i]);
    assert forall|k: int| 0 <= k < 16 implies b[16 * i + k] == cb[k] by {
        assert((16 * i + k) / 16 == i);
        assert((16 * i + k) % 16 == k);
    }
    assert(le_u32(b, 16 * i) == le_u32(cb, 0));
    let d = chunk_cell(b, 16 * i);
    let e = chunk_cell(cb, 0);
    assert(d.style.bg =~= e.style.bg);
    assert(d.style.fg =~= e.style.fg);
    assert(d.style.secondary_color =~= e.style.secondary_color);
}

/// Where each part of the `i`th cell sits in the byte form: its letter code
/// as a little-endian `u32` in bytes 0 to 3, background, foreground and
/// secondary colour in bytes 4 to 12, flags in byte 13, zeros in 14 and 15.
pub proof fn lemma_stored_layout(cells: Seq<Cell>, i: int)
    requires
        0 <= i < cells.len(),
    ensures
        ({
            let b = stored(cells);
            let c = cells[i];
            let at = 16 * i;
            &&& b.len() == 16 * cells.len()
            &&& le_u32(b, at) == letter_code(c.letter)
            &&& b[at + 4] == c.style.bg[0] && b[at + 5] == c.style.bg[1] && b[at + 6]
                == c.style.bg[2]
            &&& b[at + 7] == c.style.fg[0] && b[at + 8] == c.style.fg[1] && b[at + 9]
                == c.style.fg[2]
            &&& b[at + 10] == c.style.secondary_color[0] && b[at + 11]
                == c.style.secondary_color[1] && b[at + 12] == c.style.secondary_color[2]
            &&& b[at + 13] == c.style.flags
            &&& b[at + 14] == 0 && b[at + 15] == 0
        }),
{
    let b = stored(cells);
    let cb = cell_bytes(cells[i]);
    assert forall|k: int| 0 <= k < 16 implies b[16 * i + k] == cb[k] by {
        assert((16 * i + k) / 16 == i);
        assert((16 * i + k) % 16 == k);
    }
    lemma_u32_bytes(letter_code(cells[i].letter));
    assert(b[16 * i] == cb[0] && b[16 * i + 1] == cb[1] && b[16 * i + 2] == cb[2] && b[16 * i + 3]
        == cb[3]);
}

/// Loading what `store` wrote gives back the cells that were stored.
pub proof fn lemma_load_store(cells: Seq<Cell>)
    ensures
        loadable(stored(cells)),
        loaded(stored(cells)) == cells,
{
    let b = stored(cells);
    assert(b.len() / 16 == cells.len());
    assert forall|i: int| 0 <= i < b.len() / 16 implies #[trigger] valid_chunk(b, 16 * i) by {
        lemma_stored_chunk(cells, i);
    }
    assert forall|i: int| 0 <= i < cells.len() implies #[trigger] loaded(b)[i] == cells[i] by {
        lemma_stored_chunk(cells, i);
    }
    assert(loaded(b) =~= cells);
}

/// A scalar value cast to `char` and back is itself.
proof fn lemma_scalar_char(v: u32)
    requires
        is_scalar(v),
    ensures
        (v as char) as u32 == v,
{
}

/// The bytes of a little-endian `u32` are the bytes it was made from.
proof fn lemma_le_u32_bytes(b0: u8, b1: u8, b2: u8, b3: u8)
    ensures
        ({
            let v = (b0 + 256 * b1 + 65536 * b2 + 16777216 * b3) as u32;
            &&& v as int == b0 + 256 * b1 + 65536 * b2 + 16777216 * b3
            &&& byte_of(v, 0) == b0
            &&& byte_of(v, 1) == b1
            &&& byte_of(v, 2) == b2
            &&& byte_of(v, 3) == b3
        }),
{
    let w: u32 = b0 as u32 | (b1 as u32) << 8u32 | (b2 as u32) << 16u32 | (b3 as u32) << 24u32;
    lemma_le_u32(b0, b1, b2, b3);
    lemma_u32_bytes(w);
    assert(w & 0xff == b0 as u32) by (bit_vector)
        requires
            w == b0 as u32 | (b1 as u32) << 8u32 | (b2 as u32) << 16u32 | (b3 as u32) << 24u32,
    ;
    assert((w >> 8) & 0xff == b1 as u32) by (bit_vector)
        requires
            w == b0 as u32 | (b1 as u32) << 8u32 | (b2 as u32) << 16u32 | (b3 as u32) << 24u32,
    ;
    assert((w >> 16) & 0xff == b2 as u32) by (bit_vector)
        requires
            w == b0 as u32 | (b1 as u32) << 8u32 | (b2 as u32) << 16u32 | (b3 as u32) << 24u32,
    ;
    assert((w >> 24) & 0xff == b3 as u32) by (bit_vector)
        requires
            w == b0 as u32 | (b1 as u32) << 8u32 | (b2 as u32) << 16u32 | (b3 as u32) << 24u32,
    ;
}

/// Whether the two padding bytes of the chunk at `at` are zero.
pub open spec fn zero_padding(b: Seq<u8>, at: int) -> bool {
    b[at + 14] == 0 && b[at + 15] == 0
}

/// A chunk with zero padding is the byte form of the cell it holds.
proof fn lemma_chunk_bytes(b: Seq<u8>, at: int)
    requires
        0 <= at,
        at + 16 <= b.len(),
        valid_chunk(b, at),
        b[at + 14] == 0,
        b[at + 15] == 0,
    ensures
        forall|k: int| 0 <= k < 16 ==> #[trigger] cell_bytes(chunk_cell(b, at))[k] == b[at + k],
{
    lemma_le_u32_bytes(b[at], b[at + 1], b[at + 2], b[at + 3]);
    let v = le_u32(b, at) as u32;
    if v != NO_LETTER {
        lemma_scalar_char(v);
    }
    assert(letter_code(code_letter(v)) == v);
}

/// Storing what `load` read gives back the bytes that were loaded, where
/// they are whole chunks, each the byte form of a cell with zero padding.
pub proof fn lemma_store_load(b: Seq<u8>)
    requires
        b.len() % 16 == 0,
        loadable(b),
        forall|i: int| 0 <= i < b.len() / 16 ==> #[trigger] zero_padding(b, 16 * i),
    ensures
        stored(loaded(b)) == b,
{
    let cells = loaded(b);
    let s = stored(cells);
    assert(s.len() == b.len());
    assert forall|n: int| 0 <= n < b.len() implies #[trigger] s[n] == b[n] by {
        let i = n / 16;
        let k = n % 16;
        assert(16 * i + k == n);
        assert(0 <= i < b.len() / 16);
        assert(valid_chunk(b, 16 * i));
        assert(zero_padding(b, 16 * i));
        lemma_chunk_bytes(b, 16 * i);
        assert(cell_bytes(chunk_cell(b, 16 * i))[k] == b[16 * i + k]);
    }
    assert(s =~= b);
}

} // verus!
