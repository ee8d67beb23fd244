use dsb::cell::{Style, CELL_BYTES};
use dsb::Cell;
use std::collections::hash_map::DefaultHasher;
use std::hash::{Hash, Hasher};

fn styled(fg: [u8; 3], bg: [u8; 3], flags: u8, letter: Option<char>) -> Cell {
    Cell {
        style: Style {
            bg,
            fg,
            secondary_color: [7, 8, 9],
            flags,
        },
        letter,
    }
}

#[test]
fn default_style_is_white_on_black() {
    let s = Style::default();
    assert_eq!(s.bg, [0, 0, 0]);
    assert_eq!(s.fg, [255, 255, 255]);
    assert_eq!(s.secondary_color, [0, 0, 0]);
    assert_eq!(s.flags, 0);
}

#[test]
fn default_cell_is_empty() {
    let c = Cell::default();
    assert_eq!(c.style, Style::default());
    assert_eq!(c.letter, None);
}

#[test]
fn style_basic_and_empty() {
    let s = Style::default() | Style::BOLD;
    let a = s.basic('x');
    assert_eq!(a.style, s);
    assert_eq!(a.letter, Some('x'));
    let e = s.empty();
    assert_eq!(e.style, s);
    assert_eq!(e.letter, None);
}

#[test]
fn cell_basic_uses_default_style() {
    let c = Cell::basic('q');
    assert_eq!(c.style, Style::default());
    assert_eq!(c.letter, Some('q'));
}

#[test]
fn flag_values() {
    assert_eq!(Style::BOLD, 1);
    assert_eq!(Style::DIM, 2);
    assert_eq!(Style::ITALIC, 4);
    assert_eq!(Style::UNDERLINE, 8);
    assert_eq!(Style::STRIKETHROUGH, 16);
    assert_eq!(Style::UNDERCURL, 32);
    assert_eq!(Style::USE_SECONDARY_COLOR, 128);
}

#[test]
fn bitor_sets_flags_only() {
    let s = Style::default() | Style::BOLD | Style::ITALIC;
    assert_eq!(s.flags, 5);
    assert_eq!(s.fg, [255, 255, 255]);
    assert_eq!(s.bg, [0, 0, 0]);
    // setting a flag twice changes nothing
    assert_eq!(s | Style::BOLD, s);
}

#[test]
fn bitor_assign_sets_flags_and_foreground() {
    let mut s = Style::default() | Style::BOLD;
    s |= (Style::ITALIC, [1, 2, 3]);
    assert_eq!(s.flags, 5);
    assert_eq!(s.fg, [1, 2, 3]);
    assert_eq!(s.bg, [0, 0, 0]);
}

#[test]
fn bitand_sets_flags_and_background() {
    let s = Style::default() & (Style::UNDERLINE, [9, 8, 7]);
    assert_eq!(s.flags, 8);
    assert_eq!(s.bg, [9, 8, 7]);
    assert_eq!(s.fg, [255, 255, 255]);
    let mut t = Style::default();
    t &= (Style::UNDERLINE, [9, 8, 7]);
    assert_eq!(t, s);
}

#[test]
fn equality_reads_every_field() {
    let a = styled([1, 2, 3], [4, 5, 6], 0, Some('a'));
    assert!(a == a);
    assert!(a != styled([1, 2, 3], [4, 5, 6], 0, Some('b')));
    assert!(a != styled([1, 2, 3], [4, 5, 6], 0, None));
    assert!(a != styled([1, 2, 4], [4, 5, 6], 0, Some('a')));
    assert!(a != styled([1, 2, 3], [4, 5, 7], 0, Some('a')));
    assert!(a != styled([1, 2, 3], [4, 5, 6], 1, Some('a')));
}

fn hash_of(c: &Cell) -> u64 {
    let mut h = DefaultHasher::new();
    c.hash(&mut h);
    h.finish()
}

#[test]
fn hash_ignores_colours() {
    let a = styled([1, 2, 3], [4, 5, 6], Style::BOLD, Some('a'));
    let b = styled([9, 9, 9], [0, 0, 0], Style::BOLD, Some('a'));
    assert_eq!(hash_of(&a), hash_of(&b));
}

#[test]
fn debug_char_shows_letter_or_space() {
    assert_eq!(Cell::basic('z').debug_char(), 'z');
    assert_eq!(Cell::default().debug_char(), ' ');
}

#[test]
fn store_layout() {
    let bytes = Cell::store(&[Cell::basic('A'), styled([1, 2, 3], [4, 5, 6], 0x81, None)]);
    assert_eq!(CELL_BYTES, 16);
    assert_eq!(bytes.len(), 32);
    assert_eq!(
        &bytes[..16],
        &[65, 0, 0, 0, 0, 0, 0, 255, 255, 255, 0, 0, 0, 0, 0, 0]
    );
    assert_eq!(
        &bytes[16..],
        &[0, 0, 0x11, 0, 4, 5, 6, 1, 2, 3, 7, 8, 9, 0x81, 0, 0]
    );
}

#[test]
fn store_multibyte_letter() {
    let bytes = Cell::store(&[Cell::basic('\u{1F600}')]);
    assert_eq!(&bytes[..4], &[0x00, 0xF6, 0x01, 0x00]);
}

#[test]
fn load_store_round_trip() {
    let cells = vec![
        Cell::basic('A'),
        styled([1, 2, 3], [4, 5, 6], Style::ITALIC | Style::DIM, None),
        styled([200, 100, 0], [0, 0, 0], 0xff, Some('\u{10FFFF}')),
        styled([0, 0, 0], [0, 0, 0], 0, Some('\u{D7FF}')),
    ];
    let bytes = Cell::store(&cells);
    assert!(Cell::load(&bytes) == cells);
}

#[test]
fn store_load_round_trip() {
    let bytes: Vec<u8> = vec![
        0x61, 0, 0, 0, 10, 20, 30, 40, 50, 60, 70, 80, 90, 3, 0, 0, //
        0, 0, 0x11, 0, 1, 1, 1, 2, 2, 2, 3, 3, 3, 0, 0, 0,
    ];
    let cells = Cell::load(&bytes);
    assert_eq!(cells.len(), 2);
    assert_eq!(cells[0].letter, Some('a'));
    assert_eq!(cells[0].style.bg, [10, 20, 30]);
    assert_eq!(cells[0].style.fg, [40, 50, 60]);
    assert_eq!(cells[0].style.secondary_color, [70, 80, 90]);
    assert_eq!(cells[0].style.flags, 3);
    assert_eq!(cells[1].letter, None);
    assert_eq!(Cell::store(&cells), bytes);
}

#[test]
fn load_skips_partial_chunk() {
    let mut bytes = Cell::store(&[Cell::basic('b')]);
    bytes.extend_from_slice(&[1, 2, 3]);
    assert!(Cell::load(&bytes) == vec![Cell::basic('b')]);
    assert!(Cell::load(&[]).is_empty());
}

#[test]
fn face_by_flags() {
    let s = Style::default();
    assert_eq!(s.face(), 0);
    assert_eq!((s | Style::ITALIC).face(), 1);
    assert_eq!((s | Style::BOLD).face(), 2);
    assert_eq!((s | Style::BOLD | Style::ITALIC).face(), 3);
    assert_eq!((s | Style::DIM | Style::UNDERLINE).face(), 0);
}

#[test]
fn colors_dim_and_secondary() {
    let s = Style {
        bg: [0, 0, 0],
        fg: [255, 101, 0],
        secondary_color: [1, 2, 3],
        flags: 0,
    };
    assert_eq!(s.colors(), ([255, 101, 0], [255, 101, 0]));
    assert_eq!((s | Style::DIM).colors(), ([127, 50, 0], [255, 101, 0]));
    assert_eq!(
        (s | Style::DIM | Style::USE_SECONDARY_COLOR).colors(),
        ([127, 50, 0], [1, 2, 3])
    );
    assert_eq!((s | Style::USE_SECONDARY_COLOR).colors(), ([255, 101, 0], [1, 2, 3]));
}

#[test]
fn decoration_flags() {
    let s = Style::default();
    assert!(!s.underlined() && !s.undercurled() && !s.italic());
    assert!((s | Style::UNDERLINE).underlined());
    assert!((s | Style::UNDERCURL).undercurled());
    assert!((s | Style::ITALIC).italic());
    assert!(!(s | Style::UNDERCURL).underlined());
}
