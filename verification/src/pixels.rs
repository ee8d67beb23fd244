use vstd::prelude::*;

verus! {

/// One channel of `t` covered by `c` with coverage `m` (0: only `t`,
/// 255: only `c`), rounded down.
pub open spec fn mix(m: u8, c: u8, t: u8) -> u8 {
    ((c * m + (255 - m) * t) / 255) as u8
}

proof fn lemma_mix_bounds(m: u8, c: u8, t: u8)
    ensures
        0 <= c * m + (255 - m) * t <= 255 * 255,
        c * m + (255 - m) * t <= 255 * (if c < t { t } else { c }),
        c * m + (255 - m) * t >= 255 * (if c < t { c } else { t }),
{
    assert(0 <= c * m + (255 - m) * t <= 255 * 255) by (nonlinear_arith)
        requires
            m <= 255,
            c <= 255,
            t <= 255,
    ;
    assert(c * m + (255 - m) * t <= 255 * (if c < t { t } else { c })) by (nonlinear_arith)
        requires
            m <= 255,
            c <= 255,
            t <= 255,
    ;
    assert(c * m + (255 - m) * t >= 255 * (if c < t { c } else { t })) by (nonlinear_arith)
        requires
            m <= 255,
            c <= 255,
            t <= 255,
    ;
}

/// One channel of `t` covered by `c` with coverage `m`.
pub fn b(m: u8, c: u8, t: u8) -> (r: u8)
    ensures
        r as int == (c * m + (255 - m) * t) / 255,
        r == mix(m, c, t),
{
    proof {
        lemma_mix_bounds(m, c, t);
    }
    ((c as u16 * m as u16 + (255 - m as u16) * t as u16) / 255) as u8
}

/// `to` covered by `c` under a subpixel mask `m` whose channels come in
/// the reverse order (blue, green, red).
pub open spec fn masked(m: [u8; 3], c: [u8; 3], to: [u8; 3]) -> [u8; 3] {
    [mix(m[2], c[0], to[0]), mix(m[1], c[1], to[1]), mix(m[0], c[2], to[2])]
}

/// Covers the pixel `to` with the colour `c` under the subpixel mask `m`
/// (blue, green, red).
pub fn blend(m: [u8; 3], c: [u8; 3], to: &mut [u8; 3])
    ensures
        *final(to) == masked(m, c, *old(to)),
{
    *to = [b(m[2], c[0], to[0]), b(m[1], c[1], to[1]), b(m[0], c[2], to[2])];
}

/// The mix is the weighted average of the two values, rounded down: 255
/// times it is at most `c * m + (255 - m) * t` and less than 255 more.
pub proof fn lemma_mix_rounds_down(m: u8, c: u8, t: u8)
    ensures
        255 * mix(m, c, t) <= c * m + (255 - m) * t < 255 * mix(m, c, t) + 255,
{
    lemma_mix_bounds(m, c, t);
}

/// Each target channel takes its coverage from the mirrored mask channel:
/// a mask that covers only in its last channel colours only the first
/// target channel, and one that covers only in its first channel colours
/// only the last.
pub proof fn lemma_masked_channel_order(c: [u8; 3], to: [u8; 3], a: u8)
    ensures
        masked([0, 0, 255], c, to) =~= [c[0], to[1], to[2]],
        masked([255, 0, 0], c, to) =~= [to[0], to[1], c[2]],
        masked([0, 255, 0], c, to) =~= [to[0], c[1], to[2]],
        glyph_over([0, 0, 255, a], c, to) =~= [c[0], to[1], to[2]],
        glyph_over([255, 0, 0, a], c, to) =~= [to[0], to[1], c[2]],
        glyph_over([0, 255, 0, a], c, to) =~= [to[0], c[1], to[2]],
{
    lemma_mix_full(c[0], to[0]);
    lemma_mix_full(c[1], to[1]);
    lemma_mix_full(c[2], to[2]);
    lemma_mix_none(c[0], to[0]);
    lemma_mix_none(c[1], to[1]);
    lemma_mix_none(c[2], to[2]);
}

/// Full coverage gives the covering colour.
pub proof fn lemma_mix_full(c: u8, t: u8)
    ensures
        mix(255, c, t) == c,
{
}

/// No coverage keeps the colour underneath.
pub proof fn lemma_mix_none(c: u8, t: u8)
    ensures
        mix(0, c, t) == t,
{
}

/// A channel covered by its own value stays as it is, whatever the coverage.
pub proof fn lemma_mix_same(m: u8, c: u8)
    ensures
        mix(m, c, c) == c,
{
    assert(c * m + (255 - m) * c == 255 * c) by (nonlinear_arith);
}

/// The result lies between the covering value and the value underneath.
pub proof fn lemma_mix_between(m: u8, c: u8, t: u8)
    ensures
        (if c < t { c } else { t }) <= mix(m, c, t) <= (if c < t { t } else { c }),
{
    lemma_mix_bounds(m, c, t);
}

/// A `width` by `height` image whose pixels have `N` channels, stored row
/// after row.
pub struct Raster<const N: usize> {
    width: u32,
    height: u32,
    pixels: Vec<[u8; N]>,
}

/// The position of pixel `(x, y)` in the row-after-row order of an image
/// `w` pixels wide.
pub open spec fn offset(w: int, x: int, y: int) -> int {
    y * w + x
}

/// Pixels inside an image sit at distinct places inside its storage.
proof fn lemma_offset(w: int, h: int, x: int, y: int)
    requires
        0 <= x < w,
        0 <= y < h,
    ensures
        0 <= offset(w, x, y) < w * h,
        offset(w, x, y) / w == y,
        offset(w, x, y) % w == x,
{
    assert(0 <= y * w + x < w * h) by (nonlinear_arith)
        requires
            0 <= x < w,
            0 <= y < h,
    ;
    assert((y * w + x) / w == y && (y * w + x) % w == x) by (nonlinear_arith)
        requires
            0 <= x < w,
            0 <= y,
    ;
}

proof fn lemma_offset_injective(w: int, x1: int, y1: int, x2: int, y2: int)
    requires
        0 <= x1 < w,
        0 <= x2 < w,
        0 <= y1,
        0 <= y2,
        offset(w, x1, y1) == offset(w, x2, y2),
    ensures
        x1 == x2,
        y1 == y2,
{
    lemma_offset(w, y1 + 1, x1, y1);
    lemma_offset(w, y2 + 1, x2, y2);
}

impl<const N: usize> Raster<N> {
    /// The image holds one pixel for each position.
    pub closed spec fn wf(self) -> bool {
        self.pixels@.len() == self.width as int * self.height as int
    }

    /// The width in pixels.
    pub closed spec fn w(self) -> int {
        self.width as int
    }

    /// The height in pixels.
    pub closed spec fn h(self) -> int {
        self.height as int
    }

    /// The pixel at column `x` of row `y`.
    pub closed spec fn px(self, x: int, y: int) -> [u8; N] {
        self.pixels@[offset(self.width as int, x, y)]
    }

    /// Whether `(x, y)` lies inside the image.
    pub open spec fn inside(self, x: int, y: int) -> bool {
        0 <= x < self.w() && 0 <= y < self.h()
    }

    /// An image of the given size with every pixel `px`.
    pub fn filled(width: u32, height: u32, px: [u8; N]) -> (r: Self)
        requires
            width as int * height as int <= usize::MAX,
        ensures
            r.wf(),
            r.w() == width,
            r.h() == height,
            forall|x: int, y: int| r.inside(x, y) ==> #[trigger] r.px(x, y) == px,
    {
        let n = width as usize * height as usize;
        let mut pixels: Vec<[u8; N]> = Vec::new();
        let mut i: usize = 0;
        while i < n
            invariant
                i <= n,
                pixels@.len() == i,
                forall|j: int| 0 <= j < i ==> #[trigger] pixels@[j] == px,
            decreases n - i,
        {
            pixels.push(px);
            i = i + 1;
        }
        let r = Raster { width, height, pixels };
        proof {
            assert forall|x: int, y: int| r.inside(x, y) implies #[trigger] r.px(x, y) == px by {
                lemma_offset(width as int, height as int, x, y);
            }
        }
        r
    }

    /// The image of the given size whose pixels, row after row, are
    /// `pixels`; `None` where there are not exactly `width * height` of them.
    pub fn from_pixels(width: u32, height: u32, pixels: Vec<[u8; N]>) -> (r: Option<Self>)
        ensures
            r is Some <==> pixels@.len() == width as int * height as int,
            r matches Some(img) ==> img.wf() && img.w() == width && img.h() == height && forall|x: int, y: int|
                img.inside(x, y) ==> #[trigger] img.px(x, y) == pixels@[offset(
                    width as int,
                    x,
                    y,
                )],
    {
        assert(width as int * height as int <= u64::MAX) by (nonlinear_arith)
            requires
                width <= u32::MAX,
                height <= u32::MAX,
        ;
        if pixels.len() as u64 == width as u64 * height as u64 {
            Some(Raster { width, height, pixels })
        } else {
            None
        }
    }

    /// The width in pixels.
    pub fn width(&self) -> (r: u32)
        ensures
            r == self.w(),
    {
        self.width
    }

    /// The height in pixels.
    pub fn height(&self) -> (r: u32)
        ensures
            r == self.h(),
    {
        self.height
    }

    /// Where the pixel at column `x` of row `y` is stored.
    fn index(&self, x: u32, y: u32) -> (r: usize)
        requires
            self.wf(),
            self.inside(x as int, y as int),
        ensures
            r == offset(self.w(), x as int, y as int),
            r < self.pixels@.len(),
    {
        let n = self.pixels.len();
        proof {
            lemma_offset(self.width as int, self.height as int, x as int, y as int);
            assert(y as int * self.width as int <= offset(self.w(), x as int, y as int));
        }
        y as usize * self.width as usize + x as usize
    }

    /// The pixel at column `x` of row `y`.
    pub fn pixel(&self, x: u32, y: u32) -> (r: [u8; N])
        requires
            self.wf(),
            self.inside(x as int, y as int),
        ensures
            r == self.px(x as int, y as int),
    {
        let k = self.index(x, y);
        self.pixels[k]
    }

    /// Sets the pixel at column `x` of row `y` to `px` and leaves the others.
    pub fn set_pixel(&mut self, x: u32, y: u32, px: [u8; N])
        requires
            old(self).wf(),
            old(self).inside(x as int, y as int),
        ensures
            final(self).wf(),
            final(self).w() == old(self).w(),
            final(self).h() == old(self).h(),
            final(self).px(x as int, y as int) == px,
            forall|i: int, j: int|
                final(self).inside(i, j) && !(i == x && j == y) ==> #[trigger] final(self).px(i, j)
                    == old(self).px(i, j),
    {
        let k = self.index(x, y);
        self.pixels.set(k, px);
        proof {
            assert forall|i: int, j: int|
                self.inside(i, j) && !(i == x && j == y) implies #[trigger] self.px(i, j)
                == old(self).px(i, j) by {
                lemma_offset(self.width as int, self.height as int, i, j);
                if offset(self.width as int, i, j) == k {
                    lemma_offset_injective(self.width as int, i, j, x as int, y as int);
                }
            }
        }
    }

    /// The pixels row after row.
    pub fn into_pixels(self) -> (r: Vec<[u8; N]>)
        requires
            self.wf(),
        ensures
            r@.len() == self.w() * self.h(),
            forall|x: int, y: int|
                self.inside(x, y) ==> r@[offset(self.w(), x, y)] == #[trigger] self.px(x, y),
    {
        self.pixels
    }
}

/// The last column that `fill_in` paints: the one `w` past `x1`, or the
/// image's last column where that lies outside.
pub open spec fn fill_last_x(iw: int, x1: int, w: int) -> int {
    if x1 + w >= iw {
        iw - 1
    } else {
        x1 + w
    }
}

/// Whether `fill_in` paints `(x, y)` on an `iw` by `ih` image: columns
/// `x1` through `fill_last_x`, rows `y1` up to (not including) `y1 + h`
/// and the bottom edge, and row `y1` in any case.
pub open spec fn in_fill(iw: int, ih: int, x1: int, y1: int, w: int, h: int, x: int, y: int) -> bool {
    &&& x1 < iw
    &&& x1 <= x <= fill_last_x(iw, x1, w)
    &&& y1 <= y
    &&& (y == y1 || (y < y1 + h && y < ih))
}

/// The box that `fill_in` paints: columns `x1` through `x1 + w` (`w + 1`
/// of them, for every `w`), cut at the right edge, and rows `y1` through
/// `y1 + h - 1`, cut at the bottom edge, with row `y1` in any case; nothing
/// where `x1` lies past the right edge.
pub proof fn lemma_fill_box(iw: int, ih: int, x1: int, y1: int, w: int, h: int, x: int, y: int)
    requires
        0 <= x1,
        0 <= w,
        0 <= y1,
        0 <= h,
    ensures
        x1 + w < iw ==> fill_last_x(iw, x1, w) == x1 + w,
        x1 < iw <= x1 + w ==> fill_last_x(iw, x1, w) == iw - 1,
        x1 < iw ==> fill_last_x(iw, x1, w) - x1 + 1 == if x1 + w < iw { w + 1 } else { iw - x1 },
        in_fill(iw, ih, x1, y1, w, h, x, y) <==> (x1 < iw && x1 <= x && x <= x1 + w && x < iw
            && y1 <= y && (y == y1 || (y < y1 + h && y < ih))),
{
}

/// Paints columns `from` through `to` of row `y` with `with`.
fn fill_row(image: &mut Raster<3>, y: u32, from: u32, to: u32, with: [u8; 3])
    requires
        old(image).wf(),
        from <= to,
        (to as int) < old(image).w(),
        (y as int) < old(image).h(),
    ensures
        final(image).wf(),
        final(image).w() == old(image).w(),
        final(image).h() == old(image).h(),
        forall|i: int, j: int|
            final(image).inside(i, j) ==> #[trigger] final(image).px(i, j) == if j == y && from <= i
                <= to {
                with
            } else {
                old(image).px(i, j)
            },
{
    let mut x = from;
    while x <= to
        invariant
            image.wf(),
            image.w() == old(image).w(),
            image.h() == old(image).h(),
            from <= x <= to + 1,
            (to as int) < image.w(),
            (y as int) < image.h(),
            forall|i: int, j: int|
                image.inside(i, j) ==> #[trigger] image.px(i, j) == if j == y && from <= i < x {
                    with
                } else {
                    old(image).px(i, j)
                },
        decreases to + 1 - x,
    {
        image.set_pixel(x, y, with);
        x = x + 1;
    }
}

/// Paints a box of `image` with `with`: from `(x1, y1)`, `w + 1` columns
/// (fewer where the right edge comes first) and `h` rows (fewer at the
/// bottom edge; row `y1` in any case). Nothing is painted where `x1` lies
/// past the right edge.
pub fn fill_in(image: &mut Raster<3>, at: (u32, u32), size: (u32, u32), with: [u8; 3])
    requires
        old(image).wf(),
        at.0 + size.0 <= u32::MAX,
        at.1 + size.1 <= u32::MAX,
        (at.0 as int) < old(image).w() ==> (at.1 as int) < old(image).h(),
    ensures
        final(image).wf(),
        final(image).w() == old(image).w(),
        final(image).h() == old(image).h(),
        forall|i: int, j: int|
            final(image).inside(i, j) ==> #[trigger] final(image).px(i, j) == if in_fill(
                old(image).w(),
                old(image).h(),
                at.0 as int,
                at.1 as int,
                size.0 as int,
                size.1 as int,
                i,
                j,
            ) {
                with
            } else {
                old(image).px(i, j)
            },
{
    let (x1, y1) = at;
    let (w, h) = size;
    let iw = image.width();
    let ih = image.height();
    if x1 >= iw {
        return;
    }
    let last = if x1 + w >= iw {
        iw - 1
    } else {
        x1 + w
    };
    let end = if y1 + h < ih {
        y1 + h
    } else {
        ih
    };
    fill_row(image, y1, x1, last, with);
    let mut y = y1 + 1;
    while y < end
        invariant
            image.wf(),
            image.w() == old(image).w(),
            image.h() == old(image).h(),
            iw == image.w(),
            ih == image.h(),
            x1 <= last,
            (last as int) < iw,
            last == fill_last_x(iw as int, x1 as int, w as int),
            x1 < iw,
            y1 < ih,
            end <= ih,
            end as int == (if y1 + h < ih { y1 + h } else { ih as int }),
            y1 + 1 <= y,
            y <= end || y == y1 + 1,
            forall|i: int, j: int|
                image.inside(i, j) ==> #[trigger] image.px(i, j) == if x1 <= i <= last && (j == y1
                    || (y1 < j < y)) {
                    with
                } else {
                    old(image).px(i, j)
                },
        decreases end - y,
    {
        fill_row(image, y, x1, last, with);
        y = y + 1;
    }
}

/// A target pixel `to` covered by `color` under the subpixel mask in the
/// first three channels of `m` (red, green, blue of the mask cover the
/// blue, green, red of the colour).
pub open spec fn glyph_over(m: [u8; 4], color: [u8; 3], to: [u8; 3]) -> [u8; 3] {
    [mix(m[2], color[0], to[0]), mix(m[1], color[1], to[1]), mix(m[0], color[2], to[2])]
}

/// A glyph pixel with an empty mask leaves the target pixel as it is.
pub proof fn lemma_glyph_over_clear(alpha: u8, color: [u8; 3], to: [u8; 3])
    ensures
        glyph_over([0, 0, 0, alpha], color, to) == to,
{
    let g = glyph_over([0, 0, 0, alpha], color, to);
    lemma_mix_none(color[0], to[0]);
    lemma_mix_none(color[1], to[1]);
    lemma_mix_none(color[2], to[2]);
    assert(g[0] == to[0] && g[1] == to[1] && g[2] == to[2]);
    assert(g =~= to);
}

/// A glyph pixel with a full mask paints the colour.
pub proof fn lemma_glyph_over_full(alpha: u8, color: [u8; 3], to: [u8; 3])
    ensures
        glyph_over([255, 255, 255, alpha], color, to) == color,
{
    let g = glyph_over([255, 255, 255, alpha], color, to);
    lemma_mix_full(color[0], to[0]);
    lemma_mix_full(color[1], to[1]);
    lemma_mix_full(color[2], to[2]);
    assert(g[0] == color[0] && g[1] == color[1] && g[2] == color[2]);
    assert(g =~= color);
}

/// Whether the target pixel `(i, j)` lies under a `ww` by `wh` glyph placed
/// with its corner at `(x, y)`.
pub open spec fn under(x: int, y: int, ww: int, wh: int, i: int, j: int) -> bool {
    x <= i < x + ww && y <= j < y + wh
}

/// A target pixel lies under the glyph exactly when its position relative
/// to the glyph's corner lies inside the glyph.
pub proof fn lemma_under(x: int, y: int, ww: int, wh: int, i: int, j: int)
    ensures
        under(x, y, ww, wh, i, j) <==> (0 <= i - x < ww && 0 <= j - y < wh),
{
}

/// Covers the part of row `y + yy` of `i` that lies under row `yy` of the
/// glyph `with` placed at `(x, y)`.
fn into_row(i: &mut Raster<3>, with: &Raster<4>, x: u32, y: u32, yy: u32, color: [u8; 3])
    requires
        old(i).wf(),
        with.wf(),
        (yy as int) < with.h(),
        (y as int) + (yy as int) < old(i).h(),
    ensures
        final(i).wf(),
        final(i).w() == old(i).w(),
        final(i).h() == old(i).h(),
        forall|p: int, q: int|
            final(i).inside(p, q) ==> #[trigger] final(i).px(p, q) == if q == y + yy && x <= p < x
                + with.w() {
                glyph_over(with.px(p - x, yy as int), color, old(i).px(p, q))
            } else {
                old(i).px(p, q)
            },
{
    let iw = i.width();
    let ww = with.width();
    let ty = y + yy;
    if x >= iw {
        return;
    }
    let room = iw - x;
    let n = if ww < room {
        ww
    } else {
        room
    };
    let mut xx: u32 = 0;
    while xx < n
        invariant
            i.wf(),
            with.wf(),
            i.w() == old(i).w(),
            i.h() == old(i).h(),
            iw == i.w(),
            ww == with.w(),
            (x as int) < iw,
            n as int == (if ww < iw - x { ww as int } else { iw - x }),
            xx <= n,
            ty == y + yy,
            (ty as int) < i.h(),
            (yy as int) < with.h(),
            forall|p: int, q: int|
                i.inside(p, q) ==> #[trigger] i.px(p, q) == if q == ty && x <= p < x + xx {
                    glyph_over(with.px(p - x, yy as int), color, old(i).px(p, q))
                } else {
                    old(i).px(p, q)
                },
        decreases n - xx,
    {
        let m = with.pixel(xx, yy);
        let mut to = i.pixel(x + xx, ty);
        blend([m[0], m[1], m[2]], color, &mut to);
        i.set_pixel(x + xx, ty, to);
        xx = xx + 1;
    }
}

/// Covers `i` with `color` under the subpixel glyph mask `with` placed with
/// its corner at `at`; the alpha channel of the mask is not read. Target
/// pixels outside `i` are skipped, and pixels not under the glyph are left.
pub fn into(i: &mut Raster<3>, with: &Raster<4>, at: (u32, u32), color: [u8; 3])
    requires
        old(i).wf(),
        with.wf(),
    ensures
        final(i).wf(),
        final(i).w() == old(i).w(),
        final(i).h() == old(i).h(),
        forall|p: int, q: int|
            final(i).inside(p, q) ==> #[trigger] final(i).px(p, q) == if under(
                at.0 as int,
                at.1 as int,
                with.w(),
                with.h(),
                p,
                q,
            ) {
                glyph_over(with.px(p - at.0, q - at.1), color, old(i).px(p, q))
            } else {
                old(i).px(p, q)
            },
{
    let (x, y) = at;
    let ih = i.height();
    let wh = with.height();
    if y >= ih {
        return;
    }
    let room = ih - y;
    let n = if wh < room {
        wh
    } else {
        room
    };
    let mut yy: u32 = 0;
    while yy < n
        invariant
            i.wf(),
            with.wf(),
            i.w() == old(i).w(),
            i.h() == old(i).h(),
            ih == i.h(),
            wh == with.h(),
            (y as int) < ih,
            n as int == (if wh < ih - y { wh as int } else { ih - y }),
            yy <= n,
            forall|p: int, q: int|
                i.inside(p, q) ==> #[trigger] i.px(p, q) == if under(
                    x as int,
                    y as int,
                    with.w(),
                    yy as int,
                    p,
                    q,
                ) {
                    glyph_over(with.px(p - x, q - y), color, old(i).px(p, q))
                } else {
                    old(i).px(p, q)
                },
        decreases n - yy,
    {
        into_row(i, with, x, y, yy, color);
        yy = yy + 1;
    }
}

/// The coverage that the writes `(x, y, v)` add up to at `(x, y)`.
pub open spec fn coverage_at(writes: Seq<(u32, u32, u8)>, x: int, y: int) -> int
    decreases writes.len(),
{
    if writes.len() == 0 {
        0
    } else {
        let w = writes.last();
        coverage_at(writes.drop_last(), x, y) + (if w.0 == x && w.1 == y {
            w.2 as int
        } else {
            0
        })
    }
}

/// Coverage adds up over writes: the writes of two lists together add the
/// sum of what each adds, and writes elsewhere add nothing.
pub proof fn lemma_coverage_sum(a: Seq<(u32, u32, u8)>, b: Seq<(u32, u32, u8)>, x: int, y: int)
    ensures
        coverage_at(a + b, x, y) == coverage_at(a, x, y) + coverage_at(b, x, y),
        (forall|k: int| 0 <= k < a.len() ==> !((#[trigger] a[k]).0 == x && a[k].1 == y))
            ==> coverage_at(a, x, y) == 0,
    decreases b.len(),
{
    lemma_coverage_none(a, x, y);
    if b.len() > 0 {
        lemma_coverage_sum(a, b.drop_last(), x, y);
        assert((a + b).drop_last() =~= a + b.drop_last());
        assert((a + b).last() == b.last());
    } else {
        assert(a + b =~= a);
    }
}

/// One write adds its coverage at its own pixel and nothing elsewhere.
pub proof fn lemma_coverage_one(p: u32, q: u32, v: u8, x: int, y: int)
    ensures
        coverage_at(seq![(p, q, v)], x, y) == if x == p && y == q {
            v as int
        } else {
            0
        },
{
    let one = seq![(p, q, v)];
    assert(one.drop_last() =~= Seq::<(u32, u32, u8)>::empty());
    assert(coverage_at(one.drop_last(), x, y) == 0);
    assert(one.last() == (p, q, v));
}

proof fn lemma_coverage_none(a: Seq<(u32, u32, u8)>, x: int, y: int)
    ensures
        (forall|k: int| 0 <= k < a.len() ==> !((#[trigger] a[k]).0 == x && a[k].1 == y))
            ==> coverage_at(a, x, y) == 0,
    decreases a.len(),
{
    if a.len() > 0 {
        lemma_coverage_none(a.drop_last(), x, y);
        if forall|k: int| 0 <= k < a.len() ==> !((#[trigger] a[k]).0 == x && a[k].1 == y) {
            assert forall|k: int| 0 <= k < a.drop_last().len() implies !((
            #[trigger] a.drop_last()[k]).0 == x && a.drop_last()[k].1 == y) by {
                assert(a.drop_last()[k] == a[k]);
            }
            assert(!(a[a.len() - 1].0 == x && a[a.len() - 1].1 == y));
        }
    }
}

/// Adds each coverage `(x, y, v)` in `writes` to the one-channel image
/// `buf`, saturating at 255.
pub fn add_coverage(buf: &mut Raster<1>, writes: &Vec<(u32, u32, u8)>)
    requires
        old(buf).wf(),
        forall|k: int|
            0 <= k < writes@.len() ==> old(buf).inside(
                (#[trigger] writes@[k]).0 as int,
                writes@[k].1 as int,
            ),
    ensures
        final(buf).wf(),
        final(buf).w() == old(buf).w(),
        final(buf).h() == old(buf).h(),
        forall|x: int, y: int|
            final(buf).inside(x, y) ==> (#[trigger] final(buf).px(x, y))[0] as int == if old(
                buf,
            ).px(x, y)[0] + coverage_at(writes@, x, y) > 255 {
                255
            } else {
                old(buf).px(x, y)[0] + coverage_at(writes@, x, y)
            },
{
    let mut k: usize = 0;
    while k < writes.len()
        invariant
            buf.wf(),
            buf.w() == old(buf).w(),
            buf.h() == old(buf).h(),
            k <= writes@.len(),
            forall|j: int|
                0 <= j < writes@.len() ==> old(buf).inside(
                    (#[trigger] writes@[j]).0 as int,
                    writes@[j].1 as int,
                ),
            forall|x: int, y: int|
                buf.inside(x, y) ==> (#[trigger] buf.px(x, y))[0] as int == if old(buf).px(x, y)[0]
                    + coverage_at(writes@.take(k as int), x, y) > 255 {
                    255
                } else {
                    old(buf).px(x, y)[0] + coverage_at(writes@.take(k as int), x, y)
                },
        decreases writes@.len() - k,
    {
        let (x, y, v) = writes[k];
        let p = buf.pixel(x, y)[0];
        buf.set_pixel(x, y, [p.saturating_add(v)]);
        proof {
            let t = writes@.take(k + 1);
            assert(t.drop_last() =~= writes@.take(k as int));
            assert forall|i: int, j: int| buf.inside(i, j) implies (#[trigger] buf.px(i, j))[0] as int
                == if old(buf).px(i, j)[0] + coverage_at(t, i, j) > 255 {
                255
            } else {
                old(buf).px(i, j)[0] + coverage_at(t, i, j)
            } by {
                assert(coverage_at(t, i, j) == coverage_at(writes@.take(k as int), i, j) + (if x == i
                    && y == j {
                    v as int
                } else {
                    0
                }));
            }
        }
        k = k + 1;
    }
    assert(writes@.take(writes@.len() as int) =~= writes@);
}

} // verus!
