use vstd::prelude::*;

verus! {

/// `a - b`, or 0 where `b` is larger.
pub open spec fn sat_sub(a: int, b: int) -> int {
    if a >= b {
        a - b
    } else {
        0
    }
}

pub open spec fn min(a: int, b: int) -> int {
    if a <= b {
        a
    } else {
        b
    }
}

pub open spec fn max(a: int, b: int) -> int {
    if a >= b {
        a
    } else {
        b
    }
}

/// The baseline asked for, pulled up so that the line fits in the cell.
pub open spec fn curl_start(fh: int, position: int, thickness: int) -> int {
    min(position, sat_sub(fh, thickness / 2 + thickness % 2))
}

/// The thickness asked for, at least 1 and at most what fits below the
/// baseline.
pub open spec fn curl_fit_thickness(fh: int, position: int, thickness: int) -> int {
    max(1, min(thickness, sat_sub(fh, curl_start(fh, position, thickness) + 1)))
}

/// Half the height of the wave: a quarter of the room below the line's
/// middle, at least 1.
pub open spec fn curl_half_height(fh: int, position: int, thickness: int) -> int {
    let p = curl_start(fh, position, thickness);
    let t = curl_fit_thickness(fh, position, thickness);
    max(1, (fh - sat_sub(p, t / 2)) / 4)
}

/// The number of full-coverage rows drawn below the top edge of the wave.
pub open spec fn curl_thickness(fh: int, position: int, thickness: int) -> int {
    let t = curl_fit_thickness(fh, position, thickness);
    t - (if t < 3 {
        1int
    } else {
        2int
    })
}

/// The row of the wave's middle, moved down by the wave's height and kept
/// above the bottom edge.
pub open spec fn curl_middle(fh: int, position: int, thickness: int) -> int {
    let hh = curl_half_height(fh, position, thickness);
    let p = curl_start(fh, position, thickness) + 2 * hh;
    if p + hh > fh - 1 {
        fh - 1 - hh
    } else {
        p
    }
}

/// The undercurl's line starts at the row asked for unless its upper half
/// would not fit, and then as low as it fits; its thickness is the one asked
/// for, cut to the room below, and at least 1; the wave's half height is at
/// least 1 and a quarter of the cell at most (or 1); the wave's middle sits
/// twice its half height below the line where that fits in the cell.
pub proof fn lemma_curl_shape(fh: int, position: int, thickness: int)
    requires
        fh >= 2,
        0 <= position,
        0 <= thickness,
    ensures
        ({
            let up = (thickness + 1) / 2;
            let p = curl_start(fh, position, thickness);
            let t = curl_fit_thickness(fh, position, thickness);
            let hh = curl_half_height(fh, position, thickness);
            &&& p <= position
            &&& position + up <= fh ==> p == position
            &&& up <= fh ==> p + up <= fh
            &&& up > fh ==> p == 0
            &&& 1 <= t
            &&& t <= thickness || t == 1
            &&& (thickness >= 1 && p + 1 + thickness <= fh) ==> t == thickness
            &&& t > 1 ==> p + 1 + t <= fh
            &&& 1 <= hh
            &&& hh == 1 || 4 * hh <= fh
            &&& curl_thickness(fh, position, thickness) == t - 1 || (t >= 3
                && curl_thickness(fh, position, thickness) == t - 2)
            &&& 0 <= curl_thickness(fh, position, thickness) < t
            &&& curl_middle(fh, position, thickness) + hh <= fh - 1
            &&& p + 3 * hh <= fh - 1 ==> curl_middle(fh, position, thickness) == p + 2 * hh
        }),
{
    assert(thickness / 2 + thickness % 2 == (thickness + 1) / 2);
}

/// Whether the undercurl of an `fw` by `fh` cell can be laid out without
/// leaving the range of `u32`.
pub open spec fn curl_fits(fw: int, fh: int, position: int, thickness: int) -> bool {
    let hh = curl_half_height(fh, position, thickness);
    let p = curl_start(fh, position, thickness);
    &&& fw >= 1
    &&& fh >= 2
    &&& p + 1 <= u32::MAX
    &&& p + 3 * hh <= u32::MAX
}

/// How the undercurl of one cell is laid out: the last column and row of
/// the cell, the row of the wave's middle, the wave's half height, and the
/// number of full-coverage rows below its top edge.
#[derive(Clone, Copy, Debug, PartialEq, Eq, Structural)]
pub struct Curl {
    pub max_x: u32,
    pub max_y: u32,
    pub position: u32,
    pub half_height: u32,
    pub thickness: u32,
}

/// Whether `curl_layout` can lay out these arguments (`curl_fits`).
pub fn layout_fits(fw: u32, fh: u32, position: u32, thickness: u32) -> (r: bool)
    ensures
        r == curl_fits(fw as int, fh as int, position as int, thickness as int),
{
    if fw < 1 || fh < 2 {
        return false;
    }
    let fh64 = fh as u64;
    let half = thickness as u64 / 2 + thickness as u64 % 2;
    let cap = if fh64 >= half {
        fh64 - half
    } else {
        0
    };
    let p = if (position as u64) < cap {
        position as u64
    } else {
        cap
    };
    let room = if fh64 >= p + 1 {
        fh64 - (p + 1)
    } else {
        0
    };
    let t0 = if (thickness as u64) < room {
        thickness as u64
    } else {
        room
    };
    let t = if t0 > 1 {
        t0
    } else {
        1
    };
    let below = if p >= t / 2 {
        p - t / 2
    } else {
        0
    };
    let hh = if (fh64 - below) / 4 > 1 {
        (fh64 - below) / 4
    } else {
        1
    };
    p + 1 <= u32::MAX as u64 && p + 3 * hh <= u32::MAX as u64
}

/// Lays out the undercurl of an `fw` by `fh` cell whose line is asked to
/// sit at row `position` with the given thickness.
pub fn curl_layout(fw: u32, fh: u32, position: u32, thickness: u32) -> (r: Curl)
    requires
        curl_fits(fw as int, fh as int, position as int, thickness as int),
    ensures
        r.max_x == fw - 1,
        r.max_y == fh - 1,
        r.position == curl_middle(fh as int, position as int, thickness as int),
        r.half_height == curl_half_height(fh as int, position as int, thickness as int),
        r.thickness == curl_thickness(fh as int, position as int, thickness as int),
        r.position + r.half_height <= r.max_y,
        r.half_height >= 1,
{
    let max_x = fw - 1;
    let max_y = fh - 1;
    let mut position = if position < fh.saturating_sub(thickness / 2 + thickness % 2) {
        position
    } else {
        fh.saturating_sub(thickness / 2 + thickness % 2)
    };
    let room = fh.saturating_sub(position + 1);
    let t0 = if thickness < room {
        thickness
    } else {
        room
    };
    let thickness = if t0 > 1 {
        t0
    } else {
        1
    };
    let max_height = fh - position.saturating_sub(thickness / 2);
    let half_height = if max_height / 4 > 1 {
        max_height / 4
    } else {
        1
    };
    let thickness = thickness - if thickness < 3 {
        1
    } else {
        2
    };
    position = position + half_height * 2;
    if position + half_height > max_y {
        position = max_y - half_height;
    }
    Curl { max_x, max_y, position, half_height, thickness }
}

/// The row of the wave at `offset` rows from its middle, kept inside the
/// cell.
pub open spec fn curl_row(offset: int, position: int, max_y: int) -> int {
    min(max(offset + position, 0), max_y)
}

/// The row of the wave at `offset` rows from its middle row `position`,
/// kept inside rows `0..=max_y`.
pub fn curl_row_at(offset: i32, position: u32, max_y: u32) -> (r: u32)
    requires
        position <= i32::MAX,
        i32::MIN <= offset + position <= i32::MAX,
    ensures
        r == curl_row(offset as int, position as int, max_y as int),
{
    let y = offset + position as i32;
    let y = if y > 0 {
        y as u32
    } else {
        0
    };
    if y < max_y {
        y
    } else {
        max_y
    }
}

/// What one column `x` of the undercurl adds to the coverage buffer, as
/// `(x, row, coverage)` in order: the wave's top edge at `top` with coverage
/// `255 - frac`, its bottom edge at `bottom` with coverage `frac`, and
/// `c.thickness` full-coverage rows below the top edge.
pub open spec fn curl_column(c: Curl, x: u32, top: i32, bottom: i32, frac: u32) -> Seq<(u32, u32, u8)> {
    seq![
        (x, curl_row(top as int, c.position as int, c.max_y as int) as u32, (255 - (frac as u8)) as u8),
        (x, curl_row(bottom as int, c.position as int, c.max_y as int) as u32, frac as u8),
    ] + Seq::new(
        c.thickness as nat,
        |t: int| (x, curl_row(top + t + 1, c.position as int, c.max_y as int) as u32, 255u8),
    )
}

/// A row of the wave is its offset from the middle row, clamped to the
/// cell's rows `0..=max_y`.
pub proof fn lemma_curl_row(offset: int, position: int, max_y: int)
    requires
        0 <= max_y,
    ensures
        0 <= curl_row(offset, position, max_y) <= max_y,
        0 <= offset + position <= max_y ==> curl_row(offset, position, max_y) == offset + position,
        offset + position < 0 ==> curl_row(offset, position, max_y) == 0,
        offset + position > max_y ==> curl_row(offset, position, max_y) == max_y,
{
}

/// A column of the undercurl writes its top edge with coverage
/// `255 - frac`, its bottom edge with coverage `frac`, and then
/// `thickness` full-coverage rows, the `t`th of them `t + 1` rows below
/// the top edge (each clamped to the cell).
pub proof fn lemma_curl_column(c: Curl, x: u32, top: i32, bottom: i32, frac: u32)
    ensures
        curl_column(c, x, top, bottom, frac).len() == c.thickness + 2,
        curl_column(c, x, top, bottom, frac)[0] == (
            x,
            curl_row(top as int, c.position as int, c.max_y as int) as u32,
            (255 - (frac as u8)) as u8,
        ),
        curl_column(c, x, top, bottom, frac)[1] == (
            x,
            curl_row(bottom as int, c.position as int, c.max_y as int) as u32,
            frac as u8,
        ),
        forall|t: int|
            0 <= t < c.thickness ==> #[trigger] curl_column(c, x, top, bottom, frac)[2 + t] == (
                x,
                curl_row(top + 1 + t, c.position as int, c.max_y as int) as u32,
                255u8,
            ),
{
    let col = curl_column(c, x, top, bottom, frac);
    assert forall|t: int| 0 <= t < c.thickness implies #[trigger] col[2 + t] == (
        x,
        curl_row(top + 1 + t, c.position as int, c.max_y as int) as u32,
        255u8,
    ) by {
        assert(top + t + 1 == top + 1 + t);
    }
}

/// Whether every row offset that column `x` reads stays in the range of
/// `i32` once moved to the wave's middle.
pub open spec fn column_fits(c: Curl, top: i32, bottom: i32) -> bool {
    &&& c.position <= i32::MAX
    &&& c.thickness < i32::MAX
    &&& i32::MIN <= top + c.position
    &&& top + c.thickness + c.position <= i32::MAX
    &&& i32::MIN <= bottom + c.position <= i32::MAX
}

/// Whether `curl_column_writes` can take these arguments (`column_fits`).
pub fn column_in_range(c: Curl, top: i32, bottom: i32) -> (r: bool)
    ensures
        r == column_fits(c, top, bottom),
{
    let p = c.position as i64;
    c.position <= i32::MAX as u32 && c.thickness < i32::MAX as u32 && i32::MIN as i64 <= top as i64
        + p && top as i64 + c.thickness as i64 + p <= i32::MAX as i64 && i32::MIN as i64
        <= bottom as i64 + p && bottom as i64 + p <= i32::MAX as i64
}

/// The coverage that column `x` of the undercurl adds, where the wave's
/// top edge lies at offset `top` and its bottom edge at `bottom` from the
/// middle row, and `frac` (0 to 255) is how far the wave's exact height
/// lies past `top`'s row.
pub fn curl_column_writes(c: Curl, x: u32, top: i32, bottom: i32, frac: u32) -> (r: Vec<(u32, u32, u8)>)
    requires
        column_fits(c, top, bottom),
    ensures
        r@ == curl_column(c, x, top, bottom, frac),
        r@.len() == c.thickness + 2,
        r@[0] == (x, curl_row(top as int, c.position as int, c.max_y as int) as u32, (255 - (
        frac as u8)) as u8),
        r@[1] == (x, curl_row(bottom as int, c.position as int, c.max_y as int) as u32, frac as u8),
        forall|t: int|
            0 <= t < c.thickness ==> #[trigger] r@[2 + t] == (
                x,
                curl_row(top + 1 + t, c.position as int, c.max_y as int) as u32,
                255u8,
            ),
        forall|k: int| 0 <= k < r@.len() ==> (#[trigger] r@[k]).0 == x && r@[k].1 <= c.max_y,
{
    let mut out: Vec<(u32, u32, u8)> = Vec::new();
    let i2 = frac as u8;
    let i1 = 255 - i2;
    out.push((x, curl_row_at(top, c.position, c.max_y), i1));
    out.push((x, curl_row_at(bottom, c.position, c.max_y), i2));
    let mut t: u32 = 1;
    while t <= c.thickness
        invariant
            column_fits(c, top, bottom),
            1 <= t <= c.thickness + 1,
            out@.len() == t + 1,
            out@[0] == curl_column(c, x, top, bottom, frac)[0],
            out@[1] == curl_column(c, x, top, bottom, frac)[1],
            forall|k: int|
                2 <= k < t + 1 ==> #[trigger] out@[k] == curl_column(c, x, top, bottom, frac)[k],
        decreases c.thickness + 1 - t,
    {
        let ghost want = curl_column(c, x, top, bottom, frac);
        assert(want[t + 1] == (x, curl_row(top + t, c.position as int, c.max_y as int) as u32, 255u8));
        out.push((x, curl_row_at(top + t as i32, c.position, c.max_y), 255));
        t = t + 1;
    }
    assert(out@ =~= curl_column(c, x, top, bottom, frac));
    proof {
        lemma_curl_column(c, x, top, bottom, frac);
    }
    out
}

} // verus!
