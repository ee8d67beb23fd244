use dsb::pixels::{add_coverage, b, blend, fill_in, into, Raster};

#[test]
fn mix_formula() {
    assert_eq!(b(255, 10, 200), 10);
    assert_eq!(b(0, 10, 200), 200);
    assert_eq!(b(128, 200, 100), 150);
    assert_eq!(b(77, 33, 33), 33);
    assert_eq!(b(1, 255, 0), 1);
}

#[test]
fn blend_reads_mask_reversed() {
    let mut to = [100, 100, 100];
    blend([0, 128, 255], [10, 20, 30], &mut to);
    assert_eq!(to, [10, 59, 100]);
}

fn image(w: u32, h: u32) -> Raster<3> {
    Raster::filled(w, h, [0, 0, 0])
}

#[test]
fn raster_basics() {
    let mut r = image(3, 2);
    assert_eq!(r.width(), 3);
    assert_eq!(r.height(), 2);
    r.set_pixel(2, 1, [1, 2, 3]);
    assert_eq!(r.pixel(2, 1), [1, 2, 3]);
    assert_eq!(r.pixel(1, 1), [0, 0, 0]);
    let px = r.into_pixels();
    assert_eq!(px.len(), 6);
    assert_eq!(px[5], [1, 2, 3]);
    assert!(Raster::<3>::from_pixels(2, 2, vec![[0; 3]; 3]).is_none());
    let q = Raster::<1>::from_pixels(2, 1, vec![[4], [5]]).unwrap();
    assert_eq!(q.pixel(1, 0), [5]);
}

fn painted(r: &Raster<3>) -> Vec<(u32, u32)> {
    let mut out = vec![];
    for y in 0..r.height() {
        for x in 0..r.width() {
            if r.pixel(x, y) == [9, 9, 9] {
                out.push((x, y));
            }
        }
    }
    out
}

#[test]
fn fill_in_box() {
    let mut r = image(5, 4);
    fill_in(&mut r, (1, 1), (2, 2), [9, 9, 9]);
    assert_eq!(
        painted(&r),
        vec![(1, 1), (2, 1), (3, 1), (1, 2), (2, 2), (3, 2)]
    );
}

#[test]
fn fill_in_clips_at_right_and_bottom() {
    let mut r = image(5, 4);
    fill_in(&mut r, (3, 2), (5, 9), [9, 9, 9]);
    assert_eq!(painted(&r), vec![(3, 2), (4, 2), (3, 3), (4, 3)]);
}

#[test]
fn fill_in_zero_height_paints_one_row() {
    let mut r = image(5, 4);
    fill_in(&mut r, (0, 3), (0, 0), [9, 9, 9]);
    assert_eq!(painted(&r), vec![(0, 3)]);
}

#[test]
fn fill_in_past_right_edge_paints_nothing() {
    let mut r = image(5, 4);
    fill_in(&mut r, (5, 0), (2, 2), [9, 9, 9]);
    assert_eq!(painted(&r), vec![]);
}

#[test]
fn into_blends_and_clips() {
    let mut target = Raster::filled(4, 3, [100, 100, 100]);
    let glyph = Raster::<4>::from_pixels(
        2,
        2,
        vec![[255, 255, 255, 0], [0, 0, 0, 0], [0, 128, 255, 9], [255, 0, 0, 0]],
    )
    .unwrap();
    into(&mut target, &glyph, (3, 1), [10, 20, 30]);
    // column 4 lies outside the target and is skipped
    assert_eq!(target.pixel(3, 1), [10, 20, 30]);
    assert_eq!(target.pixel(3, 2), [10, 59, 100]);
    assert_eq!(target.pixel(2, 1), [100, 100, 100]);
    assert_eq!(target.pixel(3, 0), [100, 100, 100]);
}

#[test]
fn into_with_clear_glyph_changes_nothing() {
    let mut target = Raster::filled(2, 2, [5, 6, 7]);
    let glyph = Raster::<4>::filled(2, 2, [0, 0, 0, 255]);
    into(&mut target, &glyph, (0, 0), [200, 200, 200]);
    assert_eq!(target.into_pixels(), vec![[5, 6, 7]; 4]);
}

#[test]
fn coverage_saturates() {
    let mut buf = Raster::<1>::filled(3, 2, [0]);
    add_coverage(&mut buf, &vec![(1, 1, 200), (1, 1, 100), (0, 0, 5), (0, 0, 6)]);
    assert_eq!(buf.pixel(1, 1), [255]);
    assert_eq!(buf.pixel(0, 0), [11]);
    assert_eq!(buf.pixel(2, 1), [0]);
}
