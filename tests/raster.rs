use solar_view::{draw_disc, draw_line, put_px, reticle, rgb, BG};

fn lit(buf: &[u32], w: usize, c: u32) -> Vec<(usize, usize)> {
    let mut out = Vec::new();
    for (i, &v) in buf.iter().enumerate() {
        if v == c {
            out.push((i % w, i / w));
        }
    }
    out
}

#[test]
fn rgb_packs_channels() {
    assert_eq!(rgb(0x12, 0x34, 0x56), 0x123456);
    assert_eq!(rgb(0, 0, 0), 0);
    assert_eq!(rgb(255, 255, 255), 0x00FF_FFFF);
    assert_eq!(rgb(255, 0, 0), 0x00FF_0000);
    assert_eq!(BG, 0);
}

#[test]
fn put_px_writes_inside() {
    let mut buf = vec![0u32; 12];
    put_px(&mut buf, 4, 3, 2, 1, 7);
    assert_eq!(buf[6], 7);
    assert_eq!(buf.iter().filter(|&&v| v != 0).count(), 1);
}

#[test]
fn put_px_drops_outside() {
    let mut buf = vec![0u32; 12];
    put_px(&mut buf, 4, 3, -1, 0, 7);
    put_px(&mut buf, 4, 3, 4, 0, 7);
    put_px(&mut buf, 4, 3, 0, 3, 7);
    put_px(&mut buf, 4, 3, 0, -1, 7);
    put_px(&mut buf, 4, 3, i32::MAX, i32::MIN, 7);
    assert!(buf.iter().all(|&v| v == 0));
}

#[test]
fn line_horizontal() {
    let mut buf = vec![0u32; 25];
    draw_line(&mut buf, 5, 5, 0, 0, 3, 0, 9);
    assert_eq!(lit(&buf, 5, 9), vec![(0, 0), (1, 0), (2, 0), (3, 0)]);
}

#[test]
fn line_diagonal() {
    let mut buf = vec![0u32; 25];
    draw_line(&mut buf, 5, 5, 0, 0, 2, 2, 9);
    assert_eq!(lit(&buf, 5, 9), vec![(0, 0), (1, 1), (2, 2)]);
}

#[test]
fn line_shallow_slope() {
    let mut buf = vec![0u32; 25];
    draw_line(&mut buf, 5, 5, 0, 0, 4, 2, 9);
    assert_eq!(lit(&buf, 5, 9), vec![(0, 0), (1, 1), (2, 1), (3, 2), (4, 2)]);
}

#[test]
fn line_reversed_direction() {
    let mut buf = vec![0u32; 25];
    draw_line(&mut buf, 5, 5, 4, 2, 0, 0, 9);
    assert_eq!(lit(&buf, 5, 9), vec![(0, 0), (1, 0), (2, 1), (3, 1), (4, 2)]);
}

#[test]
fn line_single_point() {
    let mut buf = vec![0u32; 9];
    draw_line(&mut buf, 3, 3, 1, 1, 1, 1, 5);
    assert_eq!(lit(&buf, 3, 5), vec![(1, 1)]);
}

#[test]
fn line_clipped_at_edges() {
    let mut buf = vec![0u32; 3];
    draw_line(&mut buf, 3, 1, -2, 0, 5, 0, 4);
    assert_eq!(lit(&buf, 3, 4), vec![(0, 0), (1, 0), (2, 0)]);
}

#[test]
fn line_far_off_screen_is_dropped() {
    let mut buf = vec![0u32; 4];
    draw_line(&mut buf, 2, 2, -50, -40, -10, -90, 4);
    assert!(buf.iter().all(|&v| v == 0));
}

#[test]
fn disc_radius_one_is_plus() {
    let mut buf = vec![0u32; 25];
    draw_disc(&mut buf, 5, 5, 2, 2, 1, 3);
    assert_eq!(lit(&buf, 5, 3), vec![(2, 1), (1, 2), (2, 2), (3, 2), (2, 3)]);
}

#[test]
fn disc_radius_two_count() {
    let mut buf = vec![0u32; 25];
    draw_disc(&mut buf, 5, 5, 2, 2, 2, 3);
    assert_eq!(lit(&buf, 5, 3).len(), 13);
    assert_eq!(buf[0], 0);
    assert_eq!(buf[4], 0);
    assert_eq!(buf[2], 3);
}

#[test]
fn disc_nonpositive_radius_draws_nothing() {
    let mut buf = vec![0u32; 25];
    draw_disc(&mut buf, 5, 5, 2, 2, 0, 3);
    draw_disc(&mut buf, 5, 5, 2, 2, -4, 3);
    assert!(buf.iter().all(|&v| v == 0));
}

#[test]
fn disc_clipped_at_corner() {
    let mut buf = vec![0u32; 25];
    draw_disc(&mut buf, 5, 5, 0, 0, 1, 3);
    assert_eq!(lit(&buf, 5, 3), vec![(0, 0), (1, 0), (0, 1)]);
}

#[test]
fn disc_leaves_other_pixels() {
    let mut buf = vec![1u32; 25];
    draw_disc(&mut buf, 5, 5, 2, 2, 1, 3);
    assert_eq!(buf.iter().filter(|&&v| v == 1).count(), 20);
}

#[test]
fn reticle_full_cross() {
    let mut buf = vec![0u32; 400];
    reticle(&mut buf, 20, 20);
    let c = 0x8899AA;
    assert_eq!(lit(&buf, 20, c).len(), 25);
    assert_eq!(buf[10 * 20 + 16], c);
    assert_eq!(buf[10 * 20 + 4], c);
    assert_eq!(buf[10 * 20 + 17], 0);
    assert_eq!(buf[4 * 20 + 10], c);
    assert_eq!(buf[3 * 20 + 10], 0);
    assert_eq!(buf[16 * 20 + 10], c);
}

#[test]
fn reticle_clipped_small_view() {
    let mut buf = vec![0u32; 25];
    reticle(&mut buf, 5, 5);
    assert_eq!(lit(&buf, 5, 0x8899AA).len(), 9);
}
