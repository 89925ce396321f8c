use solar_view::mesh::Mesh;
use solar_view::{draw_path, draw_star_marker, flat_color, rng, star_samples, PlanetKind};

#[test]
fn rng_first_steps() {
    let mut s: u32 = 1;
    assert_eq!(rng(&mut s), 270369);
    assert_eq!(s, 270369);
    assert_eq!(rng(&mut s), 67634689);
    assert_eq!(s, 67634689);
}

#[test]
fn star_samples_fixed_values() {
    let v = star_samples(2, 1);
    assert_eq!(v, vec![(270369, 67634689), (2647435461, 307599695)]);
}

#[test]
fn star_samples_deterministic() {
    let a = star_samples(1200, 0xC0FFEE);
    let b = star_samples(1200, 0xC0FFEE);
    assert_eq!(a.len(), 1200);
    assert_eq!(a, b);
}

#[test]
fn star_samples_prefix_agrees() {
    let a = star_samples(5, 77);
    let b = star_samples(3, 77);
    assert_eq!(&a[..3], &b[..]);
}

#[test]
fn star_samples_zero_seed_acts_as_one() {
    assert_eq!(star_samples(4, 0), star_samples(4, 1));
    assert!(star_samples(0, 9).is_empty());
}

#[test]
fn star_marker_is_plus() {
    let mut buf = vec![0u32; 25];
    draw_star_marker(&mut buf, 5, 5, 2, 2, 8);
    let lit: Vec<usize> = (0..25).filter(|&i| buf[i] == 8).collect();
    assert_eq!(lit, vec![7, 11, 12, 13, 17]);
}

#[test]
fn star_marker_clipped_at_corner() {
    let mut buf = vec![0u32; 4];
    draw_star_marker(&mut buf, 2, 2, 0, 0, 8);
    assert_eq!(buf, vec![8, 8, 8, 0]);
}

#[test]
fn path_breaks_at_missing_sample() {
    let mut buf = vec![0u32; 20];
    let samples = [Some((0, 0)), Some((3, 0)), None, Some((3, 2)), Some((0, 2))];
    draw_path(&mut buf, 5, 4, &samples, 6);
    for x in 0..4 {
        assert_eq!(buf[x], 6);
        assert_eq!(buf[2 * 5 + x], 6);
    }
    assert_eq!(buf[5 + 3], 0);
    assert_eq!(buf.iter().filter(|&&v| v == 6).count(), 8);
}

#[test]
fn path_connects_consecutive_samples() {
    let mut buf = vec![0u32; 16];
    let samples = [Some((0, 0)), Some((3, 0)), Some((3, 3))];
    draw_path(&mut buf, 4, 4, &samples, 6);
    assert_eq!(buf.iter().filter(|&&v| v == 6).count(), 7);
    assert_eq!(buf[3 * 4 + 3], 6);
}

#[test]
fn path_single_sample_draws_nothing() {
    let mut buf = vec![0u32; 16];
    draw_path(&mut buf, 4, 4, &[Some((1, 1))], 6);
    draw_path(&mut buf, 4, 4, &[], 6);
    assert!(buf.iter().all(|&v| v == 0));
}

#[test]
fn flat_colors_per_kind() {
    assert_eq!(flat_color(PlanetKind::Star), 0xFFE696);
    assert_eq!(flat_color(PlanetKind::Rocky), 0xAA8C6E);
    assert_eq!(flat_color(PlanetKind::GasGiant), 0xBEAAC8);
    assert_eq!(flat_color(PlanetKind::Ice), 0xB4DCFF);
    assert_eq!(flat_color(PlanetKind::Volcanic), 0xC85028);
}

fn vert_text(m: &Mesh, i: usize) -> (String, String, String) {
    let v = &m.verts[i];
    (
        String::from_utf8(v.x.clone()).unwrap(),
        String::from_utf8(v.y.clone()).unwrap(),
        String::from_utf8(v.z.clone()).unwrap(),
    )
}

#[test]
fn mesh_vertices_and_faces() {
    let m = Mesh::from_obj_str("v 1.0 2.0 3.0\nv 4 5 6\nf 1 2 3\n");
    assert_eq!(m.verts.len(), 2);
    assert_eq!(vert_text(&m, 0), ("1.0".to_string(), "2.0".to_string(), "3.0".to_string()));
    assert_eq!(vert_text(&m, 1), ("4".to_string(), "5".to_string(), "6".to_string()));
    assert_eq!(m.faces, vec![[0, 1, 2]]);
}

#[test]
fn mesh_face_uses_first_index_of_group() {
    let m = Mesh::from_obj_str("f 1/2/3 4/5/6 7/8/9\nf 1//2 2//3 3//4 4//5");
    assert_eq!(m.faces, vec![[0, 3, 6], [0, 1, 2]]);
}

#[test]
fn mesh_ignores_comments_and_other_records() {
    let m = Mesh::from_obj_str("# comment\nvn 0 1 0\nvt 0 1\n\n   \ng group\n");
    assert!(m.verts.is_empty());
    assert!(m.faces.is_empty());
}

#[test]
fn mesh_skips_short_lines() {
    let m = Mesh::from_obj_str("v 1 2\nf 1 2\n");
    assert!(m.verts.is_empty());
    assert!(m.faces.is_empty());
}

#[test]
fn mesh_skips_faces_with_bad_indices() {
    let m = Mesh::from_obj_str("f a 2 3\nf /1 2 3\nf -1 2 3\nf 99999999999999999999999 1 2\nf + 1 2\n");
    assert!(m.faces.is_empty());
}

#[test]
fn mesh_index_sign_and_zero() {
    let m = Mesh::from_obj_str("f 0 +2 3");
    assert_eq!(m.faces, vec![[0, 1, 2]]);
}

#[test]
fn mesh_trims_lines() {
    let m = Mesh::from_obj_str("  v 1 2 3  \r\n\tf  1   2 3 \r\n");
    assert_eq!(m.verts.len(), 1);
    assert_eq!(vert_text(&m, 0), ("1".to_string(), "2".to_string(), "3".to_string()));
    assert_eq!(m.faces, vec![[0, 1, 2]]);
}

#[test]
fn mesh_needs_space_after_tag() {
    let m = Mesh::from_obj_str("v\t1 2 3\nvx 1 2 3\nf\t1 2 3\n");
    assert!(m.verts.is_empty());
    assert!(m.faces.is_empty());
}

#[test]
fn mesh_keeps_unparsable_vertex_text() {
    let m = Mesh::from_obj_str("v x 2 3 4");
    assert_eq!(vert_text(&m, 0), ("x".to_string(), "2".to_string(), "3".to_string()));
}
