use render3d::brep::solid::Solid;
use render3d::brep::validate::{directed_for_key, is_closed_manifold, manifold_issues, orient_faces, ManifoldIssue};
use render3d::brep::weld::{weld_keys, GridKey};

const WELD_EPS: f32 = 1e-4;

fn grid_key(p: [f32; 3], eps: f32) -> GridKey {
    let inv = 1.0 / eps.max(1e-9);
    (
        (p[0] * inv).round() as i64,
        (p[1] * inv).round() as i64,
        (p[2] * inv).round() as i64,
    )
}

/// Weld positions: `(number of unique points, remap)`.
fn weld_positions(pts: &[[f32; 3]], eps: f32) -> (usize, Vec<usize>) {
    let keys: Vec<GridKey> = pts.iter().map(|p| grid_key(*p, eps)).collect();
    let (reps, remap) = weld_keys(&keys);
    (reps.len(), remap)
}

fn from_face_loops(loops: &[Vec<[f32; 3]>], eps: f32) -> Solid {
    let mut pts = Vec::new();
    let mut spans = Vec::new();
    for l in loops {
        spans.push((pts.len(), l.len()));
        pts.extend_from_slice(l);
    }
    let (n, remap) = weld_positions(&pts, eps);
    Solid::from_welded(n, &remap, &spans)
}

fn v(x: f32, y: f32, z: f32) -> [f32; 3] {
    [x, y, z]
}

fn cube_faces() -> Vec<Vec<[f32; 3]>> {
    vec![
        vec![v(0.0, 0.0, 0.0), v(0.0, 1.0, 0.0), v(1.0, 1.0, 0.0), v(1.0, 0.0, 0.0)],
        vec![v(0.0, 0.0, 1.0), v(1.0, 0.0, 1.0), v(1.0, 1.0, 1.0), v(0.0, 1.0, 1.0)],
        vec![v(0.0, 0.0, 0.0), v(1.0, 0.0, 0.0), v(1.0, 0.0, 1.0), v(0.0, 0.0, 1.0)],
        vec![v(0.0, 1.0, 0.0), v(0.0, 1.0, 1.0), v(1.0, 1.0, 1.0), v(1.0, 1.0, 0.0)],
        vec![v(0.0, 0.0, 0.0), v(0.0, 0.0, 1.0), v(0.0, 1.0, 1.0), v(0.0, 1.0, 0.0)],
        vec![v(1.0, 0.0, 0.0), v(1.0, 1.0, 0.0), v(1.0, 1.0, 1.0), v(1.0, 0.0, 1.0)],
    ]
}

fn cube() -> Solid {
    from_face_loops(&cube_faces(), WELD_EPS)
}

#[test]
fn cube_welds_to_eight_vertices_and_twelve_edges() {
    let solid = from_face_loops(&cube_faces(), WELD_EPS);
    assert_eq!(solid.vert_count, 8, "a cube has 8 corners");
    assert_eq!(solid.faces.len(), 6);
    assert_eq!(solid.edge_use().len(), 12, "a cube has 12 edges");
    assert_eq!(solid.shared_edges().len(), 12);
    assert_eq!(solid.euler_characteristic(), 2);
}

#[test]
fn two_quads_sharing_an_edge_report_one_shared_edge() {
    let a = vec![[0.0, 0.0, 0.0], [1.0, 0.0, 0.0], [1.0, 1.0, 0.0], [0.0, 1.0, 0.0]];
    let b = vec![[0.0, 0.0, 0.0], [0.0, -1.0, 0.0], [1.0, -1.0, 0.0], [1.0, 0.0, 0.0]];
    let solid = from_face_loops(&[a, b], WELD_EPS);
    assert_eq!(solid.vert_count, 6, "two quads share two corners");
    assert_eq!(solid.shared_edges(), vec![(0, 1)]);
}

#[test]
fn disjoint_faces_share_nothing() {
    let a = vec![[0.0, 0.0, 0.0], [1.0, 0.0, 0.0], [0.0, 1.0, 0.0]];
    let b = vec![[5.0, 0.0, 0.0], [6.0, 0.0, 0.0], [5.0, 1.0, 0.0]];
    let solid = from_face_loops(&[a, b], WELD_EPS);
    assert_eq!(solid.vert_count, 6);
    assert!(solid.shared_edges().is_empty());
}

#[test]
fn closed_cube_is_a_manifold() {
    let solid = cube();
    assert!(is_closed_manifold(&solid));
    assert!(manifold_issues(&solid).is_empty());
}

#[test]
fn open_surface_reports_boundary_edges() {
    let quad = vec![vec![[0.0, 0.0, 0.0], [1.0, 0.0, 0.0], [1.0, 1.0, 0.0], [0.0, 1.0, 0.0]]];
    let solid = from_face_loops(&quad, WELD_EPS);
    let issues = manifold_issues(&solid);
    assert_eq!(issues.len(), 4);
    assert!(issues.iter().all(|i| matches!(i, ManifoldIssue::BoundaryEdge(_))));
    assert!(!is_closed_manifold(&solid));
}

#[test]
fn orientation_makes_neighbours_consistent() {
    let mut solid = cube();
    assert!(orient_faces(&mut solid));
    let edge_use = solid.edge_use();
    for e in &edge_use {
        if e.faces.len() == 2 {
            let d0 = directed_for_key(&solid.faces[e.faces[0]], e.key).unwrap();
            let d1 = directed_for_key(&solid.faces[e.faces[1]], e.key).unwrap();
            assert_eq!(d0, (d1.1, d1.0), "edge {:?} not consistently wound", e.key);
        }
    }
}

#[test]
fn orientation_is_idempotent() {
    let mut a = cube();
    orient_faces(&mut a);
    let mut b = a.clone();
    assert!(orient_faces(&mut b));
    assert_eq!(a, b, "already-consistent solid is unchanged");
}

#[test]
fn coincident_points_collapse_to_one() {
    let pts = [[0.0, 0.0, 0.0], [1.0, 0.0, 0.0], [0.0, 0.0, 0.0], [1.0, 0.000_01, 0.0]];
    let (unique, remap) = weld_positions(&pts, WELD_EPS);
    assert_eq!(unique, 2);
    assert_eq!(remap[0], remap[2], "duplicates share an id");
    assert_eq!(remap[1], remap[3], "near-coincident share an id");
    assert_ne!(remap[0], remap[1]);
}

#[test]
fn distinct_points_are_preserved() {
    let pts = [[0.0, 0.0, 0.0], [1.0, 0.0, 0.0], [0.0, 1.0, 0.0]];
    let (unique, remap) = weld_positions(&pts, WELD_EPS);
    assert_eq!(unique, 3);
    assert_eq!(remap, vec![0, 1, 2]);
}

#[test]
fn remap_indexes_into_unique() {
    let pts = [[0.0; 3], [5.0, 0.0, 0.0], [5.0, 0.0, 0.0]];
    let (unique, remap) = weld_positions(&pts, WELD_EPS);
    assert!(remap.iter().all(|&i| i < unique));
}

#[test]
fn welding_keeps_first_occurrences_as_representatives() {
    let keys: Vec<GridKey> = vec![(1, 0, 0), (2, 0, 0), (1, 0, 0), (3, 0, 0), (2, 0, 0)];
    let (reps, remap) = weld_keys(&keys);
    assert_eq!(reps, vec![0, 1, 3]);
    assert_eq!(remap, vec![0, 1, 0, 2, 1]);
}

#[test]
fn flipping_twice_restores_the_solid() {
    let a = cube();
    let mut b = a.clone();
    b.flip();
    assert_ne!(a, b);
    b.flip();
    assert_eq!(a, b);
}

#[test]
fn non_manifold_edge_is_reported_with_its_face_count() {
    let f1 = vec![[0.0, 0.0, 0.0], [1.0, 0.0, 0.0], [0.0, 1.0, 0.0]];
    let f2 = vec![[0.0, 0.0, 0.0], [1.0, 0.0, 0.0], [0.0, -1.0, 0.0]];
    let f3 = vec![[0.0, 0.0, 0.0], [1.0, 0.0, 0.0], [0.0, 0.0, 1.0]];
    let solid = from_face_loops(&[f1, f2, f3], WELD_EPS);
    let issues = manifold_issues(&solid);
    assert!(issues.contains(&ManifoldIssue::NonManifoldEdge { edge: (0, 1), faces: 3 }));
    assert!(!is_closed_manifold(&solid));
}

#[test]
fn keys_sharing_a_hash_bucket_stay_apart() {
    // (2^21, 0, 0) and (0, 1, 0) fold to the same bucket number.
    let keys: Vec<GridKey> = vec![(2_097_152, 0, 0), (0, 1, 0), (2_097_152, 0, 0), (0, 1, 0), (-1, -1, -1)];
    let (reps, remap) = weld_keys(&keys);
    assert_eq!(reps, vec![0, 1, 4]);
    assert_eq!(remap, vec![0, 1, 0, 1, 2]);
}

#[test]
fn a_reversed_face_is_turned_back() {
    let mut faces = cube_faces();
    faces[3].reverse();
    let mut solid = from_face_loops(&faces, WELD_EPS);
    let before = solid.clone();
    assert!(orient_faces(&mut solid));
    assert_ne!(solid, before);
    for e in &solid.edge_use() {
        if e.faces.len() == 2 {
            let d0 = directed_for_key(&solid.faces[e.faces[0]], e.key).unwrap();
            let d1 = directed_for_key(&solid.faces[e.faces[1]], e.key).unwrap();
            assert_eq!(d0, (d1.1, d1.0), "edge {:?} not consistently wound", e.key);
        }
    }
}
