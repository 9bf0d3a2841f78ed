use render3d::primitives::{
    arrow_indices, cone_indices, create_cube, create_grid, create_plane, cylinder_indices, offset_indices,
    sphere_indices, thick_axes_indices, GridCoord, Point3, TriangleMesh, CYLINDER_VERTICES,
};

/// Every index must reference a real vertex.
fn assert_indices_in_range(indices: &[u16], n_vertices: usize) {
    assert!(n_vertices > 0, "mesh has no vertices");
    assert!(!indices.is_empty(), "mesh has no indices");
    for &i in indices {
        assert!((i as usize) < n_vertices, "index {i} out of range (len {n_vertices})");
    }
}

/// Positions of a lattice mesh whose unit is `scale`.
fn positions(m: &TriangleMesh, scale: f32) -> Vec<[f32; 3]> {
    m.vertices
        .iter()
        .map(|v| [v.position.x as f32 * scale, v.position.y as f32 * scale, v.position.z as f32 * scale])
        .collect()
}

fn winding(a: Point3, b: Point3, c: Point3, n: Point3) -> i64 {
    let (ux, uy, uz) = (b.x - a.x, b.y - a.y, b.z - a.z);
    let (vx, vy, vz) = (c.x - a.x, c.y - a.y, c.z - a.z);
    (uy * vz - uz * vy) * n.x + (uz * vx - ux * vz) * n.y + (ux * vy - uy * vx) * n.z
}

#[test]
fn cube_is_a_closed_triangle_mesh() {
    let m = create_cube();
    assert_indices_in_range(&m.indices, m.vertices.len());
    assert_eq!(m.indices.len() % 3, 0, "triangles");
    // Unit cube spans [-0.5, 0.5] on every axis.
    for p in positions(&m, 0.5) {
        for c in 0..3 {
            assert!(p[c].abs() <= 0.5 + 1e-6);
        }
    }
}

#[test]
fn plane_is_flat_on_y() {
    let m = create_plane();
    assert_indices_in_range(&m.indices, m.vertices.len());
    assert_eq!(m.indices.len() % 3, 0);
    assert!(positions(&m, 1.0).iter().all(|p| p[1].abs() < 1e-6));
}

#[test]
fn grids_build_for_every_orientation() {
    for plane_normal in 0u8..=2 {
        let g = create_grid(10, plane_normal);
        assert_indices_in_range(&g.indices, g.vertices.len());
        // Grids are line lists: indices come in pairs.
        assert_eq!(g.indices.len() % 2, 0);
    }
}

#[test]
fn thick_axes_and_arrow_are_valid_meshes() {
    let axes = thick_axes_indices();
    assert_indices_in_range(&axes, 3 * CYLINDER_VERTICES as usize);
    assert_eq!(axes.len() % 3, 0);

    let arrow = arrow_indices();
    assert_indices_in_range(&arrow, CYLINDER_VERTICES as usize + 9);
    assert_eq!(arrow.len() % 3, 0);
}

#[test]
fn cube_faces_are_quads_of_two_triangles() {
    let m = create_cube();
    assert_eq!(m.vertices.len(), 24);
    assert_eq!(m.indices.len(), 36);
    assert_eq!(&m.indices[0..6], &[0, 1, 2, 2, 3, 0]);
    assert_eq!(&m.indices[30..36], &[20, 21, 22, 22, 23, 20]);
    let front = m.vertices[0];
    assert_eq!(front.position, Point3 { x: -1, y: -1, z: 1 });
    assert_eq!(front.normal, Point3 { x: 0, y: 0, z: 1 });
}

#[test]
fn cube_and_plane_triangles_face_their_normals() {
    for m in [create_cube(), create_plane()] {
        for t in m.indices.chunks(3) {
            let (a, b, c) = (m.vertices[t[0] as usize], m.vertices[t[1] as usize], m.vertices[t[2] as usize]);
            assert_eq!(a.normal, b.normal);
            assert_eq!(b.normal, c.normal);
            assert!(winding(a.position, b.position, c.position, a.normal) > 0);
        }
    }
}

#[test]
fn plane_bottom_face_reverses_the_winding() {
    let m = create_plane();
    assert_eq!(m.indices, vec![0, 1, 2, 2, 3, 0, 4, 6, 5, 6, 4, 7]);
    assert_eq!(m.vertices[4].position, m.vertices[0].position);
    assert_eq!(m.vertices[4].normal, Point3 { x: 0, y: -1, z: 0 });
}

#[test]
fn grid_lines_span_the_plane() {
    let g = create_grid(2, 0);
    assert_eq!(g.vertices.len(), 12);
    assert_eq!(g.indices, (0u16..12).collect::<Vec<_>>());
    // First family: lines along x at z = step i.
    assert_eq!(g.vertices[0].x, GridCoord::NegHalf);
    assert_eq!(g.vertices[1].x, GridCoord::PosHalf);
    assert_eq!(g.vertices[2].z, GridCoord::Step(1));
    // Second family: lines along z at x = step i.
    assert_eq!(g.vertices[6].x, GridCoord::Step(0));
    assert_eq!(g.vertices[7].z, GridCoord::PosHalf);
    for v in &g.vertices {
        assert_eq!(v.y, GridCoord::Zero);
    }
    let yz = create_grid(3, 2);
    assert!(yz.vertices.iter().all(|v| v.x == GridCoord::Zero));
    let xy = create_grid(3, 1);
    assert!(xy.vertices.iter().all(|v| v.z == GridCoord::Zero));
}

#[test]
fn grid_indices_wrap_at_sixteen_bits() {
    let g = create_grid(16384, 0);
    assert_eq!(g.vertices.len(), 65540);
    assert_eq!(g.indices[65535], 65535);
    assert_eq!(g.indices[65536], 0);
    assert_eq!(g.indices[65539], 3);
}

#[test]
fn sphere_cells_are_two_triangles() {
    assert_eq!(sphere_indices(1, 1), vec![0, 2, 3, 0, 3, 1]);
    let r = sphere_indices(2, 3);
    assert_eq!(r.len(), 36);
    // Cell (1, 2): first = 1 * 4 + 2 = 6, second = 10.
    assert_eq!(&r[30..36], &[6, 10, 11, 6, 11, 7]);
    assert_indices_in_range(&r, 3 * 4);
    assert!(sphere_indices(0, 5).is_empty());
    assert!(sphere_indices(32, 32).len() > sphere_indices(8, 8).len());
}

#[test]
fn cylinder_and_cone_patterns() {
    let c = cylinder_indices();
    assert_eq!(c.len(), 72);
    assert_eq!(&c[0..6], &[0, 2, 3, 0, 3, 1]);
    assert_eq!(&c[66..72], &[22, 24, 25, 22, 25, 23]);
    let cone = cone_indices(26);
    assert_eq!(cone.len(), 24);
    assert_eq!(&cone[0..3], &[26, 27, 28]);
    // The last side closes the ring.
    assert_eq!(&cone[21..24], &[26, 34, 27]);
}

#[test]
fn offsetting_shifts_every_index() {
    let mut v = vec![0u16, 5, 25];
    offset_indices(&mut v, 26);
    assert_eq!(v, vec![26, 31, 51]);
    let axes = thick_axes_indices();
    assert_eq!(&axes[72..78], &[26, 28, 29, 26, 29, 27]);
    assert_eq!(&axes[144..150], &[52, 54, 55, 52, 55, 53]);
}
