//! Topology of the renderer's built-in meshes.
//!
//! The solid primitives (cube, plane) have their corners on an integer
//! lattice: a coordinate `±1` stands for half the primitive's edge, so the
//! renderer obtains its float positions by one scaling. The line grid keeps
//! each coordinate symbolic (a grid step, the grid's half extent, or zero),
//! and the round primitives (sphere, cylinder, cone) get their index lists
//! here while their vertices come from trigonometry in the renderer.
//! Indices are `u16`, as in the renderer's index buffers.

use vstd::prelude::*;
use vstd::arithmetic::div_mod::lemma_fundamental_div_mod_converse;

verus! {

/// A point or direction with integer coordinates.
#[derive(Clone, Copy, Debug, PartialEq, Eq)]
pub struct Point3 {
    pub x: i64,
    pub y: i64,
    pub z: i64,
}

/// A vertex of a flat-shaded solid: its lattice position and the outward
/// normal of the face it belongs to.
#[derive(Clone, Copy, Debug, PartialEq, Eq)]
pub struct CornerVertex {
    pub position: Point3,
    pub normal: Point3,
}

/// A triangle list over lattice vertices.
pub struct TriangleMesh {
    pub vertices: Vec<CornerVertex>,
    pub indices: Vec<u16>,
}

/// `((b - a) × (c - a)) · n`: positive exactly when the triangle `a, b, c`,
/// taken counter-clockwise, faces the direction `n`.
pub open spec fn winding(a: Point3, b: Point3, c: Point3, n: Point3) -> int {
    let ux = b.x - a.x;
    let uy = b.y - a.y;
    let uz = b.z - a.z;
    let vx = c.x - a.x;
    let vy = c.y - a.y;
    let vz = c.z - a.z;
    (uy * vz - uz * vy) * n.x + (uz * vx - ux * vz) * n.y + (ux * vy - uy * vx) * n.z
}

/// Every index of `indices` names one of `n` vertices.
pub open spec fn all_below(indices: Seq<u16>, n: int) -> bool {
    forall|k: int| 0 <= k < indices.len() ==> (#[trigger] indices[k] as int) < n
}

/// Corner `c` (0, 1 or 2) of triangle `t` of the triangle list `is` over
/// the vertices `vs`.
pub open spec fn corner_of(vs: Seq<CornerVertex>, is: Seq<u16>, t: int, c: int) -> CornerVertex {
    vs[is[3 * t + c] as int]
}

/// Triangle `t` lies in one face and winds counter-clockwise seen from
/// outside, along that face's normal.
pub open spec fn outward_at(vs: Seq<CornerVertex>, is: Seq<u16>, t: int) -> bool {
    let a = corner_of(vs, is, t, 0);
    let b = corner_of(vs, is, t, 1);
    let c = corner_of(vs, is, t, 2);
    &&& a.normal == b.normal
    &&& b.normal == c.normal
    &&& winding(a.position, b.position, c.position, a.normal) > 0
}

/// The index list is made of whole triangles, each facing outward.
pub open spec fn all_outward(vs: Seq<CornerVertex>, is: Seq<u16>) -> bool {
    &&& is.len() % 3 == 0
    &&& forall|t: int| 0 <= t < is.len() / 3 ==> #[trigger] outward_at(vs, is, t)
}

impl TriangleMesh {
    pub open spec fn indices_in_range(&self) -> bool {
        all_below(self.indices@, self.vertices@.len() as int)
    }

    /// The index list is made of whole triangles, each lying in one face
    /// and winding counter-clockwise seen from outside, along that face's
    /// normal.
    pub open spec fn faces_outward(&self) -> bool {
        all_outward(self.vertices@, self.indices@)
    }

    /// Every vertex lies on the plane `y == 0`.
    pub open spec fn flat_on_y(&self) -> bool {
        forall|k: int| 0 <= k < self.vertices@.len() ==> (#[trigger] self.vertices@[k]).position.y == 0
    }
}

/// Which of a quad's four vertices (0 to 3) its index slot `s` (0 to 5)
/// names: triangles `(0, 1, 2)` and `(2, 3, 0)`, or, for a quad drawn from
/// its back, `(0, 2, 1)` and `(2, 0, 3)`.
pub open spec fn quad_corner(reversed: bool, s: int) -> int {
    if reversed {
        if s == 0 || s == 4 { 0 } else if s == 1 || s == 3 { 2 } else if s == 2 { 1 } else { 3 }
    } else {
        if s == 0 || s == 5 { 0 } else if s == 1 { 1 } else if s == 4 { 3 } else { 2 }
    }
}

/// Index `k` of a run of quads, four vertices and six indices each; quad
/// `q` is drawn from its back when `reversed[q]`.
pub open spec fn quad_run(reversed: Seq<bool>, k: int) -> int {
    4 * (k / 6) + quad_corner(reversed[k / 6], k % 6)
}

pub open spec fn corner_vertex(p: Point3, n: Point3) -> CornerVertex {
    CornerVertex { position: p, normal: n }
}

pub open spec fn pt(x: int, y: int, z: int) -> Point3 {
    Point3 { x: x as i64, y: y as i64, z: z as i64 }
}

/// Appends the quad `p0 p1 p2 p3` with normal `n`, as triangles
/// `(p0, p1, p2)` and `(p2, p3, p0)`, or, when `reversed`, as
/// `(p0, p2, p1)` and `(p2, p0, p3)`.
/// Each coordinate is `1` or `-1`: a corner of the box spanning half an
/// edge on either side of the origin.
pub open spec fn on_unit_box(p: Point3) -> bool {
    &&& (p.x == 1 || p.x == -1)
    &&& (p.y == 1 || p.y == -1)
    &&& (p.z == 1 || p.z == -1)
}

fn push_quad(
    m: &mut TriangleMesh,
    Ghost(quads): Ghost<Seq<bool>>,
    n: Point3,
    p0: Point3,
    p1: Point3,
    p2: Point3,
    p3: Point3,
    reversed: bool,
)
    requires
        old(m).vertices@.len() == 4 * quads.len(),
        old(m).indices@.len() == 6 * quads.len(),
        forall|k: int| 0 <= k < 6 * quads.len() ==> #[trigger] old(m).indices@[k] as int == quad_run(quads, k),
        old(m).vertices@.len() + 4 <= 65536,
        old(m).indices_in_range(),
        old(m).faces_outward(),
        !reversed ==> winding(p0, p1, p2, n) > 0 && winding(p2, p3, p0, n) > 0,
        reversed ==> winding(p0, p2, p1, n) > 0 && winding(p2, p0, p3, n) > 0,
    ensures
        final(m).vertices@ == old(m).vertices@.push(corner_vertex(p0, n)).push(corner_vertex(p1, n)).push(
            corner_vertex(p2, n),
        ).push(corner_vertex(p3, n)),
        final(m).indices@.len() == 6 * (quads.len() + 1),
        forall|k: int|
            0 <= k < 6 * (quads.len() + 1) ==> #[trigger] final(m).indices@[k] as int == quad_run(quads.push(reversed), k),
        final(m).indices_in_range(),
        final(m).faces_outward(),
{
    let ghost ov = m.vertices@;
    let ghost oi = m.indices@;
    let base: u16 = m.vertices.len() as u16;
    m.vertices.push(CornerVertex { position: p0, normal: n });
    m.vertices.push(CornerVertex { position: p1, normal: n });
    m.vertices.push(CornerVertex { position: p2, normal: n });
    m.vertices.push(CornerVertex { position: p3, normal: n });
    if reversed {
        m.indices.push(base);
        m.indices.push(base + 2);
        m.indices.push(base + 1);
        m.indices.push(base + 2);
        m.indices.push(base);
        m.indices.push(base + 3);
    } else {
        m.indices.push(base);
        m.indices.push(base + 1);
        m.indices.push(base + 2);
        m.indices.push(base + 2);
        m.indices.push(base + 3);
        m.indices.push(base);
    }
    proof {
        let nv = m.vertices@;
        let ni = m.indices@;
        assert(nv.len() == ov.len() + 4);
        assert forall|k: int| 0 <= k < ni.len() implies (#[trigger] ni[k] as int) < nv.len() by {
            if k < oi.len() {
                assert(ni[k] == oi[k]);
                assert(all_below(oi, ov.len() as int));
            }
        }
        let nq = quads.push(reversed);
        assert forall|k: int| 0 <= k < 6 * (quads.len() + 1) implies #[trigger] ni[k] as int == quad_run(nq, k) by {
            if k < 6 * quads.len() {
                assert(ni[k] == oi[k]);
                assert(k / 6 < quads.len());
                assert(nq[k / 6] == quads[k / 6]);
            } else {
                let s = k - 6 * quads.len();
                assert(k / 6 == quads.len());
                assert(k % 6 == s);
                assert(nq[k / 6] == reversed);
            }
        }
        let q = oi.len() / 3;
        assert(oi.len() == 3 * q);
        assert(ni.len() == 3 * (q + 2));
        assert(ni.len() % 3 == 0);
        assert forall|t: int| 0 <= t < ni.len() / 3 implies #[trigger] outward_at(nv, ni, t) by {
            if t < q {
                assert(outward_at(ov, oi, t));
                assert(ni[3 * t] == oi[3 * t]);
                assert(ni[3 * t + 1] == oi[3 * t + 1]);
                assert(ni[3 * t + 2] == oi[3 * t + 2]);
                assert(all_below(oi, ov.len() as int));
                assert((oi[3 * t] as int) < ov.len());
                assert((oi[3 * t + 1] as int) < ov.len());
                assert((oi[3 * t + 2] as int) < ov.len());
                assert(corner_of(nv, ni, t, 0) == corner_of(ov, oi, t, 0));
                assert(corner_of(nv, ni, t, 1) == corner_of(ov, oi, t, 1));
                assert(corner_of(nv, ni, t, 2) == corner_of(ov, oi, t, 2));
            } else {
                assert(t == q || t == q + 1);
            }
        }
    }
}

/// Corners of the unit cube, four per face in the order front (`+z`),
/// back, top (`+y`), bottom, right (`+x`), left; each coordinate `±1`
/// stands for `±0.5`.
pub open spec fn cube_corners() -> Seq<CornerVertex> {
    let f = pt(0, 0, 1);
    let bk = pt(0, 0, -1);
    let t = pt(0, 1, 0);
    let bt = pt(0, -1, 0);
    let r = pt(1, 0, 0);
    let l = pt(-1, 0, 0);
    seq![
        corner_vertex(pt(-1, -1, 1), f), corner_vertex(pt(1, -1, 1), f),
        corner_vertex(pt(1, 1, 1), f), corner_vertex(pt(-1, 1, 1), f),
        corner_vertex(pt(1, -1, -1), bk), corner_vertex(pt(-1, -1, -1), bk),
        corner_vertex(pt(-1, 1, -1), bk), corner_vertex(pt(1, 1, -1), bk),
        corner_vertex(pt(-1, 1, 1), t), corner_vertex(pt(1, 1, 1), t),
        corner_vertex(pt(1, 1, -1), t), corner_vertex(pt(-1, 1, -1), t),
        corner_vertex(pt(-1, -1, -1), bt), corner_vertex(pt(1, -1, -1), bt),
        corner_vertex(pt(1, -1, 1), bt), corner_vertex(pt(-1, -1, 1), bt),
        corner_vertex(pt(1, -1, 1), r), corner_vertex(pt(1, -1, -1), r),
        corner_vertex(pt(1, 1, -1), r), corner_vertex(pt(1, 1, 1), r),
        corner_vertex(pt(-1, -1, -1), l), corner_vertex(pt(-1, -1, 1), l),
        corner_vertex(pt(-1, 1, 1), l), corner_vertex(pt(-1, 1, -1), l),
    ]
}

/// The unit cube as 6 faces of 2 triangles, in half-edge units.
pub fn create_cube() -> (m: TriangleMesh)
    ensures
        m.vertices@ == cube_corners(),
        m.indices@.len() == 36,
        forall|k: int| 0 <= k < 36 ==> #[trigger] m.indices@[k] as int == 4 * (k / 6) + quad_corner(false, k % 6),
        m.indices_in_range(),
        m.faces_outward(),
        forall|k: int| 0 <= k < m.vertices@.len() ==> #[trigger] on_unit_box(m.vertices@[k].position),
{
    let mut m = TriangleMesh { vertices: Vec::new(), indices: Vec::new() };
    let ghost mut quads: Seq<bool> = seq![];
    proof {
        assert(m.indices@.len() / 3 == 0);
    }
    // Front (+z)
    assert(winding(pt(-1, -1, 1), pt(1, -1, 1), pt(1, 1, 1), pt(0, 0, 1)) > 0) by (nonlinear_arith);
    assert(winding(pt(1, 1, 1), pt(-1, 1, 1), pt(-1, -1, 1), pt(0, 0, 1)) > 0) by (nonlinear_arith);
    push_quad(
        &mut m,
        Ghost(quads),
        Point3 { x: 0, y: 0, z: 1 },
        Point3 { x: -1, y: -1, z: 1 },
        Point3 { x: 1, y: -1, z: 1 },
        Point3 { x: 1, y: 1, z: 1 },
        Point3 { x: -1, y: 1, z: 1 },
        false,
    );
    proof {
        quads = quads.push(false);
    }
    // Back (-z)
    assert(winding(pt(1, -1, -1), pt(-1, -1, -1), pt(-1, 1, -1), pt(0, 0, -1)) > 0) by (nonlinear_arith);
    assert(winding(pt(-1, 1, -1), pt(1, 1, -1), pt(1, -1, -1), pt(0, 0, -1)) > 0) by (nonlinear_arith);
    push_quad(
        &mut m,
        Ghost(quads),
        Point3 { x: 0, y: 0, z: -1 },
        Point3 { x: 1, y: -1, z: -1 },
        Point3 { x: -1, y: -1, z: -1 },
        Point3 { x: -1, y: 1, z: -1 },
        Point3 { x: 1, y: 1, z: -1 },
        false,
    );
    proof {
        quads = quads.push(false);
    }
    // Top (+y)
    assert(winding(pt(-1, 1, 1), pt(1, 1, 1), pt(1, 1, -1), pt(0, 1, 0)) > 0) by (nonlinear_arith);
    assert(winding(pt(1, 1, -1), pt(-1, 1, -1), pt(-1, 1, 1), pt(0, 1, 0)) > 0) by (nonlinear_arith);
    push_quad(
        &mut m,
        Ghost(quads),
        Point3 { x: 0, y: 1, z: 0 },
        Point3 { x: -1, y: 1, z: 1 },
        Point3 { x: 1, y: 1, z: 1 },
        Point3 { x: 1, y: 1, z: -1 },
        Point3 { x: -1, y: 1, z: -1 },
        false,
    );
    proof {
        quads = quads.push(false);
    }
    // Bottom (-y)
    assert(winding(pt(-1, -1, -1), pt(1, -1, -1), pt(1, -1, 1), pt(0, -1, 0)) > 0) by (nonlinear_arith);
    assert(winding(pt(1, -1, 1), pt(-1, -1, 1), pt(-1, -1, -1), pt(0, -1, 0)) > 0) by (nonlinear_arith);
    push_quad(
        &mut m,
        Ghost(quads),
        Point3 { x: 0, y: -1, z: 0 },
        Point3 { x: -1, y: -1, z: -1 },
        Point3 { x: 1, y: -1, z: -1 },
        Point3 { x: 1, y: -1, z: 1 },
        Point3 { x: -1, y: -1, z: 1 },
        false,
    );
    proof {
        quads = quads.push(false);
    }
    // Right (+x)
    assert(winding(pt(1, -1, 1), pt(1, -1, -1), pt(1, 1, -1), pt(1, 0, 0)) > 0) by (nonlinear_arith);
    assert(winding(pt(1, 1, -1), pt(1, 1, 1), pt(1, -1, 1), pt(1, 0, 0)) > 0) by (nonlinear_arith);
    push_quad(
        &mut m,
        Ghost(quads),
        Point3 { x: 1, y: 0, z: 0 },
        Point3 { x: 1, y: -1, z: 1 },
        Point3 { x: 1, y: -1, z: -1 },
        Point3 { x: 1, y: 1, z: -1 },
        Point3 { x: 1, y: 1, z: 1 },
        false,
    );
    proof {
        quads = quads.push(false);
    }
    // Left (-x)
    assert(winding(pt(-1, -1, -1), pt(-1, -1, 1), pt(-1, 1, 1), pt(-1, 0, 0)) > 0) by (nonlinear_arith);
    assert(winding(pt(-1, 1, 1), pt(-1, 1, -1), pt(-1, -1, -1), pt(-1, 0, 0)) > 0) by (nonlinear_arith);
    push_quad(
        &mut m,
        Ghost(quads),
        Point3 { x: -1, y: 0, z: 0 },
        Point3 { x: -1, y: -1, z: -1 },
        Point3 { x: -1, y: -1, z: 1 },
        Point3 { x: -1, y: 1, z: 1 },
        Point3 { x: -1, y: 1, z: -1 },
        false,
    );
    proof {
        quads = quads.push(false);
    }
    proof {
        assert(m.vertices@ =~= cube_corners());
        assert forall|k: int| 0 <= k < m.vertices@.len() implies #[trigger] on_unit_box(m.vertices@[k].position) by {
            assert(0 <= k < 24);
        }
        assert forall|k: int| 0 <= k < 36 implies #[trigger] m.indices@[k] as int == 4 * (k / 6) + quad_corner(
            false,
            k % 6,
        ) by {
            assert(0 <= k / 6 < 6);
            assert(quads[k / 6] == false);
        }
    }
    m
}

/// Corners of the square plane of side `2`, lying on `y == 0`: the four
/// corners seen from above, then the same four seen from below.
pub open spec fn plane_corners() -> Seq<CornerVertex> {
    let up = pt(0, 1, 0);
    let down = pt(0, -1, 0);
    seq![
        corner_vertex(pt(-1, 0, 1), up), corner_vertex(pt(1, 0, 1), up),
        corner_vertex(pt(1, 0, -1), up), corner_vertex(pt(-1, 0, -1), up),
        corner_vertex(pt(-1, 0, 1), down), corner_vertex(pt(1, 0, 1), down),
        corner_vertex(pt(1, 0, -1), down), corner_vertex(pt(-1, 0, -1), down),
    ]
}

/// A square plane, visible from both sides: a top face and a bottom face
/// that reuses the top's corner order with reversed winding. Coordinates
/// are in half-side units.
pub fn create_plane() -> (m: TriangleMesh)
    ensures
        m.vertices@ == plane_corners(),
        m.indices@.len() == 12,
        forall|k: int| 0 <= k < 12 ==> #[trigger] m.indices@[k] as int == 4 * (k / 6) + quad_corner(k >= 6, k % 6),
        m.indices_in_range(),
        m.faces_outward(),
        m.flat_on_y(),
{
    let mut m = TriangleMesh { vertices: Vec::new(), indices: Vec::new() };
    let ghost top: Seq<bool> = seq![];
    let ghost both: Seq<bool> = seq![false];
    proof {
        assert(m.indices@.len() / 3 == 0);
    }
    assert(winding(pt(-1, 0, 1), pt(1, 0, 1), pt(1, 0, -1), pt(0, 1, 0)) > 0) by (nonlinear_arith);
    assert(winding(pt(1, 0, -1), pt(-1, 0, -1), pt(-1, 0, 1), pt(0, 1, 0)) > 0) by (nonlinear_arith);
    push_quad(
        &mut m,
        Ghost(top),
        Point3 { x: 0, y: 1, z: 0 },
        Point3 { x: -1, y: 0, z: 1 },
        Point3 { x: 1, y: 0, z: 1 },
        Point3 { x: 1, y: 0, z: -1 },
        Point3 { x: -1, y: 0, z: -1 },
        false,
    );
    assert(winding(pt(-1, 0, 1), pt(1, 0, -1), pt(1, 0, 1), pt(0, -1, 0)) > 0) by (nonlinear_arith);
    assert(winding(pt(1, 0, -1), pt(-1, 0, 1), pt(-1, 0, -1), pt(0, -1, 0)) > 0) by (nonlinear_arith);
    push_quad(
        &mut m,
        Ghost(both),
        Point3 { x: 0, y: -1, z: 0 },
        Point3 { x: -1, y: 0, z: 1 },
        Point3 { x: 1, y: 0, z: 1 },
        Point3 { x: 1, y: 0, z: -1 },
        Point3 { x: -1, y: 0, z: -1 },
        true,
    );
    proof {
        let quads = seq![false, true];
        assert(seq![false].push(true) =~= quads);
        assert(m.vertices@ =~= plane_corners());
        assert forall|k: int| 0 <= k < 12 implies #[trigger] m.indices@[k] as int == 4 * (k / 6) + quad_corner(
            k >= 6,
            k % 6,
        ) by {
            assert(quad_run(quads, k) == 4 * (k / 6) + quad_corner(quads[k / 6], k % 6));
            if k < 6 {
                assert(k / 6 == 0);
            } else {
                assert(k / 6 == 1);
            }
        }
        assert forall|k: int| 0 <= k < m.vertices@.len() implies (#[trigger] m.vertices@[k]).position.y == 0 by {
            assert(0 <= k < 8);
        }
    }
    m
}

/// One coordinate of a grid vertex, in the grid's own terms: zero, the
/// grid's half extent on either side, or the position of grid line `i`,
/// which is `-half + i * spacing`.
#[derive(Clone, Copy, Debug, PartialEq, Eq)]
pub enum GridCoord {
    Zero,
    NegHalf,
    PosHalf,
    Step(u32),
}

#[derive(Clone, Copy, Debug, PartialEq, Eq)]
pub struct GridVertex {
    pub x: GridCoord,
    pub y: GridCoord,
    pub z: GridCoord,
}

/// A line list: vertices `indices[2j]` and `indices[2j + 1]` bound line `j`.
pub struct LineGrid {
    pub vertices: Vec<GridVertex>,
    pub indices: Vec<u16>,
}

/// The value of a grid coordinate in half-spacing units, for a grid of
/// `size` cells a side.
pub open spec fn grid_coord_value(c: GridCoord, size: int) -> int {
    match c {
        GridCoord::Zero => 0,
        GridCoord::NegHalf => -size,
        GridCoord::PosHalf => size,
        GridCoord::Step(i) => 2 * i - size,
    }
}

/// An end of grid line `i` in the plane selected by `plane_normal` (`0`:
/// the `xz` plane, `1`: the `xy` plane, otherwise the `yz` plane). Lines
/// `across` run along the plane's first axis, the others along its second;
/// `high` picks the end at the positive half extent.
pub open spec fn grid_end(plane_normal: u8, across: bool, i: int, high: bool) -> GridVertex {
    let span = if high { GridCoord::PosHalf } else { GridCoord::NegHalf };
    let step = GridCoord::Step(i as u32);
    if across {
        if plane_normal == 0 {
            GridVertex { x: span, y: GridCoord::Zero, z: step }
        } else if plane_normal == 1 {
            GridVertex { x: span, y: step, z: GridCoord::Zero }
        } else {
            GridVertex { x: GridCoord::Zero, y: span, z: step }
        }
    } else {
        if plane_normal == 0 {
            GridVertex { x: step, y: GridCoord::Zero, z: span }
        } else if plane_normal == 1 {
            GridVertex { x: step, y: span, z: GridCoord::Zero }
        } else {
            GridVertex { x: GridCoord::Zero, y: step, z: span }
        }
    }
}

/// Vertex `k` of the grid of `size` cells a side: the first
/// `2 * (size + 1)` vertices bound the lines across, two per line, the
/// rest the lines along the plane's second axis.
pub open spec fn grid_vertex(size: int, plane_normal: u8, k: int) -> GridVertex {
    let n = size + 1;
    let across = k < 2 * n;
    let j = if across { k } else { k - 2 * n };
    grid_end(plane_normal, across, j / 2, j % 2 == 1)
}

/// The vertex lies in the grid's plane: its coordinate along the plane's
/// normal is zero.
pub open spec fn in_grid_plane(v: GridVertex, plane_normal: u8) -> bool {
    if plane_normal == 0 {
        v.y == GridCoord::Zero
    } else if plane_normal == 1 {
        v.z == GridCoord::Zero
    } else {
        v.x == GridCoord::Zero
    }
}

fn grid_line(plane_normal: u8, across: bool, i: u32) -> (r: (GridVertex, GridVertex))
    ensures
        r.0 == grid_end(plane_normal, across, i as int, false),
        r.1 == grid_end(plane_normal, across, i as int, true),
{
    let s = GridCoord::Step(i);
    let lo = GridCoord::NegHalf;
    let hi = GridCoord::PosHalf;
    let z = GridCoord::Zero;
    if across {
        if plane_normal == 0 {
            (GridVertex { x: lo, y: z, z: s }, GridVertex { x: hi, y: z, z: s })
        } else if plane_normal == 1 {
            (GridVertex { x: lo, y: s, z }, GridVertex { x: hi, y: s, z })
        } else {
            (GridVertex { x: z, y: lo, z: s }, GridVertex { x: z, y: hi, z: s })
        }
    } else {
        if plane_normal == 0 {
            (GridVertex { x: s, y: z, z: lo }, GridVertex { x: s, y: z, z: hi })
        } else if plane_normal == 1 {
            (GridVertex { x: s, y: lo, z }, GridVertex { x: s, y: hi, z })
        } else {
            (GridVertex { x: z, y: s, z: lo }, GridVertex { x: z, y: s, z: hi })
        }
    }
}

/// The square line grid of `size` cells a side: `size + 1` lines along
/// each axis of the plane selected by `plane_normal`. Index `k` is `k`
/// reduced to 16 bits, so the indices name their vertices whenever the
/// grid has at most 65536 vertices.
pub fn create_grid(size: u32, plane_normal: u8) -> (g: LineGrid)
    ensures
        g.vertices@.len() == 4 * (size + 1),
        g.indices@.len() == 4 * (size + 1),
        forall|k: int|
            0 <= k < g.vertices@.len() ==> #[trigger] g.vertices@[k] == grid_vertex(size as int, plane_normal, k),
        forall|k: int| 0 <= k < g.indices@.len() ==> #[trigger] g.indices@[k] as int == k % 65536,
        forall|k: int| 0 <= k < g.vertices@.len() ==> in_grid_plane(#[trigger] g.vertices@[k], plane_normal),
        4 * (size + 1) <= 65536 ==> all_below(g.indices@, g.vertices@.len() as int),
{
    let mut vertices: Vec<GridVertex> = Vec::new();
    let mut indices: Vec<u16> = Vec::new();
    let n: u64 = size as u64 + 1;
    let mut pass: u64 = 0;
    while pass < 2
        invariant
            n == size + 1,
            pass <= 2,
            vertices@.len() == 2 * n * pass,
            indices@.len() == vertices@.len(),
            forall|k: int| 0 <= k < vertices@.len() ==> #[trigger] vertices@[k] == grid_vertex(size as int, plane_normal, k),
            forall|k: int| 0 <= k < indices@.len() ==> #[trigger] indices@[k] as int == k % 65536,
        decreases 2 - pass,
    {
        let mut i: u64 = 0;
        while i < n
            invariant
                n == size + 1,
                pass < 2,
                i <= n,
                vertices@.len() == 2 * n * pass + 2 * i,
                indices@.len() == vertices@.len(),
                forall|k: int|
                    0 <= k < vertices@.len() ==> #[trigger] vertices@[k] == grid_vertex(size as int, plane_normal, k),
                forall|k: int| 0 <= k < indices@.len() ==> #[trigger] indices@[k] as int == k % 65536,
            decreases n - i,
        {
            let len = vertices.len();
            let idx = (len % 65536) as u16;
            proof {
                assert(len == 2 * (n * pass + i)) by (nonlinear_arith)
                    requires len == 2 * n * pass + 2 * i;
                assert(idx % 2 == 0);
            }
            let (a, b) = grid_line(plane_normal, pass == 0, i as u32);
            let ghost old_v = vertices@;
            vertices.push(a);
            vertices.push(b);
            indices.push(idx);
            indices.push(idx + 1);
            proof {
                let k0 = len as int;
                assert(k0 == 2 * n * pass + 2 * i);
                if pass == 0 {
                    assert(k0 == 2 * i);
                } else {
                    assert(k0 == 2 * n + 2 * i) by (nonlinear_arith)
                        requires k0 == 2 * n * pass + 2 * i, pass == 1;
                }
                assert(vertices@[k0] == grid_vertex(size as int, plane_normal, k0));
                assert(vertices@[k0 + 1] == grid_vertex(size as int, plane_normal, k0 + 1));
                assert((k0 + 1) % 65536 == idx + 1);
            }
            i = i + 1;
        }
        proof {
            assert(vertices@.len() == 2 * n * (pass + 1)) by (nonlinear_arith)
                requires vertices@.len() == 2 * n * pass + 2 * i, i == n;
        }
        pass = pass + 1;
    }
    let g = LineGrid { vertices, indices };
    proof {
        assert(g.vertices@.len() == 4 * (size + 1)) by (nonlinear_arith)
            requires g.vertices@.len() == 2 * n * 2, n == size + 1;
        assert forall|k: int| 0 <= k < g.vertices@.len() implies in_grid_plane(#[trigger] g.vertices@[k], plane_normal) by {
            assert(g.vertices@[k] == grid_vertex(size as int, plane_normal, k));
        }
        if 4 * (size + 1) <= 65536 {
            assert forall|k: int| 0 <= k < g.indices@.len() implies (#[trigger] g.indices@[k] as int) < g.vertices@.len() by {
                assert(g.indices@[k] as int == k % 65536);
            }
        }
    }
    g
}

/// The vertex that index slot `k` of a latitude/longitude sphere names,
/// before reduction to 16 bits. The sphere's vertices form `lat + 1` rings
/// of `long + 1`; cell `(i, j)` is the quad between rings `i` and `i + 1`
/// and meridians `j` and `j + 1`, drawn as triangles
/// `(first, second, second + 1)` and `(first, second + 1, first + 1)`,
/// with `first = i * (long + 1) + j` and `second = first + long + 1`.
pub open spec fn sphere_corner(long: int, k: int) -> int {
    let cell = k / 6;
    let first = (cell / long) * (long + 1) + cell % long;
    let second = first + long + 1;
    let s = k % 6;
    if s == 0 || s == 3 {
        first
    } else if s == 1 {
        second
    } else if s == 2 || s == 4 {
        second + 1
    } else {
        first + 1
    }
}

proof fn lemma_sphere_cell(lat: int, long: int, i: int, j: int, s: int)
    requires
        0 <= i < lat,
        0 <= j < long,
        0 <= s < 6,
    ensures
        sphere_corner(long, 6 * (i * long + j) + s) == if s == 0 || s == 3 {
            i * (long + 1) + j
        } else if s == 1 {
            i * (long + 1) + j + long + 1
        } else if s == 2 || s == 4 {
            i * (long + 1) + j + long + 2
        } else {
            i * (long + 1) + j + 1
        },
        0 <= sphere_corner(long, 6 * (i * long + j) + s) < (lat + 1) * (long + 1),
{
    let c = i * long + j;
    assert(i * long + j >= 0) by (nonlinear_arith)
        requires 0 <= i, 0 <= j, 0 <= long;
    let k = 6 * c + s;
    lemma_fundamental_div_mod_converse(k, 6, c, s);
    assert(k / 6 == c && k % 6 == s);
    lemma_fundamental_div_mod_converse(c, long, i, j);
    assert(c / long == i && c % long == j);
    assert(i * (long + 1) + j + long + 2 < (lat + 1) * (long + 1)) by (nonlinear_arith)
        requires 0 <= i < lat, 0 <= j < long;
    assert(i * (long + 1) + j >= 0) by (nonlinear_arith)
        requires 0 <= i, 0 <= j, 0 <= long;
}

/// The index list of a latitude/longitude sphere with `lat` rings of cells
/// and `long` cells per ring, cell by cell, ring after ring, each index
/// reduced to 16 bits. Its vertices are the `(lat + 1) * (long + 1)` ring
/// points, ring after ring; when they number at most 65536 every index
/// names one of them.
pub fn sphere_indices(lat: u32, long: u32) -> (r: Vec<u16>)
    requires
        lat == 0 || long == 0 || (lat + 1) * (long + 1) <= 0x1_0000_0000,
    ensures
        r@.len() == 6 * lat * long,
        forall|k: int| 0 <= k < r@.len() ==> #[trigger] r@[k] as int == sphere_corner(long as int, k) % 65536,
        (lat + 1) * (long + 1) <= 65536 ==> all_below(r@, (lat + 1) * (long + 1)),
{
    let mut r: Vec<u16> = Vec::new();
    let mut i: u32 = 0;
    while i < lat
        invariant
            i <= lat,
            lat == 0 || long == 0 || (lat + 1) * (long + 1) <= 0x1_0000_0000,
            r@.len() == 6 * (i * long),
            forall|k: int| 0 <= k < r@.len() ==> #[trigger] r@[k] as int == sphere_corner(long as int, k) % 65536,
            forall|k: int| 0 <= k < r@.len() ==> 0 <= #[trigger] sphere_corner(long as int, k) < (lat + 1) * (long + 1),
        decreases lat - i,
    {
        let mut j: u32 = 0;
        while j < long
            invariant
                i < lat,
                j <= long,
                lat == 0 || long == 0 || (lat + 1) * (long + 1) <= 0x1_0000_0000,
                r@.len() == 6 * (i * long + j),
                forall|k: int| 0 <= k < r@.len() ==> #[trigger] r@[k] as int == sphere_corner(long as int, k) % 65536,
                forall|k: int|
                    0 <= k < r@.len() ==> 0 <= #[trigger] sphere_corner(long as int, k) < (lat + 1) * (long + 1),
            decreases long - j,
        {
            proof {
                assert(i * (long + 1) + j + long + 2 <= (lat + 1) * (long + 1)) by (nonlinear_arith)
                    requires i < lat, j < long;
                assert((i as int) * (long + 1) <= 0x1_0000_0000) by (nonlinear_arith)
                    requires i < lat, (lat + 1) * (long + 1) <= 0x1_0000_0000;
            }
            let first: u64 = i as u64 * (long as u64 + 1) + j as u64;
            let second: u64 = first + long as u64 + 1;
            let ghost base = r@.len() as int;
            r.push((first % 65536) as u16);
            r.push((second % 65536) as u16);
            r.push(((second + 1) % 65536) as u16);
            r.push((first % 65536) as u16);
            r.push(((second + 1) % 65536) as u16);
            r.push(((first + 1) % 65536) as u16);
            proof {
                assert forall|k: int| 0 <= k < r@.len() implies #[trigger] r@[k] as int == sphere_corner(long as int, k)
                    % 65536 by {
                    if k >= base {
                        lemma_sphere_cell(lat as int, long as int, i as int, j as int, k - base);
                    }
                }
                assert forall|k: int| 0 <= k < r@.len() implies 0 <= #[trigger] sphere_corner(long as int, k) < (lat + 1)
                    * (long + 1) by {
                    if k >= base {
                        lemma_sphere_cell(lat as int, long as int, i as int, j as int, k - base);
                    }
                }
            }
            j = j + 1;
        }
        proof {
            assert(6 * (i * long + j) == 6 * ((i + 1) * long)) by (nonlinear_arith)
                requires j == long;
        }
        i = i + 1;
    }
    proof {
        assert(6 * (i * long) == 6 * lat * long) by (nonlinear_arith)
            requires i == lat;
        if (lat + 1) * (long + 1) <= 65536 {
            assert forall|k: int| 0 <= k < r@.len() implies (#[trigger] r@[k] as int) < (lat + 1) * (long + 1) by {
                assert(0 <= sphere_corner(long as int, k) < (lat + 1) * (long + 1));
            }
        }
    }
    r
}

/// Number of sides of the cylinders that draw the axes and arrow shafts.
pub const CYLINDER_SEGMENTS: u16 = 12;

/// Number of vertices of such a cylinder: a bottom and a top point on
/// each of its `CYLINDER_SEGMENTS + 1` side lines (the last repeats the
/// first).
pub const CYLINDER_VERTICES: u16 = 26;

/// Number of sides of the cone that draws an arrow head.
pub const CONE_SEGMENTS: u16 = 8;

/// Index slot `k` of a cylinder side: side `i` is the quad between side
/// lines `i` and `i + 1`, whose bottom and top points are vertices `2i`,
/// `2i + 1`, drawn as triangles `(2i, 2i+2, 2i+3)` and `(2i, 2i+3, 2i+1)`.
pub open spec fn cylinder_corner(k: int) -> int {
    let idx = 2 * (k / 6);
    let s = k % 6;
    idx + if s == 0 || s == 3 {
        0int
    } else if s == 1 {
        2int
    } else if s == 2 || s == 4 {
        3int
    } else {
        1int
    }
}

/// The index list of a cylinder's side.
pub fn cylinder_indices() -> (r: Vec<u16>)
    ensures
        r@.len() == 6 * CYLINDER_SEGMENTS,
        forall|k: int| 0 <= k < r@.len() ==> #[trigger] r@[k] as int == cylinder_corner(k),
        all_below(r@, CYLINDER_VERTICES as int),
{
    let mut r: Vec<u16> = Vec::new();
    let mut i: u16 = 0;
    while i < CYLINDER_SEGMENTS
        invariant
            i <= CYLINDER_SEGMENTS,
            r@.len() == 6 * i,
            forall|k: int| 0 <= k < r@.len() ==> #[trigger] r@[k] as int == cylinder_corner(k),
            all_below(r@, CYLINDER_VERTICES as int),
        decreases CYLINDER_SEGMENTS - i,
    {
        let idx = i * 2;
        let ghost base = r@.len() as int;
        r.push(idx);
        r.push(idx + 2);
        r.push(idx + 3);
        r.push(idx);
        r.push(idx + 3);
        r.push(idx + 1);
        proof {
            assert forall|k: int| 0 <= k < r@.len() implies #[trigger] r@[k] as int == cylinder_corner(k) by {
                if k >= base {
                    assert(k / 6 == i as int);
                    assert(k % 6 == k - base);
                }
            }
        }
        i = i + 1;
    }
    r
}

/// Index slot `k` of a cone whose tip is vertex `start` and whose base
/// points are the next `CONE_SEGMENTS` vertices: side `i` is the triangle
/// `(tip, base i, base i + 1)`, the last side closing the ring.
pub open spec fn cone_corner(start: int, k: int) -> int {
    let i = k / 3;
    let s = k % 3;
    if s == 0 {
        start
    } else if s == 1 {
        start + 1 + i
    } else {
        start + 1 + (i + 1) % (CONE_SEGMENTS as int)
    }
}

/// The index list of a cone drawn from vertex `start` on.
pub fn cone_indices(start: u16) -> (r: Vec<u16>)
    requires
        start + CONE_SEGMENTS < 65536,
    ensures
        r@.len() == 3 * CONE_SEGMENTS,
        forall|k: int| 0 <= k < r@.len() ==> #[trigger] r@[k] as int == cone_corner(start as int, k),
        forall|k: int| 0 <= k < r@.len() ==> start <= #[trigger] r@[k] <= start + CONE_SEGMENTS,
{
    let mut r: Vec<u16> = Vec::new();
    let mut i: u16 = 0;
    while i < CONE_SEGMENTS
        invariant
            i <= CONE_SEGMENTS,
            start + CONE_SEGMENTS < 65536,
            r@.len() == 3 * i,
            forall|k: int| 0 <= k < r@.len() ==> #[trigger] r@[k] as int == cone_corner(start as int, k),
            forall|k: int| 0 <= k < r@.len() ==> start <= #[trigger] r@[k] <= start + CONE_SEGMENTS,
        decreases CONE_SEGMENTS - i,
    {
        let current = start + 1 + i;
        let next = start + 1 + (i + 1) % CONE_SEGMENTS;
        let ghost base = r@.len() as int;
        r.push(start);
        r.push(current);
        r.push(next);
        proof {
            assert forall|k: int| 0 <= k < r@.len() implies #[trigger] r@[k] as int == cone_corner(start as int, k)
                by {
                if k >= base {
                    assert(k / 3 == i as int);
                    assert(k % 3 == k - base);
                }
            }
        }
        i = i + 1;
    }
    r
}

/// Shifts every index by `offset`, as when a part's vertices are appended
/// after `offset` others.
pub fn offset_indices(indices: &mut Vec<u16>, offset: u16)
    requires
        forall|k: int| 0 <= k < old(indices)@.len() ==> #[trigger] old(indices)@[k] + offset < 65536,
    ensures
        final(indices)@.len() == old(indices)@.len(),
        forall|k: int| 0 <= k < final(indices)@.len() ==> #[trigger] final(indices)@[k] == old(indices)@[k] + offset,
{
    let ghost original = indices@;
    let mut k: usize = 0;
    while k < indices.len()
        invariant
            k <= indices@.len(),
            indices@.len() == original.len(),
            forall|j: int| 0 <= j < original.len() ==> #[trigger] original[j] + offset < 65536,
            forall|j: int| 0 <= j < k ==> #[trigger] indices@[j] == original[j] + offset,
            forall|j: int| k <= j < indices@.len() ==> #[trigger] indices@[j] == original[j],
        decreases original.len() - k,
    {
        let shifted = indices[k] + offset;
        indices.set(k, shifted);
        k = k + 1;
    }
}

/// Shifting indices that name vertices below `n` by `offset` makes them
/// name vertices below `n + offset`.
pub proof fn lemma_offset_keeps_range(before: Seq<u16>, after: Seq<u16>, n: int, offset: int)
    requires
        all_below(before, n),
        after.len() == before.len(),
        forall|k: int| 0 <= k < after.len() ==> #[trigger] after[k] == before[k] + offset,
    ensures
        all_below(after, n + offset),
{
    assert forall|k: int| 0 <= k < after.len() implies (#[trigger] after[k] as int) < n + offset by {
        assert(after[k] == before[k] + offset);
        assert((before[k] as int) < n);
    }
}

/// The index list of the three axis cylinders (x, y, then z), each
/// cylinder's indices shifted past the vertices of those before it.
pub fn thick_axes_indices() -> (r: Vec<u16>)
    ensures
        r@.len() == 3 * 6 * CYLINDER_SEGMENTS,
        forall|k: int|
            0 <= k < r@.len() ==> #[trigger] r@[k] as int == CYLINDER_VERTICES * (k / (6 * CYLINDER_SEGMENTS))
                + cylinder_corner(k % (6 * CYLINDER_SEGMENTS)),
        all_below(r@, 3 * CYLINDER_VERTICES),
{
    let mut r: Vec<u16> = Vec::new();
    let mut axis: u16 = 0;
    while axis < 3
        invariant
            axis <= 3,
            r@.len() == 72 * axis,
            forall|k: int| 0 <= k < r@.len() ==> #[trigger] r@[k] as int == 26 * (k / 72) + cylinder_corner(k % 72),
            all_below(r@, 26 * axis),
        decreases 3 - axis,
    {
        let mut part = cylinder_indices();
        let ghost plain = part@;
        let offset = axis * CYLINDER_VERTICES;
        offset_indices(&mut part, offset);
        proof {
            lemma_offset_keeps_range(plain, part@, 26, offset as int);
        }
        let ghost before = r@;
        let ghost shifted = part@;
        r.append(&mut part);
        proof {
            assert forall|k: int| 0 <= k < r@.len() implies #[trigger] r@[k] as int == 26 * (k / 72) + cylinder_corner(
                k % 72,
            ) by {
                if k >= before.len() {
                    let j = k - before.len();
                    assert(r@ == before.add(shifted));
                    assert(r@[k] == shifted[j]);
                    assert(k / 72 == axis as int);
                    assert(k % 72 == j);
                } else {
                    assert(r@[k] == before[k]);
                }
            }
            assert forall|k: int| 0 <= k < r@.len() implies (#[trigger] r@[k] as int) < 26 * (axis + 1) by {
                if k >= before.len() {
                    let j = k - before.len();
                    assert(r@ == before.add(shifted));
                    assert(r@[k] == shifted[j]);
                    assert((shifted[j] as int) < 26 + offset);
                } else {
                    assert(r@[k] == before[k]);
                    assert((before[k] as int) < 26 * axis);
                }
            }
        }
        axis = axis + 1;
    }
    r
}

/// The index list of an arrow: the shaft cylinder, then the head cone
/// whose tip follows the shaft's vertices.
pub fn arrow_indices() -> (r: Vec<u16>)
    ensures
        r@.len() == 6 * CYLINDER_SEGMENTS + 3 * CONE_SEGMENTS,
        forall|k: int| 0 <= k < 6 * CYLINDER_SEGMENTS ==> #[trigger] r@[k] as int == cylinder_corner(k),
        forall|k: int|
            6 * CYLINDER_SEGMENTS <= k < r@.len() ==> #[trigger] r@[k] as int == cone_corner(
                CYLINDER_VERTICES as int,
                k - 6 * CYLINDER_SEGMENTS,
            ),
        all_below(r@, CYLINDER_VERTICES + 1 + CONE_SEGMENTS),
{
    let mut r = cylinder_indices();
    let mut head = cone_indices(CYLINDER_VERTICES);
    let ghost shaft = r@;
    let ghost cone = head@;
    r.append(&mut head);
    proof {
        assert(r@ == shaft.add(cone));
        assert forall|k: int| 0 <= k < r@.len() implies (#[trigger] r@[k] as int) < 35 by {
            if k >= shaft.len() {
                assert(r@[k] == cone[k - shaft.len()]);
            } else {
                assert(r@[k] == shaft[k]);
            }
        }
    }
    r
}

} // verus!
