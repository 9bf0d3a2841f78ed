//! Solid meshes: which reader a model file needs, the merging of the
//! triangle lists of its parts into one 32-bit index list, and the index
//! layout of double-sided surfaces.

use vstd::prelude::*;
use crate::text::{ascii_lower, chars_eq_str, lower_chars_of, string_of};

verus! {

/// The readers of solid-model files.
#[derive(Debug, Clone, Copy, PartialEq, Eq, Structural)]
pub enum MeshFormat {
    Stl,
    Obj,
    /// glTF, text (`.gltf`) or binary (`.glb`).
    Gltf,
}

/// The reader for a lower-cased extension, or why there is none.
pub open spec fn mesh_format_of(lower: Seq<char>) -> Result<MeshFormat, Seq<char>> {
    if lower == "stl"@ {
        Ok(MeshFormat::Stl)
    } else if lower == "obj"@ {
        Ok(MeshFormat::Obj)
    } else if lower == "gltf"@ || lower == "glb"@ {
        Ok(MeshFormat::Gltf)
    } else if lower == "step"@ || lower == "stp"@ {
        Err("STEP import is not supported yet (no tessellation backend)"@)
    } else {
        Err("unsupported 3D model format '"@ + lower + "' (expected stl, obj, gltf or glb)"@)
    }
}

/// The reader for a file extension (ASCII-case-insensitive); STEP files
/// and unknown extensions are refused with a message.
pub fn mesh_format(ext: &str) -> (r: Result<MeshFormat, String>)
    ensures
        match mesh_format_of(ascii_lower(ext@)) {
            Ok(f) => r == Ok::<MeshFormat, String>(f),
            Err(m) => r matches Err(e) && e@ == m,
        },
{
    let lower = lower_chars_of(ext);
    if chars_eq_str(&lower, "stl") {
        Ok(MeshFormat::Stl)
    } else if chars_eq_str(&lower, "obj") {
        Ok(MeshFormat::Obj)
    } else if chars_eq_str(&lower, "gltf") || chars_eq_str(&lower, "glb") {
        Ok(MeshFormat::Gltf)
    } else if chars_eq_str(&lower, "step") || chars_eq_str(&lower, "stp") {
        Err(String::from_str("STEP import is not supported yet (no tessellation backend)"))
    } else {
        let mut m = String::from_str("unsupported 3D model format '");
        m.append(string_of(&lower).as_str());
        m.append("' (expected stl, obj, gltf or glb)");
        Err(m)
    }
}

/// A model file's reader is chosen by its extension alone, ignoring ASCII
/// case: `stl` and `obj` their own readers, `gltf` and `glb` the glTF
/// reader; `step` and `stp` are refused as not yet supported, and every
/// other extension as unknown.
pub proof fn lemma_mesh_extensions(ext: Seq<char>)
    ensures
        (mesh_format_of(ascii_lower(ext)) == Ok::<MeshFormat, Seq<char>>(MeshFormat::Stl)) == (ascii_lower(ext)
            == "stl"@),
        (mesh_format_of(ascii_lower(ext)) == Ok::<MeshFormat, Seq<char>>(MeshFormat::Obj)) == (ascii_lower(ext)
            == "obj"@),
        (mesh_format_of(ascii_lower(ext)) == Ok::<MeshFormat, Seq<char>>(MeshFormat::Gltf)) == (ascii_lower(ext)
            == "gltf"@ || ascii_lower(ext) == "glb"@),
        (mesh_format_of(ascii_lower(ext)) == Err::<MeshFormat, Seq<char>>(
            "STEP import is not supported yet (no tessellation backend)"@,
        )) == (ascii_lower(ext) == "step"@ || ascii_lower(ext) == "stp"@),
{
    reveal_strlit("stl");
    reveal_strlit("obj");
    reveal_strlit("gltf");
    reveal_strlit("glb");
    reveal_strlit("step");
    reveal_strlit("stp");
    reveal_strlit("STEP import is not supported yet (no tessellation backend)");
    reveal_strlit("unsupported 3D model format '");
    reveal_strlit("' (expected stl, obj, gltf or glb)");
    let l = ascii_lower(ext);
    let step = "STEP import is not supported yet (no tessellation backend)"@;
    let other = "unsupported 3D model format '"@ + l + "' (expected stl, obj, gltf or glb)"@;
    if l == "obj"@ {
        assert(l[0] != "stl"@[0]);
    } else if l == "gltf"@ || l == "glb"@ {
        assert(l[0] != "stl"@[0] && l[0] != "obj"@[0]);
    } else if l == "step"@ || l == "stp"@ {
        assert(l[2] != "stl"@[2] && l[0] != "obj"@[0] && l[0] != "glb"@[0]);
    } else {
        assert(other[0] != step[0]);
    }
}

/// Whether every index of a part stays a 32-bit index once shifted past
/// the `base` vertices already merged.
pub open spec fn offsets_fit(more: Seq<u32>, base: u32) -> bool {
    forall|k: int| 0 <= k < more.len() ==> base + #[trigger] more[k] <= u32::MAX
}

/// Append a part's triangle indices, shifted past the `base` vertices
/// already merged.
pub fn append_offset(indices: &mut Vec<u32>, more: &[u32], base: u32)
    requires
        offsets_fit(more@, base),
    ensures
        final(indices)@ == old(indices)@ + Seq::new(more@.len(), |k: int| (base + more@[k]) as u32),
{
    let ghost start = indices@;
    let mut k: usize = 0;
    while k < more.len()
        invariant
            k <= more@.len(),
            offsets_fit(more@, base),
            indices@ == start + Seq::new(k as nat, |i: int| (base + more@[i]) as u32),
        decreases more@.len() - k,
    {
        indices.push(base + more[k]);
        proof {
            assert(indices@ =~= start + Seq::new((k + 1) as nat, |i: int| (base + more@[i]) as u32));
        }
        k = k + 1;
    }
}

/// Whether the merged parts' indices fit, checking each part before it is
/// appended (see `append_offset`).
pub fn part_fits(more: &[u32], base: u32) -> (r: bool)
    ensures
        r == offsets_fit(more@, base),
{
    let mut k: usize = 0;
    while k < more.len()
        invariant
            k <= more@.len(),
            forall|i: int| 0 <= i < k ==> base + #[trigger] more@[i] <= u32::MAX,
        decreases more@.len() - k,
    {
        if more[k] > u32::MAX - base {
            return false;
        }
        k = k + 1;
    }
    true
}

/// Which corner of a front triangle the `c`-th corner of its back copy
/// takes: the back copy runs the other way round.
pub open spec fn back_corner(c: int) -> int {
    if c == 0 { 0 } else if c == 1 { 2 } else { 1 }
}

/// The indices of a double-sided surface over `n` points: the whole
/// triangles of `tris` as they are, then each again with its winding
/// reversed and shifted onto the second copy of the points (`n..2n`).
pub open spec fn double_sided_of(tris: Seq<usize>, n: nat) -> Seq<u32> {
    let m = tris.len() / 3;
    Seq::new(
        6 * m,
        |i: int|
            if i < 3 * m {
                tris[i] as u32
            } else {
                let j = (i - 3 * m) / 3;
                (tris[3 * j + back_corner((i - 3 * m) % 3)] + n) as u32
            },
    )
}

/// The triangle indices of a double-sided surface (see `double_sided_of`).
pub fn double_sided(tris: &[usize], n: usize) -> (r: Vec<u32>)
    requires
        forall|k: int| 0 <= k < tris@.len() ==> #[trigger] tris@[k] < n,
        2 * n <= u32::MAX + 1,
    ensures
        r@ == double_sided_of(tris@, n as nat),
{
    let m = tris.len() / 3;
    let whole = m * 3;
    let ghost want = double_sided_of(tris@, n as nat);
    let mut out: Vec<u32> = Vec::new();
    let mut i: usize = 0;
    while i < whole
        invariant
            m == tris@.len() / 3,
            whole == 3 * m,
            i <= 3 * m,
            3 * m <= tris@.len(),
            forall|k: int| 0 <= k < tris@.len() ==> #[trigger] tris@[k] < n,
            2 * n <= u32::MAX + 1,
            want == double_sided_of(tris@, n as nat),
            out@ == want.take(i as int),
        decreases whole - i,
    {
        out.push(tris[i] as u32);
        proof {
            assert(out@ =~= want.take(i + 1));
        }
        i = i + 1;
    }
    let mut j: usize = 0;
    while j < m
        invariant
            m == tris@.len() / 3,
            whole == 3 * m,
            j <= m,
            3 * m <= tris@.len(),
            forall|k: int| 0 <= k < tris@.len() ==> #[trigger] tris@[k] < n,
            2 * n <= u32::MAX + 1,
            want == double_sided_of(tris@, n as nat),
            want.len() == 6 * m,
            out@ == want.take(3 * m + 3 * j),
        decreases m - j,
    {
        let b = 3 * j;
        let t0 = tris[b];
        let t1 = tris[b + 1];
        let t2 = tris[b + 2];
        out.push((t0 + n) as u32);
        out.push((t2 + n) as u32);
        out.push((t1 + n) as u32);
        proof {
            let s = 3 * m + 3 * j;
            assert((s - 3 * m) / 3 == j && (s - 3 * m) % 3 == 0);
            assert((s + 1 - 3 * m) / 3 == j && (s + 1 - 3 * m) % 3 == 1);
            assert((s + 2 - 3 * m) / 3 == j && (s + 2 - 3 * m) % 3 == 2);
            assert(out@ =~= want.take(s + 3));
        }
        j = j + 1;
    }
    proof {
        assert(want.take(6 * m) =~= want);
    }
    out
}

} // verus!
