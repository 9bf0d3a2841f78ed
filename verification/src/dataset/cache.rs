//! The projection cache: its key, and the byte layout of a cache file (a
//! little-endian u64 row count, then three little-endian `f32` values per
//! row, carried here as their bit patterns).

use vstd::prelude::*;
use vstd::utf8::encode_utf8;
use crate::bytes::{byte_range, le_digits, le_value, lemma_le_digits_len, lemma_le_round_trip, push_le};
use crate::dataset::preprocessor::{spec_tag, ProjectionSpec};
use crate::dataset::{concat_parts, fnv1a64, fnv_bytes, parts_view, DatasetError, FNV_OFFSET};

verus! {

/// The key of a cached projection: FNV-1a over the source path, the dataset
/// name, the source file's size and modification time (seconds), the shape
/// and the projection tag, so that any change to them gives another key.
pub fn cache_key_spec(
    source_path: &str,
    name: &str,
    size: u64,
    mtime: u64,
    n_rows: usize,
    n_cols: usize,
    spec: &ProjectionSpec,
) -> (r: u64)
    ensures
        r == fnv_bytes(
            FNV_OFFSET,
            concat_parts(
                seq![
                    encode_utf8(source_path@),
                    encode_utf8(name@),
                    le_digits(size as nat, 8),
                    le_digits(mtime as nat, 8),
                    le_digits(n_rows as nat, 8),
                    le_digits(n_cols as nat, 8),
                    encode_utf8(spec_tag(spec.method, spec.dims, spec.axes@)),
                ],
            ),
        ),
{
    let mut size_b: Vec<u8> = Vec::new();
    push_le(&mut size_b, size, 8);
    let mut mtime_b: Vec<u8> = Vec::new();
    push_le(&mut mtime_b, mtime, 8);
    let mut rows_b: Vec<u8> = Vec::new();
    push_le(&mut rows_b, n_rows as u64, 8);
    let mut cols_b: Vec<u8> = Vec::new();
    push_le(&mut cols_b, n_cols as u64, 8);
    let tag = spec.tag();
    let parts: [&[u8]; 7] = [
        source_path.as_bytes(),
        name.as_bytes(),
        size_b.as_slice(),
        mtime_b.as_slice(),
        rows_b.as_slice(),
        cols_b.as_slice(),
        tag.as_str().as_bytes(),
    ];
    let h = fnv1a64(&parts);
    proof {
        assert(parts_view(parts@) =~= seq![
            encode_utf8(source_path@),
            encode_utf8(name@),
            le_digits(size as nat, 8),
            le_digits(mtime as nat, 8),
            le_digits(n_rows as nat, 8),
            le_digits(n_cols as nat, 8),
            encode_utf8(spec_tag(spec.method, spec.dims, spec.axes@)),
        ]);
    }
    h
}

/// The bytes of one cached point: its three bit patterns, little-endian.
pub open spec fn point_bytes(p: Seq<u32>) -> Seq<u8> {
    le_digits(p[0] as nat, 4) + le_digits(p[1] as nat, 4) + le_digits(p[2] as nat, 4)
}

/// The bytes of a run of points, in order.
pub open spec fn points_bytes(ps: Seq<Seq<u32>>) -> Seq<u8>
    decreases ps.len(),
{
    if ps.len() == 0 {
        Seq::empty()
    } else {
        points_bytes(ps.drop_last()) + point_bytes(ps.last())
    }
}

/// A whole cache file: the row count as a u64, then the points.
pub open spec fn cache_bytes(ps: Seq<Seq<u32>>) -> Seq<u8> {
    le_digits(ps.len(), 8) + points_bytes(ps)
}

pub open spec fn points_view(ps: Seq<[u32; 3]>) -> Seq<Seq<u32>> {
    ps.map_values(|p: [u32; 3]| p@)
}

/// The point stored at row `i` of a cache file.
pub open spec fn point_at(b: Seq<u8>, i: int) -> Seq<u32> {
    seq![
        le_value(b, 8 + 12 * i, 4) as u32,
        le_value(b, 8 + 12 * i + 4, 4) as u32,
        le_value(b, 8 + 12 * i + 8, 4) as u32,
    ]
}

/// What a cache file holds for a dataset of `expected` rows: `Err` with the
/// message when it is too small or its row count or length disagree.
pub open spec fn decode_spec(b: Seq<u8>, expected: usize) -> Result<Seq<Seq<u32>>, Seq<char>> {
    if b.len() < 8 {
        Err("projection cache too small"@)
    } else {
        let count = (le_value(b, 0, 8) as u64) as usize;
        if count != expected || b.len() != 8 + 12 * count {
            Err("projection cache shape mismatch"@)
        } else {
            Ok(Seq::new(count as nat, |i: int| point_at(b, i)))
        }
    }
}

/// The bytes of a cache file holding `points`.
pub fn encode_projection_cache(points: &[[u32; 3]]) -> (r: Vec<u8>)
    ensures
        r@ == cache_bytes(points_view(points@)),
{
    let ghost pv = points_view(points@);
    let mut out: Vec<u8> = Vec::new();
    push_le(&mut out, points.len() as u64, 8);
    let mut i: usize = 0;
    while i < points.len()
        invariant
            i <= points@.len(),
            pv == points_view(points@),
            out@ == le_digits(points@.len() as nat, 8) + points_bytes(pv.take(i as int)),
        decreases points@.len() - i,
    {
        let p = points[i];
        let ghost before = out@;
        push_le(&mut out, p[0] as u64, 4);
        push_le(&mut out, p[1] as u64, 4);
        push_le(&mut out, p[2] as u64, 4);
        proof {
            assert(pv.take(i + 1).drop_last() =~= pv.take(i as int));
            assert(pv[i as int] == p@);
            assert(out@ =~= le_digits(points@.len() as nat, 8) + points_bytes(pv.take(i + 1)));
        }
        i = i + 1;
    }
    proof {
        assert(pv.take(pv.len() as int) =~= pv);
    }
    out
}

fn read_le(b: &[u8], p: usize, n: usize) -> (r: u64)
    requires
        n <= 8,
        p + n <= b.len(),
    ensures
        r == le_value(b@, p as int, n as nat),
    decreases n,
{
    if n == 0 {
        0
    } else {
        let rest = read_le(b, p + 1, n - 1);
        proof {
            lemma_le_value_bound(b@, p + 1, (n - 1) as nat);
            lemma_byte_range_small((n - 1) as nat);
        }
        b[p] as u64 + 256 * rest
    }
}

proof fn lemma_le_value_bound(b: Seq<u8>, p: int, n: nat)
    ensures
        le_value(b, p, n) < byte_range(n),
    decreases n,
{
    if n > 0 {
        lemma_le_value_bound(b, p + 1, (n - 1) as nat);
    }
}

proof fn lemma_byte_range_mono(n: nat, m: nat)
    requires
        n <= m,
    ensures
        byte_range(n) <= byte_range(m),
    decreases m,
{
    if n < m {
        lemma_byte_range_mono(n, (m - 1) as nat);
    }
}

proof fn lemma_byte_range_small(n: nat)
    requires
        n <= 7,
    ensures
        byte_range(n) <= 0x100_0000_0000_0000,
{
    lemma_byte_range_mono(n, 7);
    reveal_with_fuel(byte_range, 8);
}

/// Read a cache file for a dataset of `expected_rows` rows.
pub fn decode_projection_cache(bytes: &[u8], expected_rows: usize) -> (r: Result<Vec<[u32; 3]>, DatasetError>)
    requires
        expected_rows <= (usize::MAX - 8) / 12,
    ensures
        match decode_spec(bytes@, expected_rows) {
            Ok(ps) => r matches Ok(v) && points_view(v@) == ps,
            Err(m) => r matches Err(DatasetError::Format(e)) && e@ == m,
        },
{
    if bytes.len() < 8 {
        return Err(DatasetError::Format(String::from_str("projection cache too small")));
    }
    let count = read_le(bytes, 0, 8) as usize;
    if count != expected_rows || bytes.len() != 8 + count * 12 {
        return Err(DatasetError::Format(String::from_str("projection cache shape mismatch")));
    }
    let ghost want = Seq::new(count as nat, |i: int| point_at(bytes@, i));
    let mut points: Vec<[u32; 3]> = Vec::new();
    let mut i: usize = 0;
    while i < count
        invariant
            i <= count,
            count == expected_rows,
            bytes@.len() == 8 + count * 12,
            expected_rows <= (usize::MAX - 8) / 12,
            want == Seq::new(count as nat, |i: int| point_at(bytes@, i)),
            points_view(points@) == want.take(i as int),
        decreases count - i,
    {
        let base = 8 + i * 12;
        let x = read_le(bytes, base, 4);
        let y = read_le(bytes, base + 4, 4);
        let z = read_le(bytes, base + 8, 4);
        proof {
            lemma_le_value_bound(bytes@, base as int, 4);
            lemma_le_value_bound(bytes@, base + 4, 4);
            lemma_le_value_bound(bytes@, base + 8, 4);
            reveal_with_fuel(byte_range, 5);
        }
        let p: [u32; 3] = [x as u32, y as u32, z as u32];
        let ghost before = points@;
        points.push(p);
        proof {
            assert(p@ =~= point_at(bytes@, i as int));
            assert(points_view(points@) =~= points_view(before).push(p@));
            assert(want.take(i + 1) =~= want.take(i as int).push(want[i as int]));
            assert(points_view(points@) =~= want.take(i + 1));
        }
        i = i + 1;
    }
    proof {
        assert(want.take(count as int) =~= want);
    }
    Ok(points)
}

proof fn lemma_points_bytes_len(ps: Seq<Seq<u32>>)
    ensures
        points_bytes(ps).len() == 12 * ps.len(),
    decreases ps.len(),
{
    if ps.len() > 0 {
        lemma_points_bytes_len(ps.drop_last());
        let p = ps.last();
        lemma_le_digits_len(p[0] as nat, 4);
        lemma_le_digits_len(p[1] as nat, 4);
        lemma_le_digits_len(p[2] as nat, 4);
    }
}

proof fn lemma_points_bytes_at(ps: Seq<Seq<u32>>, i: int)
    requires
        0 <= i < ps.len(),
    ensures
        points_bytes(ps).subrange(12 * i, 12 * i + 12) == point_bytes(ps[i]),
    decreases ps.len(),
{
    lemma_points_bytes_len(ps.drop_last());
    let p = ps.last();
    lemma_le_digits_len(p[0] as nat, 4);
    lemma_le_digits_len(p[1] as nat, 4);
    lemma_le_digits_len(p[2] as nat, 4);
    if i < ps.len() - 1 {
        lemma_points_bytes_at(ps.drop_last(), i);
        assert(points_bytes(ps).subrange(12 * i, 12 * i + 12) =~= points_bytes(ps.drop_last()).subrange(
            12 * i,
            12 * i + 12,
        ));
    } else {
        assert(points_bytes(ps).subrange(12 * i, 12 * i + 12) =~= point_bytes(ps.last()));
    }
}

/// Reading back a cache file written for the same number of rows gives back
/// exactly the points that were written.
pub proof fn lemma_cache_round_trip(ps: Seq<Seq<u32>>)
    requires
        ps.len() <= (usize::MAX - 8) / 12,
        forall|i: int| 0 <= i < ps.len() ==> (#[trigger] ps[i]).len() == 3,
    ensures
        decode_spec(cache_bytes(ps), ps.len() as usize) == Ok::<Seq<Seq<u32>>, Seq<char>>(ps),
{
    let b = cache_bytes(ps);
    let n = ps.len();
    lemma_le_digits_len(n, 8);
    lemma_points_bytes_len(ps);
    reveal_with_fuel(byte_range, 9);
    assert(b.subrange(0, 8) =~= le_digits(n, 8));
    lemma_le_round_trip(n, 8, b, 0);
    assert(b.len() == 8 + 12 * n);
    let got = Seq::new(n, |i: int| point_at(b, i));
    assert forall|i: int| 0 <= i < n implies #[trigger] got[i] == ps[i] by {
        lemma_points_bytes_at(ps, i);
        let p = ps[i];
        lemma_le_digits_len(p[0] as nat, 4);
        lemma_le_digits_len(p[1] as nat, 4);
        lemma_le_digits_len(p[2] as nat, 4);
        let pb = point_bytes(p);
        assert(b.subrange(8 + 12 * i, 8 + 12 * i + 12) =~= pb);
        assert(b.subrange(8 + 12 * i, 8 + 12 * i + 4) =~= le_digits(p[0] as nat, 4));
        assert(pb.subrange(4, 8) =~= le_digits(p[1] as nat, 4));
        assert(pb.subrange(8, 12) =~= le_digits(p[2] as nat, 4));
        assert(b.subrange(8 + 12 * i + 4, 8 + 12 * i + 8) =~= pb.subrange(4, 8));
        assert(b.subrange(8 + 12 * i + 8, 8 + 12 * i + 12) =~= pb.subrange(8, 12));
        lemma_le_round_trip(p[0] as nat, 4, b, 8 + 12 * i);
        lemma_le_round_trip(p[1] as nat, 4, b, 8 + 12 * i + 4);
        lemma_le_round_trip(p[2] as nat, 4, b, 8 + 12 * i + 8);
        assert(got[i] =~= p);
    }
    assert(got =~= ps);
}

} // verus!
