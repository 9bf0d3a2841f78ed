//! Clustering of grid-snapped vertex keys: every input point is mapped to the
//! first earlier point that snapped to the same grid cell.

use vstd::prelude::*;
use std::collections::HashMap;

verus! {

broadcast use vstd::std_specs::hash::group_hash_axioms;

/// A vertex position snapped to an integer grid.
pub type GridKey = (i64, i64, i64);

/// `reps` lists, in input order, the first occurrence of every distinct key,
/// and `remap[i]` is the cluster (index into `reps`) of input point `i`.
pub open spec fn is_welding(keys: Seq<GridKey>, reps: Seq<usize>, remap: Seq<usize>) -> bool {
    &&& remap.len() == keys.len()
    &&& forall|i: int| 0 <= i < reps.len() ==> #[trigger] reps[i] < keys.len()
    &&& forall|i: int, j: int| 0 <= i < j < reps.len() ==> #[trigger] reps[i] < #[trigger] reps[j]
    &&& forall|j: int, a: int| 0 <= j < reps.len() && 0 <= a < reps[j] ==> keys[a] != keys[#[trigger] reps[j] as int] && #[trigger] keys[a] == keys[a]
    &&& forall|i: int| 0 <= i < remap.len() ==> #[trigger] remap[i] < reps.len()
    &&& forall|i: int| 0 <= i < remap.len() ==> keys[reps[#[trigger] remap[i] as int] as int] == keys[i]
}

fn same_key(a: GridKey, b: GridKey) -> (r: bool)
    ensures
        r == (a == b),
{
    a.0 == b.0 && a.1 == b.1 && a.2 == b.2
}

/// The bucket number of a grid key: its three coordinates folded into one
/// word. Equal keys share a bucket; distinct keys may too.
pub open spec fn grid_hash(k: GridKey) -> u64 {
    (k.0 as u64) ^ ((k.1 as u64) << 21u64) ^ ((k.2 as u64) << 42u64) ^ ((k.1 as u64) >> 43u64) ^ ((k.2 as u64) >> 22u64)
}

fn hash_key(k: GridKey) -> (h: u64)
    ensures
        h == grid_hash(k),
{
    let a: u64 = k.0 as u64;
    let b: u64 = k.1 as u64;
    let c: u64 = k.2 as u64;
    a ^ (b << 21u64) ^ (c << 42u64) ^ (b >> 43u64) ^ (c >> 22u64)
}

/// Every bucket entry names a cluster, and every cluster is filed under the
/// bucket of its representative's key.
pub open spec fn buckets_index(
    buckets: Map<u64, Vec<usize>>,
    keys: Seq<GridKey>,
    reps: Seq<usize>,
) -> bool {
    &&& forall|h: u64, t: int|
        buckets.contains_key(h) && 0 <= t < buckets[h]@.len() ==> #[trigger] buckets[h]@[t] < reps.len()
    &&& forall|j: int|
        0 <= j < reps.len() ==> buckets.contains_key(grid_hash(keys[#[trigger] reps[j] as int]))
            && buckets[grid_hash(keys[reps[j] as int])]@.contains(j as usize)
}

/// The cluster in `bucket` whose representative has key `k`, if any.
fn find_in_bucket(keys: &Vec<GridKey>, reps: &Vec<usize>, bucket: &Vec<usize>, k: GridKey) -> (r: Option<usize>)
    requires
        forall|i: int| 0 <= i < reps@.len() ==> #[trigger] reps@[i] < keys@.len(),
        forall|t: int| 0 <= t < bucket@.len() ==> #[trigger] bucket@[t] < reps@.len(),
    ensures
        match r {
            Some(j) => j < reps@.len() && keys@[reps@[j as int] as int] == k,
            None => forall|t: int| 0 <= t < bucket@.len() ==> keys@[reps@[#[trigger] bucket@[t] as int] as int] != k,
        },
{
    let mut t: usize = 0;
    while t < bucket.len()
        invariant
            t <= bucket@.len(),
            forall|i: int| 0 <= i < reps@.len() ==> #[trigger] reps@[i] < keys@.len(),
            forall|u: int| 0 <= u < bucket@.len() ==> #[trigger] bucket@[u] < reps@.len(),
            forall|u: int| 0 <= u < t ==> keys@[reps@[#[trigger] bucket@[u] as int] as int] != k,
        decreases bucket@.len() - t,
    {
        let j = bucket[t];
        if same_key(keys[reps[j]], k) {
            return Some(j);
        }
        t = t + 1;
    }
    None
}

/// The cluster whose representative has key `k`, if any, found through the
/// bucket of `k`.
fn find_rep(keys: &Vec<GridKey>, reps: &Vec<usize>, buckets: &HashMap<u64, Vec<usize>>, k: GridKey) -> (r: Option<usize>)
    requires
        forall|i: int| 0 <= i < reps@.len() ==> #[trigger] reps@[i] < keys@.len(),
        buckets_index(buckets@, keys@, reps@),
    ensures
        match r {
            Some(j) => j < reps@.len() && keys@[reps@[j as int] as int] == k,
            None => forall|j: int| 0 <= j < reps@.len() ==> keys@[#[trigger] reps@[j] as int] != k,
        },
{
    let h = hash_key(k);
    match buckets.get(&h) {
        Some(bucket) => {
            let r = find_in_bucket(keys, reps, bucket, k);
            proof {
                if r is None {
                    assert forall|j: int| 0 <= j < reps@.len() implies keys@[#[trigger] reps@[j] as int] != k by {
                        if keys@[reps@[j] as int] == k {
                            assert(reps@.len() == reps.len());
                            assert(buckets@[h]@ == bucket@);
                            assert(bucket@.contains(j as usize));
                            let t = choose|t: int| 0 <= t < bucket@.len() && bucket@[t] == j as usize;
                            assert(keys@[reps@[bucket@[t] as int] as int] != k);
                        }
                    }
                }
            }
            r
        },
        None => {
            proof {
                assert forall|j: int| 0 <= j < reps@.len() implies keys@[#[trigger] reps@[j] as int] != k by {
                    if keys@[reps@[j] as int] == k {
                        assert(buckets@.contains_key(grid_hash(keys@[reps@[j] as int])));
                    }
                }
            }
            None
        },
    }
}

/// Files cluster `c`, whose representative has key `k`, under the bucket of `k`.
fn file_cluster(buckets: &mut HashMap<u64, Vec<usize>>, k: GridKey, c: usize)
    ensures
        final(buckets)@.dom() == old(buckets)@.dom().insert(grid_hash(k)),
        forall|h: u64| h != grid_hash(k) && old(buckets)@.contains_key(h) ==> #[trigger] final(buckets)@[h] == old(buckets)@[h],
        final(buckets)@[grid_hash(k)]@ == (if old(buckets)@.contains_key(grid_hash(k)) {
            old(buckets)@[grid_hash(k)]@
        } else {
            Seq::<usize>::empty()
        }).push(c),
{
    let h = hash_key(k);
    let mut bucket = match buckets.remove(&h) {
        Some(b) => b,
        None => Vec::new(),
    };
    bucket.push(c);
    buckets.insert(h, bucket);
}

/// Cluster points by their grid keys. Returns `(reps, remap)`: `reps` holds
/// the index of the first point of every cluster, in input order, and
/// `remap[i]` is the cluster of point `i`. Clusters are found through hash
/// buckets of the grid key, so the expected work per point is constant.
pub fn weld_keys(keys: &Vec<GridKey>) -> (r: (Vec<usize>, Vec<usize>))
    ensures
        is_welding(keys@, r.0@, r.1@),
{
    let mut reps: Vec<usize> = Vec::new();
    let mut remap: Vec<usize> = Vec::new();
    let mut buckets: HashMap<u64, Vec<usize>> = HashMap::new();
    let mut i: usize = 0;
    while i < keys.len()
        invariant
            i <= keys@.len(),
            remap@.len() == i,
            forall|j: int| 0 <= j < reps@.len() ==> #[trigger] reps@[j] < i,
            forall|a: int, b: int| 0 <= a < b < reps@.len() ==> #[trigger] reps@[a] < #[trigger] reps@[b],
            forall|j: int, a: int| 0 <= j < reps@.len() && 0 <= a < reps@[j] ==> keys@[a] != keys@[#[trigger] reps@[j] as int] && #[trigger] keys@[a] == keys@[a],
            forall|a: int| 0 <= a < i ==> #[trigger] remap@[a] < reps@.len(),
            forall|a: int| 0 <= a < i ==> keys@[reps@[#[trigger] remap@[a] as int] as int] == keys@[a],
            buckets_index(buckets@, keys@, reps@),
        decreases keys@.len() - i,
    {
        let k = keys[i];
        match find_rep(keys, &reps, &buckets, k) {
            Some(j) => {
                remap.push(j);
            },
            None => {
                let ghost old_reps = reps@;
                let ghost old_buckets = buckets@;
                proof {
                    assert forall|a: int| 0 <= a < i implies keys@[a] != k by {
                        assert(keys@[old_reps[remap@[a] as int] as int] == keys@[a]);
                    }
                }
                let c = reps.len();
                file_cluster(&mut buckets, k, c);
                remap.push(c);
                reps.push(i);
                proof {
                    assert forall|j: int, a: int| 0 <= j < reps@.len() && 0 <= a < reps@[j] implies keys@[a] != keys@[#[trigger] reps@[j] as int] && #[trigger] keys@[a] == keys@[a] by {
                        if j < old_reps.len() {
                            assert(reps@[j] == old_reps[j]);
                        }
                    }
                    assert forall|a: int| 0 <= a < i + 1 implies keys@[reps@[#[trigger] remap@[a] as int] as int] == keys@[a] by {
                        if a < i {
                            assert(reps@[remap@[a] as int] == old_reps[remap@[a] as int]);
                        }
                    }
                    let hk = grid_hash(k);
                    assert forall|h: u64, t: int|
                        buckets@.contains_key(h) && 0 <= t < buckets@[h]@.len() implies #[trigger] buckets@[h]@[t] < reps@.len() by {
                        if h != hk {
                            assert(old_buckets.contains_key(h));
                        } else if old_buckets.contains_key(hk) && t < old_buckets[hk]@.len() {
                            assert(buckets@[hk]@[t] == old_buckets[hk]@[t]);
                        }
                    }
                    assert forall|j: int| 0 <= j < reps@.len() implies buckets@.contains_key(grid_hash(keys@[#[trigger] reps@[j] as int]))
                        && buckets@[grid_hash(keys@[reps@[j] as int])]@.contains(j as usize) by {
                        if j < old_reps.len() {
                            assert(reps@[j] == old_reps[j]);
                            let hj = grid_hash(keys@[old_reps[j] as int]);
                            assert(old_buckets[hj]@.contains(j as usize));
                            if hj == hk {
                                let t = choose|t: int| 0 <= t < old_buckets[hj]@.len() && old_buckets[hj]@[t] == j as usize;
                                assert(buckets@[hj]@[t] == j as usize);
                            }
                        } else {
                            assert(reps@[j] == i);
                            assert(buckets@[hk]@[buckets@[hk]@.len() - 1] == c);
                        }
                    }
                }
            },
        }
        i = i + 1;
    }
    (reps, remap)
}

/// Welding merges exactly the points that share a grid key: two points get
/// the same cluster if and only if their keys are equal.
pub proof fn lemma_welding_merges_equal_keys(keys: Seq<GridKey>, reps: Seq<usize>, remap: Seq<usize>, i: int, j: int)
    requires
        is_welding(keys, reps, remap),
        0 <= i < keys.len(),
        0 <= j < keys.len(),
    ensures
        remap[i] == remap[j] <==> keys[i] == keys[j],
{
    let a = remap[i] as int;
    let b = remap[j] as int;
    assert(keys[reps[a] as int] == keys[i]);
    assert(keys[reps[b] as int] == keys[j]);
    if keys[i] == keys[j] && a != b {
        if a < b {
            assert(reps[a] < reps[b]);
            assert(keys[reps[a] as int] != keys[reps[b] as int]);
        } else {
            assert(reps[b] < reps[a]);
            assert(keys[reps[b] as int] != keys[reps[a] as int]);
        }
    }
}

} // verus!
