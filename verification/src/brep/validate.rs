//! Topology validation: manifold checks and consistent face orientation.

use vstd::prelude::*;

use super::solid::{
    edge_key, face_occ, faces_of_key, first_with_key, has_key, loops_of, reverse_face, is_edge_table, key_lt, key_of, loop_edges, occurrences,
    rev_edge, reversed, table_view, use_count, Edge, EdgeUse, Face, Solid,
};

verus! {

/// A problem found while checking that a solid is a clean 2-manifold.
#[derive(Debug, Clone, Copy, PartialEq, Eq)]
pub enum ManifoldIssue {
    /// An edge used by a single face: the surface has a hole or open border.
    BoundaryEdge(Edge),
    /// An edge shared by three or more faces: not a 2-manifold.
    NonManifoldEdge { edge: Edge, faces: usize },
}

pub open spec fn issue_key(i: ManifoldIssue) -> Edge {
    match i {
        ManifoldIssue::BoundaryEdge(e) => e,
        ManifoldIssue::NonManifoldEdge { edge, .. } => edge,
    }
}

/// The issue reported for an edge key used by `n` face edges (`n` not 0 or 2).
pub open spec fn issue_for(k: Edge, n: nat) -> ManifoldIssue {
    if n == 1 {
        ManifoldIssue::BoundaryEdge(k)
    } else {
        ManifoldIssue::NonManifoldEdge { edge: k, faces: n as usize }
    }
}

/// An edge key is an issue when it is used by exactly one or by more than
/// two face edges.
pub open spec fn is_issue_count(n: nat) -> bool {
    n == 1 || n > 2
}

/// Every manifold violation, one per offending edge key, in ascending key
/// order. An empty result means a closed 2-manifold.
pub fn manifold_issues(solid: &Solid) -> (r: Vec<ManifoldIssue>)
    ensures
        forall|a: int, b: int|
            0 <= a < b < r@.len() ==> key_lt(issue_key(#[trigger] r@[a]), issue_key(#[trigger] r@[b])),
        forall|a: int|
            0 <= a < r@.len() ==> #[trigger] r@[a] == issue_for(
                issue_key(r@[a]),
                use_count(solid.loops(), issue_key(r@[a])),
            ) && is_issue_count(use_count(solid.loops(), issue_key(r@[a]))),
        forall|k: Edge|
            is_issue_count(#[trigger] use_count(solid.loops(), k)) ==> exists|a: int|
                0 <= a < r@.len() && issue_key(r@[a]) == k,
{
    let table = solid.edge_use();
    let ghost tv = table_view(table@);
    let ghost l = solid.loops();
    let mut out: Vec<ManifoldIssue> = Vec::new();
    let mut i: usize = 0;
    while i < table.len()
        invariant
            i <= table@.len(),
            tv == table_view(table@),
            l == solid.loops(),
            is_edge_table(l, tv),
            forall|a: int, b: int|
                0 <= a < b < out@.len() ==> key_lt(issue_key(#[trigger] out@[a]), issue_key(#[trigger] out@[b])),
            forall|a: int|
                0 <= a < out@.len() ==> exists|m: int|
                    0 <= m < i && #[trigger] tv[m].0 == issue_key(#[trigger] out@[a]),
            forall|a: int|
                0 <= a < out@.len() ==> #[trigger] out@[a] == issue_for(
                    issue_key(out@[a]),
                    use_count(l, issue_key(out@[a])),
                ) && is_issue_count(use_count(l, issue_key(out@[a]))),
            forall|m: int|
                0 <= m < i && is_issue_count((#[trigger] tv[m]).1.len()) ==> exists|a: int|
                    0 <= a < out@.len() && issue_key(out@[a]) == tv[m].0,
        decreases table@.len() - i,
    {
        let n = table[i].faces.len();
        let key = table[i].key;
        assert(tv[i as int].0 == key);
        assert(tv[i as int].1 == table@[i as int].faces@);
        assert(tv[i as int].1 == faces_of_key(occurrences(l), key));
        if n == 1 || n > 2 {
            let issue = if n == 1 {
                ManifoldIssue::BoundaryEdge(key)
            } else {
                ManifoldIssue::NonManifoldEdge { edge: key, faces: n }
            };
            let ghost before = out@;
            out.push(issue);
            proof {
                assert forall|a: int, b: int|
                    0 <= a < b < out@.len() implies key_lt(issue_key(#[trigger] out@[a]), issue_key(#[trigger] out@[b])) by {
                    if b == out@.len() - 1 {
                        assert(out@[a] == before[a]);
                        let m = choose|m: int| 0 <= m < i && #[trigger] tv[m].0 == issue_key(#[trigger] before[a]);
                        assert(key_lt(tv[m].0, tv[i as int].0));
                    }
                }
                assert forall|a: int| 0 <= a < out@.len() implies exists|m: int|
                    0 <= m < i + 1 && #[trigger] tv[m].0 == issue_key(#[trigger] out@[a]) by {
                    if a < before.len() {
                        assert(out@[a] == before[a]);
                        let m = choose|m: int| 0 <= m < i && #[trigger] tv[m].0 == issue_key(#[trigger] before[a]);
                        assert(tv[m].0 == issue_key(out@[a]));
                    } else {
                        assert(tv[i as int].0 == issue_key(out@[a]));
                    }
                }
                assert forall|a: int| 0 <= a < out@.len() implies #[trigger] out@[a] == issue_for(
                    issue_key(out@[a]),
                    use_count(l, issue_key(out@[a])),
                ) && is_issue_count(use_count(l, issue_key(out@[a]))) by {
                    if a < before.len() {
                        assert(out@[a] == before[a]);
                    }
                }
                assert forall|m: int| 0 <= m < i + 1 && is_issue_count((#[trigger] tv[m]).1.len()) implies exists|a: int|
                    0 <= a < out@.len() && issue_key(out@[a]) == tv[m].0 by {
                    if m < i {
                        let a = choose|a: int| 0 <= a < before.len() && issue_key(before[a]) == tv[m].0;
                        assert(out@[a] == before[a]);
                    } else {
                        assert(issue_key(out@[out@.len() - 1]) == tv[m].0);
                    }
                }
            }
        }
        i = i + 1;
    }
    proof {
        assert forall|k: Edge| is_issue_count(#[trigger] use_count(l, k)) implies exists|a: int|
            0 <= a < out@.len() && issue_key(out@[a]) == k by {
            let m = choose|m: int| 0 <= m < tv.len() && #[trigger] tv[m].0 == k;
            assert(tv[m].1 == faces_of_key(occurrences(l), tv[m].0));
        }
    }
    out
}

/// True when every edge is shared by exactly two faces (closed, watertight).
pub fn is_closed_manifold(solid: &Solid) -> (r: bool)
    ensures
        r <==> forall|k: Edge| !is_issue_count(#[trigger] use_count(solid.loops(), k)),
{
    let issues = manifold_issues(solid);
    proof {
        if issues@.len() > 0 {
            let k = issue_key(issues@[0]);
            assert(is_issue_count(use_count(solid.loops(), k)));
        }
    }
    issues.len() == 0
}

/// Effective direction of an edge of a face that may have been flipped.
pub open spec fn eff(e: Edge, flip: bool) -> Edge {
    if flip {
        rev_edge(e)
    } else {
        e
    }
}

pub fn apply_flip(d: Edge, flip: bool) -> (r: Edge)
    ensures
        r == eff(d, flip),
{
    if flip {
        (d.1, d.0)
    } else {
        d
    }
}

/// The directed edge `(from, to)` the face traverses for the given key: the
/// first of its edges in loop order whose key is `key`.
pub fn directed_for_key(face: &Face, key: Edge) -> (r: Option<Edge>)
    ensures
        r == first_with_key(loop_edges(face@), key),
{
    let edges = face.directed_edges();
    assert(edges@.skip(0) =~= edges@);
    let mut t: usize = 0;
    while t < edges.len()
        invariant
            t <= edges@.len(),
            edges@ == loop_edges(face@),
            first_with_key(edges@, key) == first_with_key(edges@.skip(t as int), key),
        decreases edges@.len() - t,
    {
        let (a, b) = edges[t];
        proof {
            assert(edges@.skip(t as int)[0] == edges@[t as int]);
            assert(edges@.skip(t as int).drop_first() =~= edges@.skip(t + 1));
        }
        let k = edge_key(a, b);
        if k.0 == key.0 && k.1 == key.1 {
            return Some((a, b));
        }
        t = t + 1;
    }
    proof {
        assert(edges@.skip(t as int).len() == 0);
    }
    None
}


proof fn lemma_faces_of_key_concat(a: Seq<(Edge, usize)>, b: Seq<(Edge, usize)>, k: Edge)
    ensures
        faces_of_key(a + b, k) == faces_of_key(a, k) + faces_of_key(b, k),
    decreases b.len(),
{
    if b.len() == 0 {
        assert(a + b =~= a);
        assert(faces_of_key(b, k) =~= Seq::<usize>::empty());
        assert(faces_of_key(a, k) + faces_of_key(b, k) =~= faces_of_key(a, k));
    } else {
        assert((a + b).drop_last() =~= a + b.drop_last());
        assert((a + b).last() == b.last());
        lemma_faces_of_key_concat(a, b.drop_last(), k);
        assert(faces_of_key(a + b, k) =~= faces_of_key(a, k) + faces_of_key(b, k));
    }
}

proof fn lemma_faces_of_key_const(s: Seq<(Edge, usize)>, k: Edge, fi: usize)
    requires
        forall|m: int| 0 <= m < s.len() ==> (#[trigger] s[m]).1 == fi,
    ensures
        forall|x: usize| faces_of_key(s, k).contains(x) ==> x == fi,
        faces_of_key(s, k).len() > 0 <==> exists|m: int| 0 <= m < s.len() && (#[trigger] s[m]).0 == k,
    decreases s.len(),
{
    if s.len() > 0 {
        let d = s.drop_last();
        assert forall|m: int| 0 <= m < d.len() implies (#[trigger] d[m]).1 == fi by {
            assert(d[m] == s[m]);
        }
        lemma_faces_of_key_const(d, k, fi);
        if exists|m: int| 0 <= m < d.len() && (#[trigger] d[m]).0 == k {
            let m = choose|m: int| 0 <= m < d.len() && (#[trigger] d[m]).0 == k;
            assert(s[m] == d[m]);
        }
        if exists|m: int| 0 <= m < s.len() && (#[trigger] s[m]).0 == k {
            let m = choose|m: int| 0 <= m < s.len() && (#[trigger] s[m]).0 == k;
            if m < s.len() - 1 {
                assert(d[m] == s[m]);
            }
        }
        assert forall|x: usize| faces_of_key(s, k).contains(x) implies x == fi by {
            let idx = choose|idx: int| 0 <= idx < faces_of_key(s, k).len() && faces_of_key(s, k)[idx] == x;
            if idx < faces_of_key(d, k).len() {
                assert(faces_of_key(d, k).contains(x));
            }
        }
    }
}

/// Face `j` appears in the face list of key `k` exactly when it has an edge
/// with that key, and every listed face is a valid face index.
proof fn lemma_faces_of_key_members(l: Seq<Seq<usize>>, k: Edge)
    requires
        l.len() <= usize::MAX,
    ensures
        forall|j: int| 0 <= j < l.len() ==> (faces_of_key(occurrences(l), k).contains(j as usize) <==> has_key(#[trigger] l[j], k)),
        forall|x: usize| faces_of_key(occurrences(l), k).contains(x) ==> x < l.len(),
    decreases l.len(),
{
    if l.len() > 0 {
        let d = l.drop_last();
        let n1 = (l.len() - 1) as usize;
        let fo = face_occ(l.last(), n1);
        lemma_faces_of_key_members(d, k);
        lemma_faces_of_key_concat(occurrences(d), fo, k);
        assert forall|m: int| 0 <= m < fo.len() implies (#[trigger] fo[m]).1 == n1 by {}
        lemma_faces_of_key_const(fo, k, n1);
        let whole = faces_of_key(occurrences(l), k);
        let left = faces_of_key(occurrences(d), k);
        let right = faces_of_key(fo, k);
        assert(whole == left + right);
        assert forall|x: usize| whole.contains(x) implies x < l.len() by {
            let idx = choose|idx: int| 0 <= idx < whole.len() && whole[idx] == x;
            if idx < left.len() {
                assert(left.contains(x));
            } else {
                assert(right.contains(x));
            }
        }
        assert forall|j: int| 0 <= j < l.len() implies (whole.contains(j as usize) <==> has_key(#[trigger] l[j], k)) by {
            if j < l.len() - 1 {
                assert(d[j] == l[j]);
                if whole.contains(j as usize) {
                    let idx = choose|idx: int| 0 <= idx < whole.len() && whole[idx] == j as usize;
                    if idx >= left.len() {
                        assert(right.contains(j as usize));
                    } else {
                        assert(left.contains(j as usize));
                    }
                }
                if left.contains(j as usize) {
                    let idx = choose|idx: int| 0 <= idx < left.len() && left[idx] == j as usize;
                    assert(whole[idx] == j as usize);
                }
            } else {
                assert(l[j] == l.last());
                if has_key(l[j], k) {
                    let t = choose|t: int| 0 <= t < l[j].len() && #[trigger] key_of(loop_edges(l[j])[t]) == k;
                    assert(fo[t].0 == k);
                    assert(right.len() > 0);
                    assert(right.contains(right[0]));
                    assert(whole[left.len() as int] == right[0]);
                }
                if whole.contains(j as usize) {
                    let idx = choose|idx: int| 0 <= idx < whole.len() && whole[idx] == j as usize;
                    if idx < left.len() {
                        assert(left.contains(j as usize));
                    } else {
                        assert(right[idx - left.len()] == j as usize);
                        assert(right.len() > 0);
                        let m = choose|m: int| 0 <= m < fo.len() && (#[trigger] fo[m]).0 == k;
                        assert(key_of(loop_edges(l[j])[m]) == k);
                    }
                }
            }
        }
    }
}

/// The first edge with a key, when exactly one edge of the sequence has it.
proof fn lemma_first_unique(es: Seq<Edge>, k: Edge, t: int)
    requires
        0 <= t < es.len(),
        key_of(es[t]) == k,
        forall|s: int| 0 <= s < es.len() && s != t ==> key_of(#[trigger] es[s]) != k,
    ensures
        first_with_key(es, k) == Some(es[t]),
    decreases es.len(),
{
    if t > 0 {
        let d = es.drop_first();
        assert forall|s: int| 0 <= s < d.len() && s != t - 1 implies key_of(#[trigger] d[s]) != k by {
            assert(d[s] == es[s + 1]);
        }
        assert(key_of(es[0]) != k);
        lemma_first_unique(d, k, t - 1);
    }
}

/// Index of the edge of a loop of length `n` that the `t`-th edge of the
/// reversed loop traverses backwards.
pub open spec fn rev_index(n: int, t: int) -> int {
    if t < n - 1 {
        n - 2 - t
    } else {
        n - 1
    }
}

proof fn lemma_reversed_edges(v: Seq<usize>)
    ensures
        forall|t: int| 0 <= t < v.len() ==> #[trigger] loop_edges(reversed(v))[t] == rev_edge(loop_edges(v)[rev_index(v.len() as int, t)]),
        forall|t: int| 0 <= t < v.len() ==> 0 <= #[trigger] rev_index(v.len() as int, t) < v.len(),
{
    let n = v.len() as int;
    let r = reversed(v);
    assert forall|t: int| 0 <= t < n implies #[trigger] loop_edges(r)[t] == rev_edge(loop_edges(v)[rev_index(n, t)]) by {
        if t < n - 1 {
            vstd::arithmetic::div_mod::lemma_small_mod((t + 1) as nat, n as nat);
            vstd::arithmetic::div_mod::lemma_small_mod((n - 1 - t) as nat, n as nat);
            assert((n - 2 - t + 1) % n == n - 1 - t);
        } else {
            vstd::arithmetic::div_mod::lemma_mod_self_0(n);
            assert((t + 1) % n == 0);
        }
    }
}

/// No two edges of a face share a key.
pub open spec fn simple_loop(v: Seq<usize>) -> bool {
    forall|s: int, t: int|
        0 <= s < v.len() && 0 <= t < v.len() && s != t ==> key_of(#[trigger] loop_edges(v)[s]) != key_of(
            #[trigger] loop_edges(v)[t],
        )
}

/// No edge starts and ends at the same vertex.
pub open spec fn nondegenerate_loop(v: Seq<usize>) -> bool {
    forall|t: int| 0 <= t < v.len() ==> (#[trigger] loop_edges(v)[t]).0 != loop_edges(v)[t].1
}

pub open spec fn all_simple(l: Seq<Seq<usize>>) -> bool {
    forall|f: int| 0 <= f < l.len() ==> simple_loop(#[trigger] l[f])
}

pub open spec fn all_nondegenerate(l: Seq<Seq<usize>>) -> bool {
    forall|f: int| 0 <= f < l.len() ==> nondegenerate_loop(#[trigger] l[f])
}

/// Consistent winding: whenever face `j` shares the key of an edge of face
/// `i`, the first edge of `j` with that key runs the opposite way.
pub open spec fn consistently_oriented(l: Seq<Seq<usize>>) -> bool {
    forall|i: int, j: int, t: int|
        0 <= i < l.len() && 0 <= j < l.len() && i != j && 0 <= t < l[i].len() && has_key(
            l[j],
            key_of(#[trigger] loop_edges(l[i])[t]),
        ) ==> #[trigger] first_with_key(loop_edges(l[j]), key_of(loop_edges(l[i])[t])) == Some(
            rev_edge(loop_edges(l[i])[t]),
        )
}

proof fn lemma_rev_index_inverse(n: int, s: int)
    requires
        0 <= s < n,
    ensures
        rev_index(n, if s == n - 1 { n - 1 } else { n - 2 - s }) == s,
        0 <= (if s == n - 1 { n - 1 } else { n - 2 - s }) < n,
{
}

/// Reversing a loop keeps its edge keys.
proof fn lemma_reversed_has_key(v: Seq<usize>, k: Edge)
    ensures
        has_key(reversed(v), k) <==> has_key(v, k),
{
    lemma_reversed_edges(v);
    let n = v.len() as int;
    if has_key(v, k) {
        let s = choose|s: int| 0 <= s < v.len() && #[trigger] key_of(loop_edges(v)[s]) == k;
        lemma_rev_index_inverse(n, s);
        let t = if s == n - 1 { n - 1 } else { n - 2 - s };
        assert(key_of(loop_edges(reversed(v))[t]) == k);
    }
    if has_key(reversed(v), k) {
        let t = choose|t: int| 0 <= t < reversed(v).len() && #[trigger] key_of(loop_edges(reversed(v))[t]) == k;
        let s = rev_index(n, t);
        assert(key_of(loop_edges(v)[s]) == k);
    }
}

/// In a simple loop, the reversed loop's edge for a key is the reverse of
/// the original loop's edge for it.
proof fn lemma_reversed_first(v: Seq<usize>, k: Edge)
    requires
        simple_loop(v),
        has_key(v, k),
    ensures
        first_with_key(loop_edges(reversed(v)), k) == Some(rev_edge(first_with_key(loop_edges(v), k)->0)),
        first_with_key(loop_edges(v), k) is Some,
{
    lemma_reversed_edges(v);
    let n = v.len() as int;
    let ev = loop_edges(v);
    let er = loop_edges(reversed(v));
    let u = choose|u: int| 0 <= u < v.len() && #[trigger] key_of(loop_edges(v)[u]) == k;
    assert forall|s: int| 0 <= s < ev.len() && s != u implies key_of(#[trigger] ev[s]) != k by {}
    lemma_first_unique(ev, k, u);
    lemma_rev_index_inverse(n, u);
    let t = if u == n - 1 { n - 1 } else { n - 2 - u };
    assert(er[t] == rev_edge(ev[u]));
    assert forall|s: int| 0 <= s < er.len() && s != t implies key_of(#[trigger] er[s]) != k by {
        let w = rev_index(n, s);
        assert(er[s] == rev_edge(ev[w]));
        assert(w != u);
    }
    lemma_first_unique(er, k, t);
}

/// Every (face, edge, neighbour) constraint of the orientation search.
pub open spec fn flip_of(fl: Seq<Option<bool>>, f: int) -> bool {
    fl[f] == Some(true)
}

pub open spec fn constraint_ok(l: Seq<Seq<usize>>, fl: Seq<Option<bool>>, i: int, e: Edge, j: int) -> bool {
    &&& fl[j] is Some
    &&& fl[j]->0 == (first_with_key(loop_edges(l[j]), key_of(e)) == Some(eff(e, fl[i]->0)))
}

pub open spec fn processed_ok(l: Seq<Seq<usize>>, fl: Seq<Option<bool>>, i: int) -> bool {
    forall|t: int, j: int|
        0 <= t < l[i].len() && 0 <= j < l.len() && j != i && #[trigger] has_key(
            l[j],
            key_of(#[trigger] loop_edges(l[i])[t]),
        ) ==> constraint_ok(l, fl, i, loop_edges(l[i])[t], j)
}

/// The loops after flipping every face whose flag is set.
pub open spec fn flipped_loops(l: Seq<Seq<usize>>, fl: Seq<Option<bool>>) -> Seq<Seq<usize>> {
    Seq::new(l.len(), |f: int| if flip_of(fl, f) { reversed(l[f]) } else { l[f] })
}

proof fn lemma_first_key(es: Seq<Edge>, k: Edge)
    ensures
        first_with_key(es, k) matches Some(d) ==> key_of(d) == k,
        first_with_key(es, k) is None ==> forall|t: int| 0 <= t < es.len() ==> key_of(#[trigger] es[t]) != k,
    decreases es.len(),
{
    if es.len() > 0 {
        lemma_first_key(es.drop_first(), k);
        if first_with_key(es, k) is None {
            assert forall|t: int| 0 <= t < es.len() implies key_of(#[trigger] es[t]) != k by {
                if t > 0 {
                    assert(es[t] == es.drop_first()[t - 1]);
                }
            }
        }
    }
}

proof fn lemma_constraint_update(
    l: Seq<Seq<usize>>,
    fl: Seq<Option<bool>>,
    i: int,
    e: Edge,
    j: int,
    g: int,
    v: Option<bool>,
)
    requires
        0 <= g < fl.len(),
        0 <= i < fl.len(),
        0 <= j < fl.len(),
        fl[g] is None,
        fl[i] is Some,
        constraint_ok(l, fl, i, e, j),
    ensures
        constraint_ok(l, fl.update(g, v), i, e, j),
{
    assert(fl.update(g, v)[i] == fl[i]);
    assert(fl.update(g, v)[j] == fl[j]);
}

proof fn lemma_processed_update(l: Seq<Seq<usize>>, fl: Seq<Option<bool>>, i: int, g: int, v: Option<bool>)
    requires
        fl.len() == l.len(),
        0 <= g < fl.len(),
        0 <= i < fl.len(),
        fl[g] is None,
        fl[i] is Some,
        processed_ok(l, fl, i),
    ensures
        processed_ok(l, fl.update(g, v), i),
{
    assert forall|t: int, j: int|
        0 <= t < l[i].len() && 0 <= j < l.len() && j != i && #[trigger] has_key(
            l[j],
            key_of(#[trigger] loop_edges(l[i])[t]),
        ) implies constraint_ok(l, fl.update(g, v), i, loop_edges(l[i])[t], j) by {
        lemma_constraint_update(l, fl, i, loop_edges(l[i])[t], j, g, v);
    }
}

/// Flipping faces so that every orientation constraint holds yields a
/// consistently oriented solid, provided no face repeats an edge key.
proof fn lemma_flipped_consistent(l: Seq<Seq<usize>>, fl: Seq<Option<bool>>)
    requires
        fl.len() == l.len(),
        forall|f: int| 0 <= f < l.len() ==> (#[trigger] fl[f]) is Some,
        forall|f: int| 0 <= f < l.len() ==> #[trigger] processed_ok(l, fl, f),
        all_simple(l),
    ensures
        consistently_oriented(flipped_loops(l, fl)),
{
    let o = flipped_loops(l, fl);
    assert forall|i: int, j: int, t: int|
        0 <= i < o.len() && 0 <= j < o.len() && i != j && 0 <= t < o[i].len() && has_key(
            o[j],
            key_of(#[trigger] loop_edges(o[i])[t]),
        ) implies #[trigger] first_with_key(loop_edges(o[j]), key_of(loop_edges(o[i])[t])) == Some(
        rev_edge(loop_edges(o[i])[t]),
    ) by {
        let n = l[i].len() as int;
        lemma_reversed_edges(l[i]);
        let s = if flip_of(fl, i) { rev_index(n, t) } else { t };
        let fi = fl[i]->0;
        let fj = fl[j]->0;
        let x = eff(loop_edges(l[i])[s], fi);
        assert(loop_edges(o[i])[t] == x);
        let k = key_of(x);
        assert(key_of(loop_edges(l[i])[s]) == k);
        lemma_reversed_has_key(l[j], k);
        assert(has_key(l[j], k));
        assert(processed_ok(l, fl, i));
        assert(has_key(l[j], key_of(loop_edges(l[i])[s])));
        assert(constraint_ok(l, fl, i, loop_edges(l[i])[s], j));
        assert(simple_loop(l[j]));
        lemma_reversed_first(l[j], k);
        let dj = first_with_key(loop_edges(l[j]), k)->0;
        lemma_first_key(loop_edges(l[j]), k);
        assert(key_of(dj) == k);
        assert(first_with_key(loop_edges(o[j]), k) == Some(eff(dj, fj)));
        assert(eff(dj, fj) == rev_edge(x));
    }
}

/// The loops after reversing every face `f` with `fs[f]` set.
pub open spec fn flipped_by(l: Seq<Seq<usize>>, fs: Seq<bool>) -> Seq<Seq<usize>> {
    Seq::new(l.len(), |f: int| if fs[f] { reversed(l[f]) } else { l[f] })
}

/// Some choice of faces to reverse makes the winding consistent.
pub open spec fn orientable(l: Seq<Seq<usize>>) -> bool {
    exists|fs: Seq<bool>| fs.len() == l.len() && #[trigger] consistently_oriented(flipped_by(l, fs))
}

/// Every face agrees on its shell: each face sharing an edge key with face
/// `g` carries the same shell parity `cs` as `g`.
pub open spec fn agrees(l: Seq<Seq<usize>>, cs: Seq<bool>, g: int) -> bool {
    forall|t: int, j: int|
        0 <= t < l[g].len() && 0 <= j < l.len() && j != g && #[trigger] has_key(
            l[j],
            key_of(#[trigger] loop_edges(l[g])[t]),
        ) ==> cs[j] == cs[g]
}

proof fn lemma_agrees_update(l: Seq<Seq<usize>>, fl: Seq<Option<bool>>, cs: Seq<bool>, g: int, x: int, v: bool)
    requires
        fl.len() == l.len(),
        cs.len() == l.len(),
        0 <= g < l.len(),
        0 <= x < l.len(),
        fl[x] is None,
        fl[g] is Some,
        processed_ok(l, fl, g),
        agrees(l, cs, g),
    ensures
        agrees(l, cs.update(x, v), g),
{
    assert forall|t: int, j: int|
        0 <= t < l[g].len() && 0 <= j < l.len() && j != g && #[trigger] has_key(
            l[j],
            key_of(#[trigger] loop_edges(l[g])[t]),
        ) implies cs.update(x, v)[j] == cs.update(x, v)[g] by {
        assert(constraint_ok(l, fl, g, loop_edges(l[g])[t], j));
    }
}

/// Against a consistent reorientation `fs`, the flip the search chooses for
/// a neighbour `j` of face `i` follows the shell parity `c` of `i`: if `i`
/// is flipped exactly when `fs[i] != c`, the search flips `j` exactly when
/// `fs[j] != c`.
proof fn lemma_choice_follows(l: Seq<Seq<usize>>, fs: Seq<bool>, i: int, t: int, j: int, c: bool)
    requires
        fs.len() == l.len(),
        consistently_oriented(flipped_by(l, fs)),
        all_simple(l),
        all_nondegenerate(l),
        0 <= i < l.len(),
        0 <= j < l.len(),
        i != j,
        0 <= t < l[i].len(),
        has_key(l[j], key_of(loop_edges(l[i])[t])),
    ensures
        (first_with_key(loop_edges(l[j]), key_of(loop_edges(l[i])[t])) == Some(
            eff(loop_edges(l[i])[t], fs[i] != c),
        )) == (fs[j] != c),
        first_with_key(loop_edges(l[j]), key_of(loop_edges(l[i])[t])) is Some,
{
    let o = flipped_by(l, fs);
    let e = loop_edges(l[i])[t];
    let k = key_of(e);
    let n = l[i].len() as int;
    lemma_reversed_edges(l[i]);
    lemma_rev_index_inverse(n, t);
    let t2 = if fs[i] { if t == n - 1 { n - 1 } else { n - 2 - t } } else { t };
    assert(loop_edges(o[i])[t2] == eff(e, fs[i]));
    assert(key_of(loop_edges(o[i])[t2]) == k);
    lemma_reversed_has_key(l[j], k);
    assert(has_key(o[j], k));
    assert(first_with_key(loop_edges(o[j]), key_of(loop_edges(o[i])[t2])) == Some(rev_edge(loop_edges(o[i])[t2])));
    assert(simple_loop(l[j]));
    lemma_reversed_first(l[j], k);
    let d = first_with_key(loop_edges(l[j]), k)->0;
    assert(first_with_key(loop_edges(o[j]), k) == Some(eff(d, fs[j])));
    assert(eff(d, fs[j]) == rev_edge(eff(e, fs[i])));
    assert(nondegenerate_loop(l[i]));
    assert(e.0 != e.1);
}

fn find_entry(table: &Vec<EdgeUse>, key: Edge) -> (r: Option<usize>)
    ensures
        match r {
            Some(i) => i < table@.len() && table@[i as int].key == key,
            None => forall|i: int| 0 <= i < table@.len() ==> (#[trigger] table@[i]).key != key,
        },
{
    let mut i: usize = 0;
    while i < table.len()
        invariant
            i <= table@.len(),
            forall|m: int| 0 <= m < i ==> (#[trigger] table@[m]).key != key,
        decreases table@.len() - i,
    {
        if table[i].key.0 == key.0 && table[i].key.1 == key.1 {
            return Some(i);
        }
        i = i + 1;
    }
    None
}

pub open spec fn count_some(s: Seq<Option<bool>>) -> nat
    decreases s.len(),
{
    if s.len() == 0 {
        0
    } else {
        count_some(s.drop_last()) + if s.last() is Some {
            1nat
        } else {
            0nat
        }
    }
}

proof fn lemma_count_some_bound(s: Seq<Option<bool>>)
    ensures
        count_some(s) <= s.len(),
    decreases s.len(),
{
    if s.len() > 0 {
        lemma_count_some_bound(s.drop_last());
    }
}

proof fn lemma_count_some_none(s: Seq<Option<bool>>)
    requires
        forall|g: int| 0 <= g < s.len() ==> (#[trigger] s[g]) is None,
    ensures
        count_some(s) == 0,
    decreases s.len(),
{
    if s.len() > 0 {
        lemma_count_some_none(s.drop_last());
    }
}

proof fn lemma_count_some_update(s: Seq<Option<bool>>, g: int, v: bool)
    requires
        0 <= g < s.len(),
        s[g] is None,
    ensures
        count_some(s.update(g, Some(v))) == count_some(s) + 1,
    decreases s.len(),
{
    let u = s.update(g, Some(v));
    if g == s.len() - 1 {
        assert(u.drop_last() =~= s.drop_last());
    } else {
        assert(u.drop_last() =~= s.drop_last().update(g, Some(v)));
        lemma_count_some_update(s.drop_last(), g, v);
    }
}

/// Reorient faces so that neighbours sharing an edge traverse it in opposite
/// directions (a consistent winding over each connected shell), flipping faces
/// in place. Returns `false`, leaving the solid untouched, when the
/// constraints contradict each other (a non-orientable configuration). Each
/// shell keeps the winding of its lowest-numbered face. When no face repeats
/// an edge key or has an edge from a vertex to itself, it succeeds exactly
/// on the solids that some choice of reversed faces makes consistent.
pub fn orient_faces(solid: &mut Solid) -> (r: bool)
    ensures
        final(solid).vert_count == old(solid).vert_count,
        !r ==> final(solid).loops() == old(solid).loops(),
        final(solid).loops().len() == old(solid).loops().len(),
        forall|f: int|
            0 <= f < old(solid).loops().len() ==> #[trigger] final(solid).loops()[f] == old(solid).loops()[f]
                || final(solid).loops()[f] == reversed(old(solid).loops()[f]),
        r && all_simple(old(solid).loops()) ==> consistently_oriented(final(solid).loops()),
        all_simple(old(solid).loops()) && all_nondegenerate(old(solid).loops()) && consistently_oriented(
            old(solid).loops(),
        ) ==> r && final(solid).loops() == old(solid).loops(),
        all_simple(old(solid).loops()) && all_nondegenerate(old(solid).loops()) && orientable(old(solid).loops()) ==> r,
        r && all_simple(old(solid).loops()) ==> orientable(old(solid).loops()),
{
    let nf = solid.faces.len();
    if nf == 0 {
        proof {
            let fw = Seq::<bool>::empty();
            assert(flipped_by(solid.loops(), fw).len() == 0);
            assert(consistently_oriented(flipped_by(solid.loops(), fw)));
        }
        return true;
    }
    let ghost l = solid.loops();
    let ghost cin = all_simple(l) && all_nondegenerate(l) && consistently_oriented(l);
    let ghost good = all_simple(l) && all_nondegenerate(l) && orientable(l);
    let ghost fs: Seq<bool> = if good {
        choose|fs: Seq<bool>| fs.len() == l.len() && #[trigger] consistently_oriented(flipped_by(l, fs))
    } else {
        Seq::empty()
    };
    let ghost mut cs: Seq<bool> = Seq::new(nf as nat, |i: int| false);
    let ghost mut start: int = 0;
    let ghost mut ccur: bool = false;
    let table = solid.edge_use();
    let mut flip: Vec<Option<bool>> = Vec::new();
    let mut f: usize = 0;
    while f < nf
        invariant
            f <= nf,
            flip@.len() == f,
            forall|g: int| 0 <= g < f ==> (#[trigger] flip@[g]) is None,
        decreases nf - f,
    {
        flip.push(None);
        f = f + 1;
    }
    let mut queue: Vec<usize> = Vec::new();
    let mut head: usize = 0;
    let mut seed: usize = 0;
    proof {
        lemma_count_some_none(flip@);
    }
    while seed < nf
        invariant
            nf == l.len(),
            l == solid.loops(),
            solid.faces@.len() == nf,
            is_edge_table(l, table_view(table@)),
            flip@.len() == nf,
            seed <= nf,
            head == queue@.len(),
            queue@.len() == count_some(flip@),
            forall|q: int| 0 <= q < queue@.len() ==> (#[trigger] queue@[q]) < nf && flip@[queue@[q] as int] is Some,
            forall|g: int| 0 <= g < nf && (#[trigger] flip@[g]) is Some ==> queue@.contains(g as usize),
            forall|q: int| 0 <= q < head ==> processed_ok(l, flip@, #[trigger] queue@[q] as int),
            forall|g: int| 0 <= g < seed ==> (#[trigger] flip@[g]) is Some,
            cin ==> forall|g: int| 0 <= g < nf && (#[trigger] flip@[g]) is Some ==> flip@[g] == Some(false),
            good == (all_simple(l) && all_nondegenerate(l) && orientable(l)),
            good ==> fs.len() == l.len() && consistently_oriented(flipped_by(l, fs)),
            cs.len() == nf,
            good ==> forall|g: int| 0 <= g < nf && (#[trigger] flip@[g]) is Some ==> flip@[g]->0 == (fs[g] != cs[g]),
            good ==> forall|q: int| 0 <= q < head ==> agrees(l, cs, #[trigger] queue@[q] as int),
            cin == (all_simple(l) && all_nondegenerate(l) && consistently_oriented(l)),
        decreases nf - seed,
    {
        if flip[seed].is_none() {
            let ghost before = flip@;
            let ghost oldq = queue@;
            let ghost old_cs = cs;
            proof {
                start = queue@.len() as int;
                ccur = if good { fs[seed as int] } else { false };
                cs = cs.update(seed as int, ccur);
            }
            flip.set(seed, Some(false));
            queue.push(seed);
            proof {
                if good {
                    assert forall|g: int| 0 <= g < nf && (#[trigger] flip@[g]) is Some implies flip@[g]->0 == (fs[g] != cs[g]) by {
                        if g != seed {
                            assert(before[g] is Some);
                        }
                    }
                    assert forall|q: int| 0 <= q < head implies agrees(l, cs, #[trigger] queue@[q] as int) by {
                        assert(queue@[q] == oldq[q]);
                        lemma_agrees_update(l, before, old_cs, oldq[q] as int, seed as int, ccur);
                    }
                }
                assert forall|q: int| start <= q < queue@.len() implies cs[#[trigger] queue@[q] as int] == ccur by {
                    assert(q == start);
                }
                lemma_count_some_update(before, seed as int, false);
                assert forall|g: int| 0 <= g < nf && (#[trigger] flip@[g]) is Some implies queue@.contains(g as usize) by {
                    if g == seed {
                        assert(queue@[queue@.len() - 1] == seed);
                    } else {
                        assert(before[g] is Some);
                        assert(oldq.contains(g as usize));
                        let q = choose|q: int| 0 <= q < oldq.len() && oldq[q] == g as usize;
                        assert(queue@[q] == oldq[q]);
                    }
                }
                assert forall|q: int| 0 <= q < head implies processed_ok(l, flip@, #[trigger] queue@[q] as int) by {
                    assert(queue@[q] == queue@.drop_last()[q]);
                    lemma_processed_update(l, flip@.update(seed as int, None), queue@[q] as int, seed as int, Some(false));
                    assert(flip@.update(seed as int, None).update(seed as int, Some(false)) =~= flip@);
                }
            }
            while head < queue.len()
                invariant
                    nf == l.len(),
                    l == solid.loops(),
                    solid.faces@.len() == nf,
                    is_edge_table(l, table_view(table@)),
                    flip@.len() == nf,
                    seed < nf,
                    head <= queue@.len(),
                    queue@.len() == count_some(flip@),
                    forall|q: int| 0 <= q < queue@.len() ==> (#[trigger] queue@[q]) < nf && flip@[queue@[q] as int] is Some,
                    forall|g: int| 0 <= g < nf && (#[trigger] flip@[g]) is Some ==> queue@.contains(g as usize),
                    forall|q: int| 0 <= q < head ==> processed_ok(l, flip@, #[trigger] queue@[q] as int),
                    forall|g: int| 0 <= g <= seed ==> (#[trigger] flip@[g]) is Some,
                    cin ==> forall|g: int| 0 <= g < nf && (#[trigger] flip@[g]) is Some ==> flip@[g] == Some(false),
                    good == (all_simple(l) && all_nondegenerate(l) && orientable(l)),
                    good ==> fs.len() == l.len() && consistently_oriented(flipped_by(l, fs)),
                    cs.len() == nf,
                    good ==> forall|g: int| 0 <= g < nf && (#[trigger] flip@[g]) is Some ==> flip@[g]->0 == (fs[g] != cs[g]),
                    good ==> forall|q: int| 0 <= q < head ==> agrees(l, cs, #[trigger] queue@[q] as int),
                    0 <= start <= head,
                    forall|q: int| start <= q < queue@.len() ==> cs[#[trigger] queue@[q] as int] == ccur,
                    cin == (all_simple(l) && all_nondegenerate(l) && consistently_oriented(l)),
                decreases nf - head,
            {
                proof {
                    lemma_count_some_bound(flip@);
                }
                let fi = queue[head];
                head = head + 1;
                let fi_flip = match flip[fi] {
                    Some(v) => v,
                    None => false,
                };
                assert(flip@[fi as int] == Some(fi_flip));
                let edges = solid.faces[fi].directed_edges();
                assert(edges@ == loop_edges(l[fi as int]));
                let mut t: usize = 0;
                while t < edges.len()
                    invariant
                        nf == l.len(),
                        l == solid.loops(),
                        solid.faces@.len() == nf,
                        is_edge_table(l, table_view(table@)),
                        flip@.len() == nf,
                        seed < nf,
                        0 < head <= queue@.len(),
                        queue@[head - 1] == fi,
                        fi < nf,
                        flip@[fi as int] == Some(fi_flip),
                        edges@ == loop_edges(l[fi as int]),
                        t <= edges@.len(),
                        queue@.len() == count_some(flip@),
                        forall|q: int| 0 <= q < queue@.len() ==> (#[trigger] queue@[q]) < nf && flip@[queue@[q] as int] is Some,
                        forall|g: int| 0 <= g < nf && (#[trigger] flip@[g]) is Some ==> queue@.contains(g as usize),
                        forall|q: int| 0 <= q < head - 1 ==> processed_ok(l, flip@, #[trigger] queue@[q] as int),
                        forall|g: int| 0 <= g <= seed ==> (#[trigger] flip@[g]) is Some,
                        cin ==> forall|g: int| 0 <= g < nf && (#[trigger] flip@[g]) is Some ==> flip@[g] == Some(false),
                        good == (all_simple(l) && all_nondegenerate(l) && orientable(l)),
                        good ==> fs.len() == l.len() && consistently_oriented(flipped_by(l, fs)),
                        cs.len() == nf,
                        good ==> forall|g: int| 0 <= g < nf && (#[trigger] flip@[g]) is Some ==> flip@[g]->0 == (fs[g] != cs[g]),
                        good ==> forall|q: int| 0 <= q < head - 1 ==> agrees(l, cs, #[trigger] queue@[q] as int),
                        0 <= start <= head - 1,
                        forall|q: int| start <= q < queue@.len() ==> cs[#[trigger] queue@[q] as int] == ccur,
                        cin == (all_simple(l) && all_nondegenerate(l) && consistently_oriented(l)),
                    cin == (all_simple(l) && all_nondegenerate(l) && consistently_oriented(l)),
                        forall|t2: int, j: int|
                            0 <= t2 < t && 0 <= j < nf && j != fi && #[trigger] has_key(l[j], key_of(#[trigger] edges@[t2]))
                                ==> constraint_ok(l, flip@, fi as int, edges@[t2], j),
                    decreases edges@.len() - t,
                {
                    let (a, b) = edges[t];
                    let key = edge_key(a, b);
                    assert(key == key_of(edges@[t as int]));
                    proof {
                        lemma_faces_of_key_members(l, key);
                        assert(has_key(l[fi as int], key));
                        assert(faces_of_key(occurrences(l), key).contains(fi));
                        assert(use_count(l, key) > 0);
                    }
                    match find_entry(&table, key) {
                        None => {
                            proof {
                                let i = choose|i: int| 0 <= i < table_view(table@).len() && #[trigger] table_view(table@)[i].0 == key;
                                assert(table@[i].key == key);
                            }
                        },
                        Some(ix) => {
                            let nb = &table[ix].faces;
                            assert(table_view(table@)[ix as int].1 == nb@);
                            assert(nb@ == faces_of_key(occurrences(l), key));
                            let mut u: usize = 0;
                            while u < nb.len()
                                invariant
                                    nf == l.len(),
                                    l == solid.loops(),
                                    solid.faces@.len() == nf,
                                    flip@.len() == nf,
                                    seed < nf,
                                    0 < head <= queue@.len(),
                                    queue@[head - 1] == fi,
                                    fi < nf,
                                    flip@[fi as int] == Some(fi_flip),
                                    edges@ == loop_edges(l[fi as int]),
                                    t < edges@.len(),
                                    (a, b) == edges@[t as int],
                                    key == key_of(edges@[t as int]),
                                    nb@ == faces_of_key(occurrences(l), key),
                                    forall|x: usize| nb@.contains(x) ==> x < l.len(),
                                    u <= nb@.len(),
                                    queue@.len() == count_some(flip@),
                                    forall|q: int| 0 <= q < queue@.len() ==> (#[trigger] queue@[q]) < nf && flip@[queue@[q] as int] is Some,
                                    forall|g: int| 0 <= g < nf && (#[trigger] flip@[g]) is Some ==> queue@.contains(g as usize),
                                    forall|q: int| 0 <= q < head - 1 ==> processed_ok(l, flip@, #[trigger] queue@[q] as int),
                                    forall|g: int| 0 <= g <= seed ==> (#[trigger] flip@[g]) is Some,
                                    cin ==> forall|g: int| 0 <= g < nf && (#[trigger] flip@[g]) is Some ==> flip@[g] == Some(false),
                                    good == (all_simple(l) && all_nondegenerate(l) && orientable(l)),
                                    good ==> fs.len() == l.len() && consistently_oriented(flipped_by(l, fs)),
                                    cs.len() == nf,
                                    good ==> forall|g: int| 0 <= g < nf && (#[trigger] flip@[g]) is Some ==> flip@[g]->0 == (fs[g] != cs[g]),
                                    good ==> forall|q: int| 0 <= q < head - 1 ==> agrees(l, cs, #[trigger] queue@[q] as int),
                                    0 <= start <= head - 1,
                                    forall|q: int| start <= q < queue@.len() ==> cs[#[trigger] queue@[q] as int] == ccur,
                                    cin == (all_simple(l) && all_nondegenerate(l) && consistently_oriented(l)),
                        cin == (all_simple(l) && all_nondegenerate(l) && consistently_oriented(l)),
                    cin == (all_simple(l) && all_nondegenerate(l) && consistently_oriented(l)),
                                    forall|t2: int, j: int|
                                        0 <= t2 < t && 0 <= j < nf && j != fi && #[trigger] has_key(l[j], key_of(#[trigger] edges@[t2]))
                                            ==> constraint_ok(l, flip@, fi as int, edges@[t2], j),
                                    forall|u2: int|
                                        0 <= u2 < u && #[trigger] nb@[u2] != fi ==> constraint_ok(l, flip@, fi as int, (a, b), nb@[u2] as int),
                                decreases nb@.len() - u,
                            {
                                let fj = nb[u];
                                assert(nb@.contains(fj));
                                if fj != fi {
                                    proof {
                                        lemma_faces_of_key_members(l, key);
                                        assert(faces_of_key(occurrences(l), key).contains((fj as int) as usize));
                                        assert(has_key(l[fj as int], key));
                                    }
                                    let dj_opt = directed_for_key(&solid.faces[fj], key);
                                    assert(solid.faces@[fj as int]@ == l[fj as int]);
                                    proof {
                                        lemma_first_key(loop_edges(l[fj as int]), key);
                                        if dj_opt is None {
                                            let w = choose|w: int| 0 <= w < l[fj as int].len() && #[trigger] key_of(loop_edges(l[fj as int])[w]) == key;
                                            assert(key_of(loop_edges(l[fj as int])[w]) != key);
                                        }
                                    }
                                    let dj = match dj_opt {
                                        Some(d) => d,
                                        None => (0, 0),
                                    };
                                    let di_eff = apply_flip((a, b), fi_flip);
                                    let want = dj.0 == di_eff.0 && dj.1 == di_eff.1;
                                    proof {
                                        if cin {
                                            assert(fi_flip == false);
                                            assert(all_nondegenerate(l));
                                            assert(nondegenerate_loop(l[fi as int]));
                                            assert(loop_edges(l[fi as int])[t as int].0 != loop_edges(l[fi as int])[t as int].1);
                                            assert(consistently_oriented(l));
                                            assert(has_key(l[fj as int], key_of(loop_edges(l[fi as int])[t as int])));
                                            assert(first_with_key(loop_edges(l[fj as int]), key_of(loop_edges(l[fi as int])[t as int])) == Some(rev_edge(loop_edges(l[fi as int])[t as int])));
                                            assert(want == false);
                                        }
                                    }
                                    match flip[fj] {
                                        None => {
                                            let ghost before = flip@;
                                            let ghost oldq = queue@;
                                            let ghost old_cs = cs;
                                            proof {
                                                cs = cs.update(fj as int, cs[fi as int]);
                                            }
                                            flip.set(fj, Some(want));
                                            queue.push(fj);
                                            proof {
                                                assert(old_cs[fi as int] == ccur);
                                                if good {
                                                    assert(key_of(loop_edges(l[fi as int])[t as int]) == key);
                                                    lemma_choice_follows(l, fs, fi as int, t as int, fj as int, old_cs[fi as int]);
                                                    assert forall|g: int| 0 <= g < nf && (#[trigger] flip@[g]) is Some implies flip@[g]->0 == (fs[g] != cs[g]) by {
                                                        if g != fj {
                                                            assert(before[g] is Some);
                                                        }
                                                    }
                                                    assert forall|q: int| 0 <= q < head - 1 implies agrees(l, cs, #[trigger] queue@[q] as int) by {
                                                        assert(queue@[q] == oldq[q]);
                                                        lemma_agrees_update(l, before, old_cs, oldq[q] as int, fj as int, old_cs[fi as int]);
                                                    }
                                                }
                                                assert(queue@ == oldq.push(fj));
                                                assert forall|q: int| start <= q < queue@.len() implies cs[#[trigger] queue@[q] as int] == ccur by {
                                                    if q < queue@.len() - 1 {
                                                        assert(queue@[q] == oldq[q]);
                                                        assert(before[oldq[q] as int] is Some);
                                                        assert(old_cs[oldq[q] as int] == ccur);
                                                    }
                                                }
                                                lemma_count_some_update(before, fj as int, want);
                                                assert(flip@ == before.update(fj as int, Some(want)));
                                                assert forall|q: int| 0 <= q < queue@.len() implies (#[trigger] queue@[q]) < nf && flip@[queue@[q] as int] is Some by {
                                                    if q < queue@.len() - 1 {
                                                        assert(queue@[q] == queue@.drop_last()[q]);
                                                    }
                                                }
                                                assert forall|g: int| 0 <= g < nf && (#[trigger] flip@[g]) is Some implies queue@.contains(g as usize) by {
                                                    if g == fj {
                                                        assert(queue@[queue@.len() - 1] == fj);
                                                    } else {
                                                        assert(before[g] is Some);
                                                        assert(oldq.contains(g as usize));
                                                        let q = choose|q: int| 0 <= q < oldq.len() && oldq[q] == g as usize;
                                                        assert(queue@[q] == oldq[q]);
                                                    }
                                                }
                                                assert forall|q: int| 0 <= q < head - 1 implies processed_ok(l, flip@, #[trigger] queue@[q] as int) by {
                                                    assert(queue@[q] == queue@.drop_last()[q]);
                                                    lemma_processed_update(l, before, queue@[q] as int, fj as int, Some(want));
                                                }
                                                assert forall|t2: int, j: int|
                                                    0 <= t2 < t && 0 <= j < nf && j != fi && #[trigger] has_key(l[j], key_of(#[trigger] edges@[t2]))
                                                        implies constraint_ok(l, flip@, fi as int, edges@[t2], j) by {
                                                    lemma_constraint_update(l, before, fi as int, edges@[t2], j, fj as int, Some(want));
                                                }
                                                assert forall|u2: int| 0 <= u2 < u + 1 && #[trigger] nb@[u2] != fi
                                                    implies constraint_ok(l, flip@, fi as int, (a, b), nb@[u2] as int) by {
                                                    if u2 < u {
                                                        assert(nb@.contains(nb@[u2]));
                                                        lemma_constraint_update(l, before, fi as int, (a, b), nb@[u2] as int, fj as int, Some(want));
                                                    }
                                                }
                                            }
                                        },
                                        Some(ex) => {
                                            proof {
                                                if good {
                                                    assert(queue@.contains(fj));
                                                    let q = choose|q: int| 0 <= q < queue@.len() && queue@[q] == fj;
                                                    if q < head - 1 {
                                                        assert(agrees(l, cs, queue@[q] as int));
                                                        let w = choose|w: int| 0 <= w < l[fj as int].len() && #[trigger] key_of(loop_edges(l[fj as int])[w]) == key;
                                                        assert(key_of(loop_edges(l[fi as int])[t as int]) == key);
                                                        assert(has_key(l[fi as int], key_of(loop_edges(l[fj as int])[w])));
                                                        assert(cs[fi as int] == cs[fj as int]);
                                                    } else {
                                                        assert(cs[queue@[q] as int] == ccur);
                                                        assert(cs[queue@[head - 1] as int] == ccur);
                                                    }
                                                    lemma_choice_follows(l, fs, fi as int, t as int, fj as int, cs[fi as int]);
                                                    assert(ex == want);
                                                }
                                            }
                                            if ex != want {
                                                return false;
                                            }
                                        },
                                    }
                                }
                                u = u + 1;
                            }
                            proof {
                                assert forall|t2: int, j: int|
                                    0 <= t2 < t + 1 && 0 <= j < nf && j != fi && #[trigger] has_key(l[j], key_of(#[trigger] edges@[t2]))
                                        implies constraint_ok(l, flip@, fi as int, edges@[t2], j) by {
                                    if t2 == t {
                                        assert(faces_of_key(occurrences(l), key).contains(j as usize));
                                        let u2 = choose|u2: int| 0 <= u2 < nb@.len() && nb@[u2] == j as usize;
                                        assert(nb@[u2] != fi);
                                    }
                                }
                            }
                        },
                    }
                    t = t + 1;
                }
                proof {
                    assert(processed_ok(l, flip@, fi as int));
                    assert forall|q: int| 0 <= q < head implies processed_ok(l, flip@, #[trigger] queue@[q] as int) by {}
                    if good {
                        assert forall|t2: int, j: int|
                            0 <= t2 < l[fi as int].len() && 0 <= j < l.len() && j != fi && #[trigger] has_key(
                                l[j],
                                key_of(#[trigger] loop_edges(l[fi as int])[t2]),
                            ) implies cs[j] == cs[fi as int] by {
                            assert(constraint_ok(l, flip@, fi as int, loop_edges(l[fi as int])[t2], j));
                            lemma_choice_follows(l, fs, fi as int, t2, j, cs[fi as int]);
                            assert(flip@[j] is Some);
                        }
                        assert(agrees(l, cs, fi as int));
                        assert forall|q: int| 0 <= q < head implies agrees(l, cs, #[trigger] queue@[q] as int) by {
                            if q == head - 1 {
                                assert(queue@[q] == fi);
                            }
                        }
                    }
                }
            }
        }
        seed = seed + 1;
    }
    let ghost fl = flip@;
    proof {
        assert forall|g: int| 0 <= g < nf implies #[trigger] processed_ok(l, fl, g) by {
            assert(fl[g] is Some);
            assert(queue@.contains(g as usize));
            let q = choose|q: int| 0 <= q < queue@.len() && queue@[q] == g as usize;
            assert(processed_ok(l, flip@, queue@[q] as int));
        }
    }
    let mut faces: Vec<Face> = Vec::new();
    let mut i: usize = 0;
    while i < nf
        invariant
            i <= nf,
            nf == l.len(),
            l == solid.loops(),
            solid.faces@.len() == nf,
            flip@ == fl,
            fl.len() == nf,
            loops_of(faces@) =~= flipped_loops(l, fl).take(i as int),
        decreases nf - i,
    {
        let fl_i = match flip[i] {
            Some(v) => v,
            None => false,
        };
        assert(fl_i == flip_of(fl, i as int));
        let ghost before = faces@;
        if fl_i {
            faces.push(reverse_face(&solid.faces[i]));
        } else {
            faces.push(solid.faces[i].clone());
        }
        proof {
            assert(loops_of(faces@) =~= loops_of(before).push(flipped_loops(l, fl)[i as int]));
        }
        i = i + 1;
    }
    solid.faces = faces;
    proof {
        assert(flipped_loops(l, fl).take(nf as int) =~= flipped_loops(l, fl));
        if all_simple(l) {
            lemma_flipped_consistent(l, fl);
            let fw = Seq::new(nf as nat, |f: int| flip_of(fl, f));
            assert(flipped_by(l, fw) =~= flipped_loops(l, fl));
            assert(fw.len() == l.len() && consistently_oriented(flipped_by(l, fw)));
        }
        if cin {
            assert(flipped_loops(l, fl) =~= l);
        }
    }
    true
}

} // verus!
