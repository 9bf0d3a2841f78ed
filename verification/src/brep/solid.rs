//! Welded faces, directed boundary edges and the edge-use table.

use vstd::prelude::*;

verus! {

/// A directed edge `(from, to)` between two vertex ids.
pub type Edge = (usize, usize);

/// One polygonal face: an ordered loop of vertex ids.
#[derive(Debug, PartialEq, Eq)]
pub struct Face {
    pub verts: Vec<usize>,
}

impl View for Face {
    type V = Seq<usize>;

    open spec fn view(&self) -> Seq<usize> {
        self.verts@
    }
}

impl Clone for Face {
    fn clone(&self) -> (r: Self)
        ensures
            r@ == self@,
    {
        Face { verts: self.verts.clone() }
    }
}

/// The directed boundary edges of a vertex loop, in loop order (the last
/// edge closes the loop back to the first vertex).
pub open spec fn loop_edges(v: Seq<usize>) -> Seq<Edge> {
    Seq::new(v.len(), |i: int| (v[i], v[(i + 1) % (v.len() as int)]))
}

/// Undirected key of an edge: the two ids in ascending order.
pub open spec fn key_of(e: Edge) -> Edge {
    if e.0 <= e.1 {
        (e.0, e.1)
    } else {
        (e.1, e.0)
    }
}

/// The same edge traversed the other way.
pub open spec fn rev_edge(e: Edge) -> Edge {
    (e.1, e.0)
}

/// Lexicographic order on edge keys.
pub open spec fn key_lt(a: Edge, b: Edge) -> bool {
    a.0 < b.0 || (a.0 == b.0 && a.1 < b.1)
}

/// Whether some edge of the loop has the given undirected key.
pub open spec fn has_key(v: Seq<usize>, k: Edge) -> bool {
    exists|t: int| 0 <= t < v.len() && #[trigger] key_of(loop_edges(v)[t]) == k
}

/// The first edge of `es` whose key is `k`.
pub open spec fn first_with_key(es: Seq<Edge>, k: Edge) -> Option<Edge>
    decreases es.len(),
{
    if es.len() == 0 {
        None
    } else if key_of(es[0]) == k {
        Some(es[0])
    } else {
        first_with_key(es.drop_first(), k)
    }
}

/// Face loops of a face list.
pub open spec fn loops_of(faces: Seq<Face>) -> Seq<Seq<usize>> {
    faces.map_values(|f: Face| f@)
}

/// One entry per directed edge of face `fi`: the edge key and the face index.
pub open spec fn face_occ(v: Seq<usize>, fi: usize) -> Seq<(Edge, usize)> {
    loop_edges(v).map_values(|e: Edge| (key_of(e), fi))
}

/// Edge occurrences of all faces, face by face, each face in loop order.
pub open spec fn occurrences(loops: Seq<Seq<usize>>) -> Seq<(Edge, usize)>
    decreases loops.len(),
{
    if loops.len() == 0 {
        Seq::empty()
    } else {
        occurrences(loops.drop_last()) + face_occ(loops.last(), (loops.len() - 1) as usize)
    }
}

/// The faces using key `k`, in occurrence order (a face appears once per
/// edge of it that has the key).
pub open spec fn faces_of_key(occ: Seq<(Edge, usize)>, k: Edge) -> Seq<usize>
    decreases occ.len(),
{
    if occ.len() == 0 {
        Seq::empty()
    } else {
        faces_of_key(occ.drop_last(), k) + if occ.last().0 == k {
            seq![occ.last().1]
        } else {
            Seq::empty()
        }
    }
}

/// How many face edges have key `k`.
pub open spec fn use_count(loops: Seq<Seq<usize>>, k: Edge) -> nat {
    faces_of_key(occurrences(loops), k).len()
}

/// `table` is the edge-use table of `loops`: one entry per distinct edge key,
/// in ascending key order, listing the faces that use it.
pub open spec fn is_edge_table(loops: Seq<Seq<usize>>, table: Seq<(Edge, Seq<usize>)>) -> bool {
    &&& forall|i: int, j: int| 0 <= i < j < table.len() ==> key_lt(#[trigger] table[i].0, #[trigger] table[j].0)
    &&& forall|i: int| 0 <= i < table.len() ==> #[trigger] table[i].1 == faces_of_key(occurrences(loops), table[i].0)
    &&& forall|i: int| 0 <= i < table.len() ==> (#[trigger] table[i].1).len() > 0
    &&& forall|k: Edge| use_count(loops, k) > 0 ==> exists|i: int| 0 <= i < table.len() && #[trigger] table[i].0 == k
}

/// Entry of the edge-use table.
#[derive(Debug, PartialEq, Eq)]
pub struct EdgeUse {
    pub key: Edge,
    pub faces: Vec<usize>,
}

pub open spec fn table_view(t: Seq<EdgeUse>) -> Seq<(Edge, Seq<usize>)> {
    t.map_values(|e: EdgeUse| (e.key, e.faces@))
}

/// Undirected edge key: vertex ids in ascending order, so the same physical
/// edge seen from two faces collapses to one key.
pub fn edge_key(a: usize, b: usize) -> (r: Edge)
    ensures
        r == key_of((a, b)),
{
    if a <= b {
        (a, b)
    } else {
        (b, a)
    }
}

fn key_less(a: Edge, b: Edge) -> (r: bool)
    ensures
        r == key_lt(a, b),
{
    a.0 < b.0 || (a.0 == b.0 && a.1 < b.1)
}

impl Face {
    /// Directed boundary edges `(from, to)` of this face, in loop order.
    pub fn directed_edges(&self) -> (r: Vec<Edge>)
        ensures
            r@ == loop_edges(self@),
    {
        let n = self.verts.len();
        let mut out: Vec<Edge> = Vec::new();
        let mut i: usize = 0;
        while i < n
            invariant
                n == self.verts@.len(),
                i <= n,
                out@ =~= loop_edges(self@).take(i as int),
            decreases n - i,
        {
            let next = if i + 1 == n {
                0
            } else {
                i + 1
            };
            proof {
                if i + 1 == n {
                    vstd::arithmetic::div_mod::lemma_mod_self_0(n as int);
                } else {
                    vstd::arithmetic::div_mod::lemma_small_mod((i + 1) as nat, n as nat);
                }
                assert(next == (i + 1) % (n as int));
            }
            out.push((self.verts[i], self.verts[next]));
            i = i + 1;
        }
        out
    }
}

/// Welded vertex count plus the faces that reference the vertices.
#[derive(Debug, PartialEq, Eq)]
pub struct Solid {
    pub vert_count: usize,
    pub faces: Vec<Face>,
}

impl Clone for Solid {
    fn clone(&self) -> (r: Self)
        ensures
            r.vert_count == self.vert_count,
            loops_of(r.faces@) == loops_of(self.faces@),
    {
        let mut faces: Vec<Face> = Vec::new();
        let mut i: usize = 0;
        while i < self.faces.len()
            invariant
                i <= self.faces@.len(),
                loops_of(faces@) =~= loops_of(self.faces@).take(i as int),
            decreases self.faces@.len() - i,
        {
            let ghost before = faces@;
            faces.push(self.faces[i].clone());
            proof {
                assert(loops_of(faces@) =~= loops_of(before).push(self.faces@[i as int]@));
            }
            i = i + 1;
        }
        Solid { vert_count: self.vert_count, faces }
    }
}

/// Remove consecutive duplicates, then drop a repeated wrap-around endpoint.
pub open spec fn dedup_consecutive(v: Seq<usize>) -> Seq<usize>
    decreases v.len(),
{
    if v.len() == 0 {
        v
    } else {
        let d = dedup_consecutive(v.drop_last());
        if d.len() > 0 && d.last() == v.last() {
            d
        } else {
            d.push(v.last())
        }
    }
}

pub open spec fn trim_wrap(v: Seq<usize>) -> Seq<usize>
    decreases v.len(),
{
    if v.len() >= 2 && v.first() == v.last() {
        trim_wrap(v.drop_last())
    } else {
        v
    }
}

pub open spec fn dedup_cycle_spec(v: Seq<usize>) -> Seq<usize> {
    trim_wrap(dedup_consecutive(v))
}

/// Remove consecutive duplicate ids and a duplicated wrap-around endpoint.
pub fn dedup_cycle(ids: &mut Vec<usize>)
    ensures
        final(ids)@ == dedup_cycle_spec(old(ids)@),
{
    let mut out: Vec<usize> = Vec::new();
    let mut i: usize = 0;
    while i < ids.len()
        invariant
            i <= ids@.len(),
            ids@ == old(ids)@,
            out@ == dedup_consecutive(ids@.take(i as int)),
        decreases ids@.len() - i,
    {
        proof {
            assert(ids@.take(i + 1).drop_last() =~= ids@.take(i as int));
        }
        let x = ids[i];
        if out.len() > 0 && out[out.len() - 1] == x {
        } else {
            out.push(x);
        }
        i = i + 1;
    }
    proof {
        assert(ids@.take(ids@.len() as int) =~= ids@);
    }
    while out.len() >= 2 && out[0] == out[out.len() - 1]
        invariant
            trim_wrap(out@) == dedup_cycle_spec(old(ids)@),
        decreases out@.len(),
    {
        out.pop();
    }
    *ids = out;
}

/// All edge occurrences of the faces, in face order.
fn edge_occurrences(faces: &Vec<Face>) -> (occ: Vec<(Edge, usize)>)
    ensures
        occ@ == occurrences(loops_of(faces@)),
{
    let mut occ: Vec<(Edge, usize)> = Vec::new();
    let mut fi: usize = 0;
    while fi < faces.len()
        invariant
            fi <= faces@.len(),
            occ@ == occurrences(loops_of(faces@).take(fi as int)),
        decreases faces@.len() - fi,
    {
        let edges = faces[fi].directed_edges();
        let ghost base = occ@;
        let mut t: usize = 0;
        while t < edges.len()
            invariant
                t <= edges@.len(),
                edges@ == loop_edges(faces@[fi as int]@),
                occ@ =~= base + face_occ(faces@[fi as int]@, fi).take(t as int),
            decreases edges@.len() - t,
        {
            let (a, b) = edges[t];
            occ.push((edge_key(a, b), fi));
            t = t + 1;
        }
        proof {
            let l = loops_of(faces@);
            assert(l.take(fi + 1).drop_last() =~= l.take(fi as int));
            assert(face_occ(faces@[fi as int]@, fi).take(edges@.len() as int) =~= face_occ(
                faces@[fi as int]@,
                fi,
            ));
        }
        fi = fi + 1;
    }
    proof {
        assert(loops_of(faces@).take(faces@.len() as int) =~= loops_of(faces@));
    }
    occ
}

proof fn lemma_faces_of_key_step(occ: Seq<(Edge, usize)>, t: int, k: Edge)
    requires
        0 <= t < occ.len(),
    ensures
        faces_of_key(occ.take(t + 1), k) == faces_of_key(occ.take(t), k) + if occ[t].0 == k {
            seq![occ[t].1]
        } else {
            Seq::<usize>::empty()
        },
{
    assert(occ.take(t + 1).drop_last() =~= occ.take(t));
}

proof fn lemma_faces_of_key_absent(occ: Seq<(Edge, usize)>, k: Edge)
    requires
        forall|j: int| 0 <= j < occ.len() ==> (#[trigger] occ[j]).0 != k,
    ensures
        faces_of_key(occ, k) == Seq::<usize>::empty(),
    decreases occ.len(),
{
    if occ.len() > 0 {
        lemma_faces_of_key_absent(occ.drop_last(), k);
    }
}

/// A nonempty face list for a key comes from an occurrence of that key.
pub proof fn lemma_faces_of_key_present(occ: Seq<(Edge, usize)>, k: Edge)
    requires
        faces_of_key(occ, k).len() > 0,
    ensures
        exists|j: int| 0 <= j < occ.len() && (#[trigger] occ[j]).0 == k,
    decreases occ.len(),
{
    if occ.last().0 != k {
        lemma_faces_of_key_present(occ.drop_last(), k);
        let j = choose|j: int| 0 <= j < occ.drop_last().len() && (#[trigger] occ.drop_last()[j]).0 == k;
        assert(occ[j] == occ.drop_last()[j]);
    } else {
        assert(occ[occ.len() - 1].0 == k);
    }
}

pub open spec fn table_has_key(t: Seq<EdgeUse>, k: Edge) -> bool {
    exists|i: int| 0 <= i < t.len() && t[i].key == k
}

/// Group the occurrences by key into a table sorted by key.
fn group_by_key(occ: &Vec<(Edge, usize)>) -> (table: Vec<EdgeUse>)
    ensures
        forall|i: int, j: int|
            0 <= i < j < table@.len() ==> key_lt(#[trigger] table@[i].key, #[trigger] table@[j].key),
        forall|i: int|
            0 <= i < table@.len() ==> (#[trigger] table@[i]).faces@ == faces_of_key(occ@, table@[i].key),
        forall|i: int| 0 <= i < table@.len() ==> (#[trigger] table@[i]).faces@.len() > 0,
        forall|j: int| 0 <= j < occ@.len() ==> table_has_key(table@, #[trigger] occ@[j].0),
{
    let mut keys: Vec<Edge> = Vec::new();
    let mut lists: Vec<Vec<usize>> = Vec::new();
    let mut t: usize = 0;
    while t < occ.len()
        invariant
            t <= occ@.len(),
            keys@.len() == lists@.len(),
            forall|i: int, j: int| 0 <= i < j < keys@.len() ==> key_lt(#[trigger] keys@[i], #[trigger] keys@[j]),
            forall|i: int|
                0 <= i < keys@.len() ==> (#[trigger] lists@[i])@ == faces_of_key(occ@.take(t as int), keys@[i]),
            forall|i: int| 0 <= i < keys@.len() ==> (#[trigger] lists@[i])@.len() > 0,
            forall|j: int| 0 <= j < t ==> keys@.contains(#[trigger] occ@[j].0),
        decreases occ@.len() - t,
    {
        let (k, fi) = occ[t];
        let mut p: usize = 0;
        while p < keys.len() && key_less(keys[p], k)
            invariant
                p <= keys@.len(),
                forall|i: int| 0 <= i < p ==> key_lt(#[trigger] keys@[i], k),
            decreases keys@.len() - p,
        {
            p = p + 1;
        }
        proof {
            assert forall|i: int| 0 <= i < keys@.len() implies (#[trigger] lists@[i])@ == faces_of_key(occ@.take(t as int), keys@[i]) by {}
        }
        let ghost old_keys = keys@;
        let ghost old_lists = lists@;
        if p < keys.len() && keys[p].0 == k.0 && keys[p].1 == k.1 {
            let mut l = lists.remove(p);
            l.push(fi);
            lists.insert(p, l);
            proof {
                assert forall|i: int| 0 <= i < keys@.len() implies (#[trigger] lists@[i])@ == faces_of_key(occ@.take(t + 1), keys@[i]) by {
                    lemma_faces_of_key_step(occ@, t as int, keys@[i]);
                    if i != p {
                        assert(lists@[i] == old_lists[i]);
                    }
                }
                assert forall|j: int| 0 <= j < t + 1 implies keys@.contains(#[trigger] occ@[j].0) by {
                    if j == t {
                        assert(keys@[p as int] == occ@[j].0);
                    }
                }
            }
        } else {
            proof {
                if p < keys@.len() {
                    assert(key_lt(k, keys@[p as int]));
                }
                assert forall|j: int| 0 <= j < occ@.take(t as int).len() implies (#[trigger] occ@.take(t as int)[j]).0 != k by {
                    assert(occ@.take(t as int)[j] == occ@[j]);
                    assert(keys@.contains(occ@[j].0));
                    let i = choose|i: int| 0 <= i < keys@.len() && keys@[i] == occ@[j].0;
                    if i < p {
                        assert(key_lt(keys@[i], k));
                    } else if i > p {
                        assert(key_lt(keys@[p as int], keys@[i]));
                    }
                }
                lemma_faces_of_key_absent(occ@.take(t as int), k);
            }
            let mut l: Vec<usize> = Vec::new();
            l.push(fi);
            keys.insert(p, k);
            lists.insert(p, l);
            proof {
                assert forall|i: int, j: int| 0 <= i < j < keys@.len() implies key_lt(#[trigger] keys@[i], #[trigger] keys@[j]) by {
                    if i < p && j > p {
                        assert(keys@[j] == old_keys[j - 1]);
                    }
                    if i > p {
                        assert(keys@[i] == old_keys[i - 1]);
                        assert(keys@[j] == old_keys[j - 1]);
                    }
                    if i == p && j > p {
                        assert(keys@[j] == old_keys[j - 1]);
                        if j - 1 > p {
                            assert(key_lt(old_keys[p as int], old_keys[j - 1]));
                        }
                    }
                }
                assert forall|i: int| 0 <= i < keys@.len() implies (#[trigger] lists@[i])@ == faces_of_key(occ@.take(t + 1), keys@[i]) by {
                    lemma_faces_of_key_step(occ@, t as int, keys@[i]);
                    if i < p {
                        assert(lists@[i] == old_lists[i]);
                    } else if i > p {
                        assert(lists@[i] == old_lists[i - 1]);
                        assert(keys@[i] == old_keys[i - 1]);
                    }
                }
                assert forall|i: int| 0 <= i < keys@.len() implies (#[trigger] lists@[i])@.len() > 0 by {
                    if i < p {
                        assert(lists@[i] == old_lists[i]);
                    } else if i > p {
                        assert(lists@[i] == old_lists[i - 1]);
                    }
                }
                assert forall|j: int| 0 <= j < t + 1 implies keys@.contains(#[trigger] occ@[j].0) by {
                    if j == t {
                        assert(keys@[p as int] == occ@[j].0);
                    } else {
                        assert(old_keys.contains(occ@[j].0));
                        let i = choose|i: int| 0 <= i < old_keys.len() && old_keys[i] == occ@[j].0;
                        if i < p {
                            assert(keys@[i] == old_keys[i]);
                        } else {
                            assert(keys@[i + 1] == old_keys[i]);
                        }
                    }
                }
            }
        }
        t = t + 1;
    }
    proof {
        assert(occ@.take(occ@.len() as int) =~= occ@);
        assert(t == occ@.len());
        assert forall|j: int| 0 <= j < occ@.len() implies keys@.contains(#[trigger] occ@[j].0) by {
            assert(j < t);
        }
    }
    let mut table: Vec<EdgeUse> = Vec::new();
    let mut i: usize = 0;
    while i < keys.len()
        invariant
            i <= keys@.len(),
            keys@.len() == lists@.len(),
            table@.len() == i,
            forall|m: int| 0 <= m < i ==> (#[trigger] table@[m]).key == keys@[m] && table@[m].faces@ == lists@[m]@,
            forall|a: int, b: int| 0 <= a < b < keys@.len() ==> key_lt(#[trigger] keys@[a], #[trigger] keys@[b]),
            forall|m: int| 0 <= m < keys@.len() ==> (#[trigger] lists@[m])@ == faces_of_key(occ@, keys@[m]),
            forall|m: int| 0 <= m < keys@.len() ==> (#[trigger] lists@[m])@.len() > 0,
            forall|j: int| 0 <= j < occ@.len() ==> keys@.contains(#[trigger] occ@[j].0),
        decreases keys@.len() - i,
    {
        let l = lists[i].clone();
        proof {
            assert(l@ =~= lists@[i as int]@);
        }
        table.push(EdgeUse { key: keys[i], faces: l });
        i = i + 1;
    }
    proof {
        assert forall|j: int| 0 <= j < occ@.len() implies table_has_key(table@, #[trigger] occ@[j].0) by {
            assert(keys@.contains(occ@[j].0));
            let i = choose|i: int| 0 <= i < keys@.len() && keys@[i] == occ@[j].0;
            assert(table@[i].key == keys@[i]);
        }
    }
    table
}

impl Solid {
    pub open spec fn loops(&self) -> Seq<Seq<usize>> {
        loops_of(self.faces@)
    }

    /// Build faces from welded loops: `remap[i]` is the welded vertex id of
    /// input point `i`, and `spans` gives `(start, len)` of each loop within
    /// the input points. Loops that collapse to fewer than three distinct ids
    /// are skipped.
    pub fn from_welded(vert_count: usize, remap: &Vec<usize>, spans: &Vec<(usize, usize)>) -> (r: Self)
        requires
            forall|s: int|
                0 <= s < spans@.len() ==> (#[trigger] spans@[s]).0 + spans@[s].1 <= remap@.len(),
        ensures
            r.vert_count == vert_count,
            r.loops() == welded_loops(remap@, spans@),
    {
        let mut faces: Vec<Face> = Vec::new();
        let mut s: usize = 0;
        while s < spans.len()
            invariant
                s <= spans@.len(),
                forall|s: int|
                    0 <= s < spans@.len() ==> (#[trigger] spans@[s]).0 + spans@[s].1 <= remap@.len(),
                loops_of(faces@) == welded_loops(remap@, spans@.take(s as int)),
            decreases spans@.len() - s,
        {
            let (start, len) = spans[s];
            assert(spans@[s as int].0 + spans@[s as int].1 <= remap@.len());
            let mut ids: Vec<usize> = Vec::new();
            let mut i: usize = 0;
            while i < len
                invariant
                    i <= len,
                    start + len <= remap@.len(),
                    remap@.len() == remap.len(),
                    ids@ =~= remap@.subrange(start as int, start + i),
                decreases len - i,
            {
                ids.push(remap[start + i]);
                i = i + 1;
            }
            dedup_cycle(&mut ids);
            proof {
                assert(spans@.take(s + 1).drop_last() =~= spans@.take(s as int));
            }
            if ids.len() >= 3 {
                let ghost before = faces@;
                faces.push(Face { verts: ids });
                proof {
                    assert(loops_of(faces@) =~= loops_of(before).push(ids@));
                }
            }
            s = s + 1;
        }
        proof {
            assert(spans@.take(spans@.len() as int) =~= spans@);
        }
        Solid { vert_count, faces }
    }

    /// The edge-use table: every undirected edge key with the faces using
    /// it, sorted by key.
    pub fn edge_use(&self) -> (r: Vec<EdgeUse>)
        ensures
            is_edge_table(self.loops(), table_view(r@)),
    {
        let occ = edge_occurrences(&self.faces);
        let table = group_by_key(&occ);
        proof {
            let tv = table_view(table@);
            assert forall|k: Edge| use_count(self.loops(), k) > 0 implies exists|i: int| 0 <= i < tv.len() && #[trigger] tv[i].0 == k by {
                lemma_faces_of_key_present(occ@, k);
                let j = choose|j: int| 0 <= j < occ@.len() && (#[trigger] occ@[j]).0 == k;
                assert(table_has_key(table@, occ@[j].0));
                let i = choose|i: int| 0 <= i < table@.len() && table@[i].key == occ@[j].0;
                assert(tv[i].0 == k);
            }
            assert forall|i: int, j: int| 0 <= i < j < tv.len() implies key_lt(#[trigger] tv[i].0, #[trigger] tv[j].0) by {
                assert(tv[i].0 == table@[i].key);
                assert(tv[j].0 == table@[j].key);
            }
            assert forall|i: int| 0 <= i < tv.len() implies #[trigger] tv[i].1 == faces_of_key(occurrences(self.loops()), tv[i].0) by {
                assert(tv[i].1 == table@[i].faces@);
            }
            assert forall|i: int| 0 <= i < tv.len() implies (#[trigger] tv[i].1).len() > 0 by {
                assert(tv[i].1 == table@[i].faces@);
            }
        }
        table
    }

    /// Edges used by two or more faces, in ascending key order.
    pub fn shared_edges(&self) -> (r: Vec<Edge>)
        ensures
            forall|i: int, j: int| 0 <= i < j < r@.len() ==> key_lt(#[trigger] r@[i], #[trigger] r@[j]),
            forall|k: Edge| #[trigger] r@.contains(k) <==> use_count(self.loops(), k) >= 2,
    {
        let table = self.edge_use();
        let ghost tv = table_view(table@);
        let mut out: Vec<Edge> = Vec::new();
        let mut i: usize = 0;
        while i < table.len()
            invariant
                i <= table@.len(),
                tv == table_view(table@),
                is_edge_table(self.loops(), tv),
                forall|a: int, b: int| 0 <= a < b < out@.len() ==> key_lt(#[trigger] out@[a], #[trigger] out@[b]),
                forall|a: int| 0 <= a < out@.len() ==> exists|m: int| 0 <= m < i && #[trigger] tv[m].0 == #[trigger] out@[a] && tv[m].1.len() >= 2,
                forall|m: int| 0 <= m < i && (#[trigger] tv[m]).1.len() >= 2 ==> out@.contains(tv[m].0),
                out@.len() == 0 || (i > 0 && exists|m: int| 0 <= m < i && #[trigger] tv[m].0 == out@.last()),
            decreases table@.len() - i,
        {
            assert(tv[i as int].0 == table@[i as int].key);
            assert(tv[i as int].1 == table@[i as int].faces@);
            if table[i].faces.len() >= 2 {
                let ghost before = out@;
                out.push(table[i].key);
                proof {
                    assert forall|a: int, b: int| 0 <= a < b < out@.len() implies key_lt(#[trigger] out@[a], #[trigger] out@[b]) by {
                        if b == out@.len() - 1 && a < b {
                            let m = choose|m: int| 0 <= m < i && #[trigger] tv[m].0 == #[trigger] out@[a] && tv[m].1.len() >= 2;
                            assert(key_lt(tv[m].0, tv[i as int].0));
                        }
                    }
                    assert forall|a: int| 0 <= a < out@.len() implies exists|m: int| 0 <= m < i + 1 && #[trigger] tv[m].0 == #[trigger] out@[a] && tv[m].1.len() >= 2 by {
                        if a < before.len() {
                            assert(out@[a] == before[a]);
                        } else {
                            assert(tv[i as int].0 == out@[a]);
                        }
                    }
                    assert forall|m: int| 0 <= m < i + 1 && (#[trigger] tv[m]).1.len() >= 2 implies out@.contains(tv[m].0) by {
                        if m < i {
                            assert(before.contains(tv[m].0));
                            let a = choose|a: int| 0 <= a < before.len() && before[a] == tv[m].0;
                            assert(out@[a] == tv[m].0);
                        } else {
                            assert(out@[out@.len() - 1] == tv[m].0);
                        }
                    }
                    assert(tv[i as int].0 == out@.last());
                }
            }
            i = i + 1;
        }
        proof {
            assert forall|k: Edge| #[trigger] out@.contains(k) <==> use_count(self.loops(), k) >= 2 by {
                if out@.contains(k) {
                    let a = choose|a: int| 0 <= a < out@.len() && out@[a] == k;
                    let m = choose|m: int| 0 <= m < i && #[trigger] tv[m].0 == #[trigger] out@[a] && tv[m].1.len() >= 2;
                    assert(tv[m].1 == faces_of_key(occurrences(self.loops()), tv[m].0));
                }
                if use_count(self.loops(), k) >= 2 {
                    let m = choose|m: int| 0 <= m < tv.len() && #[trigger] tv[m].0 == k;
                    assert(tv[m].1 == faces_of_key(occurrences(self.loops()), tv[m].0));
                }
            }
        }
        out
    }

    /// Euler characteristic `V - E + F`, where `E` counts distinct undirected
    /// edges. For a closed genus-0 solid this is 2.
    pub fn euler_characteristic(&self) -> (r: i64)
        requires
            self.vert_count + self.faces@.len() <= i64::MAX,
            edge_count(self.loops()) <= i64::MAX,
        ensures
            r == self.vert_count as int - edge_count(self.loops()) + self.faces@.len(),
    {
        let table = self.edge_use();
        proof {
            let tv = table_view(table@);
            let ks = tv.map_values(|e: (Edge, Seq<usize>)| e.0);
            assert(ks.no_duplicates()) by {
                assert forall|i: int, j: int| 0 <= i < ks.len() && 0 <= j < ks.len() && i != j implies ks[i] != ks[j] by {
                    if i < j {
                        assert(key_lt(tv[i].0, tv[j].0));
                    } else {
                        assert(key_lt(tv[j].0, tv[i].0));
                    }
                }
            }
            assert(ks.to_set() =~= edge_keys(self.loops())) by {
                assert forall|k: Edge| #[trigger] ks.to_set().contains(k) implies edge_keys(self.loops()).contains(k) by {
                    let i = choose|i: int| 0 <= i < ks.len() && ks[i] == k;
                    assert(tv[i].1 == faces_of_key(occurrences(self.loops()), tv[i].0));
                    assert(tv[i].1.len() > 0);
                }
                assert forall|k: Edge| #[trigger] edge_keys(self.loops()).contains(k) implies ks.to_set().contains(k) by {
                    let i = choose|i: int| 0 <= i < tv.len() && #[trigger] tv[i].0 == k;
                    assert(ks[i] == k);
                }
            }
            ks.unique_seq_to_set();
            assert(table@.len() == edge_count(self.loops()));
        }
        let v = self.vert_count as i64;
        let f = self.faces.len() as i64;
        let e = table.len() as i64;
        v + f - e
    }

    /// Reverse every face loop (turn the whole shell inside out).
    pub fn flip(&mut self)
        ensures
            final(self).vert_count == old(self).vert_count,
            final(self).loops() == old(self).loops().map_values(|v: Seq<usize>| reversed(v)),
    {
        let ghost orig = self.loops();
        let mut faces: Vec<Face> = Vec::new();
        let mut i: usize = 0;
        while i < self.faces.len()
            invariant
                i <= self.faces@.len(),
                self.loops() == orig,
                loops_of(faces@) =~= orig.map_values(|v: Seq<usize>| reversed(v)).take(i as int),
            decreases self.faces@.len() - i,
        {
            let f = reverse_face(&self.faces[i]);
            let ghost before = faces@;
            faces.push(f);
            proof {
                assert(loops_of(faces@) =~= loops_of(before).push(reversed(self.faces@[i as int]@)));
            }
            i = i + 1;
        }
        self.faces = faces;
    }
}

/// The distinct undirected edge keys used by the loops.
pub open spec fn edge_keys(loops: Seq<Seq<usize>>) -> Set<Edge> {
    Set::new(|k: Edge| use_count(loops, k) > 0)
}

/// Number of distinct undirected edges of the loops.
pub open spec fn edge_count(loops: Seq<Seq<usize>>) -> nat {
    edge_keys(loops).len()
}

/// The loop traversed backwards.
pub open spec fn reversed(v: Seq<usize>) -> Seq<usize> {
    Seq::new(v.len(), |i: int| v[v.len() - 1 - i])
}

pub fn reverse_face(f: &Face) -> (r: Face)
    ensures
        r@ == reversed(f@),
{
    let n = f.verts.len();
    let mut out: Vec<usize> = Vec::new();
    let mut i: usize = 0;
    while i < n
        invariant
            n == f@.len(),
            i <= n,
            out@ =~= reversed(f@).take(i as int),
        decreases n - i,
    {
        out.push(f.verts[n - 1 - i]);
        i = i + 1;
    }
    Face { verts: out }
}

/// Face loops produced from welded ids: each span is cut out of `remap`,
/// deduplicated, and kept when at least three ids remain.
pub open spec fn welded_loops(remap: Seq<usize>, spans: Seq<(usize, usize)>) -> Seq<Seq<usize>>
    decreases spans.len(),
{
    if spans.len() == 0 {
        Seq::empty()
    } else {
        let prev = welded_loops(remap, spans.drop_last());
        let sp = spans.last();
        let ids = dedup_cycle_spec(remap.subrange(sp.0 as int, sp.0 + sp.1));
        if ids.len() >= 3 {
            prev.push(ids)
        } else {
            prev
        }
    }
}

} // verus!
