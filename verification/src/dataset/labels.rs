//! Label vocabularies of text labels: the distinct labels in ascending text
//! order, and each row's position in that vocabulary.

use vstd::prelude::*;
use crate::text::chars_of;

verus! {

/// `a` comes before `b` when they first differ at or after `i`: by the
/// smaller character there, or by `a` ending first.
pub open spec fn lt_from(a: Seq<char>, b: Seq<char>, i: nat) -> bool
    decreases b.len() - i,
{
    if i >= b.len() {
        false
    } else if i >= a.len() {
        true
    } else if a[i as int] != b[i as int] {
        (a[i as int] as u32) < (b[i as int] as u32)
    } else {
        lt_from(a, b, i + 1)
    }
}

/// Lexicographic order by code point: the order of `String`'s `Ord`.
pub open spec fn text_lt(a: Seq<char>, b: Seq<char>) -> bool {
    lt_from(a, b, 0)
}

/// Every text comes strictly after the ones before it.
pub open spec fn text_increasing(v: Seq<Seq<char>>) -> bool {
    forall|i: int, j: int| 0 <= i < j < v.len() ==> text_lt(#[trigger] v[i], #[trigger] v[j])
}

pub open spec fn texts(v: Seq<String>) -> Seq<Seq<char>> {
    v.map_values(|s: String| s@)
}

proof fn lemma_char_code_injective(c: char, d: char)
    ensures
        c != d ==> (c as u32) != (d as u32),
{
    assert(c as u32 == c as int);
    assert(d as u32 == d as int);
}

proof fn lemma_lt_irreflexive(a: Seq<char>, i: nat)
    ensures
        !lt_from(a, a, i),
    decreases a.len() - i,
{
    if i < a.len() {
        lemma_lt_irreflexive(a, i + 1);
    }
}

proof fn lemma_lt_transitive(a: Seq<char>, b: Seq<char>, c: Seq<char>, i: nat)
    requires
        lt_from(a, b, i),
        lt_from(b, c, i),
    ensures
        lt_from(a, c, i),
    decreases c.len() - i,
{
    if i < a.len() && i < b.len() && i < c.len() && a[i as int] == b[i as int] && b[i as int] == c[i as int] {
        lemma_lt_transitive(a, b, c, i + 1);
    }
}

proof fn lemma_lt_total(a: Seq<char>, b: Seq<char>, i: nat)
    requires
        i <= a.len(),
        i <= b.len(),
        a.skip(i as int) != b.skip(i as int),
    ensures
        lt_from(a, b, i) || lt_from(b, a, i),
    decreases a.len() - i,
{
    if i < a.len() && i < b.len() && a[i as int] == b[i as int] {
        if a.skip((i + 1) as int) == b.skip((i + 1) as int) {
            assert(a.skip(i as int) =~= seq![a[i as int]] + a.skip((i + 1) as int));
            assert(b.skip(i as int) =~= seq![b[i as int]] + b.skip((i + 1) as int));
        }
        lemma_lt_total(a, b, i + 1);
    } else if i < a.len() && i < b.len() {
        lemma_char_code_injective(a[i as int], b[i as int]);
    } else if i == a.len() && i == b.len() {
        assert(a.skip(i as int) =~= b.skip(i as int));
    }
}

/// Compare two texts: negative, zero or positive as `a` comes before,
/// equals or comes after `b`.
fn compare_text(a: &Vec<char>, b: &Vec<char>) -> (r: i8)
    ensures
        r < 0 <==> text_lt(a@, b@),
        r == 0 <==> a@ == b@,
        r > 0 <==> text_lt(b@, a@),
{
    let mut i: usize = 0;
    while i < a.len() && i < b.len() && a[i] == b[i]
        invariant
            i <= a@.len(),
            i <= b@.len(),
            forall|j: int| 0 <= j < i ==> a@[j] == b@[j],
            lt_from(a@, b@, 0) == lt_from(a@, b@, i as nat),
            lt_from(b@, a@, 0) == lt_from(b@, a@, i as nat),
        decreases a@.len() - i,
    {
        i = i + 1;
    }
    proof {
        lemma_lt_irreflexive(a@, 0);
    }
    if i < a.len() && i < b.len() {
        proof {
            assert(a@ != b@) by {
                if a@ == b@ {
                    assert(a@[i as int] == b@[i as int]);
                }
            }
        }
        proof {
            lemma_char_code_injective(a@[i as int], b@[i as int]);
        }
        if (a[i] as u32) < (b[i] as u32) {
            -1
        } else {
            1
        }
    } else if i < b.len() {
        proof {
            assert(a@.len() != b@.len());
        }
        -1
    } else if i < a.len() {
        proof {
            assert(a@.len() != b@.len());
        }
        1
    } else {
        proof {
            assert(a@ =~= b@);
        }
        0
    }
}

/// Where `x` stands in an increasing vocabulary: `Ok(i)` when `v[i]` is
/// `x`, else `Err(i)` with `i` the position that keeps the order.
fn find_text(v: &Vec<String>, x: &Vec<char>) -> (r: Result<usize, usize>)
    requires
        text_increasing(texts(v@)),
    ensures
        match r {
            Ok(i) => i < v@.len() && v@[i as int]@ == x@,
            Err(i) => i <= v@.len() && (forall|j: int| 0 <= j < i ==> text_lt(#[trigger] v@[j]@, x@)) && (
            forall|j: int| i <= j < v@.len() ==> text_lt(x@, #[trigger] v@[j]@)),
        },
{
    let ghost t = texts(v@);
    let mut i: usize = 0;
    while i < v.len()
        invariant
            i <= v@.len(),
            t == texts(v@),
            text_increasing(t),
            forall|j: int| 0 <= j < i ==> text_lt(#[trigger] v@[j]@, x@),
        decreases v@.len() - i,
    {
        let c = chars_of(v[i].as_str());
        let o = compare_text(&c, x);
        if o == 0 {
            return Ok(i);
        }
        if o > 0 {
            proof {
                assert forall|j: int| i <= j < v@.len() implies text_lt(x@, #[trigger] v@[j]@) by {
                    if j > i {
                        assert(t[i as int] == v@[i as int]@ && t[j] == v@[j]@);
                        assert(text_lt(t[i as int], t[j]));
                        lemma_lt_transitive(x@, v@[i as int]@, v@[j]@, 0);
                    }
                }
            }
            return Err(i);
        }
        i = i + 1;
    }
    Err(i)
}

/// Dense label ids for text labels: `vocab` holds the distinct labels in
/// ascending text order and `ids[i]` is the position of `values[i]` in it.
pub fn labels_from_strings(values: &[String]) -> (r: (Vec<u32>, Vec<String>))
    requires
        values@.len() <= 0x1_0000_0000,
    ensures
        text_increasing(texts(r.1@)),
        texts(r.1@).to_set() == texts(values@).to_set(),
        r.0@.len() == values@.len(),
        forall|i: int| 0 <= i < values@.len() ==> (#[trigger] r.0@[i]) < r.1@.len() && r.1@[r.0@[i] as int]@
            == values@[i]@,
{
    let ghost vt = texts(values@);
    let mut vocab: Vec<String> = Vec::new();
    let mut i: usize = 0;
    while i < values.len()
        invariant
            i <= values@.len(),
            values@.len() <= 0x1_0000_0000,
            vt == texts(values@),
            text_increasing(texts(vocab@)),
            vocab@.len() <= i,
            texts(vocab@).to_set() == vt.take(i as int).to_set(),
        decreases values@.len() - i,
    {
        let x = chars_of(values[i].as_str());
        let ghost before = texts(vocab@);
        proof {
            assert(vt.take(i + 1) =~= vt.take(i as int).push(x@));
            broadcast use vstd::seq_lib::group_seq_properties;
        }
        match find_text(&vocab, &x) {
            Ok(pos) => {
                proof {
                    assert(before[pos as int] == x@);
                    assert(before.to_set().contains(x@));
                    assert(vt.take(i + 1).to_set() =~= vt.take(i as int).to_set().insert(x@));
                }
            },
            Err(pos) => {
                let ghost bv = vocab@;
                vocab.insert(pos, values[i].clone());
                proof {
                    assert(texts(vocab@) =~= before.take(pos as int).push(x@) + before.skip(pos as int));
                    let after = texts(vocab@);
                    assert forall|a: int, b: int| 0 <= a < b < after.len() implies text_lt(
                        #[trigger] after[a],
                        #[trigger] after[b],
                    ) by {
                        if b < pos {
                            assert(text_lt(before[a], before[b]));
                        } else if b == pos {
                            assert(text_lt(bv[a]@, x@));
                        } else if a < pos {
                            assert(text_lt(bv[a]@, x@));
                            assert(text_lt(x@, bv[b - 1]@));
                            lemma_lt_transitive(after[a], x@, after[b], 0);
                        } else if a == pos {
                            assert(text_lt(x@, bv[b - 1]@));
                        } else {
                            assert(text_lt(before[a - 1], before[b - 1]));
                        }
                    }
                    assert(after.to_set() =~= before.to_set().insert(x@)) by {
                        assert forall|y: Seq<char>| #[trigger] after.to_set().contains(y) implies before.to_set().insert(
                            x@,
                        ).contains(y) by {
                            let k = choose|k: int| 0 <= k < after.len() && after[k] == y;
                            if k < pos {
                                assert(before[k] == y);
                            } else if k > pos {
                                assert(before[k - 1] == y);
                            }
                        }
                        assert forall|y: Seq<char>| #[trigger] before.to_set().insert(x@).contains(y) implies after.to_set().contains(
                            y,
                        ) by {
                            if y == x@ {
                                assert(after[pos as int] == x@);
                            } else {
                                let k = choose|k: int| 0 <= k < before.len() && before[k] == y;
                                if k < pos {
                                    assert(after[k] == y);
                                } else {
                                    assert(after[k + 1] == y);
                                }
                            }
                        }
                    }
                    assert(vt.take(i + 1).to_set() =~= vt.take(i as int).to_set().insert(x@));
                }
            },
        }
        i = i + 1;
    }
    proof {
        assert(vt.take(vt.len() as int) =~= vt);
    }
    let mut ids: Vec<u32> = Vec::new();
    let mut k: usize = 0;
    while k < values.len()
        invariant
            k <= values@.len(),
            values@.len() <= 0x1_0000_0000,
            vt == texts(values@),
            text_increasing(texts(vocab@)),
            texts(vocab@).to_set() == vt.to_set(),
            vocab@.len() <= values@.len(),
            ids@.len() == k,
            forall|m: int| 0 <= m < k ==> (#[trigger] ids@[m]) < vocab@.len() && vocab@[ids@[m] as int]@ == values@[m]@,
        decreases values@.len() - k,
    {
        let x = chars_of(values[k].as_str());
        proof {
            assert(vt[k as int] == x@);
            assert(vt.to_set().contains(x@));
            assert(texts(vocab@).to_set().contains(x@));
        }
        match find_text(&vocab, &x) {
            Ok(pos) => {
                ids.push(pos as u32);
            },
            Err(pos) => {
                proof {
                    let w = choose|w: int| 0 <= w < texts(vocab@).len() && texts(vocab@)[w] == x@;
                    assert(vocab@[w]@ == x@);
                    lemma_lt_irreflexive(x@, 0);
                    if w < pos {
                        assert(text_lt(vocab@[w]@, x@));
                    } else {
                        assert(text_lt(x@, vocab@[w]@));
                    }
                }
                ids.push(0);
            },
        }
        k = k + 1;
    }
    (ids, vocab)
}

} // verus!
