//! Label index: for every label id, the ascending list of rows carrying it.

use vstd::prelude::*;
use std::collections::HashSet;
use crate::dataset::DatasetError;
use crate::geometry::parser::{float_literal, is_float_literal};
use crate::text::{
    ascii_lower, chars_of, lemma_find_from_bounds, find, find_chars, lower_chars_of, parse_usize, parsed_usize, string_of, sub_chars, to_lower_char, trim_range,
    trimmed,
};

verus! {

broadcast use vstd::std_specs::hash::group_hash_axioms;

/// Label id -> row indices carrying that label, plus the number of rows.
#[derive(Debug, Clone)]
pub struct DatasetIndex {
    pub label_rows: Vec<Vec<u32>>,
    pub n_rows: usize,
}

/// The rows (in ascending order) whose label is `l`.
pub open spec fn rows_with(labels: Seq<u32>, l: u32) -> Seq<u32>
    decreases labels.len(),
{
    if labels.len() == 0 {
        Seq::empty()
    } else {
        rows_with(labels.drop_last(), l) + if labels.last() == l {
            seq![(labels.len() - 1) as u32]
        } else {
            Seq::empty()
        }
    }
}

/// The label lists of an index as plain sequences.
pub open spec fn lists_view(rows: Seq<Vec<u32>>) -> Seq<Seq<u32>> {
    rows.map_values(|r: Vec<u32>| r@)
}

/// The lists of the first `n` labels whose id is in `enabled`, concatenated
/// in label order.
pub open spec fn enabled_concat(lists: Seq<Seq<u32>>, enabled: Set<u32>, n: int) -> Seq<u32>
    decreases n,
{
    if n <= 0 {
        Seq::empty()
    } else {
        enabled_concat(lists, enabled, n - 1) + if enabled.contains((n - 1) as u32) {
            lists[n - 1]
        } else {
            Seq::empty()
        }
    }
}

/// Ascending (non-decreasing) order.
pub open spec fn ascending(s: Seq<u32>) -> bool {
    forall|i: int, j: int| 0 <= i <= j < s.len() ==> s[i] <= s[j]
}

/// `std`'s unstable sort of a vector of row ids: the result is the same
/// multiset of values in ascending order.
#[verifier::external_body]
fn sort_rows(v: &mut Vec<u32>)
    ensures
        final(v)@.to_multiset() == old(v)@.to_multiset(),
        ascending(final(v)@),
{
    v.sort_unstable();
}

impl DatasetIndex {
    /// Build the index of `labels`, with `n_labels` label lists.
    pub fn build(labels: &[u32], n_labels: usize) -> (r: Self)
        requires
            forall|i: int| 0 <= i < labels@.len() ==> (#[trigger] labels@[i]) < n_labels,
            labels@.len() <= 0x1_0000_0000,
            n_labels <= 0x1_0000_0000,
        ensures
            r.n_rows == labels@.len(),
            r.label_rows@.len() == n_labels,
            forall|l: int| 0 <= l < n_labels ==> (#[trigger] r.label_rows@[l])@ == rows_with(labels@, l as u32),
    {
        let mut label_rows: Vec<Vec<u32>> = Vec::new();
        let mut l: usize = 0;
        while l < n_labels
            invariant
                l <= n_labels,
                label_rows@.len() == l,
                forall|m: int| 0 <= m < l ==> (#[trigger] label_rows@[m])@ == Seq::<u32>::empty(),
            decreases n_labels - l,
        {
            label_rows.push(Vec::new());
            l = l + 1;
        }
        proof {
            assert forall|m: int| 0 <= m < n_labels implies (#[trigger] label_rows@[m])@ == rows_with(labels@.take(0), m as u32) by {}
        }
        let mut row: usize = 0;
        while row < labels.len()
            invariant
                row <= labels@.len(),
                labels@.len() <= 0x1_0000_0000,
                n_labels <= 0x1_0000_0000,
                forall|i: int| 0 <= i < labels@.len() ==> (#[trigger] labels@[i]) < n_labels,
                label_rows@.len() == n_labels,
                forall|m: int| 0 <= m < n_labels ==> (#[trigger] label_rows@[m])@ == rows_with(labels@.take(row as int), m as u32),
            decreases labels@.len() - row,
        {
            let lab = labels[row] as usize;
            let ghost before = label_rows@;
            label_rows[lab].push(row as u32);
            proof {
                assert(labels@.take(row + 1).drop_last() =~= labels@.take(row as int));
                assert forall|m: int| 0 <= m < n_labels implies (#[trigger] label_rows@[m])@ == rows_with(labels@.take(row + 1), m as u32) by {
                    if m != lab {
                        assert(label_rows@[m] == before[m]);
                        assert(m as u32 != labels@[row as int]);
                    }
                }
            }
            row = row + 1;
        }
        proof {
            assert(labels@.take(labels@.len() as int) =~= labels@);
        }
        DatasetIndex { label_rows, n_rows: labels.len() }
    }

    /// Number of rows carrying `label` (0 for an unknown label).
    pub fn count(&self, label: u32) -> (r: usize)
        ensures
            r == if (label as int) < self.label_rows@.len() {
                self.label_rows@[label as int]@.len()
            } else {
                0
            },
    {
        if (label as usize) < self.label_rows.len() {
            self.label_rows[label as usize].len()
        } else {
            0
        }
    }

    /// Rows whose label is in `enabled`, in ascending row order.
    pub fn rows_for_labels(&self, enabled: &HashSet<u32>) -> (r: Vec<u32>)
        requires
            self.label_rows@.len() <= 0x1_0000_0000,
        ensures
            ascending(r@),
            r@.to_multiset() == enabled_concat(
                lists_view(self.label_rows@),
                enabled@,
                self.label_rows@.len() as int,
            ).to_multiset(),
    {
        let ghost lists = lists_view(self.label_rows@);
        let mut out: Vec<u32> = Vec::new();
        let mut l: usize = 0;
        while l < self.label_rows.len()
            invariant
                l <= self.label_rows@.len(),
                self.label_rows@.len() <= 0x1_0000_0000,
                lists == lists_view(self.label_rows@),
                out@ == enabled_concat(lists, enabled@, l as int),
            decreases self.label_rows@.len() - l,
        {
            let id = l as u32;
            if enabled.contains(&id) {
                let rows = &self.label_rows[l];
                let ghost before = out@;
                let mut k: usize = 0;
                while k < rows.len()
                    invariant
                        k <= rows@.len(),
                        out@ == before + rows@.take(k as int),
                    decreases rows@.len() - k,
                {
                    out.push(rows[k]);
                    proof {
                        assert(rows@.take(k + 1) =~= rows@.take(k as int).push(rows@[k as int]));
                    }
                    k = k + 1;
                }
                proof {
                    assert(rows@.take(rows@.len() as int) =~= rows@);
                    assert(lists[l as int] == rows@);
                }
            }
            l = l + 1;
        }
        sort_rows(&mut out);
        out
    }
}

/// How often row `x` occurs among the rows labelled `l`: once when row `x`
/// exists and carries `l`, else never.
proof fn lemma_rows_with_count(labels: Seq<u32>, l: u32, x: u32)
    requires
        labels.len() <= 0x1_0000_0000,
    ensures
        rows_with(labels, l).to_multiset().count(x) == if (x as int) < labels.len() && labels[x as int] == l {
            1nat
        } else {
            0nat
        },
    decreases labels.len(),
{
    broadcast use vstd::multiset::group_multiset_axioms;
    broadcast use vstd::seq_lib::lemma_multiset_commutative;
    broadcast use vstd::seq_lib::group_to_multiset_ensures;

    if labels.len() > 0 {
        let prev = labels.drop_last();
        lemma_rows_with_count(prev, l, x);
        let tail: Seq<u32> = if labels.last() == l {
            seq![(labels.len() - 1) as u32]
        } else {
            Seq::empty()
        };
        assert((prev.len() as u32) as int == prev.len());
        if labels.last() == l {
            assert(tail =~= Seq::<u32>::empty().push((labels.len() - 1) as u32));
        }
        assert(tail.to_multiset().count(x) == if labels.last() == l && x as int == labels.len() - 1 {
            1nat
        } else {
            0nat
        });
        if (x as int) < prev.len() {
            assert(prev[x as int] == labels[x as int]);
        }
    } else {
        assert(rows_with(labels, l) =~= Seq::<u32>::empty());
    }
}

/// How often row `x` occurs in the lists of the first `n` labels that are
/// enabled.
proof fn lemma_enabled_count(labels: Seq<u32>, lists: Seq<Seq<u32>>, enabled: Set<u32>, n: int, x: u32)
    requires
        labels.len() <= 0x1_0000_0000,
        0 <= n <= lists.len() <= 0x1_0000_0000,
        forall|l: int| 0 <= l < lists.len() ==> #[trigger] lists[l] == rows_with(labels, l as u32),
    ensures
        enabled_concat(lists, enabled, n).to_multiset().count(x) == if (x as int) < labels.len()
            && labels[x as int] < n && enabled.contains(labels[x as int]) {
            1nat
        } else {
            0nat
        },
    decreases n,
{
    broadcast use vstd::multiset::group_multiset_axioms;
    broadcast use vstd::seq_lib::lemma_multiset_commutative;
    broadcast use vstd::seq_lib::group_to_multiset_ensures;

    if n > 0 {
        lemma_enabled_count(labels, lists, enabled, n - 1, x);
        lemma_rows_with_count(labels, (n - 1) as u32, x);
        if enabled.contains((n - 1) as u32) {
            assert(lists[n - 1] == rows_with(labels, (n - 1) as u32));
        } else {
            assert(Seq::<u32>::empty().to_multiset().count(x) == 0);
        }
    } else {
        assert(enabled_concat(lists, enabled, n) =~= Seq::<u32>::empty());
    }
}

/// For an index built from `labels`, selecting the enabled labels yields
/// every row whose label is enabled exactly once, and no other row (label
/// ids outside the index select nothing).
pub proof fn lemma_selection_is_exact(idx: DatasetIndex, labels: Seq<u32>, enabled: Set<u32>, x: u32)
    requires
        labels.len() <= 0x1_0000_0000,
        idx.label_rows@.len() <= 0x1_0000_0000,
        forall|i: int| 0 <= i < labels.len() ==> (#[trigger] labels[i]) < idx.label_rows@.len(),
        forall|l: int| 0 <= l < idx.label_rows@.len() ==> (#[trigger] idx.label_rows@[l])@ == rows_with(labels, l as u32),
    ensures
        enabled_concat(lists_view(idx.label_rows@), enabled, idx.label_rows@.len() as int).to_multiset().count(x)
            == if (x as int) < labels.len() && enabled.contains(labels[x as int]) {
            1nat
        } else {
            0nat
        },
{
    let lists = lists_view(idx.label_rows@);
    assert forall|l: int| 0 <= l < lists.len() implies #[trigger] lists[l] == rows_with(labels, l as u32) by {
        assert(lists[l] == idx.label_rows@[l]@);
    }
    lemma_enabled_count(labels, lists, enabled, lists.len() as int, x);
}

proof fn lemma_rows_with_len(labels: Seq<u32>, l: u32)
    ensures
        rows_with(labels, l).len() == labels.to_multiset().count(l),
    decreases labels.len(),
{
    broadcast use vstd::seq_lib::to_multiset_build, vstd::seq_lib::to_multiset_contains,
        vstd::multiset::group_multiset_axioms;

    if labels.len() == 0 {
        assert(!labels.contains(l));
        assert(labels.to_multiset().count(l) == 0);
    } else {
        lemma_rows_with_len(labels.drop_last(), l);
        assert(labels.drop_last().push(labels.last()) =~= labels);
    }
}

/// In an index built from `labels`, the count of a label is the number of
/// rows carrying it; a label id beyond the index counts no row.
pub proof fn lemma_count_is_occurrences(idx: DatasetIndex, labels: Seq<u32>, l: u32)
    requires
        forall|i: int| 0 <= i < labels.len() ==> (#[trigger] labels[i]) < idx.label_rows@.len(),
        forall|k: int| 0 <= k < idx.label_rows@.len() ==> (#[trigger] idx.label_rows@[k])@ == rows_with(labels, k as u32),
    ensures
        (if (l as int) < idx.label_rows@.len() { idx.label_rows@[l as int]@.len() as nat } else { 0nat })
            == labels.to_multiset().count(l),
{
    broadcast use vstd::seq_lib::to_multiset_contains;

    if (l as int) < idx.label_rows@.len() {
        lemma_rows_with_len(labels, l);
    } else {
        assert(!labels.contains(l));
        assert(labels.to_multiset().count(l) == 0);
    }
}

proof fn lemma_repeat_counts_twice(s: Seq<u32>, i: int, j: int)
    requires
        0 <= i < j < s.len(),
        s[i] == s[j],
    ensures
        s.to_multiset().count(s[i]) >= 2,
{
    broadcast use vstd::seq_lib::to_multiset_remove, vstd::seq_lib::to_multiset_contains,
        vstd::multiset::group_multiset_axioms;

    let r = s.remove(j);
    assert(r[i] == s[i]);
    assert(r.contains(s[i]));
    assert(r.to_multiset().count(s[i]) > 0);
    assert(s.contains(s[j]));
    assert(s.to_multiset().count(s[j]) > 0);
    assert(r.to_multiset() == s.to_multiset().remove(s[j]));
    assert(r.to_multiset().count(s[i]) == s.to_multiset().count(s[i]) - 1);
}

/// The rows selected for a set of enabled labels, from an index built from
/// `labels`: strictly ascending, and exactly the rows whose label is
/// enabled (label ids the index lacks select nothing).
pub proof fn lemma_selected_rows(idx: DatasetIndex, labels: Seq<u32>, enabled: Set<u32>, rows: Seq<u32>)
    requires
        labels.len() <= 0x1_0000_0000,
        idx.label_rows@.len() <= 0x1_0000_0000,
        forall|i: int| 0 <= i < labels.len() ==> (#[trigger] labels[i]) < idx.label_rows@.len(),
        forall|l: int| 0 <= l < idx.label_rows@.len() ==> (#[trigger] idx.label_rows@[l])@ == rows_with(labels, l as u32),
        ascending(rows),
        rows.to_multiset() == enabled_concat(lists_view(idx.label_rows@), enabled, idx.label_rows@.len() as int).to_multiset(),
    ensures
        forall|i: int, j: int| 0 <= i < j < rows.len() ==> rows[i] < rows[j],
        forall|x: u32| rows.contains(x) <==> ((x as int) < labels.len() && enabled.contains(labels[x as int])),
{
    broadcast use vstd::seq_lib::to_multiset_contains;

    assert forall|x: u32| rows.contains(x) <==> ((x as int) < labels.len() && enabled.contains(labels[x as int])) by {
        lemma_selection_is_exact(idx, labels, enabled, x);
        assert(rows.to_multiset().count(x) > 0 <==> rows.contains(x));
    }
    assert forall|i: int, j: int| 0 <= i < j < rows.len() implies rows[i] < rows[j] by {
        if rows[i] >= rows[j] {
            assert(rows[i] <= rows[j]);
            lemma_repeat_counts_twice(rows, i, j);
            lemma_selection_is_exact(idx, labels, enabled, rows[i]);
        }
    }
}

/// A query fails exactly when its trimmed text starts with `row:` (in any
/// letter case) and what follows, trimmed, is no `u32` row number.
pub proof fn lemma_query_fails_only_on_bad_rows(text: Seq<char>)
    ensures
        query_of(text) is Err <==> ({
            let t = trimmed(text);
            &&& t.len() >= 4
            &&& ascii_lower(t.take(4)) == "row:"@
            &&& !(parsed_usize(trimmed(t.skip(4))) matches Some(n) && n <= u32::MAX)
        }),
{
    let t = trimmed(text);
    if t.len() == 0 {
        assert(!(t.len() >= 4));
    }
}

/// Comparison operator of a column predicate in a search query.
#[derive(Debug, Clone, Copy, PartialEq, Eq, Structural)]
pub enum CmpOp {
    Lt,
    Gt,
    Le,
    Ge,
    Eq,
    Ne,
}

/// A parsed search query (prefixes in any letter case):
/// - `row:<n>`: exact row index;
/// - `c<i> <op> <value>`: numeric predicate on feature column `i`, with `op`
///   one of `< > <= >= = !=` and `value` the text of a real number (kept as
///   written, since comparing it is the renderer's floating-point work);
/// - anything else: substring match on the lower-cased label name.
#[derive(Debug, Clone, PartialEq)]
pub enum SearchQuery {
    All,
    Row(u32),
    Column { col: usize, op: CmpOp, value: String },
    LabelSubstring(String),
}

/// Plain-value form of a query.
pub enum QueryView {
    All,
    Row(u32),
    Column(usize, CmpOp, Seq<char>),
    LabelSubstring(Seq<char>),
}

pub open spec fn query_view(q: SearchQuery) -> QueryView {
    match q {
        SearchQuery::All => QueryView::All,
        SearchQuery::Row(n) => QueryView::Row(n),
        SearchQuery::Column { col, op, value } => QueryView::Column(col, op, value@),
        SearchQuery::LabelSubstring(s) => QueryView::LabelSubstring(s@),
    }
}

/// What a query says of row `row` with label name `label`: every row for
/// no query, the one row for a row query, the rows whose lower-cased label
/// contains the text for a label query, and nothing (`None`) for a column
/// predicate, which needs the row's feature values.
pub open spec fn row_decision(q: QueryView, row: u32, label: Seq<char>) -> Option<bool> {
    match q {
        QueryView::All => Some(true),
        QueryView::Row(n) => Some(row == n),
        QueryView::Column(..) => None,
        QueryView::LabelSubstring(s) => Some(find(ascii_lower(label), s) is Some),
    }
}

/// The operator texts, in the order they are tried.
pub open spec fn op_text(k: int) -> Seq<char> {
    if k == 0 {
        "<="@
    } else if k == 1 {
        ">="@
    } else if k == 2 {
        "!="@
    } else if k == 3 {
        "<"@
    } else if k == 4 {
        ">"@
    } else {
        "="@
    }
}

pub open spec fn op_of(k: int) -> CmpOp {
    if k == 0 {
        CmpOp::Le
    } else if k == 1 {
        CmpOp::Ge
    } else if k == 2 {
        CmpOp::Ne
    } else if k == 3 {
        CmpOp::Lt
    } else if k == 4 {
        CmpOp::Gt
    } else {
        CmpOp::Eq
    }
}

/// The column predicate read with the operators from the `k`-th on: at the
/// first occurrence of the operator, the text between the leading `c` and
/// the operator must be a column index and the text after it a number.
pub open spec fn column_from(t: Seq<char>, k: nat) -> Option<(usize, CmpOp, Seq<char>)>
    decreases 6 - k,
{
    if k >= 6 {
        None
    } else {
        match find(t, op_text(k as int)) {
            Some(pos) => {
                let col = trimmed(t.subrange(1, pos));
                let val = trimmed(t.skip(pos + op_text(k as int).len()));
                match parsed_usize(col) {
                    Some(c) => if float_literal(val) {
                        Some((c as usize, op_of(k as int), val))
                    } else {
                        column_from(t, k + 1)
                    },
                    None => column_from(t, k + 1),
                }
            },
            None => column_from(t, k + 1),
        }
    }
}

/// What a query text means; `Err` carries the text after `row:` when it is
/// not a row number.
pub open spec fn query_of(text: Seq<char>) -> Result<QueryView, Seq<char>> {
    let t = trimmed(text);
    if t.len() == 0 {
        Ok(QueryView::All)
    } else if t.len() >= 4 && ascii_lower(t.take(4)) == "row:"@ {
        match parsed_usize(trimmed(t.skip(4))) {
            Some(n) => if n <= u32::MAX {
                Ok(QueryView::Row(n as u32))
            } else {
                Err(t.skip(4))
            },
            None => Err(t.skip(4)),
        }
    } else if (t[0] == 'c' || t[0] == 'C') && column_from(t, 0) is Some {
        let (c, op, v) = column_from(t, 0)->Some_0;
        Ok(QueryView::Column(c, op, v))
    } else {
        Ok(QueryView::LabelSubstring(ascii_lower(t)))
    }
}

fn op_chars(k: usize) -> (r: (Vec<char>, CmpOp))
    requires
        k < 6,
    ensures
        r.0@ == op_text(k as int),
        r.1 == op_of(k as int),
{
    if k == 0 {
        (chars_of("<="), CmpOp::Le)
    } else if k == 1 {
        (chars_of(">="), CmpOp::Ge)
    } else if k == 2 {
        (chars_of("!="), CmpOp::Ne)
    } else if k == 3 {
        (chars_of("<"), CmpOp::Lt)
    } else if k == 4 {
        (chars_of(">"), CmpOp::Gt)
    } else {
        (chars_of("="), CmpOp::Eq)
    }
}

fn column_query(t: &Vec<char>) -> (r: Option<(usize, CmpOp, String)>)
    requires
        t@.len() > 0,
        t@[0] == 'c' || t@[0] == 'C',
    ensures
        match column_from(t@, 0) {
            Some((c, op, v)) => r matches Some((rc, rop, rv)) && rc == c && rop == op && rv@ == v,
            None => r is None,
        },
{
    let mut k: usize = 0;
    while k < 6
        invariant
            k <= 6,
            t@.len() > 0,
            t@[0] == 'c' || t@[0] == 'C',
            column_from(t@, 0) == column_from(t@, k as nat),
        decreases 6 - k,
    {
        let (pat, op) = op_chars(k);
        match find_chars(t, &pat, 0) {
            Some(pos) => {
                proof {
                    assert(find(t@, op_text(k as int)) == Some(pos as int));
                    reveal_strlit("<=");
                    reveal_strlit(">=");
                    reveal_strlit("!=");
                    reveal_strlit("<");
                    reveal_strlit(">");
                    reveal_strlit("=");
                    assert(pat@.len() >= 1);
                    assert(pat@[0] == '<' || pat@[0] == '>' || pat@[0] == '!' || pat@[0] == '=');
                    if pos == 0 {
                        assert(t@.subrange(0, pat@.len() as int) == pat@);
                        assert(t@.subrange(0, pat@.len() as int)[0] == t@[0]);
                    }
                }
                let cs = trim_range(t, 1, pos);
                let vs = trim_range(t, pos + pat.len(), t.len());
                proof {
                    assert(t@.subrange((pos + pat@.len()) as int, t@.len() as int) =~= t@.skip(pos + pat@.len()));
                }
                match parse_usize(&cs, 0, cs.len()) {
                    Some(c) => {
                        proof {
                            assert(cs@.subrange(0, cs@.len() as int) =~= cs@);
                        }
                        if is_float_literal(&vs) {
                            return Some((c, op, string_of(&vs)));
                        }
                    },
                    None => {
                        proof {
                            assert(cs@.subrange(0, cs@.len() as int) =~= cs@);
                        }
                    },
                }
            },
            None => {
                proof {
                    assert(find(t@, op_text(k as int)) is None);
                }
            },
        }
        k = k + 1;
    }
    None
}

impl SearchQuery {
    /// Parse a query (see the type's documentation). A `row:` prefix with
    /// no row number after it is an invalid query.
    pub fn parse(text: &str) -> (r: Result<Self, DatasetError>)
        ensures
            match query_of(text@) {
                Ok(q) => r matches Ok(s) && query_view(s) == q,
                Err(rest) => r matches Err(DatasetError::InvalidQuery(m)) && m@ == "bad row number '"@ + rest + "'"@,
            },
    {
        let all = chars_of(text);
        let t = trim_range(&all, 0, all.len());
        proof {
            assert(all@.subrange(0, all@.len() as int) =~= all@);
        }
        if t.len() == 0 {
            return Ok(SearchQuery::All);
        }
        if t.len() >= 4 && to_lower_char(t[0]) == 'r' && to_lower_char(t[1]) == 'o' && to_lower_char(t[2]) == 'w'
            && t[3] == ':' {
            proof {
                reveal_strlit("row:");
                assert(ascii_lower(t@.take(4)) =~= "row:"@);
            }
            let rest = trim_range(&t, 4, t.len());
            proof {
                assert(t@.subrange(4, t@.len() as int) =~= t@.skip(4));
            }
            match parse_usize(&rest, 0, rest.len()) {
                Some(n) => {
                    proof {
                        assert(rest@.subrange(0, rest@.len() as int) =~= rest@);
                    }
                    if n <= 0xffff_ffff {
                        return Ok(SearchQuery::Row(n as u32));
                    }
                },
                None => {
                    proof {
                        assert(rest@.subrange(0, rest@.len() as int) =~= rest@);
                    }
                },
            }
            let mut m = String::from_str("bad row number '");
            let tail = sub_chars(&t, 4, t.len());
            proof {
                assert(t@.subrange(4, t@.len() as int) =~= t@.skip(4));
            }
            m.append(string_of(&tail).as_str());
            m.append("'");
            return Err(DatasetError::InvalidQuery(m));
        }
        proof {
            reveal_strlit("row:");
            if t@.len() >= 4 && ascii_lower(t@.take(4)) == "row:"@ {
                assert(ascii_lower(t@.take(4))[0] == 'r' && ascii_lower(t@.take(4))[1] == 'o' && ascii_lower(t@.take(4))[2]
                    == 'w' && ascii_lower(t@.take(4))[3] == ':');
            }
        }
        if t[0] == 'c' || t[0] == 'C' {
            match column_query(&t) {
                Some((col, op, value)) => {
                    return Ok(SearchQuery::Column { col, op, value });
                },
                None => {},
            }
        }
        let low = lower_chars_of(string_of(&t).as_str());
        Ok(SearchQuery::LabelSubstring(string_of(&low)))
    }

    /// Whether row `row`, whose label is named `label_name`, satisfies the
    /// query; `None` for a column predicate, which compares the row's
    /// feature values and is decided by the caller.
    pub fn matches_row(&self, row: u32, label_name: &str) -> (r: Option<bool>)
        ensures
            r == row_decision(query_view(*self), row, label_name@),
    {
        match self {
            SearchQuery::All => Some(true),
            SearchQuery::Row(n) => Some(row == *n),
            SearchQuery::Column { .. } => None,
            SearchQuery::LabelSubstring(s) => {
                let low = lower_chars_of(label_name);
                let pat = chars_of(s.as_str());
                let hit = find_chars(&low, &pat, 0);
                Some(hit.is_some())
            },
        }
    }

    /// Whether evaluating the query needs the row's feature values.
    pub fn needs_features(&self) -> (r: bool)
        ensures
            r == (self is Column),
    {
        match self {
            SearchQuery::Column { .. } => true,
            _ => false,
        }
    }
}

/// Label toggles combined with a search query.
#[derive(Debug)]
pub struct FilterSpec {
    pub enabled_labels: HashSet<u32>,
    pub query: SearchQuery,
}

impl FilterSpec {
    /// Every label id below `n_labels` enabled (the count taken modulo
    /// 2^32), and no query.
    pub fn all_labels(n_labels: usize) -> (r: Self)
        ensures
            r.enabled_labels@ == Set::new(|l: u32| l < n_labels as u32),
            r.query == SearchQuery::All,
    {
        let n = n_labels as u32;
        let mut set: HashSet<u32> = HashSet::new();
        let mut l: u32 = 0;
        while l < n
            invariant
                l <= n,
                n == n_labels as u32,
                set@ == Set::new(|x: u32| x < l),
            decreases n - l,
        {
            set.insert(l);
            proof {
                assert(set@ =~= Set::new(|x: u32| x < l + 1));
            }
            l = l + 1;
        }
        proof {
            assert(set@ =~= Set::new(|x: u32| x < n_labels as u32));
        }
        FilterSpec { enabled_labels: set, query: SearchQuery::All }
    }
}

/// The text that writes a comparison operator in a query.
pub open spec fn operator_text(op: CmpOp) -> Seq<char> {
    match op {
        CmpOp::Lt => "<"@,
        CmpOp::Gt => ">"@,
        CmpOp::Le => "<="@,
        CmpOp::Ge => ">="@,
        CmpOp::Eq => "="@,
        CmpOp::Ne => "!="@,
    }
}

/// `t` reads as the column predicate `c<col> <op> <value>`: after its
/// leading letter comes the column number, then the text of `op`, then
/// the value.
pub open spec fn reads_as_column(t: Seq<char>, col: usize, op: CmpOp, value: Seq<char>) -> bool {
    exists|pos: int|
        0 <= pos && pos + operator_text(op).len() <= t.len() && #[trigger] t.subrange(pos, pos + operator_text(op).len())
            == operator_text(op) && parsed_usize(trimmed(t.subrange(1, pos))) == Some(col as nat) && value == trimmed(
            t.skip(pos + operator_text(op).len()),
        ) && float_literal(value)
}

proof fn lemma_column_from_reads(t: Seq<char>, k: nat)
    ensures
        column_from(t, k) matches Some((c, op, v)) ==> reads_as_column(t, c, op, v),
    decreases 6 - k,
{
    if k < 6 {
        lemma_column_from_reads(t, k + 1);
        assert(op_text(k as int) == operator_text(op_of(k as int)));
        match find(t, op_text(k as int)) {
            Some(pos) => {
                lemma_find_from_bounds(t, op_text(k as int), 0);
                let sym = op_text(k as int);
                let col = trimmed(t.subrange(1, pos));
                let val = trimmed(t.skip(pos + sym.len()));
                if parsed_usize(col) is Some && float_literal(val) {
                    let c = parsed_usize(col)->0;
                    assert(c <= usize::MAX);
                    assert(t.subrange(pos, pos + sym.len()) == sym);
                }
            },
            None => {},
        }
    }
}

/// A query that, trimmed, starts with `row:` in any letter case, followed by
/// a `u32` row number, selects that row; an empty query selects all rows; a
/// label search is for the query's trimmed text, lower-cased, and never
/// starts with `row:`.
pub proof fn lemma_row_and_label_queries(text: Seq<char>)
    ensures
        ({
            let t = trimmed(text);
            &&& t.len() >= 4 && ascii_lower(t.take(4)) == "row:"@ && parsed_usize(trimmed(t.skip(4))) is Some
                && parsed_usize(trimmed(t.skip(4)))->Some_0 <= u32::MAX ==> query_of(text) == Ok::<QueryView, Seq<char>>(
                QueryView::Row(parsed_usize(trimmed(t.skip(4)))->Some_0 as u32),
            )
            &&& t.len() == 0 ==> query_of(text) == Ok::<QueryView, Seq<char>>(QueryView::All)
            &&& query_of(text) matches Ok(QueryView::LabelSubstring(s)) ==> s == ascii_lower(t) && !(t.len() >= 4
                && ascii_lower(t.take(4)) == "row:"@)
        }),
{
}

/// A column query names the operator it was written with: the parsed
/// operator's text occurs in the (trimmed) query after the column number,
/// and the value is the text after it.
pub proof fn lemma_column_query_operator(text: Seq<char>)
    ensures
        query_of(text) matches Ok(QueryView::Column(c, op, v)) ==> reads_as_column(trimmed(text), c, op, v),
{
    lemma_column_from_reads(trimmed(text), 0);
}

} // verus!
