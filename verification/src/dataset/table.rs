//! The cells of a table that become a dataset: each kept row's feature
//! cells must all be numbers, and its label cell is kept as text.

use vstd::prelude::*;
use crate::dataset::DatasetError;
use crate::geometry::parser::{float_literal, is_float_literal};
use crate::text::{chars_of, dec_str, push_decimal, string_of, trim_range, trimmed};

verus! {

/// Plain-value form of a table's rows.
pub open spec fn rows_view(rows: Seq<Vec<String>>) -> Seq<Seq<Seq<char>>> {
    rows.map_values(|r: Vec<String>| r@.map_values(|s: String| s@))
}

/// Plain-value form of a list of texts.
pub open spec fn texts_view(v: Seq<String>) -> Seq<Seq<char>> {
    v.map_values(|s: String| s@)
}

/// Cell `ci` of a row, trimmed; a missing cell reads as empty.
pub open spec fn cell_of(cells: Seq<Seq<char>>, ci: int) -> Seq<char> {
    trimmed(if 0 <= ci < cells.len() { cells[ci] } else { Seq::empty() })
}

/// Every cell of the row is empty.
pub open spec fn blank_row(cells: Seq<Seq<char>>) -> bool {
    forall|k: int| 0 <= k < cells.len() ==> (#[trigger] cells[k]).len() == 0
}

/// The rows that count: all of them, or, with `skip_blank`, those with a
/// non-empty cell.
pub open spec fn counted_rows(rows: Seq<Seq<Seq<char>>>, skip_blank: bool) -> Seq<Seq<Seq<char>>>
    decreases rows.len(),
{
    if rows.len() == 0 {
        Seq::empty()
    } else {
        let prev = counted_rows(rows.drop_last(), skip_blank);
        if skip_blank && blank_row(rows.last()) {
            prev
        } else {
            prev.push(rows.last())
        }
    }
}

/// The first `max_rows` rows, or all when there is no cap.
pub open spec fn capped_rows(rows: Seq<Seq<Seq<char>>>, max_rows: Option<usize>) -> Seq<Seq<Seq<char>>> {
    match max_rows {
        Some(cap) => if cap < rows.len() { rows.take(cap as int) } else { rows },
        None => rows,
    }
}

/// The position, among `features` from `j` on, of the first column whose
/// cell is not a number.
pub open spec fn first_bad_feature(cells: Seq<Seq<char>>, features: Seq<usize>, j: int) -> Option<int>
    decreases features.len() - j,
{
    if j < 0 || j >= features.len() {
        None
    } else if !float_literal(cell_of(cells, features[j] as int)) {
        Some(j)
    } else {
        first_bad_feature(cells, features, j + 1)
    }
}

/// The message for a non-numeric feature cell of 1-based row `row`.
pub open spec fn non_numeric_text(row: nat, cell: Seq<char>, column: Seq<char>) -> Seq<char> {
    "row "@ + dec_str(row) + ": non numeric value '"@ + cell + "' in column '"@ + column + "'"@
}

/// The feature texts of the rows, row after row, and their label texts
/// (none without a label column); or the message of the first row with a
/// non-numeric feature cell.
pub open spec fn table_values(
    rows: Seq<Seq<Seq<char>>>,
    headers: Seq<Seq<char>>,
    features: Seq<usize>,
    label: Option<usize>,
) -> Result<(Seq<Seq<char>>, Seq<Seq<char>>), Seq<char>>
    decreases rows.len(),
{
    if rows.len() == 0 {
        Ok((Seq::empty(), Seq::empty()))
    } else {
        match table_values(rows.drop_last(), headers, features, label) {
            Err(m) => Err(m),
            Ok((vals, labs)) => {
                let cells = rows.last();
                match first_bad_feature(cells, features, 0) {
                    Some(j) => Err(
                        non_numeric_text(
                            rows.len() as nat,
                            cell_of(cells, features[j] as int),
                            headers[features[j] as int],
                        ),
                    ),
                    None => Ok(
                        (
                            vals + features.map_values(|ci: usize| cell_of(cells, ci as int)),
                            match label {
                                Some(l) => labs.push(cell_of(cells, l as int)),
                                None => labs,
                            },
                        ),
                    ),
                }
            },
        }
    }
}

proof fn lemma_first_bad_range(cells: Seq<Seq<char>>, features: Seq<usize>, j: int)
    requires
        0 <= j,
    ensures
        first_bad_feature(cells, features, j) matches Some(k) ==> j <= k < features.len(),
    decreases features.len() - j,
{
    if j < features.len() && float_literal(cell_of(cells, features[j] as int)) {
        lemma_first_bad_range(cells, features, j + 1);
    }
}

proof fn lemma_counted_split(rows: Seq<Seq<Seq<char>>>, i: int, skip_blank: bool)
    requires
        0 <= i <= rows.len(),
    ensures
        counted_rows(rows, skip_blank) == counted_rows(rows.take(i), skip_blank) + counted_rows(rows.skip(i), skip_blank),
    decreases rows.len() - i,
{
    if i < rows.len() {
        lemma_counted_split(rows, i + 1, skip_blank);
        let r = rows[i];
        assert(rows.take(i + 1).drop_last() =~= rows.take(i));
        assert(rows.take(i + 1).last() == r);
        lemma_counted_front(rows.skip(i), skip_blank);
        assert(rows.skip(i).drop_first() =~= rows.skip(i + 1));
        assert(rows.skip(i)[0] == r);
    } else {
        assert(rows.take(i) =~= rows);
        assert(rows.skip(i) =~= Seq::<Seq<Seq<char>>>::empty());
    }
}

proof fn lemma_counted_front(rows: Seq<Seq<Seq<char>>>, skip_blank: bool)
    requires
        rows.len() > 0,
    ensures
        counted_rows(rows, skip_blank) == (if skip_blank && blank_row(rows[0]) {
            Seq::<Seq<Seq<char>>>::empty()
        } else {
            seq![rows[0]]
        }) + counted_rows(rows.drop_first(), skip_blank),
    decreases rows.len(),
{
    if rows.len() == 1 {
        assert(rows.drop_last() =~= Seq::<Seq<Seq<char>>>::empty());
        assert(rows.drop_first() =~= Seq::<Seq<Seq<char>>>::empty());
    } else {
        lemma_counted_front(rows.drop_last(), skip_blank);
        assert(rows.drop_last().drop_first() =~= rows.drop_first().drop_last());
        assert(rows.drop_first().last() == rows.last());
    }
}

proof fn lemma_values_error_persists(
    rows: Seq<Seq<Seq<char>>>,
    n: int,
    headers: Seq<Seq<char>>,
    features: Seq<usize>,
    label: Option<usize>,
)
    requires
        0 <= n <= rows.len(),
        table_values(rows.take(n), headers, features, label) is Err,
    ensures
        table_values(rows, headers, features, label) == table_values(rows.take(n), headers, features, label),
    decreases rows.len() - n,
{
    if n < rows.len() {
        assert(rows.take(n + 1).drop_last() =~= rows.take(n));
        lemma_values_error_persists(rows, n + 1, headers, features, label);
    } else {
        assert(rows.take(n) =~= rows);
    }
}

fn cell_text(cells: &Vec<String>, ci: usize) -> (r: Vec<char>)
    ensures
        r@ == cell_of(cells@.map_values(|s: String| s@), ci as int),
{
    let ghost cv = cells@.map_values(|s: String| s@);
    if ci < cells.len() {
        let cs = chars_of(cells[ci].as_str());
        proof {
            assert(cv[ci as int] == cs@);
            assert(cs@.subrange(0, cs@.len() as int) =~= cs@);
        }
        trim_range(&cs, 0, cs.len())
    } else {
        let cs: Vec<char> = Vec::new();
        proof {
            assert(cs@.subrange(0, 0) =~= Seq::<char>::empty());
        }
        trim_range(&cs, 0, 0)
    }
}

fn is_blank(cells: &Vec<String>) -> (r: bool)
    ensures
        r == blank_row(cells@.map_values(|s: String| s@)),
{
    let ghost cv = cells@.map_values(|s: String| s@);
    let mut k: usize = 0;
    while k < cells.len()
        invariant
            k <= cells@.len(),
            cv == cells@.map_values(|s: String| s@),
            forall|j: int| 0 <= j < k ==> (#[trigger] cv[j]).len() == 0,
        decreases cells@.len() - k,
    {
        let cs = chars_of(cells[k].as_str());
        if cs.len() != 0 {
            proof {
                assert(cv[k as int] == cs@);
            }
            return false;
        }
        k = k + 1;
    }
    true
}

/// Check one counted row: the texts of its feature cells, or the message
/// for its first non-numeric feature cell.
fn row_values(cells: &Vec<String>, row: usize, headers: &Vec<String>, features: &Vec<usize>) -> (r: Result<
    Vec<String>,
    String,
>)
    requires
        forall|k: int| 0 <= k < features@.len() ==> (#[trigger] features@[k] as int) < headers@.len(),
        row < usize::MAX,
    ensures
        ({
            let cv = cells@.map_values(|s: String| s@);
            match first_bad_feature(cv, features@, 0) {
                Some(j) => r matches Err(m) && m@ == non_numeric_text(
                    (row + 1) as nat,
                    cell_of(cv, features@[j] as int),
                    headers@[features@[j] as int]@,
                ),
                None => r matches Ok(v) && texts_view(v@) == features@.map_values(|ci: usize| cell_of(cv, ci as int)),
            }
        }),
{
    let ghost cv = cells@.map_values(|s: String| s@);
    let mut out: Vec<String> = Vec::new();
    let mut j: usize = 0;
    while j < features.len()
        invariant
            j <= features@.len(),
            row < usize::MAX,
            cv == cells@.map_values(|s: String| s@),
            forall|k: int| 0 <= k < features@.len() ==> (#[trigger] features@[k] as int) < headers@.len(),
            first_bad_feature(cv, features@, 0) == first_bad_feature(cv, features@, j as int),
            texts_view(out@) == features@.take(j as int).map_values(|ci: usize| cell_of(cv, ci as int)),
        decreases features@.len() - j,
    {
        let ci = features[j];
        let cell = cell_text(cells, ci);
        if !is_float_literal(&cell) {
            let mut m = String::from_str("row ");
            push_decimal(&mut m, (row + 1) as u64);
            m.append(": non numeric value '");
            let body = string_of(&cell);
            m.append(body.as_str());
            m.append("' in column '");
            m.append(headers[ci].as_str());
            m.append("'");
            proof {
                assert(m@ =~= non_numeric_text((row + 1) as nat, cell@, headers@[ci as int]@));
            }
            return Err(m);
        }
        let ghost before = out@;
        out.push(string_of(&cell));
        proof {
            assert(texts_view(out@) =~= texts_view(before).push(cell@));
            assert(features@.take(j + 1).map_values(|ci: usize| cell_of(cv, ci as int)) =~= features@.take(
                j as int,
            ).map_values(|ci: usize| cell_of(cv, ci as int)).push(cell_of(cv, ci as int)));
        }
        j = j + 1;
    }
    proof {
        assert(features@.take(j as int) =~= features@);
    }
    Ok(out)
}

/// The texts of the feature cells of the counted rows, row after row, and
/// their label texts; counted rows are all rows, or, with `skip_blank`,
/// those with a non-empty cell, at most `max_rows` of them. A non-numeric
/// feature cell is a format error naming its 1-based counted row, its text
/// and its column.
pub fn table_features(
    headers: &Vec<String>,
    rows: &Vec<Vec<String>>,
    features: &Vec<usize>,
    label: Option<usize>,
    max_rows: Option<usize>,
    skip_blank: bool,
) -> (r: Result<(Vec<String>, Vec<String>), DatasetError>)
    requires
        forall|k: int| 0 <= k < features@.len() ==> (#[trigger] features@[k] as int) < headers@.len(),
    ensures
        match table_values(
            capped_rows(counted_rows(rows_view(rows@), skip_blank), max_rows),
            texts_view(headers@),
            features@,
            label,
        ) {
            Ok((vals, labs)) => r matches Ok((vs, ls)) && texts_view(vs@) == vals && texts_view(ls@) == labs,
            Err(m) => r matches Err(DatasetError::Format(e)) && e@ == m,
        },
{
    let ghost all = rows_view(rows@);
    let ghost hv = texts_view(headers@);
    let mut vals: Vec<String> = Vec::new();
    let mut labs: Vec<String> = Vec::new();
    let mut counted: usize = 0;
    let mut i: usize = 0;
    proof {
        assert(all.take(0) =~= Seq::<Seq<Seq<char>>>::empty());
        assert(texts_view(vals@) =~= Seq::<Seq<char>>::empty());
        assert(texts_view(labs@) =~= Seq::<Seq<char>>::empty());
    }
    while i < rows.len()
        invariant
            i <= rows@.len(),
            all == rows_view(rows@),
            hv == texts_view(headers@),
            forall|k: int| 0 <= k < features@.len() ==> (#[trigger] features@[k] as int) < headers@.len(),
            counted == counted_rows(all.take(i as int), skip_blank).len(),
            counted <= i,
            max_rows matches Some(cap) ==> counted <= cap,
            table_values(counted_rows(all.take(i as int), skip_blank), hv, features@, label) == Ok::<
                (Seq<Seq<char>>, Seq<Seq<char>>),
                Seq<char>,
            >((texts_view(vals@), texts_view(labs@))),
        decreases rows@.len() - i,
    {
        let ghost prefix = counted_rows(all.take(i as int), skip_blank);
        proof {
            assert(all.take(i + 1).drop_last() =~= all.take(i as int));
            assert(all.take(i + 1).last() == all[i as int]);
            assert(all[i as int] == rows@[i as int]@.map_values(|s: String| s@));
        }
        if skip_blank && is_blank(&rows[i]) {
            i = i + 1;
        } else {
            match max_rows {
                Some(cap) => {
                    if counted >= cap {
                        proof {
                            lemma_counted_split(all, i as int, skip_blank);
                            assert(counted_rows(all.skip(i as int), skip_blank).len() > 0) by {
                                lemma_counted_front(all.skip(i as int), skip_blank);
                                assert(all.skip(i as int)[0] == all[i as int]);
                            }
                            assert(capped_rows(counted_rows(all, skip_blank), max_rows) =~= prefix);
                        }
                        return Ok((vals, labs));
                    }
                },
                None => {},
            }
            let ghost cv = all[i as int];
            match row_values(&rows[i], counted, headers, features) {
                Err(m) => {
                    proof {
                        let grown = prefix.push(cv);
                        assert(counted_rows(all.take(i + 1), skip_blank) == grown);
                        assert(grown.drop_last() =~= prefix);
                        assert(grown.last() == cv);
                        assert(cv == rows@[i as int]@.map_values(|s: String| s@));
                        let j = first_bad_feature(cv, features@, 0)->0;
                        assert(first_bad_feature(cv, features@, 0) is Some);
                        lemma_first_bad_range(cv, features@, 0);
                        assert(hv[features@[j] as int] == headers@[features@[j] as int]@);
                        assert(table_values(grown, hv, features@, label) == Err::<(Seq<Seq<char>>, Seq<Seq<char>>), Seq<char>>(m@));
                        lemma_counted_split(all, i + 1, skip_blank);
                        let whole = counted_rows(all, skip_blank);
                        assert(whole.take(grown.len() as int) =~= grown);
                        let capped = capped_rows(whole, max_rows);
                        assert(capped.take(grown.len() as int) =~= grown);
                        lemma_values_error_persists(capped, grown.len() as int, hv, features@, label);
                    }
                    return Err(DatasetError::Format(m));
                },
                Ok(v) => {
                    let ghost before_vals = vals@;
                    let ghost before_labs = labs@;
                    let ghost added = v@;
                    let mut v = v;
                    vals.append(&mut v);
                    if let Some(l) = label {
                        let lab = cell_text(&rows[i], l);
                        labs.push(string_of(&lab));
                        proof {
                            assert(texts_view(labs@) =~= texts_view(before_labs).push(cell_of(cv, l as int)));
                        }
                    }
                    proof {
                        assert(vals@ == before_vals + added);
                        let grown = prefix.push(cv);
                        assert(counted_rows(all.take(i + 1), skip_blank) == grown);
                        assert(grown.drop_last() =~= prefix);
                        assert(grown.last() == cv);
                        assert(texts_view(vals@) =~= texts_view(before_vals) + features@.map_values(
                            |ci: usize| cell_of(cv, ci as int),
                        ));
                    }
                    counted = counted + 1;
                    i = i + 1;
                },
            }
        }
    }
    proof {
        assert(all.take(i as int) =~= all);
    }
    Ok((vals, labs))
}

} // verus!
