//! Header parsing for the binary array formats (NPY, IDX), dtype and shape
//! decoding, and label-column detection for tabular imports.

use vstd::prelude::*;
use crate::dataset::{DatasetError, ElemType, ErrorKind, elem_size, kind_of};
use crate::text::{
    ascii_lower, chars_eq_str, chars_of, find, find_chars, find_from, lower_chars_of, parse_usize,
    parsed_usize, string_of, sub_chars, trim_range, trimmed, utf8_text,
};
use vstd::utf8::{decode_utf8, valid_utf8};

verus! {

/// Options controlling an import.
#[derive(Debug, Clone)]
pub struct LoadOptions {
    /// Hard cap on imported rows (None = all rows).
    pub max_rows: Option<usize>,
    /// Label column name; if None it is auto-detected.
    pub label_column: Option<String>,
}

/// The element type named by a two-character NPY dtype code.
pub open spec fn dtype_code(a: char, b: char) -> Option<ElemType> {
    if a == 'f' && b == '4' {
        Some(ElemType::F32)
    } else if a == 'f' && b == '8' {
        Some(ElemType::F64)
    } else if a == 'i' && b == '1' {
        Some(ElemType::I8)
    } else if a == 'u' && b == '1' {
        Some(ElemType::U8)
    } else if a == 'i' && b == '2' {
        Some(ElemType::I16)
    } else if a == 'u' && b == '2' {
        Some(ElemType::U16)
    } else if a == 'i' && b == '4' {
        Some(ElemType::I32)
    } else if a == 'u' && b == '4' {
        Some(ElemType::U32)
    } else if a == 'i' && b == '8' {
        Some(ElemType::I64)
    } else if a == 'u' && b == '8' {
        Some(ElemType::U64)
    } else {
        None
    }
}

/// The type code of a dtype descr after its optional `<`, `|` or `=` prefix.
pub open spec fn descr_code(d: Seq<char>) -> Seq<char> {
    if d.len() > 0 && (d[0] == '<' || d[0] == '|' || d[0] == '=') {
        d.drop_first()
    } else {
        d
    }
}

/// Outcome of decoding a dtype descr: empty is a format error, a big-endian
/// (`>`) or unknown code is unsupported.
pub open spec fn descr_result(d: Seq<char>) -> Result<ElemType, ErrorKind> {
    if d.len() == 0 {
        Err(ErrorKind::Format)
    } else if d[0] == '>' {
        Err(ErrorKind::Unsupported)
    } else {
        let k = descr_code(d);
        if k.len() == 2 && dtype_code(k[0], k[1]) is Some {
            Ok(dtype_code(k[0], k[1])->0)
        } else {
            Err(ErrorKind::Unsupported)
        }
    }
}

/// The spec view of a dataset result: the value, or the kind of the error.
pub open spec fn result_kind<T>(r: Result<T, DatasetError>) -> Result<T, ErrorKind> {
    match r {
        Ok(v) => Ok(v),
        Err(e) => Err(kind_of(e)),
    }
}

/// Decode an NPY dtype descr such as `<f4`, `|u1` or `i8`.
pub fn parse_descr(descr: &str) -> (r: Result<ElemType, DatasetError>)
    ensures
        result_kind(r) == descr_result(descr@),
{
    let d = crate::text::chars_of(descr);
    if d.len() == 0 {
        return Err(DatasetError::Format(String::from_str("empty dtype descr")));
    }
    if d[0] == '>' {
        return Err(DatasetError::Unsupported(String::from_str("big-endian NPY arrays are not supported")));
    }
    let start: usize = if d[0] == '<' || d[0] == '|' || d[0] == '=' { 1 } else { 0 };
    proof {
        assert(descr_code(d@) =~= d@.subrange(start as int, d@.len() as int));
    }
    if d.len() - start != 2 {
        return Err(DatasetError::Unsupported(String::from_str("unsupported NPY dtype")));
    }
    let a = d[start];
    let b = d[start + 1];
    let e = if a == 'f' && b == '4' {
        ElemType::F32
    } else if a == 'f' && b == '8' {
        ElemType::F64
    } else if a == 'i' && b == '1' {
        ElemType::I8
    } else if a == 'u' && b == '1' {
        ElemType::U8
    } else if a == 'i' && b == '2' {
        ElemType::I16
    } else if a == 'u' && b == '2' {
        ElemType::U16
    } else if a == 'i' && b == '4' {
        ElemType::I32
    } else if a == 'u' && b == '4' {
        ElemType::U32
    } else if a == 'i' && b == '8' {
        ElemType::I64
    } else if a == 'u' && b == '8' {
        ElemType::U64
    } else {
        return Err(DatasetError::Unsupported(String::from_str("unsupported NPY dtype")));
    };
    Ok(e)
}

/// Header names that mark a label column outright.
pub open spec fn is_strong_label_name(lower: Seq<char>) -> bool {
    lower == "label"@ || lower == "labels"@ || lower == "target"@ || lower == "class"@
        || lower == "species"@ || lower == "category"@
}

/// The first index whose header satisfies `pred`.
pub open spec fn first_where(hs: Seq<Seq<char>>, pred: spec_fn(Seq<char>) -> bool) -> Option<int>
    decreases hs.len(),
{
    if hs.len() == 0 {
        None
    } else {
        match first_where(hs.drop_last(), pred) {
            Some(i) => Some(i),
            None => if pred(hs.last()) {
                Some(hs.len() - 1)
            } else {
                None
            },
        }
    }
}

pub open spec fn strings_view(hs: Seq<String>) -> Seq<Seq<char>> {
    hs.map_values(|h: String| h@)
}

/// Label column chosen from the headers: the first strong name (compared
/// ASCII-case-insensitively), else the first header equal to `y` ignoring
/// ASCII case.
pub open spec fn label_column_of(hs: Seq<Seq<char>>) -> Option<int> {
    match first_where(hs, strong_label()) {
        Some(i) => Some(i),
        None => first_where(hs, weak_label()),
    }
}

/// Headers that are a strong label name ignoring ASCII case.
pub open spec fn strong_label() -> spec_fn(Seq<char>) -> bool {
    |h: Seq<char>| is_strong_label_name(ascii_lower(h))
}

/// Headers equal to `y` ignoring ASCII case.
pub open spec fn weak_label() -> spec_fn(Seq<char>) -> bool {
    |h: Seq<char>| ascii_lower(h) == "y"@
}

fn is_strong_label(lower: &Vec<char>) -> (r: bool)
    ensures
        r == is_strong_label_name(lower@),
{
    chars_eq_str(lower, "label") || chars_eq_str(lower, "labels") || chars_eq_str(lower, "target")
        || chars_eq_str(lower, "class") || chars_eq_str(lower, "species") || chars_eq_str(lower, "category")
}

proof fn lemma_first_where_step(hs: Seq<Seq<char>>, pred: spec_fn(Seq<char>) -> bool, i: int)
    requires
        0 <= i < hs.len(),
    ensures
        first_where(hs.take(i + 1), pred) == match first_where(hs.take(i), pred) {
            Some(j) => Some(j),
            None => if pred(hs[i]) { Some(i) } else { None },
        },
{
    assert(hs.take(i + 1).drop_last() =~= hs.take(i));
}

/// Auto-detect the label column from header names. Strong names ("label",
/// "target", "class", ...) take precedence over the weak name "y".
pub fn detect_label_column(headers: &[String]) -> (r: Option<usize>)
    ensures
        r == (match label_column_of(strings_view(headers@)) {
            Some(i) => Some(i as usize),
            None => None::<usize>,
        }),
{
    let ghost hs = strings_view(headers@);
    let ghost strong = strong_label();
    let ghost weak = weak_label();
    let mut i: usize = 0;
    while i < headers.len()
        invariant
            i <= headers@.len(),
            hs == strings_view(headers@),
            strong == strong_label(),
            first_where(hs.take(i as int), strong) is None,
        decreases headers@.len() - i,
    {
        let lower = lower_chars_of(headers[i].as_str());
        proof {
            lemma_first_where_step(hs, strong, i as int);
        }
        if is_strong_label(&lower) {
            proof {
                assert(strong(hs[i as int]));
                assert(hs.take(hs.len() as int) =~= hs);
                lemma_first_where_prefix(hs, strong, i as int + 1);
            }
            return Some(i);
        }
        i = i + 1;
    }
    proof {
        assert(hs.take(hs.len() as int) =~= hs);
    }
    let mut j: usize = 0;
    while j < headers.len()
        invariant
            j <= headers@.len(),
            hs == strings_view(headers@),
            weak == weak_label(),
            first_where(hs, strong) is None,
            strong == strong_label(),
            first_where(hs.take(j as int), weak) is None,
        decreases headers@.len() - j,
    {
        let lower = lower_chars_of(headers[j].as_str());
        proof {
            lemma_first_where_step(hs, weak, j as int);
        }
        if chars_eq_str(&lower, "y") {
            proof {
                assert(weak(hs[j as int]));
                lemma_first_where_prefix(hs, weak, j as int + 1);
            }
            return Some(j);
        }
        j = j + 1;
    }
    proof {
        assert(hs.take(hs.len() as int) =~= hs);
    }
    None
}

proof fn lemma_first_where_range(hs: Seq<Seq<char>>, pred: spec_fn(Seq<char>) -> bool)
    ensures
        first_where(hs, pred) matches Some(i) ==> 0 <= i < hs.len() && pred(hs[i]),
    decreases hs.len(),
{
    if hs.len() > 0 {
        lemma_first_where_range(hs.drop_last(), pred);
    }
}

/// A match found in a prefix is the first match of the whole sequence.
proof fn lemma_first_where_prefix(hs: Seq<Seq<char>>, pred: spec_fn(Seq<char>) -> bool, k: int)
    requires
        0 <= k <= hs.len(),
        first_where(hs.take(k), pred) is Some,
    ensures
        first_where(hs, pred) == first_where(hs.take(k), pred),
    decreases hs.len() - k,
{
    if k < hs.len() {
        lemma_first_where_step(hs, pred, k);
        lemma_first_where_prefix(hs, pred, k + 1);
    } else {
        assert(hs.take(k) =~= hs);
    }
}

/// Whether a buffer of `len` bytes holds `count` elements of type `elem`
/// starting at byte `offset`.
pub fn payload_covers(len: usize, offset: usize, count: usize, elem: ElemType) -> (r: bool)
    ensures
        r == (offset + count * elem_size(elem) <= len),
{
    let es = elem.size();
    if offset > len {
        return false;
    }
    let room = len - offset;
    count <= room / es
}

/// A file name with every trailing `.npy` removed.
pub open spec fn strip_npy(s: Seq<char>) -> Seq<char>
    decreases s.len(),
{
    if s.len() >= 4 && s.subrange(s.len() - 4, s.len() as int) == ".npy"@ {
        strip_npy(s.take(s.len() - 4))
    } else {
        s
    }
}

/// Array names (lower-cased, without `.npy`) that hold labels in an NPZ archive.
pub open spec fn is_npz_label_stem(lower: Seq<char>) -> bool {
    lower == "y"@ || lower == "labels"@ || lower == "label"@ || lower == "target"@ || lower == "y_train"@
        || lower == "y_test"@
}

/// NPZ entries whose array name marks them as labels.
pub open spec fn npz_label_entry() -> spec_fn(Seq<char>) -> bool {
    |n: Seq<char>| is_npz_label_stem(ascii_lower(strip_npy(n)))
}

/// NPZ entries that hold features: every entry that is not a label entry.
pub open spec fn npz_feature_entry() -> spec_fn(Seq<char>) -> bool {
    |n: Seq<char>| !is_npz_label_stem(ascii_lower(strip_npy(n)))
}

/// Where `strip_npy` ends: the length of the name without its `.npy` suffixes.
fn npy_stem_end(cs: &Vec<char>) -> (end: usize)
    ensures
        end <= cs@.len(),
        cs@.take(end as int) == strip_npy(cs@),
{
    let mut end = cs.len();
    proof {
        reveal_strlit(".npy");
        assert(cs@.take(end as int) =~= cs@);
    }
    while end >= 4 && cs[end - 4] == '.' && cs[end - 3] == 'n' && cs[end - 2] == 'p' && cs[end - 1] == 'y'
        invariant
            end <= cs@.len(),
            strip_npy(cs@.take(end as int)) == strip_npy(cs@),
        decreases end,
    {
        proof {
            reveal_strlit(".npy");
            let t = cs@.take(end as int);
            assert(t.subrange(t.len() - 4, t.len() as int) =~= ".npy"@);
            assert(t.take(t.len() - 4) =~= cs@.take(end - 4));
        }
        end = end - 4;
    }
    proof {
        reveal_strlit(".npy");
        let t = cs@.take(end as int);
        if t.len() >= 4 && t.subrange(t.len() - 4, t.len() as int) == ".npy"@ {
            assert(t.subrange(t.len() - 4, t.len() as int)[0] == cs@[end - 4]);
            assert(t.subrange(t.len() - 4, t.len() as int)[1] == cs@[end - 3]);
            assert(t.subrange(t.len() - 4, t.len() as int)[2] == cs@[end - 2]);
            assert(t.subrange(t.len() - 4, t.len() as int)[3] == cs@[end - 1]);
        }
    }
    end
}

/// The array name of an NPZ entry: the entry name without trailing `.npy`.
pub fn npy_array_name(name: &str) -> (r: String)
    ensures
        r@ == strip_npy(name@),
{
    let cs = chars_of(name);
    let end = npy_stem_end(&cs);
    let stem = sub_chars(&cs, 0, end);
    proof {
        assert(cs@.subrange(0, end as int) =~= cs@.take(end as int));
    }
    string_of(&stem)
}

fn is_npz_label_name(name: &str) -> (r: bool)
    ensures
        r == npz_label_entry()(name@),
{
    let stem = npy_array_name(name);
    let lower = lower_chars_of(stem.as_str());
    chars_eq_str(&lower, "y") || chars_eq_str(&lower, "labels") || chars_eq_str(&lower, "label")
        || chars_eq_str(&lower, "target") || chars_eq_str(&lower, "y_train") || chars_eq_str(&lower, "y_test")
}

/// The roles of the entries of an NPZ archive, by name: the first entry
/// whose array is named `y`, `labels`, `label`, `target`, `y_train` or
/// `y_test` (ignoring ASCII case) holds the labels, and the first other
/// entry holds the features. Returns `(features, labels)` as indices.
pub fn npz_entries(names: &[String]) -> (r: (Option<usize>, Option<usize>))
    ensures
        r.0 == (match first_where(strings_view(names@), npz_feature_entry()) {
            Some(i) => Some(i as usize),
            None => None::<usize>,
        }),
        r.1 == (match first_where(strings_view(names@), npz_label_entry()) {
            Some(i) => Some(i as usize),
            None => None::<usize>,
        }),
{
    let ghost hs = strings_view(names@);
    let ghost fp = npz_feature_entry();
    let ghost lp = npz_label_entry();
    let mut features: Option<usize> = None;
    let mut labels: Option<usize> = None;
    let mut i: usize = 0;
    while i < names.len()
        invariant
            i <= names@.len(),
            hs == strings_view(names@),
            fp == npz_feature_entry(),
            lp == npz_label_entry(),
            features == (match first_where(hs.take(i as int), fp) {
                Some(j) => Some(j as usize),
                None => None::<usize>,
            }),
            labels == (match first_where(hs.take(i as int), lp) {
                Some(j) => Some(j as usize),
                None => None::<usize>,
            }),
            features matches Some(j) ==> j < i,
            labels matches Some(j) ==> j < i,
        decreases names@.len() - i,
    {
        let is_label = is_npz_label_name(names[i].as_str());
        proof {
            lemma_first_where_step(hs, fp, i as int);
            lemma_first_where_step(hs, lp, i as int);
            lemma_first_where_range(hs.take(i as int), fp);
            lemma_first_where_range(hs.take(i as int), lp);
            assert(hs[i as int] == names@[i as int]@);
        }
        if is_label {
            if labels.is_none() {
                labels = Some(i);
            }
        } else {
            if features.is_none() {
                features = Some(i);
            }
        }
        i = i + 1;
    }
    proof {
        assert(hs.take(hs.len() as int) =~= hs);
    }
    (features, labels)
}

proof fn lemma_first_where_first(hs: Seq<Seq<char>>, pred: spec_fn(Seq<char>) -> bool)
    ensures
        first_where(hs, pred) matches Some(i) ==> 0 <= i < hs.len() && pred(hs[i]) && forall|j: int|
            0 <= j < i ==> !pred(#[trigger] hs[j]),
        first_where(hs, pred) is None ==> forall|j: int| 0 <= j < hs.len() ==> !pred(#[trigger] hs[j]),
    decreases hs.len(),
{
    if hs.len() > 0 {
        let d = hs.drop_last();
        lemma_first_where_first(d, pred);
        assert forall|j: int| 0 <= j < d.len() implies #[trigger] d[j] == hs[j] by {}
        if first_where(d, pred) is None {
            assert forall|j: int| 0 <= j < hs.len() - 1 implies !pred(#[trigger] hs[j]) by {
                assert(d[j] == hs[j]);
            }
        } else {
            let i = first_where(d, pred)->0;
            assert(d[i] == hs[i]);
            assert forall|j: int| 0 <= j < i implies !pred(#[trigger] hs[j]) by {
                assert(d[j] == hs[j]);
            }
        }
    }
}

/// The label column is found by name: the first header that, ignoring
/// ASCII case, is label, labels, target, class, species or category; failing
/// that, the first header that is `y`; and none when no header is any of
/// these.
pub proof fn lemma_label_column_by_name(hs: Seq<Seq<char>>)
    ensures
        ({
            let strong = seq!["label"@, "labels"@, "target"@, "class"@, "species"@, "category"@];
            match label_column_of(hs) {
                Some(i) => 0 <= i < hs.len() && ((strong.contains(ascii_lower(hs[i])) && forall|j: int|
                    0 <= j < i ==> !strong.contains(ascii_lower(#[trigger] hs[j]))) || ((forall|j: int|
                    0 <= j < hs.len() ==> !strong.contains(ascii_lower(#[trigger] hs[j]))) && ascii_lower(hs[i])
                    == "y"@ && forall|j: int| 0 <= j < i ==> ascii_lower(#[trigger] hs[j]) != "y"@)),
                None => forall|j: int|
                    0 <= j < hs.len() ==> !strong.contains(ascii_lower(#[trigger] hs[j])) && ascii_lower(hs[j]) != "y"@,
            }
        }),
{
    let strong = seq!["label"@, "labels"@, "target"@, "class"@, "species"@, "category"@];
    assert forall|l: Seq<char>| #[trigger] is_strong_label_name(l) <==> strong.contains(l) by {
        if is_strong_label_name(l) {
            if l == "label"@ { assert(strong[0] == l); }
            else if l == "labels"@ { assert(strong[1] == l); }
            else if l == "target"@ { assert(strong[2] == l); }
            else if l == "class"@ { assert(strong[3] == l); }
            else if l == "species"@ { assert(strong[4] == l); }
            else { assert(strong[5] == l); }
        }
    }
    lemma_first_where_first(hs, strong_label());
    lemma_first_where_first(hs, weak_label());
}

/// An NPZ entry's array name is its file name without `.npy`: appending
/// `.npy` to a name leaves its array name unchanged.
pub proof fn lemma_npy_suffix_dropped(n: Seq<char>)
    ensures
        strip_npy(n + ".npy"@) == strip_npy(n),
{
    reveal_strlit(".npy");
    let s = n + ".npy"@;
    assert(s.subrange(s.len() - 4, s.len() as int) =~= ".npy"@);
    assert(s.take(s.len() - 4) =~= n);
}

/// The entries of an NPZ archive are told apart by array name: the label
/// entry is the first whose array name, ignoring ASCII case, is `y`,
/// `labels`, `label`, `target`, `y_train` or `y_test` (none when no entry
/// is so named), and the feature entry is the first entry not so named
/// (none when every entry is).
pub proof fn lemma_npz_entries_by_name(names: Seq<Seq<char>>)
    ensures
        ({
            let ls = seq!["y"@, "labels"@, "label"@, "target"@, "y_train"@, "y_test"@];
            &&& match first_where(names, npz_label_entry()) {
                Some(i) => 0 <= i < names.len() && ls.contains(ascii_lower(strip_npy(names[i]))) && forall|j: int|
                    0 <= j < i ==> !ls.contains(ascii_lower(strip_npy(#[trigger] names[j]))),
                None => forall|j: int| 0 <= j < names.len() ==> !ls.contains(ascii_lower(strip_npy(#[trigger] names[j]))),
            }
            &&& match first_where(names, npz_feature_entry()) {
                Some(i) => 0 <= i < names.len() && !ls.contains(ascii_lower(strip_npy(names[i]))) && forall|j: int|
                    0 <= j < i ==> ls.contains(ascii_lower(strip_npy(#[trigger] names[j]))),
                None => forall|j: int| 0 <= j < names.len() ==> ls.contains(ascii_lower(strip_npy(#[trigger] names[j]))),
            }
        }),
{
    let ls = seq!["y"@, "labels"@, "label"@, "target"@, "y_train"@, "y_test"@];
    assert forall|l: Seq<char>| #[trigger] is_npz_label_stem(l) <==> ls.contains(l) by {
        if is_npz_label_stem(l) {
            if l == "y"@ { assert(ls[0] == l); }
            else if l == "labels"@ { assert(ls[1] == l); }
            else if l == "label"@ { assert(ls[2] == l); }
            else if l == "target"@ { assert(ls[3] == l); }
            else if l == "y_train"@ { assert(ls[4] == l); }
            else { assert(ls[5] == l); }
        }
    }
    lemma_first_where_first(names, npz_label_entry());
    lemma_first_where_first(names, npz_feature_entry());
}

/// Product of a sequence of dimensions.
pub open spec fn dims_product(s: Seq<usize>) -> nat
    decreases s.len(),
{
    if s.len() == 0 {
        1
    } else {
        dims_product(s.drop_last()) * (s.last() as nat)
    }
}

/// Every running product of the dimensions, left to right, fits in `usize`.
pub open spec fn product_fits(s: Seq<usize>) -> bool {
    forall|k: int| 0 <= k <= s.len() ==> #[trigger] dims_product(s.take(k)) <= usize::MAX
}

/// Flatten a shape into (rows, cols): trailing dims are folded into columns.
/// A scalar (empty shape) is a format error.
pub fn shape_to_2d(shape: &[usize]) -> (r: Result<(usize, usize), DatasetError>)
    requires
        shape@.len() > 0 ==> product_fits(shape@.drop_first()),
    ensures
        shape@.len() == 0 ==> r matches Err(DatasetError::Format(_)),
        shape@.len() > 0 ==> r == Ok::<(usize, usize), DatasetError>((shape@[0], dims_product(shape@.drop_first()) as usize)),
{
    if shape.len() == 0 {
        return Err(DatasetError::Format(String::from_str("scalar NPY array")));
    }
    let ghost tail = shape@.drop_first();
    let mut p: usize = 1;
    let mut i: usize = 1;
    while i < shape.len()
        invariant
            1 <= i <= shape@.len(),
            tail == shape@.drop_first(),
            product_fits(tail),
            p == dims_product(tail.take(i - 1)),
        decreases shape@.len() - i,
    {
        proof {
            assert(tail.take(i as int).drop_last() =~= tail.take(i - 1));
            assert(dims_product(tail.take(i as int)) <= usize::MAX);
        }
        p = p * shape[i];
        i = i + 1;
    }
    proof {
        assert(tail.take(i - 1) =~= tail);
    }
    Ok((shape[0], p))
}

/// The element type of an IDX dtype byte.
pub open spec fn idx_dtype(t: u8) -> Option<ElemType> {
    if t == 0x08 {
        Some(ElemType::U8)
    } else if t == 0x09 {
        Some(ElemType::I8)
    } else if t == 0x0B {
        Some(ElemType::I16)
    } else if t == 0x0C {
        Some(ElemType::I32)
    } else if t == 0x0D {
        Some(ElemType::F32)
    } else if t == 0x0E {
        Some(ElemType::F64)
    } else {
        None
    }
}

/// Big-endian u32 at byte offset `off`.
pub open spec fn be_u32(b: Seq<u8>, off: int) -> nat {
    (b[off] as nat) * 0x1000000 + (b[off + 1] as nat) * 0x10000 + (b[off + 2] as nat) * 0x100 + (b[off + 3] as nat)
}

/// Outcome of parsing an IDX header: `0x00 0x00 <dtype> <ndims>` followed by
/// `ndims` big-endian u32 dimensions. Only single-byte payloads are accepted.
pub open spec fn idx_header_result(b: Seq<u8>) -> Result<(ElemType, Seq<usize>, nat), ErrorKind> {
    if b.len() < 4 || b[0] != 0 || b[1] != 0 {
        Err(ErrorKind::Format)
    } else if idx_dtype(b[2]) is None {
        Err(ErrorKind::Unsupported)
    } else if crate::dataset::elem_size(idx_dtype(b[2])->0) > 1 {
        Err(ErrorKind::Unsupported)
    } else if b.len() < 4 + 4 * (b[3] as nat) {
        Err(ErrorKind::Format)
    } else {
        Ok((
            idx_dtype(b[2])->0,
            Seq::new(b[3] as nat, |d: int| be_u32(b, 4 + 4 * d) as usize),
            4 + 4 * (b[3] as nat),
        ))
    }
}

fn read_be_u32(b: &[u8], off: usize) -> (r: usize)
    requires
        off + 4 <= b@.len(),
    ensures
        r == be_u32(b@, off as int),
{
    let v: u64 = (b[off] as u64) * 0x1000000 + (b[off + 1] as u64) * 0x10000 + (b[off + 2] as u64) * 0x100
        + (b[off + 3] as u64);
    v as usize
}

/// Parse an IDX (MNIST-style) header: element type, dimensions and the byte
/// offset of the payload.
pub fn parse_idx_header(bytes: &[u8]) -> (r: Result<(ElemType, Vec<usize>, usize), DatasetError>)
    ensures
        match r {
            Ok((e, dims, off)) => idx_header_result(bytes@) == Ok::<(ElemType, Seq<usize>, nat), ErrorKind>((e, dims@, off as nat)),
            Err(err) => idx_header_result(bytes@) == Err::<(ElemType, Seq<usize>, nat), ErrorKind>(kind_of(err)),
        },
{
    if bytes.len() < 4 || bytes[0] != 0 || bytes[1] != 0 {
        return Err(DatasetError::Format(String::from_str("not an IDX file (bad magic)")));
    }
    let t = bytes[2];
    let elem = if t == 0x08 {
        ElemType::U8
    } else if t == 0x09 {
        ElemType::I8
    } else if t == 0x0B {
        ElemType::I16
    } else if t == 0x0C {
        ElemType::I32
    } else if t == 0x0D {
        ElemType::F32
    } else if t == 0x0E {
        ElemType::F64
    } else {
        return Err(DatasetError::Unsupported(String::from_str("IDX dtype not supported")));
    };
    if elem.size() > 1 {
        return Err(DatasetError::Unsupported(String::from_str("only u8/i8 IDX payloads are supported (MNIST-style)")));
    }
    let ndims = bytes[3] as usize;
    let header_len = 4 + 4 * ndims;
    if bytes.len() < header_len {
        return Err(DatasetError::Format(String::from_str("truncated IDX header")));
    }
    let mut dims: Vec<usize> = Vec::new();
    let mut d: usize = 0;
    while d < ndims
        invariant
            d <= ndims,
            ndims == bytes@[3],
            header_len == 4 + 4 * ndims,
            header_len <= bytes@.len(),
            dims@ =~= Seq::new(d as nat, |k: int| be_u32(bytes@, 4 + 4 * k) as usize),
        decreases ndims - d,
    {
        let off = 4 + 4 * d;
        dims.push(read_be_u32(bytes, off));
        d = d + 1;
    }
    Ok((elem, dims, header_len))
}

/// A dataset without a label source: every row gets label 0, named
/// "unlabeled".
pub fn unlabeled(n_rows: usize) -> (r: (Vec<u32>, Vec<String>, Option<String>))
    ensures
        r.0@ == Seq::new(n_rows as nat, |i: int| 0u32),
        r.1@.len() == 1,
        r.1@[0]@ == "unlabeled"@,
        r.2 is None,
{
    let mut ids: Vec<u32> = Vec::new();
    let mut i: usize = 0;
    while i < n_rows
        invariant
            i <= n_rows,
            ids@ =~= Seq::new(i as nat, |k: int| 0u32),
        decreases n_rows - i,
    {
        ids.push(0);
        i = i + 1;
    }
    let mut names: Vec<String> = Vec::new();
    names.push(String::from_str("unlabeled"));
    (ids, names, None)
}

/// The value of the Python string literal that follows the quoted `key` in
/// a header dictionary: the text between the next two single quotes.
pub open spec fn py_str_value(h: Seq<char>, key: Seq<char>) -> Option<Seq<char>> {
    let pat = seq!['\''] + key + seq!['\''];
    match find(h, pat) {
        None => None,
        Some(p) => match find_from(h, seq!['\''], p + pat.len()) {
            None => None,
            Some(q1) => match find_from(h, seq!['\''], q1 + 1) {
                None => None,
                Some(q2) => Some(h.subrange(q1 + 1, q2)),
            },
        },
    }
}

/// Extract the string value stored under `key` in a Python dict literal.
pub fn extract_py_str(header: &str, key: &str) -> (r: Option<String>)
    ensures
        r matches Some(v) ==> py_str_value(header@, key@) == Some(v@),
        r is None ==> py_str_value(header@, key@) is None,
{
    let h = chars_of(header);
    let k = chars_of(key);
    let mut pat: Vec<char> = Vec::new();
    pat.push('\'');
    let mut i: usize = 0;
    while i < k.len()
        invariant
            i <= k@.len(),
            pat@ == seq!['\''] + k@.take(i as int),
        decreases k@.len() - i,
    {
        pat.push(k[i]);
        proof {
            assert(seq!['\''] + k@.take(i + 1) =~= (seq!['\''] + k@.take(i as int)).push(k@[i as int]));
        }
        i = i + 1;
    }
    pat.push('\'');
    proof {
        assert(k@.take(k@.len() as int) =~= k@);
        assert(pat@ =~= seq!['\''] + key@ + seq!['\'']);
    }
    let mut quote: Vec<char> = Vec::new();
    quote.push('\'');
    proof {
        assert(quote@ =~= seq!['\'']);
    }
    let p = match find_chars(&h, &pat, 0) {
        Some(p) => p,
        None => return None,
    };
    let q1 = match find_chars(&h, &quote, p + pat.len()) {
        Some(q) => q,
        None => return None,
    };
    let q2 = match find_chars(&h, &quote, q1 + 1) {
        Some(q) => q,
        None => return None,
    };
    let v = sub_chars(&h, q1 + 1, q2);
    Some(string_of(&v))
}

/// Position of the first `,` (or the length when there is none).
pub open spec fn comma_pos(s: Seq<char>) -> nat
    decreases s.len(),
{
    if s.len() == 0 {
        0
    } else if s[0] == ',' {
        0
    } else {
        1 + comma_pos(s.drop_first())
    }
}

proof fn lemma_comma_pos(s: Seq<char>, k: int)
    requires
        0 <= k <= s.len(),
        forall|i: int| 0 <= i < k ==> s[i] != ',',
        k == s.len() || s[k] == ',',
    ensures
        comma_pos(s) == k,
    decreases k,
{
    if k > 0 {
        lemma_comma_pos(s.drop_first(), k - 1);
    }
}

/// The values of the comma-separated parts of a shape tuple's interior;
/// parts that are empty after trimming are skipped, any other part must
/// parse as a `usize`.
pub open spec fn shape_parts(s: Seq<char>) -> Option<Seq<usize>>
    decreases s.len(),
{
    let c = comma_pos(s) as int;
    let t = trimmed(s.take(c));
    let head: Option<Seq<usize>> = if t.len() == 0 {
        Some(Seq::empty())
    } else {
        match parsed_usize(t) {
            Some(v) => Some(seq![v as usize]),
            None => None,
        }
    };
    if c >= s.len() {
        head
    } else {
        match head {
            None => None,
            Some(h) => match shape_parts(s.skip(c + 1)) {
                None => None,
                Some(rest) => Some(h + rest),
            },
        }
    }
}

fn parse_shape_parts(s: &Vec<char>, from: usize, to: usize) -> (r: Option<Vec<usize>>)
    requires
        from <= to <= s@.len(),
    ensures
        r matches Some(v) ==> shape_parts(s@.subrange(from as int, to as int)) == Some(v@),
        r is None ==> shape_parts(s@.subrange(from as int, to as int)) is None,
    decreases to - from,
{
    let ghost sub = s@.subrange(from as int, to as int);
    let mut c = from;
    while c < to && s[c] != ','
        invariant
            from <= c <= to,
            to <= s@.len(),
            forall|i: int| from <= i < c ==> s@[i] != ',',
        decreases to - c,
    {
        c = c + 1;
    }
    proof {
        lemma_comma_pos(sub, c - from);
        assert(sub.take(c - from) =~= s@.subrange(from as int, c as int));
    }
    let t = trim_range(s, from, c);
    let mut head: Vec<usize> = Vec::new();
    if t.len() > 0 {
        match parse_usize(&t, 0, t.len()) {
            Some(v) => {
                head.push(v);
            },
            None => {
                proof {
                    assert(t@.subrange(0, t@.len() as int) =~= t@);
                }
                return None;
            },
        }
        proof {
            assert(t@.subrange(0, t@.len() as int) =~= t@);
            assert(head@ =~= seq![head@[0]]);
        }
    } else {
        proof {
            assert(head@ =~= Seq::<usize>::empty());
        }
    }
    if c >= to {
        return Some(head);
    }
    proof {
        assert(sub.skip(c - from + 1) =~= s@.subrange(c + 1, to as int));
    }
    match parse_shape_parts(s, c + 1, to) {
        None => None,
        Some(rest) => {
            let ghost h0 = head@;
            let mut j: usize = 0;
            while j < rest.len()
                invariant
                    j <= rest@.len(),
                    head@ == h0 + rest@.take(j as int),
                decreases rest@.len() - j,
            {
                head.push(rest[j]);
                proof {
                    assert(h0 + rest@.take(j + 1) =~= (h0 + rest@.take(j as int)).push(rest@[j as int]));
                }
                j = j + 1;
            }
            proof {
                assert(rest@.take(rest@.len() as int) =~= rest@);
            }
            Some(head)
        },
    }
}

/// Outcome of reading the `'shape'` tuple of an NPY header.
pub open spec fn shape_result(h: Seq<char>) -> Result<Seq<usize>, ErrorKind> {
    match find(h, "'shape'"@) {
        None => Err(ErrorKind::Format),
        Some(p) => match find_from(h, seq!['('], p) {
            None => Err(ErrorKind::Format),
            Some(o) => match find_from(h, seq![')'], o) {
                None => Err(ErrorKind::Format),
                Some(c) => match shape_parts(h.subrange(o + 1, c)) {
                    Some(v) => Ok(v),
                    None => Err(ErrorKind::Format),
                },
            },
        },
    }
}

fn one_char(c: char) -> (r: Vec<char>)
    ensures
        r@ == seq![c],
{
    let mut v: Vec<char> = Vec::new();
    v.push(c);
    proof {
        assert(v@ =~= seq![c]);
    }
    v
}

fn shape_of(h: &Vec<char>) -> (r: Result<Vec<usize>, DatasetError>)
    ensures
        match r {
            Ok(v) => shape_result(h@) == Ok::<Seq<usize>, ErrorKind>(v@),
            Err(e) => shape_result(h@) == Err::<Seq<usize>, ErrorKind>(kind_of(e)),
        },
{
    let key = chars_of("'shape'");
    let p = match find_chars(h, &key, 0) {
        Some(p) => p,
        None => return Err(DatasetError::Format(String::from_str("NPY header missing 'shape'"))),
    };
    let open = match find_chars(h, &one_char('('), p) {
        Some(o) => o,
        None => return Err(DatasetError::Format(String::from_str("malformed shape tuple"))),
    };
    let close = match find_chars(h, &one_char(')'), open) {
        Some(c) => c,
        None => return Err(DatasetError::Format(String::from_str("malformed shape tuple"))),
    };
    proof {
        assert(h@.subrange(open as int, open + 1)[0] == '(');
        assert(h@.subrange(close as int, close + 1)[0] == ')');
    }
    match parse_shape_parts(h, open + 1, close) {
        Some(v) => Ok(v),
        None => Err(DatasetError::Format(String::from_str("bad shape value"))),
    }
}

/// Read the shape tuple of an NPY header dictionary.
pub fn extract_shape(header: &str) -> (r: Result<Vec<usize>, DatasetError>)
    ensures
        match r {
            Ok(v) => shape_result(header@) == Ok::<Seq<usize>, ErrorKind>(v@),
            Err(e) => shape_result(header@) == Err::<Seq<usize>, ErrorKind>(kind_of(e)),
        },
{
    let h = chars_of(header);
    shape_of(&h)
}

/// A parsed NPY header.
#[derive(Debug)]
pub struct NpyHeader {
    pub elem: ElemType,
    pub fortran_order: bool,
    pub shape: Vec<usize>,
    /// Byte offset of the first data element.
    pub data_offset: usize,
}

/// Number of leading quote, colon and space characters.
pub open spec fn flag_lead(s: Seq<char>) -> nat
    decreases s.len(),
{
    if s.len() > 0 && (s[0] == '\'' || s[0] == ':' || s[0] == ' ') {
        1 + flag_lead(s.drop_first())
    } else {
        0
    }
}

/// Whether the text after the first `fortran_order` (up to the next one)
/// starts with `True` once quotes, colons and spaces are skipped.
pub open spec fn fortran_flag(h: Seq<char>) -> bool {
    match find(h, "fortran_order"@) {
        None => false,
        Some(p) => {
            let start = p + "fortran_order"@.len();
            let end = match find_from(h, "fortran_order"@, start) {
                Some(q) => q,
                None => h.len() as int,
            };
            let piece = h.subrange(start, end);
            let t = piece.skip(flag_lead(piece) as int);
            t.len() >= 4 && t.take(4) == "True"@
        },
    }
}

proof fn lemma_flag_lead_step(t: Seq<char>, k: int)
    requires
        0 <= k < t.len(),
        k <= flag_lead(t),
        forall|i: int| 0 <= i < k ==> (t[i] == '\'' || t[i] == ':' || t[i] == ' '),
        t[k] == '\'' || t[k] == ':' || t[k] == ' ',
    ensures
        k + 1 <= flag_lead(t),
    decreases k,
{
    if k > 0 {
        lemma_flag_lead_step(t.drop_first(), k - 1);
    }
}

proof fn lemma_flag_lead_exact(t: Seq<char>, k: int)
    requires
        0 <= k <= t.len(),
        k <= flag_lead(t),
        k < t.len() ==> !(t[k] == '\'' || t[k] == ':' || t[k] == ' '),
    ensures
        flag_lead(t) == k,
    decreases k,
{
    if k > 0 {
        lemma_flag_lead_exact(t.drop_first(), k - 1);
    }
}

fn fortran_flag_of(h: &Vec<char>) -> (r: bool)
    ensures
        r == fortran_flag(h@),
{
    let fo = chars_of("fortran_order");
    let p = match find_chars(h, &fo, 0) {
        Some(p) => p,
        None => return false,
    };
    let start = p + fo.len();
    let end = match find_chars(h, &fo, start) {
        Some(q) => q,
        None => h.len(),
    };
    let ghost piece = h@.subrange(start as int, end as int);
    let mut a = start;
    while a < end && (h[a] == '\'' || h[a] == ':' || h[a] == ' ')
        invariant
            start <= a <= end,
            end <= h@.len(),
            piece == h@.subrange(start as int, end as int),
            forall|i: int| 0 <= i < a - start ==> (piece[i] == '\'' || piece[i] == ':' || piece[i] == ' '),
            a - start <= flag_lead(piece),
        decreases end - a,
    {
        proof {
            lemma_flag_lead_step(piece, a - start);
        }
        a = a + 1;
    }
    proof {
        lemma_flag_lead_exact(piece, a - start);
    }
    if end - a < 4 {
        return false;
    }
    let first4 = sub_chars(h, a, a + 4);
    proof {
        assert(piece.skip(a - start).take(4) =~= h@.subrange(a as int, a + 4));
    }
    chars_eq_str(&first4, "True")
}

/// Little-endian header length of an NPY file of the given major version.
pub open spec fn npy_header_len(b: Seq<u8>, major: u8) -> nat {
    if major == 1 {
        (b[8] as nat) + (b[9] as nat) * 0x100
    } else {
        (b[8] as nat) + (b[9] as nat) * 0x100 + (b[10] as nat) * 0x10000 + (b[11] as nat) * 0x1000000
    }
}

/// Whether the bytes start with the NPY magic `\x93NUMPY`.
pub open spec fn npy_magic(b: Seq<u8>) -> bool {
    b.len() >= 6 && b[0] == 0x93 && b[1] == 0x4E && b[2] == 0x55 && b[3] == 0x4D && b[4] == 0x50 && b[5] == 0x59
}

/// Outcome of parsing an NPY header: `(elem, fortran_order, shape,
/// data_offset)` or the kind of the failure.
pub open spec fn npy_header_result(b: Seq<u8>) -> Result<(ElemType, bool, Seq<usize>, nat), ErrorKind> {
    if b.len() < 10 || !npy_magic(b) {
        Err(ErrorKind::Format)
    } else if b[6] != 1 && b[6] != 2 && b[6] != 3 {
        Err(ErrorKind::Format)
    } else if b[6] != 1 && b.len() < 12 {
        Err(ErrorKind::Format)
    } else {
        let hs: nat = if b[6] == 1 { 10 } else { 12 };
        let hl = npy_header_len(b, b[6]);
        if b.len() < hs + hl {
            Err(ErrorKind::Format)
        } else if !valid_utf8(b.subrange(hs as int, (hs + hl) as int)) {
            Err(ErrorKind::Format)
        } else {
            let h = decode_utf8(b.subrange(hs as int, (hs + hl) as int));
            match py_str_value(h, "descr"@) {
                None => Err(ErrorKind::Format),
                Some(d) => match descr_result(d) {
                    Err(k) => Err(k),
                    Ok(e) => match shape_result(h) {
                        Err(k) => Err(k),
                        Ok(sh) => Ok((e, fortran_flag(h), sh, hs + hl)),
                    },
                },
            }
        }
    }
}

/// Parse an NPY header from the start of `bytes`.
pub fn parse_npy_header(bytes: &[u8]) -> (r: Result<NpyHeader, DatasetError>)
    ensures
        match r {
            Ok(h) => npy_header_result(bytes@) == Ok::<(ElemType, bool, Seq<usize>, nat), ErrorKind>(
                (h.elem, h.fortran_order, h.shape@, h.data_offset as nat),
            ),
            Err(e) => npy_header_result(bytes@) == Err::<(ElemType, bool, Seq<usize>, nat), ErrorKind>(kind_of(e)),
        },
{
    if bytes.len() < 10 || !(bytes[0] == 0x93 && bytes[1] == 0x4E && bytes[2] == 0x55 && bytes[3] == 0x4D
        && bytes[4] == 0x50 && bytes[5] == 0x59) {
        return Err(DatasetError::Format(String::from_str("not an NPY file (bad magic)")));
    }
    let major = bytes[6];
    if major != 1 && major != 2 && major != 3 {
        return Err(DatasetError::Format(String::from_str("unsupported NPY version")));
    }
    if major != 1 && bytes.len() < 12 {
        return Err(DatasetError::Format(String::from_str("truncated NPY header")));
    }
    let hs: usize = if major == 1 { 10 } else { 12 };
    let hl64: u64 = if major == 1 {
        (bytes[8] as u64) + (bytes[9] as u64) * 0x100
    } else {
        (bytes[8] as u64) + (bytes[9] as u64) * 0x100 + (bytes[10] as u64) * 0x10000 + (bytes[11] as u64)
            * 0x1000000
    };
    let hl = hl64 as usize;
    if bytes.len() - hs < hl {
        return Err(DatasetError::Format(String::from_str("truncated NPY header")));
    }
    let text = match utf8_text(&bytes[hs..hs + hl]) {
        Some(t) => t,
        None => return Err(DatasetError::Format(String::from_str("NPY header is not UTF-8"))),
    };
    let h = chars_of(text);
    let descr = match extract_py_str(text, "descr") {
        Some(d) => d,
        None => return Err(DatasetError::Format(String::from_str("NPY header missing 'descr'"))),
    };
    let elem = match parse_descr(descr.as_str()) {
        Ok(e) => e,
        Err(e) => return Err(e),
    };
    let fortran_order = fortran_flag_of(&h);
    let shape = match shape_of(&h) {
        Ok(s) => s,
        Err(e) => return Err(e),
    };
    Ok(NpyHeader { elem, fortran_order, shape, data_offset: hs + hl })
}

/// Strictly increasing order.
pub open spec fn strictly_increasing(u: Seq<i64>) -> bool {
    forall|i: int, j: int| 0 <= i < j < u.len() ==> u[i] < u[j]
}

/// Where `x` is, or would be inserted, in a strictly increasing sequence.
fn search_sorted(u: &Vec<i64>, x: i64) -> (r: Result<usize, usize>)
    requires
        strictly_increasing(u@),
    ensures
        r matches Ok(i) ==> i < u@.len() && u@[i as int] == x,
        r matches Err(i) ==> i <= u@.len() && (forall|j: int| 0 <= j < i ==> u@[j] < x) && (forall|j: int|
            i <= j < u@.len() ==> u@[j] > x),
{
    let mut lo: usize = 0;
    let mut hi: usize = u.len();
    while lo < hi
        invariant
            lo <= hi <= u@.len(),
            strictly_increasing(u@),
            forall|j: int| 0 <= j < lo ==> u@[j] < x,
            forall|j: int| hi <= j < u@.len() ==> u@[j] > x,
        decreases hi - lo,
    {
        let mid = lo + (hi - lo) / 2;
        if u[mid] == x {
            return Ok(mid);
        } else if u[mid] < x {
            lo = mid + 1;
        } else {
            hi = mid;
        }
    }
    Err(lo)
}

/// Dense label ids for integer label values: `vocab` holds the distinct
/// values in ascending order and `ids[i]` is the position of `values[i]` in
/// it.
pub fn label_vocabulary(values: &[i64]) -> (r: (Vec<u32>, Vec<i64>))
    requires
        values@.len() <= 0x1_0000_0000,
    ensures
        strictly_increasing(r.1@),
        r.1@.to_set() == values@.to_set(),
        r.0@.len() == values@.len(),
        forall|i: int| 0 <= i < values@.len() ==> (#[trigger] r.0@[i]) < r.1@.len() && r.1@[r.0@[i] as int]
            == values@[i],
{
    let mut vocab: Vec<i64> = Vec::new();
    let mut i: usize = 0;
    while i < values.len()
        invariant
            i <= values@.len(),
            values@.len() <= 0x1_0000_0000,
            strictly_increasing(vocab@),
            vocab@.len() <= i,
            vocab@.to_set() == values@.take(i as int).to_set(),
        decreases values@.len() - i,
    {
        let x = values[i];
        let ghost before = vocab@;
        proof {
            assert(values@.take(i + 1) =~= values@.take(i as int).push(x));
            broadcast use vstd::seq_lib::group_seq_properties;
        }
        match search_sorted(&vocab, x) {
            Ok(_) => {
                proof {
                    assert(values@.take(i + 1).to_set() =~= values@.take(i as int).to_set().insert(x));
                    assert(vocab@.contains(x));
                }
            },
            Err(pos) => {
                vocab.insert(pos, x);
                proof {
                    assert(vocab@ =~= before.take(pos as int).push(x) + before.skip(pos as int));
                    assert forall|a: int, b: int| 0 <= a < b < vocab@.len() implies vocab@[a] < vocab@[b] by {
                        if b < pos {
                        } else if b == pos {
                        } else if a < pos {
                            assert(vocab@[b] == before[b - 1]);
                        } else if a == pos {
                            assert(vocab@[b] == before[b - 1]);
                        } else {
                            assert(vocab@[a] == before[a - 1]);
                            assert(vocab@[b] == before[b - 1]);
                        }
                    }
                    assert(vocab@.to_set() =~= before.to_set().insert(x)) by {
                        assert forall|y: i64| #[trigger] vocab@.to_set().contains(y) implies before.to_set().insert(x).contains(y) by {
                            let k = choose|k: int| 0 <= k < vocab@.len() && vocab@[k] == y;
                            if k < pos {
                                assert(before[k] == y);
                            } else if k > pos {
                                assert(before[k - 1] == y);
                            }
                        }
                        assert forall|y: i64| #[trigger] before.to_set().insert(x).contains(y) implies vocab@.to_set().contains(y) by {
                            if y == x {
                                assert(vocab@[pos as int] == x);
                            } else {
                                let k = choose|k: int| 0 <= k < before.len() && before[k] == y;
                                if k < pos {
                                    assert(vocab@[k] == y);
                                } else {
                                    assert(vocab@[k + 1] == y);
                                }
                            }
                        }
                    }
                    assert(values@.take(i + 1).to_set() =~= values@.take(i as int).to_set().insert(x));
                }
            },
        }
        i = i + 1;
    }
    proof {
        assert(values@.take(values@.len() as int) =~= values@);
    }
    let mut ids: Vec<u32> = Vec::new();
    let mut k: usize = 0;
    while k < values.len()
        invariant
            k <= values@.len(),
            values@.len() <= 0x1_0000_0000,
            strictly_increasing(vocab@),
            vocab@.to_set() == values@.to_set(),
            vocab@.len() <= values@.len(),
            ids@.len() == k,
            forall|m: int| 0 <= m < k ==> (#[trigger] ids@[m]) < vocab@.len() && vocab@[ids@[m] as int] == values@[m],
        decreases values@.len() - k,
    {
        let x = values[k];
        proof {
            assert(values@.to_set().contains(x)) by {
                assert(values@[k as int] == x);
            }
            assert(vocab@.to_set().contains(x));
        }
        match search_sorted(&vocab, x) {
            Ok(pos) => {
                ids.push(pos as u32);
            },
            Err(pos) => {
                proof {
                    let w = choose|w: int| 0 <= w < vocab@.len() && vocab@[w] == x;
                    if w < pos {
                    } else {
                    }
                }
                ids.push(0);
            },
        }
        k = k + 1;
    }
    (ids, vocab)
}

/// Decimal notation of an integer, with a leading `-` when negative.
pub open spec fn int_str(v: int) -> Seq<char> {
    if v < 0 {
        seq!['-'] + crate::text::dec_str((-v) as nat)
    } else {
        crate::text::dec_str(v as nat)
    }
}

/// The decimal names of integer label values.
pub fn int_names(vals: &Vec<i64>) -> (r: Vec<String>)
    ensures
        r@.len() == vals@.len(),
        forall|j: int| 0 <= j < vals@.len() ==> (#[trigger] r@[j])@ == int_str(vals@[j] as int),
{
    let mut out: Vec<String> = Vec::new();
    let mut j: usize = 0;
    while j < vals.len()
        invariant
            j <= vals@.len(),
            out@.len() == j,
            forall|m: int| 0 <= m < j ==> (#[trigger] out@[m])@ == int_str(vals@[m] as int),
        decreases vals@.len() - j,
    {
        let v = vals[j];
        let mut s = String::new();
        if v < 0 {
            crate::text::push_char(&mut s, '-');
            let mag: u64 = ((-(v + 1)) as u64) + 1;
            crate::text::push_decimal(&mut s, mag);
            proof {
                assert(s@ =~= seq!['-'] + crate::text::dec_str((-(v as int)) as nat));
            }
        } else {
            crate::text::push_decimal(&mut s, v as u64);
            proof {
                assert(s@ =~= crate::text::dec_str(v as nat));
            }
        }
        out.push(s);
        j = j + 1;
    }
    out
}

/// The label column of a table: the first header equal to the requested
/// name ignoring ASCII case (none found is a format error), or the
/// auto-detected one when no name is requested.
pub open spec fn label_index_of(hs: Seq<Seq<char>>, name: Option<Seq<char>>) -> Result<Option<int>, ErrorKind> {
    match name {
        Some(n) => match first_where(hs, named(n)) {
            Some(i) => Ok(Some(i)),
            None => Err(ErrorKind::Format),
        },
        None => Ok(label_column_of(hs)),
    }
}

/// Headers equal to `n` ignoring ASCII case.
pub open spec fn named(n: Seq<char>) -> spec_fn(Seq<char>) -> bool {
    |h: Seq<char>| ascii_lower(h) == ascii_lower(n)
}

/// The column indices `0..n` without the label column, in order.
pub open spec fn feature_columns(n: nat, label: Option<int>) -> Seq<usize>
    decreases n,
{
    if n == 0 {
        Seq::empty()
    } else {
        let prev = feature_columns((n - 1) as nat, label);
        if label == Some((n - 1) as int) {
            prev
        } else {
            prev.push((n - 1) as usize)
        }
    }
}

pub open spec fn opt_view(o: Option<String>) -> Option<Seq<char>> {
    match o {
        Some(s) => Some(s@),
        None => None,
    }
}

fn find_header(headers: &[String], name: &String) -> (r: Option<usize>)
    ensures
        r == (match first_where(strings_view(headers@), named(name@)) {
            Some(i) => Some(i as usize),
            None => None::<usize>,
        }),
{
    let ghost hs = strings_view(headers@);
    let ghost pred = named(name@);
    let want = lower_chars_of(name.as_str());
    let mut i: usize = 0;
    while i < headers.len()
        invariant
            i <= headers@.len(),
            hs == strings_view(headers@),
            pred == named(name@),
            want@ == ascii_lower(name@),
            first_where(hs.take(i as int), pred) is None,
        decreases headers@.len() - i,
    {
        let lower = lower_chars_of(headers[i].as_str());
        proof {
            lemma_first_where_step(hs, pred, i as int);
        }
        if crate::text::chars_eq(&lower, &want) {
            proof {
                assert(pred(hs[i as int]));
                lemma_first_where_prefix(hs, pred, i as int + 1);
            }
            return Some(i);
        }
        i = i + 1;
    }
    proof {
        assert(hs.take(hs.len() as int) =~= hs);
    }
    None
}

/// Resolve which column of a table holds the labels and which hold the
/// features. A named label column that no header matches, and no feature
/// column left, are format errors; `source` names the table ("CSV",
/// "sheet") in the latter's message.
pub fn resolve_columns(headers: &[String], label_column: &Option<String>, source: &str) -> (r: Result<(Option<usize>, Vec<usize>), DatasetError>)
    ensures
        match label_index_of(strings_view(headers@), opt_view(*label_column)) {
            Err(k) => r matches Err(DatasetError::Format(m)) && k == ErrorKind::Format && (label_column matches Some(n)
                && m@ == "label column '"@ + n@ + "' not found"@),
            Ok(li) => {
                let feats = feature_columns(headers@.len(), li);
                if feats.len() == 0 {
                    r matches Err(DatasetError::Format(m)) && m@ == source@ + " has no feature columns"@
                } else {
                    r matches Ok((l, f)) && f@ == feats && l == (match li {
                        Some(i) => Some(i as usize),
                        None => None::<usize>,
                    })
                }
            },
        },
{
    let label_idx = match label_column {
        Some(name) => match find_header(headers, name) {
            Some(i) => Some(i),
            None => {
                let mut m = String::from_str("label column '");
                m.append(name.as_str());
                m.append("' not found");
                return Err(DatasetError::Format(m));
            },
        },
        None => detect_label_column(headers),
    };
    let ghost li: Option<int> = match label_idx {
        Some(i) => Some(i as int),
        None => None,
    };
    let nh = headers.len();
    proof {
        let hs = strings_view(headers@);
        assert(hs.len() == nh);
        lemma_first_where_range(hs, strong_label());
        lemma_first_where_range(hs, weak_label());
        match label_column {
            Some(name) => {
                lemma_first_where_range(hs, named(name@));
                assert(opt_view(*label_column) == Some(name@));
                assert(first_where(hs, named(name@)) is Some);
                assert(label_index_of(hs, Some(name@)) == Ok::<Option<int>, ErrorKind>(li));
            },
            None => {
                assert(label_index_of(hs, None) == Ok::<Option<int>, ErrorKind>(label_column_of(hs)));
                assert(label_column_of(hs) == li);
            },
        }
        assert(label_index_of(hs, opt_view(*label_column)) == Ok::<Option<int>, ErrorKind>(li));
    }
    let mut feats: Vec<usize> = Vec::new();
    let mut i: usize = 0;
    while i < headers.len()
        invariant
            i <= headers@.len(),
            feats@ == feature_columns(i as nat, li),
            li == (match label_idx {
                Some(i) => Some(i as int),
                None => None::<int>,
            }),
        decreases headers@.len() - i,
    {
        let is_label = match label_idx {
            Some(l) => l == i,
            None => false,
        };
        if !is_label {
            feats.push(i);
        }
        i = i + 1;
    }
    if feats.len() == 0 {
        let mut m = String::from_str(source);
        m.append(" has no feature columns");
        return Err(DatasetError::Format(m));
    }
    Ok((label_idx, feats))
}

/// What `Path::file_stem` gives for the path written as `path`: the final
/// component without its extension, when there is a final component.
pub uninterp spec fn path_file_stem(path: Seq<char>) -> Option<Seq<char>>;

/// `Path::file_stem`, read back as text.
#[verifier::external_body]
fn path_stem(path: &str) -> (r: Option<String>)
    ensures
        match r {
            Some(s) => path_file_stem(path@) == Some(s@),
            None => path_file_stem(path@) is None,
        },
{
    std::path::Path::new(path).file_stem().and_then(|s| s.to_str()).map(|s| s.to_string())
}

/// The file stem of a path, or "dataset" when it has none.
pub fn file_stem(path: &str) -> (r: String)
    ensures
        r@ == match path_file_stem(path@) {
            Some(s) => s,
            None => "dataset"@,
        },
{
    match path_stem(path) {
        Some(s) => s,
        None => String::from_str("dataset"),
    }
}

} // verus!
