//! Dataset description: sizes, column names and per-label row counts.

use vstd::prelude::*;
use crate::text::{dec_str, push_char, push_decimal};

verus! {

/// Name and row count of one label.
#[derive(Debug, Clone)]
pub struct LabelStat {
    pub name: String,
    pub count: usize,
}

/// Description of a loaded dataset.
#[derive(Debug, Clone)]
pub struct DatasetMetadata {
    pub name: String,
    /// Source path; empty for generated datasets.
    pub source_path: String,
    /// "npy" | "npz" | "csv" | "excel" | "idx" | "parquet" | "builtin"
    pub format: String,
    pub n_rows: usize,
    pub n_cols: usize,
    pub column_names: Vec<String>,
    /// Name of the column the labels came from, if any.
    pub label_column: Option<String>,
    pub labels: Vec<LabelStat>,
    /// Whether the feature matrix is memory mapped rather than RAM-resident.
    pub memory_mapped: bool,
    /// Unix timestamp (seconds) of creation.
    pub created_at: u64,
}

/// Default name of feature column `i`: `f` followed by its index.
pub open spec fn default_column_name(i: nat) -> Seq<char> {
    seq!['f'] + dec_str(i)
}

/// How many entries of `labels` equal `l`.
pub open spec fn label_count(labels: Seq<u32>, l: int) -> nat
    decreases labels.len(),
{
    if labels.len() == 0 {
        0
    } else {
        label_count(labels.drop_last(), l) + if labels.last() == l { 1nat } else { 0nat }
    }
}

proof fn lemma_label_count_bound(labels: Seq<u32>, l: int)
    ensures
        label_count(labels, l) <= labels.len(),
    decreases labels.len(),
{
    if labels.len() > 0 {
        lemma_label_count_bound(labels.drop_last(), l);
    }
}

fn column_name(i: usize) -> (r: String)
    ensures
        r@ == default_column_name(i as nat),
{
    let mut s = String::new();
    push_char(&mut s, 'f');
    push_decimal(&mut s, i as u64);
    proof {
        assert(seq!['f'] =~= Seq::<char>::empty().push('f'));
    }
    s
}

/// The current time as seconds since the Unix epoch, if the clock is past it.
#[verifier::external_body]
fn unix_clock_secs() -> (r: Option<u64>) {
    std::time::SystemTime::now().duration_since(std::time::UNIX_EPOCH).ok().map(|d| d.as_secs())
}

/// Seconds since the Unix epoch, or 0 when the system clock is before it.
pub fn now_unix() -> u64 {
    match unix_clock_secs() {
        Some(s) => s,
        None => 0,
    }
}

impl DatasetMetadata {
    /// A fresh description with default column names `f0, f1, ...`, no
    /// labels, stamped with the current time.
    pub fn new(name: &str, format: &str, n_rows: usize, n_cols: usize) -> (r: Self)
        ensures
            r.name@ == name@,
            r.source_path@ == Seq::<char>::empty(),
            r.format@ == format@,
            r.n_rows == n_rows,
            r.n_cols == n_cols,
            r.column_names@.len() == n_cols,
            forall|i: int| 0 <= i < n_cols ==> (#[trigger] r.column_names@[i])@ == default_column_name(i as nat),
            r.label_column is None,
            r.labels@.len() == 0,
            !r.memory_mapped,
    {
        let mut column_names: Vec<String> = Vec::new();
        let mut i: usize = 0;
        while i < n_cols
            invariant
                i <= n_cols,
                column_names@.len() == i,
                forall|j: int| 0 <= j < i ==> (#[trigger] column_names@[j])@ == default_column_name(j as nat),
            decreases n_cols - i,
        {
            column_names.push(column_name(i));
            i = i + 1;
        }
        DatasetMetadata {
            name: name.to_owned(),
            source_path: String::new(),
            format: format.to_owned(),
            n_rows,
            n_cols,
            column_names,
            label_column: None,
            labels: Vec::new(),
            memory_mapped: false,
            created_at: now_unix(),
        }
    }

    /// Fill the label statistics from per-row label ids and the vocabulary:
    /// one entry per name, with the number of rows carrying that id.
    pub fn set_label_stats(&mut self, labels: &[u32], names: &[String])
        requires
            forall|i: int| 0 <= i < labels@.len() ==> (#[trigger] labels@[i]) < names@.len(),
        ensures
            final(self).labels@.len() == names@.len(),
            forall|i: int| 0 <= i < names@.len() ==> (#[trigger] final(self).labels@[i]).name@ == names@[i]@
                && final(self).labels@[i].count == label_count(labels@, i),
            final(self).name == old(self).name,
            final(self).source_path == old(self).source_path,
            final(self).format == old(self).format,
            final(self).n_rows == old(self).n_rows,
            final(self).n_cols == old(self).n_cols,
            final(self).column_names == old(self).column_names,
            final(self).label_column == old(self).label_column,
            final(self).memory_mapped == old(self).memory_mapped,
            final(self).created_at == old(self).created_at,
    {
        let mut counts: Vec<usize> = Vec::new();
        let mut j: usize = 0;
        while j < names.len()
            invariant
                j <= names@.len(),
                counts@.len() == j,
                forall|m: int| 0 <= m < j ==> counts@[m] == 0,
            decreases names@.len() - j,
        {
            counts.push(0);
            j = j + 1;
        }
        let mut row: usize = 0;
        while row < labels.len()
            invariant
                row <= labels@.len(),
                forall|i: int| 0 <= i < labels@.len() ==> (#[trigger] labels@[i]) < names@.len(),
                counts@.len() == names@.len(),
                forall|m: int| 0 <= m < names@.len() ==> #[trigger] counts@[m] == label_count(labels@.take(row as int), m),
            decreases labels@.len() - row,
        {
            let l = labels[row] as usize;
            proof {
                assert(labels@.take(row + 1).drop_last() =~= labels@.take(row as int));
                lemma_label_count_bound(labels@.take(row as int), l as int);
            }
            counts.set(l, counts[l] + 1);
            row = row + 1;
        }
        proof {
            assert(labels@.take(labels@.len() as int) =~= labels@);
        }
        let mut stats: Vec<LabelStat> = Vec::new();
        let mut k: usize = 0;
        while k < names.len()
            invariant
                k <= names@.len(),
                counts@.len() == names@.len(),
                forall|m: int| 0 <= m < names@.len() ==> #[trigger] counts@[m] == label_count(labels@, m),
                stats@.len() == k,
                forall|i: int| 0 <= i < k ==> (#[trigger] stats@[i]).name@ == names@[i]@ && stats@[i].count == label_count(labels@, i),
            decreases names@.len() - k,
        {
            stats.push(LabelStat { name: names[k].clone(), count: counts[k] });
            k = k + 1;
        }
        self.labels = stats;
    }
}

} // verus!
