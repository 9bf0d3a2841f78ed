//! Runtime data streaming: wire formats, session status, and the rolling
//! bounded buffer that accumulates streamed rows.
//!
//! Feature values travel through the buffer as the bit patterns of their
//! `f32` values; the buffer only moves them, it never computes with them.

pub mod json_row;
pub mod ndjson;
pub mod session;

use vstd::prelude::*;
use crate::dataset::DatasetError;
use crate::dataset::preprocessor::ProjectionSpec;
use crate::dataset::labels::{labels_from_strings, text_increasing, texts};
use crate::text::{chars_eq_str, dec_str, push_decimal};

verus! {

/// Wire format of the incoming stream.
#[derive(Debug, Clone, Copy, PartialEq, Eq, Structural)]
pub enum StreamFormat {
    /// Newline-delimited JSON (one row object per line).
    Ndjson,
    /// Apache Arrow IPC stream.
    ArrowIpc,
}

pub open spec fn format_tag(f: StreamFormat) -> Seq<char> {
    match f {
        StreamFormat::Ndjson => "ndjson"@,
        StreamFormat::ArrowIpc => "arrow"@,
    }
}

impl StreamFormat {
    pub fn tag(&self) -> (r: &'static str)
        ensures
            r@ == format_tag(*self),
    {
        match self {
            StreamFormat::Ndjson => "ndjson",
            StreamFormat::ArrowIpc => "arrow",
        }
    }
}

/// Runtime status of a stream.
#[derive(Debug, Clone, Copy, PartialEq, Eq, Structural)]
pub enum StreamStatus {
    /// Not started.
    Idle,
    /// Listening / connected and waiting for or processing data.
    Active,
    /// The session ended with an error.
    Error,
    /// Cleanly stopped by the user.
    Stopped,
}

pub open spec fn status_code(s: StreamStatus) -> u8 {
    match s {
        StreamStatus::Idle => 0,
        StreamStatus::Active => 1,
        StreamStatus::Error => 2,
        StreamStatus::Stopped => 3,
    }
}

pub open spec fn status_of_code(v: u8) -> StreamStatus {
    if v == 1 {
        StreamStatus::Active
    } else if v == 2 {
        StreamStatus::Error
    } else if v == 3 {
        StreamStatus::Stopped
    } else {
        StreamStatus::Idle
    }
}

impl StreamStatus {
    /// The status as a byte, for storage in an atomic.
    pub fn to_u8(self) -> (r: u8)
        ensures
            r == status_code(self),
    {
        match self {
            StreamStatus::Idle => 0,
            StreamStatus::Active => 1,
            StreamStatus::Error => 2,
            StreamStatus::Stopped => 3,
        }
    }

    /// The status stored as a byte; unknown bytes read as `Idle`.
    pub fn from_u8(v: u8) -> (r: Self)
        ensures
            r == status_of_code(v),
    {
        if v == 1 {
            StreamStatus::Active
        } else if v == 2 {
            StreamStatus::Error
        } else if v == 3 {
            StreamStatus::Stopped
        } else {
            StreamStatus::Idle
        }
    }
}

/// Reading back a stored status gives the status that was stored.
pub proof fn lemma_status_round_trip(s: StreamStatus)
    ensures
        status_of_code(status_code(s)) == s,
{
}

/// Lifecycle notifications surfaced to the UI as status text.
#[derive(Debug, Clone)]
pub enum StreamEvent {
    /// The server is bound and listening on this address.
    Listening(String),
    /// A producer connected from this peer address.
    Connected(String),
    /// The current connection ended cleanly.
    Disconnected,
    /// The session failed; carries a human-readable message.
    Error(String),
}

/// Configuration for a streaming session.
#[derive(Debug, Clone)]
pub struct StreamConfig {
    pub format: StreamFormat,
    /// Bind address, e.g. `127.0.0.1:8765`.
    pub addr: String,
    /// Maximum rows kept in the rolling buffer (oldest are dropped).
    pub max_rows: usize,
    /// Projection applied to the rolling buffer for the 3D preview.
    pub projection: ProjectionSpec,
}

impl Default for StreamConfig {
    fn default() -> (r: Self)
        ensures
            r.format == StreamFormat::Ndjson,
            r.addr@ == "127.0.0.1:8765"@,
            r.max_rows == 50_000,
            r.projection.method == crate::dataset::preprocessor::ProjectionMethod::Pca,
            r.projection.dims == 3,
            r.projection.axes@ == seq![0usize, 1, 2],
    {
        StreamConfig {
            format: StreamFormat::Ndjson,
            addr: String::from_str("127.0.0.1:8765"),
            max_rows: 50_000,
            projection: ProjectionSpec::default(),
        }
    }
}

/// Column names that mark the label column of a columnar batch.
pub open spec fn is_label_column_name(lower: Seq<char>) -> bool {
    lower == "label"@ || lower == "labels"@ || lower == "target"@ || lower == "class"@ || lower == "y"@
}

/// Whether a column name (compared ASCII-case-insensitively) marks labels.
pub fn is_label_name(name: &str) -> (r: bool)
    ensures
        r == is_label_column_name(crate::text::ascii_lower(name@)),
{
    let lower = crate::text::lower_chars_of(name);
    chars_eq_str(&lower, "label") || chars_eq_str(&lower, "labels") || chars_eq_str(&lower, "target")
        || chars_eq_str(&lower, "class") || chars_eq_str(&lower, "y")
}

/// A column of a columnar batch holds the labels exactly when its name,
/// ignoring ASCII case, is `label`, `labels`, `target`, `class` or `y`.
pub proof fn lemma_label_column_names(name: Seq<char>)
    ensures
        is_label_column_name(crate::text::ascii_lower(name)) == seq!["label"@, "labels"@, "target"@, "class"@, "y"@].contains(
            crate::text::ascii_lower(name),
        ),
{
    let ls = seq!["label"@, "labels"@, "target"@, "class"@, "y"@];
    let l = crate::text::ascii_lower(name);
    if l == "label"@ { assert(ls[0] == l); }
    else if l == "labels"@ { assert(ls[1] == l); }
    else if l == "target"@ { assert(ls[2] == l); }
    else if l == "class"@ { assert(ls[3] == l); }
    else if l == "y"@ { assert(ls[4] == l); }
}

/// One decoded chunk of rows.
#[derive(Debug, Clone)]
pub struct RowBatch {
    /// Feature columns per row.
    pub n_cols: usize,
    /// Row-major feature values (as `f32` bit patterns), `n_rows * n_cols`.
    pub rows: Vec<u32>,
    /// Per-row label strings; empty when the stream carries no labels.
    pub labels: Vec<String>,
}

/// Whole rows held by `len` values of `n_cols` columns.
pub open spec fn whole_rows(len: nat, n_cols: nat) -> nat {
    if n_cols == 0 {
        0
    } else {
        len / n_cols
    }
}

impl RowBatch {
    pub fn n_rows(&self) -> (r: usize)
        ensures
            r == whole_rows(self.rows@.len(), self.n_cols as nat),
    {
        if self.n_cols == 0 {
            0
        } else {
            self.rows.len() / self.n_cols
        }
    }
}

/// Rolling, bounded accumulator of streamed rows.
#[derive(Debug)]
pub struct StreamBuffer {
    pub n_cols: usize,
    pub max_rows: usize,
    /// Row-major features (as `f32` bit patterns) of the retained rows.
    pub data: Vec<u32>,
    /// Per-row labels (parallel to rows); empty strings when unlabeled.
    pub labels: Vec<String>,
    /// Whether the first batch carried labels.
    pub has_labels: bool,
    /// Bumped on every successful append, so readers can detect changes.
    pub version: u64,
    /// Monotonic count of rows received over the whole session.
    pub total_received: u64,
}

pub open spec fn labels_view(ls: Seq<String>) -> Seq<Seq<char>> {
    ls.map_values(|s: String| s@)
}

/// `n` empty labels.
pub open spec fn blank_labels(n: nat) -> Seq<Seq<char>> {
    Seq::new(n, |i: int| Seq::<char>::empty())
}

/// The buffer after a successful push, before trimming to the cap:
/// `(n_cols, has_labels, data, labels)`.
pub open spec fn appended(b: StreamBuffer, batch: RowBatch) -> (nat, bool, Seq<u32>, Seq<Seq<char>>) {
    let n = if b.n_cols == 0 { batch.n_cols as nat } else { b.n_cols as nat };
    let hl = if b.n_cols == 0 { batch.labels@.len() > 0 } else { b.has_labels };
    let bn = whole_rows(batch.rows@.len(), batch.n_cols as nat);
    let data = b.data@ + batch.rows@;
    let labels = if hl {
        if batch.labels@.len() == bn {
            labels_view(b.labels@) + labels_view(batch.labels@)
        } else {
            labels_view(b.labels@) + blank_labels(bn)
        }
    } else {
        labels_view(b.labels@)
    };
    (n, hl, data, labels)
}

/// Rows dropped from the front to respect the cap.
pub open spec fn overflow_rows(len: nat, n: nat, max_rows: nat) -> nat {
    if whole_rows(len, n) > max_rows {
        (whole_rows(len, n) - max_rows) as nat
    } else {
        0
    }
}

/// Trimming `overflow_rows` whole rows from the front leaves at most
/// `max_rows` whole rows: a successful push never leaves the buffer over its
/// cap.
#[verifier::spinoff_prover]
pub proof fn lemma_trim_respects_cap(len: nat, n: nat, max_rows: nat)
    ensures
        overflow_rows(len, n, max_rows) * n <= len,
        whole_rows((len - overflow_rows(len, n, max_rows) * n) as nat, n) <= max_rows,
{
    if n > 0 {
        let q = len / n;
        let r = len % n;
        vstd::arithmetic::div_mod::lemma_fundamental_div_mod(len as int, n as int);
        if q > max_rows {
            let d = (q - max_rows) as nat;
            assert(d * n <= q * n) by (nonlinear_arith)
                requires
                    d <= q,
            ;
            assert(d * n <= len);
            assert(overflow_rows(len, n, max_rows) == d);
            assert(len - d * n == (max_rows * n + r) as int) by (nonlinear_arith)
                requires
                    len == q * n + r,
                    d == q - max_rows,
            ;
            vstd::arithmetic::div_mod::lemma_fundamental_div_mod_converse(
                (len - d * n) as int,
                n as int,
                max_rows as int,
                r as int,
            );
        }
    }
}

/// Pushing `batch` onto `before` cannot overflow the counters.
pub open spec fn push_fits(before: StreamBuffer, batch: RowBatch) -> bool {
    &&& before.total_received + whole_rows(batch.rows@.len(), batch.n_cols as nat) <= u64::MAX
    &&& before.data@.len() + batch.rows@.len() <= usize::MAX
    &&& before.labels@.len() + whole_rows(batch.rows@.len(), batch.n_cols as nat) <= usize::MAX
}

/// Pushing `batch` onto `before` leaves `after`, and succeeds when `ok`:
/// an empty batch changes nothing; a batch with another column count than
/// the buffer's fails and changes nothing; any other batch is appended, the
/// oldest rows are dropped down to the cap, and the version moves on.
pub open spec fn pushed(before: StreamBuffer, batch: RowBatch, after: StreamBuffer, ok: bool) -> bool {
    let bn = whole_rows(batch.rows@.len(), batch.n_cols as nat);
    if bn == 0 {
        ok && after == before
    } else if before.n_cols != 0 && batch.n_cols != before.n_cols {
        !ok && after == before
    } else {
        let (n, hl, data, labels) = appended(before, batch);
        let drop = overflow_rows(data.len(), n, before.max_rows as nat);
        &&& ok
        &&& after.n_cols == n
        &&& after.has_labels == hl
        &&& after.max_rows == before.max_rows
        &&& after.data@ =~= data.skip((drop * n) as int)
        &&& labels_view(after.labels@) =~= if hl && labels.len() >= drop {
            labels.skip(drop as int)
        } else {
            labels
        }
        &&& after.total_received == before.total_received + bn
        &&& after.version == before.version.wrapping_add(1)
    }
}

/// The buffer's shape: its values are whole rows of its column count (no
/// values and no labels before it has one), at most `max_rows` rows, with
/// one label per row when it keeps labels.
pub open spec fn shape_ok(b: StreamBuffer) -> bool {
    let rows = whole_rows(b.data@.len(), b.n_cols as nat);
    &&& b.n_cols == 0 ==> b.data@.len() == 0 && b.labels@.len() == 0
    &&& b.data@.len() == rows * b.n_cols
    &&& rows <= b.max_rows
    &&& b.has_labels ==> b.labels@.len() == rows
}

/// A batch made of whole rows.
pub open spec fn whole_batch(batch: RowBatch) -> bool {
    batch.rows@.len() == whole_rows(batch.rows@.len(), batch.n_cols as nat) * batch.n_cols
}

/// A push of a batch of whole rows keeps the buffer's shape, and the rows
/// it keeps are the newest ones: the last rows of the old rows followed by
/// the batch's.
pub proof fn lemma_push_keeps_shape(before: StreamBuffer, batch: RowBatch, after: StreamBuffer, ok: bool)
    requires
        shape_ok(before),
        whole_batch(batch),
        pushed(before, batch, after, ok),
    ensures
        shape_ok(after),
        ok ==> after.total_received == before.total_received + whole_rows(batch.rows@.len(), batch.n_cols as nat),
        ok ==> after.data@ == (before.data@ + batch.rows@).skip((before.data@ + batch.rows@).len() - after.data@.len()),
{
    let bn = whole_rows(batch.rows@.len(), batch.n_cols as nat);
    if bn == 0 || (before.n_cols != 0 && batch.n_cols != before.n_cols) {
    } else {
        let (n, hl, data, labels) = appended(before, batch);
        let r0 = whole_rows(before.data@.len(), before.n_cols as nat);
        assert(n > 0);
        assert(before.data@.len() == r0 * n) by {
            if before.n_cols == 0 {
                assert(before.data@.len() == 0);
                assert(r0 == 0);
            }
        }
        assert(data.len() == (r0 + bn) * n) by (nonlinear_arith)
            requires
                data.len() == before.data@.len() + batch.rows@.len(),
                before.data@.len() == r0 * n,
                batch.rows@.len() == bn * n,
        ;
        vstd::arithmetic::div_mod::lemma_fundamental_div_mod_converse(data.len() as int, n as int, (r0 + bn) as int, 0);
        assert(whole_rows(data.len(), n) == r0 + bn);
        let drop = overflow_rows(data.len(), n, before.max_rows as nat);
        lemma_trim_respects_cap(data.len(), n, before.max_rows as nat);
        assert(drop <= r0 + bn);
        let kept = (r0 + bn - drop) as nat;
        assert(drop * n + kept * n == (r0 + bn) * n) by (nonlinear_arith)
            requires
                kept == r0 + bn - drop,
        ;
        assert(after.data@.len() == kept * n);
        vstd::arithmetic::div_mod::lemma_fundamental_div_mod_converse(after.data@.len() as int, n as int, kept as int, 0);
        assert(whole_rows(after.data@.len(), after.n_cols as nat) == kept);
        if hl {
            assert(labels.len() == r0 + bn) by {
                if before.n_cols == 0 {
                    assert(before.labels@.len() == 0);
                }
            }
        }
        assert(after.labels@.len() == labels_view(after.labels@).len());
        assert(data.len() - after.data@.len() == drop * n);
    }
}

/// The message of a batch whose column count differs from the buffer's.
pub open spec fn column_change_text(had: usize, got: usize) -> Seq<char> {
    "stream column count changed from "@ + dec_str(had as nat) + " to "@ + dec_str(got as nat)
}

fn extend_rows(v: &mut Vec<u32>, more: &[u32])
    requires
        old(v)@.len() + more@.len() <= usize::MAX,
    ensures
        final(v)@ == old(v)@ + more@,
{
    let ghost start = v@;
    let mut k: usize = 0;
    while k < more.len()
        invariant
            k <= more@.len(),
            v@ == start + more@.take(k as int),
        decreases more@.len() - k,
    {
        v.push(more[k]);
        proof {
            assert(start + more@.take(k + 1) =~= (start + more@.take(k as int)).push(more@[k as int]));
        }
        k = k + 1;
    }
    proof {
        assert(more@.take(more@.len() as int) =~= more@);
    }
}

fn extend_labels(v: &mut Vec<String>, more: &[String])
    ensures
        labels_view(final(v)@) == labels_view(old(v)@) + labels_view(more@),
{
    let ghost start = labels_view(v@);
    let mut k: usize = 0;
    while k < more.len()
        invariant
            k <= more@.len(),
            labels_view(v@) == start + labels_view(more@).take(k as int),
        decreases more@.len() - k,
    {
        v.push(more[k].clone());
        proof {
            assert(start + labels_view(more@).take(k + 1) =~= (start + labels_view(more@).take(k as int)).push(
                more@[k as int]@,
            ));
            assert(labels_view(v@) =~= (start + labels_view(more@).take(k as int)).push(more@[k as int]@));
        }
        k = k + 1;
    }
    proof {
        assert(labels_view(more@).take(more@.len() as int) =~= labels_view(more@));
    }
}

fn push_blank_labels(v: &mut Vec<String>, n: usize)
    ensures
        labels_view(final(v)@) == labels_view(old(v)@) + blank_labels(n as nat),
{
    let ghost start = labels_view(v@);
    let mut j: usize = 0;
    while j < n
        invariant
            j <= n,
            labels_view(v@) == start + blank_labels(j as nat),
        decreases n - j,
    {
        v.push(String::new());
        proof {
            assert(start + blank_labels((j + 1) as nat) =~= (start + blank_labels(j as nat)).push(Seq::<char>::empty()));
            assert(labels_view(v@) =~= (start + blank_labels(j as nat)).push(Seq::<char>::empty()));
        }
        j = j + 1;
    }
}

fn drop_front_rows(v: &Vec<u32>, cut: usize) -> (r: Vec<u32>)
    requires
        cut <= v@.len(),
    ensures
        r@ == v@.skip(cut as int),
{
    let mut kept: Vec<u32> = Vec::new();
    let mut i = cut;
    while i < v.len()
        invariant
            cut <= i <= v@.len(),
            kept@ == v@.subrange(cut as int, i as int),
        decreases v@.len() - i,
    {
        kept.push(v[i]);
        proof {
            assert(v@.subrange(cut as int, i + 1) =~= v@.subrange(cut as int, i as int).push(v@[i as int]));
        }
        i = i + 1;
    }
    proof {
        assert(kept@ =~= v@.skip(cut as int));
    }
    kept
}

fn drop_front_labels(v: &Vec<String>, cut: usize) -> (r: Vec<String>)
    requires
        cut <= v@.len(),
    ensures
        labels_view(r@) == labels_view(v@).skip(cut as int),
{
    let ghost lv = labels_view(v@);
    let mut kept: Vec<String> = Vec::new();
    let mut i = cut;
    while i < v.len()
        invariant
            cut <= i <= v@.len(),
            lv == labels_view(v@),
            labels_view(kept@) == lv.subrange(cut as int, i as int),
        decreases v@.len() - i,
    {
        kept.push(v[i].clone());
        proof {
            assert(lv.subrange(cut as int, i + 1) =~= lv.subrange(cut as int, i as int).push(v@[i as int]@));
            assert(labels_view(kept@) =~= lv.subrange(cut as int, i as int).push(v@[i as int]@));
        }
        i = i + 1;
    }
    proof {
        assert(labels_view(kept@) =~= lv.skip(cut as int));
    }
    kept
}

impl StreamBuffer {
    pub fn new(max_rows: usize) -> (r: Self)
        ensures
            r.n_cols == 0,
            r.max_rows == if max_rows < 1 { 1 } else { max_rows },
            r.data@.len() == 0,
            r.labels@.len() == 0,
            !r.has_labels,
            r.version == 0,
            r.total_received == 0,
    {
        StreamBuffer {
            n_cols: 0,
            max_rows: if max_rows < 1 { 1 } else { max_rows },
            data: Vec::new(),
            labels: Vec::new(),
            has_labels: false,
            version: 0,
            total_received: 0,
        }
    }

    pub fn n_rows(&self) -> (r: usize)
        ensures
            r == whole_rows(self.data@.len(), self.n_cols as nat),
    {
        if self.n_cols == 0 {
            0
        } else {
            self.data.len() / self.n_cols
        }
    }

    /// Append a decoded batch, enforcing a constant column count and the
    /// rolling row cap (oldest rows are dropped). An empty batch changes
    /// nothing; a batch with a different column count is a format error and
    /// changes nothing.
    #[verifier::spinoff_prover]
    #[verifier::rlimit(40)]
    pub fn push_batch(&mut self, batch: &RowBatch) -> (r: Result<(), DatasetError>)
        requires
            push_fits(*old(self), *batch),
        ensures
            pushed(*old(self), *batch, *final(self), r is Ok),
            r matches Err(e) ==> e matches DatasetError::Format(m) && m@ == column_change_text(old(self).n_cols, batch.n_cols),
    {
        let bn = batch.n_rows();
        if bn == 0 {
            return Ok(());
        }
        if self.n_cols != 0 && batch.n_cols != self.n_cols {
            let mut msg = String::from_str("stream column count changed from ");
            push_decimal(&mut msg, self.n_cols as u64);
            msg.append(" to ");
            push_decimal(&mut msg, batch.n_cols as u64);
            return Err(DatasetError::Format(msg));
        }
        if self.n_cols == 0 {
            self.n_cols = batch.n_cols;
            self.has_labels = batch.labels.len() > 0;
        }
        extend_rows(&mut self.data, batch.rows.as_slice());
        if self.has_labels {
            if batch.labels.len() == bn {
                extend_labels(&mut self.labels, batch.labels.as_slice());
            } else {
                push_blank_labels(&mut self.labels, bn);
            }
        }
        self.total_received = self.total_received + bn as u64;
        let n_rows = self.n_rows();
        let ghost data_full = self.data@;
        let ghost labels_full = labels_view(self.labels@);
        if n_rows > self.max_rows {
            let drop = n_rows - self.max_rows;
            let dl = self.data.len();
            proof {
                assert(drop * self.n_cols <= dl) by (nonlinear_arith)
                    requires
                        self.n_cols > 0,
                        n_rows == (dl as int) / (self.n_cols as int),
                        drop <= n_rows,
                ;
            }
            self.data = drop_front_rows(&self.data, drop * self.n_cols);
            if self.has_labels && self.labels.len() >= drop {
                self.labels = drop_front_labels(&self.labels, drop);
            }
        } else {
            proof {
                assert(data_full.skip(0) =~= data_full);
                assert(labels_full.skip(0) =~= labels_full);
            }
        }
        self.version = self.version.wrapping_add(1);
        proof {
            let (n, hl, data, labels) = appended(*old(self), *batch);
            let drop = overflow_rows(data.len(), n, old(self).max_rows as nat);
            assert(data == data_full);
            assert(labels == labels_full);
            assert(self.data@ =~= data.skip((drop * n) as int));
            assert(pushed(*old(self), *batch, *self, true));
        }
        Ok(())
    }

    /// The labels of a snapshot of the buffer as dense ids and their names:
    /// `None` while the buffer holds no rows; the rows' text labels (see
    /// `labels_from_strings`) when the stream carries one per row; otherwise
    /// every row labelled `unlabeled`.
    pub fn snapshot_labels(&self) -> (r: Option<(Vec<u32>, Vec<String>)>)
        requires
            whole_rows(self.data@.len(), self.n_cols as nat) <= 0x1_0000_0000,
        ensures
            r is None <==> whole_rows(self.data@.len(), self.n_cols as nat) == 0,
            r matches Some((ids, names)) ==> if self.has_labels && self.labels@.len() == whole_rows(
                self.data@.len(),
                self.n_cols as nat,
            ) {
                &&& text_increasing(texts(names@))
                &&& texts(names@).to_set() == texts(self.labels@).to_set()
                &&& ids@.len() == self.labels@.len()
                &&& forall|i: int|
                    0 <= i < self.labels@.len() ==> (#[trigger] ids@[i]) < names@.len() && names@[ids@[i] as int]@
                        == self.labels@[i]@
            } else {
                &&& ids@ == Seq::new(whole_rows(self.data@.len(), self.n_cols as nat), |i: int| 0u32)
                &&& names@.len() == 1
                &&& names@[0]@ == "unlabeled"@
            },
    {
        let n = self.n_rows();
        if n == 0 {
            return None;
        }
        if self.has_labels && self.labels.len() == n {
            return Some(labels_from_strings(self.labels.as_slice()));
        }
        let mut ids: Vec<u32> = Vec::new();
        let mut i: usize = 0;
        while i < n
            invariant
                i <= n,
                ids@ == Seq::new(i as nat, |k: int| 0u32),
            decreases n - i,
        {
            ids.push(0);
            proof {
                assert(ids@ =~= Seq::new((i + 1) as nat, |k: int| 0u32));
            }
            i = i + 1;
        }
        let mut names: Vec<String> = Vec::new();
        names.push(String::from_str("unlabeled"));
        Some((ids, names))
    }

    /// Forget all rows (the cap is kept); readers see a new version.
    pub fn clear(&mut self)
        ensures
            final(self).n_cols == 0,
            final(self).max_rows == old(self).max_rows,
            final(self).data@.len() == 0,
            final(self).labels@.len() == 0,
            !final(self).has_labels,
            final(self).version == old(self).version.wrapping_add(1),
            final(self).total_received == 0,
    {
        self.n_cols = 0;
        self.data = Vec::new();
        self.labels = Vec::new();
        self.has_labels = false;
        self.version = self.version.wrapping_add(1);
        self.total_received = 0;
    }
}

} // verus!
