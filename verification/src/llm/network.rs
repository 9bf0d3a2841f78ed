//! The layer plan of a network graph: which layers a model is drawn with and
//! the role of every node in them.

use vstd::prelude::*;
use crate::llm::catalog::LayerKind;
use crate::sampling::{strided, strided_indices};

verus! {

/// No layer is drawn with more nodes than this.
pub const MAX_NODES_PER_LAYER: usize = 64;

/// The role of a node in a planned layer; the renderer sizes nodes by role.
#[derive(Debug, Clone, Copy, PartialEq, Eq, Structural)]
pub enum NodeRole {
    Embedding,
    /// A query head of grouped-query attention.
    Query,
    /// A key/value head of grouped-query attention.
    KeyValue,
    /// An attention head when every head has its own keys and values.
    Head,
    Norm,
    FeedForward,
    Output,
}

/// One planned layer: its label, its kind and its nodes' roles.
#[derive(Debug, Clone, PartialEq, Eq)]
pub struct LayerPlan {
    pub name: String,
    pub kind: LayerKind,
    pub nodes: Vec<NodeRole>,
}

/// The plain-value form of a planned layer.
pub open spec fn plan_view(p: LayerPlan) -> (Seq<char>, LayerKind, Seq<NodeRole>) {
    (p.name@, p.kind, p.nodes@)
}

pub open spec fn plans_view(ps: Seq<LayerPlan>) -> Seq<(Seq<char>, LayerKind, Seq<NodeRole>)> {
    ps.map_values(|p: LayerPlan| plan_view(p))
}

/// `n` nodes of one role.
pub open spec fn uniform(n: nat, role: NodeRole) -> Seq<NodeRole> {
    Seq::new(n, |i: int| role)
}

/// `n` nodes of one role, as a vector.
pub fn uniform_roles(n: usize, role: NodeRole) -> (r: Vec<NodeRole>)
    ensures
        r@ == uniform(n as nat, role),
{
    let mut out: Vec<NodeRole> = Vec::new();
    let mut i: usize = 0;
    while i < n
        invariant
            i <= n,
            out@ == uniform(i as nat, role),
        decreases n - i,
    {
        out.push(role);
        proof {
            assert(out@ =~= uniform((i + 1) as nat, role));
        }
        i = i + 1;
    }
    out
}

/// Which of `len` per-node weights a layer is drawn with: at most
/// `MAX_NODES_PER_LAYER` of them, evenly strided from the first.
pub open spec fn sampled(len: nat) -> Seq<usize> {
    strided(len, MAX_NODES_PER_LAYER as nat)
}

/// The indices of the weights a layer is drawn with (see `sampled`); every
/// index is within the weights.
pub fn sample_indices(len: usize) -> (r: Vec<usize>)
    ensures
        r@ == sampled(len as nat),
        forall|k: int| 0 <= k < r@.len() ==> #[trigger] r@[k] < len,
{
    strided_indices(len, MAX_NODES_PER_LAYER)
}

/// The total of the first `k` lengths.
pub open spec fn total_len(lens: Seq<usize>, k: int) -> int
    decreases k,
{
    if k <= 0 {
        0
    } else {
        total_len(lens, k - 1) + lens[k - 1]
    }
}

proof fn lemma_total_len_grows(lens: Seq<usize>, a: int, b: int)
    requires
        0 <= a <= b <= lens.len(),
    ensures
        total_len(lens, a) <= total_len(lens, b),
    decreases b - a,
{
    if a < b {
        lemma_total_len_grows(lens, a, b - 1);
    }
}

/// Where each layer ends in a flat list of all nodes: entry `k` is the
/// number of nodes in layers `0..=k`.
pub fn layer_ends(lens: &[usize]) -> (r: Vec<usize>)
    requires
        total_len(lens@, lens@.len() as int) <= usize::MAX,
    ensures
        r@.len() == lens@.len(),
        forall|k: int| 0 <= k < lens@.len() ==> #[trigger] r@[k] == total_len(lens@, k + 1),
{
    let mut out: Vec<usize> = Vec::new();
    let mut acc: usize = 0;
    let mut k: usize = 0;
    while k < lens.len()
        invariant
            k <= lens@.len(),
            total_len(lens@, lens@.len() as int) <= usize::MAX,
            acc == total_len(lens@, k as int),
            out@.len() == k,
            forall|i: int| 0 <= i < k ==> #[trigger] out@[i] == total_len(lens@, i + 1),
        decreases lens@.len() - k,
    {
        proof {
            lemma_total_len_grows(lens@, k + 1, lens@.len() as int);
        }
        acc = acc + lens[k];
        out.push(acc);
        k = k + 1;
    }
    out
}

} // verus!
