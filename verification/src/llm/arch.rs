//! Model-family detection from architecture strings and model names, and
//! the architectural sizes of a model instance.

use vstd::prelude::*;
use crate::llm::catalog::LayerKind;
use crate::llm::network::{plan_view, plans_view, uniform, uniform_roles, LayerPlan, NodeRole, MAX_NODES_PER_LAYER};
use crate::text::{ascii_lower, chars_eq, chars_of, dec_str, find, find_chars, lower_chars_of, push_decimal, sub_chars};

verus! {

#[derive(Debug, Clone, Copy, PartialEq, Eq, Structural)]
pub enum ArchFamily {
    Llama,
    Mistral,
    Gemma,
    Phi,
    Qwen,
    Falcon,
    Gpt2,
    Bloom,
    Mpt,
    StableLm,
    Unknown,
}

/// Whether `p` occurs in `s`.
pub open spec fn contains(s: Seq<char>, p: Seq<char>) -> bool {
    find(s, p) is Some
}

/// Whether `s` starts with `p`.
pub open spec fn starts_with(s: Seq<char>, p: Seq<char>) -> bool {
    s.len() >= p.len() && s.take(p.len() as int) == p
}

/// Whether `p` occurs in the architecture string or in the model name.
pub open spec fn hits(a: Seq<char>, n: Seq<char>, p: Seq<char>) -> bool {
    contains(a, p) || contains(n, p)
}

/// The family named by an architecture string and a model name, both
/// compared ASCII-case-insensitively; earlier families win.
pub open spec fn detect_family(arch: Seq<char>, name: Seq<char>) -> ArchFamily {
    let a = ascii_lower(arch);
    let n = ascii_lower(name);
    if hits(a, n, "llama"@) || hits(a, n, "vicuna"@) || hits(a, n, "alpaca"@) || hits(a, n, "codellama"@)
        || hits(a, n, "wizard"@) {
        ArchFamily::Llama
    } else if hits(a, n, "mistral"@) || hits(a, n, "mixtral"@) || hits(a, n, "zephyr"@) {
        ArchFamily::Mistral
    } else if hits(a, n, "gemma"@) {
        ArchFamily::Gemma
    } else if starts_with(a, "phi"@) || starts_with(n, "phi"@) {
        ArchFamily::Phi
    } else if hits(a, n, "qwen"@) {
        ArchFamily::Qwen
    } else if hits(a, n, "falcon"@) {
        ArchFamily::Falcon
    } else if contains(a, "gpt2"@) || contains(a, "gpt-2"@) {
        ArchFamily::Gpt2
    } else if hits(a, n, "bloom"@) {
        ArchFamily::Bloom
    } else if starts_with(a, "mpt"@) || starts_with(n, "mpt"@) {
        ArchFamily::Mpt
    } else if hits(a, n, "stablelm"@) {
        ArchFamily::StableLm
    } else {
        ArchFamily::Unknown
    }
}

fn has(s: &Vec<char>, p: &str) -> (r: bool)
    ensures
        r == contains(s@, p@),
{
    let pc = chars_of(p);
    find_chars(s, &pc, 0).is_some()
}

fn has_prefix(s: &Vec<char>, p: &str) -> (r: bool)
    ensures
        r == starts_with(s@, p@),
{
    let pc = chars_of(p);
    if s.len() < pc.len() {
        return false;
    }
    let head = sub_chars(s, 0, pc.len());
    chars_eq(&head, &pc)
}

fn hit(a: &Vec<char>, n: &Vec<char>, p: &str) -> (r: bool)
    ensures
        r == hits(a@, n@, p@),
{
    has(a, p) || has(n, p)
}

impl ArchFamily {
    /// Identify the family from the architecture string and/or the model
    /// name. Case-insensitive; earlier families win.
    pub fn detect(arch_str: &str, model_name: &str) -> (r: Self)
        ensures
            r == detect_family(arch_str@, model_name@),
    {
        let a = lower_chars_of(arch_str);
        let n = lower_chars_of(model_name);
        if hit(&a, &n, "llama") || hit(&a, &n, "vicuna") || hit(&a, &n, "alpaca") || hit(&a, &n, "codellama")
            || hit(&a, &n, "wizard") {
            return ArchFamily::Llama;
        }
        if hit(&a, &n, "mistral") || hit(&a, &n, "mixtral") || hit(&a, &n, "zephyr") {
            return ArchFamily::Mistral;
        }
        if hit(&a, &n, "gemma") {
            return ArchFamily::Gemma;
        }
        if has_prefix(&a, "phi") || has_prefix(&n, "phi") {
            return ArchFamily::Phi;
        }
        if hit(&a, &n, "qwen") {
            return ArchFamily::Qwen;
        }
        if hit(&a, &n, "falcon") {
            return ArchFamily::Falcon;
        }
        if has(&a, "gpt2") || has(&a, "gpt-2") {
            return ArchFamily::Gpt2;
        }
        if hit(&a, &n, "bloom") {
            return ArchFamily::Bloom;
        }
        if has_prefix(&a, "mpt") || has_prefix(&n, "mpt") {
            return ArchFamily::Mpt;
        }
        if hit(&a, &n, "stablelm") {
            return ArchFamily::StableLm;
        }
        ArchFamily::Unknown
    }
}

/// Parsed architectural parameters of one model instance.
#[derive(Debug, Clone, Copy, PartialEq, Eq, Structural)]
pub struct ArchSpec {
    pub family: ArchFamily,
    pub n_layers: usize,
    pub hidden_size: usize,
    pub n_heads: usize,
    /// For grouped-query attention `n_kv_heads < n_heads`.
    pub n_kv_heads: usize,
    pub ffn_size: usize,
}

/// Feed-forward width as a multiple of the hidden size, per family.
pub open spec fn ffn_ratio(f: ArchFamily) -> nat {
    match f {
        ArchFamily::Gemma | ArchFamily::Qwen => 3,
        _ => 4,
    }
}

pub fn default_ffn_ratio(family: ArchFamily) -> (r: usize)
    ensures
        r == ffn_ratio(family),
{
    match family {
        ArchFamily::Gemma | ArchFamily::Qwen => 3,
        _ => 4,
    }
}

/// `(layers, hidden, heads, kv heads, ffn ratio)` of the canonical
/// 7B-class model of each family.
pub open spec fn family_defaults(f: ArchFamily) -> (nat, nat, nat, nat, nat) {
    match f {
        ArchFamily::Llama => (32, 4096, 32, 32, 4),
        ArchFamily::Mistral => (32, 4096, 32, 8, 4),
        ArchFamily::Gemma => (28, 3072, 16, 16, 3),
        ArchFamily::Phi => (24, 2048, 32, 32, 4),
        ArchFamily::Qwen => (32, 4096, 32, 8, 3),
        ArchFamily::Falcon => (32, 4544, 71, 1, 4),
        ArchFamily::Gpt2 => (12, 768, 12, 12, 4),
        ArchFamily::Bloom => (24, 1024, 16, 16, 4),
        ArchFamily::Mpt => (32, 4096, 32, 32, 4),
        ArchFamily::StableLm => (32, 4096, 32, 8, 4),
        ArchFamily::Unknown => (12, 768, 12, 12, 4),
    }
}

/// The metadata pairs as plain values.
pub open spec fn meta_view(meta: Seq<(String, u64)>) -> Seq<(Seq<char>, u64)> {
    meta.map_values(|p: (String, u64)| (p.0@, p.1))
}

/// The value stored under `key`: the last pair with that key (as a map
/// filled in order keeps it), else 0.
pub open spec fn meta_get(meta: Seq<(Seq<char>, u64)>, key: Seq<char>) -> u64
    decreases meta.len(),
{
    if meta.len() == 0 {
        0
    } else if meta.last().0 == key {
        meta.last().1
    } else {
        meta_get(meta.drop_last(), key)
    }
}

/// The metadata key `<arch>.<suffix>`.
pub open spec fn meta_key(arch: Seq<char>, suffix: Seq<char>) -> Seq<char> {
    arch + seq!['.'] + suffix
}

fn lookup(meta: &Vec<(String, u64)>, key: &Vec<char>) -> (r: u64)
    ensures
        r == meta_get(meta_view(meta@), key@),
{
    let ghost mv = meta_view(meta@);
    let mut i = meta.len();
    proof {
        assert(mv.take(i as int) =~= mv);
    }
    while i > 0
        invariant
            i <= meta@.len(),
            mv == meta_view(meta@),
            meta_get(mv, key@) == meta_get(mv.take(i as int), key@),
        decreases i,
    {
        proof {
            assert(mv.take(i as int).drop_last() =~= mv.take(i - 1));
            assert(mv.take(i as int).last() == (meta@[i - 1].0@, meta@[i - 1].1));
        }
        let k = chars_of(meta[i - 1].0.as_str());
        if chars_eq(&k, key) {
            return meta[i - 1].1;
        }
        i = i - 1;
    }
    0
}

fn get_param(meta: &Vec<(String, u64)>, arch_str: &str, suffix: &str) -> (r: usize)
    ensures
        r == meta_get(meta_view(meta@), meta_key(arch_str@, suffix@)) as usize,
{
    let mut key = String::from_str(arch_str);
    key.append(".");
    key.append(suffix);
    let kc = chars_of(key.as_str());
    proof {
        reveal_strlit(".");
        assert(kc@ =~= meta_key(arch_str@, suffix@));
    }
    lookup(meta, &kc) as usize
}

/// The sizes read from metadata: missing or zero counts fall back to 1
/// layer, 64 hidden units, 1 head, as many KV heads as heads, and the
/// family's feed-forward ratio times the hidden size.
pub open spec fn spec_from_metadata(family: ArchFamily, arch: Seq<char>, meta: Seq<(Seq<char>, u64)>) -> ArchSpec {
    let get = |s: Seq<char>| meta_get(meta, meta_key(arch, s)) as usize;
    let n_layers = if get("block_count"@) < 1 { 1 } else { get("block_count"@) };
    let hidden = if get("embedding_length"@) < 64 { 64 } else { get("embedding_length"@) };
    let n_heads = if get("attention.head_count"@) < 1 { 1 } else { get("attention.head_count"@) };
    let kv_raw = get("attention.head_count_kv"@);
    let ffn_raw = get("feed_forward_length"@);
    ArchSpec {
        family,
        n_layers,
        hidden_size: hidden,
        n_heads,
        n_kv_heads: if kv_raw == 0 { n_heads } else { kv_raw },
        ffn_size: if ffn_raw == 0 { (hidden * ffn_ratio(family)) as usize } else { ffn_raw },
    }
}

impl ArchSpec {
    /// Build from a flat numeric metadata list whose keys follow the
    /// convention `<arch_str>.<param>`.
    pub fn from_metadata(family: ArchFamily, arch_str: &str, meta: &Vec<(String, u64)>) -> (r: Self)
        requires
            ({
                let get = |s: Seq<char>| meta_get(meta_view(meta@), meta_key(arch_str@, s)) as usize;
                let hidden = if get("embedding_length"@) < 64 { 64 } else { get("embedding_length"@) };
                get("feed_forward_length"@) == 0 ==> hidden * ffn_ratio(family) <= usize::MAX
            }),
        ensures
            r == spec_from_metadata(family, arch_str@, meta_view(meta@)),
    {
        let bc = get_param(meta, arch_str, "block_count");
        let n_layers = if bc < 1 { 1 } else { bc };
        let el = get_param(meta, arch_str, "embedding_length");
        let hidden_size = if el < 64 { 64 } else { el };
        let hc = get_param(meta, arch_str, "attention.head_count");
        let n_heads = if hc < 1 { 1 } else { hc };
        let kv_raw = get_param(meta, arch_str, "attention.head_count_kv");
        let n_kv_heads = if kv_raw == 0 { n_heads } else { kv_raw };
        let ffn_raw = get_param(meta, arch_str, "feed_forward_length");
        let ffn_size = if ffn_raw == 0 { hidden_size * default_ffn_ratio(family) } else { ffn_raw };
        ArchSpec { family, n_layers, hidden_size, n_heads, n_kv_heads, ffn_size }
    }

    /// Canonical default sizes for each well-known family (7B-class models).
    pub fn default_for(family: ArchFamily) -> (r: Self)
        ensures
            ({
                let (l, h, a, kv, ratio) = family_defaults(family);
                r == ArchSpec {
                    family,
                    n_layers: l as usize,
                    hidden_size: h as usize,
                    n_heads: a as usize,
                    n_kv_heads: kv as usize,
                    ffn_size: (h * ratio) as usize,
                }
            }),
    {
        let (n_layers, hidden, heads, kv, ffn_r): (usize, usize, usize, usize, usize) = match family {
            ArchFamily::Llama => (32, 4096, 32, 32, 4),
            ArchFamily::Mistral => (32, 4096, 32, 8, 4),
            ArchFamily::Gemma => (28, 3072, 16, 16, 3),
            ArchFamily::Phi => (24, 2048, 32, 32, 4),
            ArchFamily::Qwen => (32, 4096, 32, 8, 3),
            ArchFamily::Falcon => (32, 4544, 71, 1, 4),
            ArchFamily::Gpt2 => (12, 768, 12, 12, 4),
            ArchFamily::Bloom => (24, 1024, 16, 16, 4),
            ArchFamily::Mpt => (32, 4096, 32, 32, 4),
            ArchFamily::StableLm => (32, 4096, 32, 8, 4),
            ArchFamily::Unknown => (12, 768, 12, 12, 4),
        };
        ArchSpec { family, n_layers, hidden_size: hidden, n_heads: heads, n_kv_heads: kv, ffn_size: hidden * ffn_r }
    }
}

/// The default sizes of a family as a spec.
pub open spec fn spec_default(family: ArchFamily) -> ArchSpec {
    let (l, h, a, kv, ratio) = family_defaults(family);
    ArchSpec {
        family,
        n_layers: l as usize,
        hidden_size: h as usize,
        n_heads: a as usize,
        n_kv_heads: kv as usize,
        ffn_size: (h * ratio) as usize,
    }
}

/// Whether the feed-forward width derived from the metadata fits in
/// `usize` (what `ArchSpec::from_metadata` needs).
pub fn ffn_fits(family: ArchFamily, arch_str: &str, meta: &Vec<(String, u64)>) -> (r: bool)
    ensures
        r == ({
            let get = |s: Seq<char>| meta_get(meta_view(meta@), meta_key(arch_str@, s)) as usize;
            let hidden = if get("embedding_length"@) < 64 { 64 } else { get("embedding_length"@) };
            get("feed_forward_length"@) == 0 ==> hidden * ffn_ratio(family) <= usize::MAX
        }),
{
    let el = get_param(meta, arch_str, "embedding_length");
    let hidden = if el < 64 { 64 } else { el };
    let ffn_raw = get_param(meta, arch_str, "feed_forward_length");
    if ffn_raw != 0 {
        return true;
    }
    hidden <= usize::MAX / default_ffn_ratio(family)
}

/// Every family's default model has at least one layer and a feed-forward
/// block wider than its hidden size.
pub proof fn lemma_defaults_are_valid(f: ArchFamily)
    ensures
        family_defaults(f).0 > 0,
        family_defaults(f).1 * family_defaults(f).4 > family_defaults(f).1,
        family_defaults(f).3 <= family_defaults(f).2,
{
}

/// `n` capped at the per-layer node limit.
pub open spec fn capped(n: nat) -> nat {
    if n < MAX_NODES_PER_LAYER { n } else { MAX_NODES_PER_LAYER as nat }
}

/// The attention heads of one block. With grouped-query attention
/// (`0 < n_kv_heads < n_heads`) every `n_heads / n_kv_heads`-th head is a
/// key/value head and the others are query heads; otherwise all are plain
/// heads.
pub open spec fn attention_roles(spec: ArchSpec) -> Seq<NodeRole> {
    let total = capped(spec.n_heads as nat);
    if spec.n_kv_heads == 0 || spec.n_kv_heads >= spec.n_heads {
        uniform(total, NodeRole::Head)
    } else {
        let group = spec.n_heads / spec.n_kv_heads;
        Seq::new(total, |i: int| if i % (group as int) == 0 { NodeRole::KeyValue } else { NodeRole::Query })
    }
}

/// Layer-norm width: a 32nd of the hidden size, between 4 and the node limit.
pub open spec fn norm_width(spec: ArchSpec) -> nat {
    let w = spec.hidden_size / 32;
    if w < 4 { 4 } else { capped(w as nat) }
}

/// Layer `k` (0: attention, 1: layer norm, 2: feed-forward) of block `i`.
pub open spec fn block_layer(spec: ArchSpec, i: nat, k: int) -> (Seq<char>, LayerKind, Seq<NodeRole>) {
    let name = "Block "@ + dec_str(i);
    if k == 0 {
        (name + " \u{b7} Attn"@, LayerKind::Attention, attention_roles(spec))
    } else if k == 1 {
        (name + " \u{b7} LN"@, LayerKind::LayerNorm, uniform(norm_width(spec), NodeRole::Norm))
    } else {
        (name + " \u{b7} FFN"@, LayerKind::FeedForward, uniform(capped(spec.ffn_size as nat), NodeRole::FeedForward))
    }
}

/// The layers a model is drawn with: the embedding, three layers per
/// transformer block (attention, layer norm, feed-forward) and the output.
pub open spec fn layer_plan(spec: ArchSpec) -> Seq<(Seq<char>, LayerKind, Seq<NodeRole>)> {
    seq![("Embedding"@, LayerKind::Embedding, uniform(capped(spec.hidden_size as nat), NodeRole::Embedding))]
        + Seq::new(3 * spec.n_layers as nat, |j: int| block_layer(spec, (j / 3) as nat, j % 3))
        + seq![("Output"@, LayerKind::Output, uniform(capped(spec.hidden_size as nat), NodeRole::Output))]
}

fn cap(n: usize) -> (r: usize)
    ensures
        r == capped(n as nat),
{
    if n < MAX_NODES_PER_LAYER { n } else { MAX_NODES_PER_LAYER }
}

fn attention_nodes(spec: &ArchSpec) -> (r: Vec<NodeRole>)
    ensures
        r@ == attention_roles(*spec),
{
    let total = cap(spec.n_heads);
    if spec.n_kv_heads == 0 || spec.n_kv_heads >= spec.n_heads {
        return uniform_roles(total, NodeRole::Head);
    }
    let group = spec.n_heads / spec.n_kv_heads;
    proof {
        let (h, kv) = (spec.n_heads as int, spec.n_kv_heads as int);
        assert(h / kv >= 1) by (nonlinear_arith)
            requires
                0 < kv < h,
        ;
    }
    let mut out: Vec<NodeRole> = Vec::new();
    let mut i: usize = 0;
    while i < total
        invariant
            i <= total,
            total == capped(spec.n_heads as nat),
            0 < spec.n_kv_heads < spec.n_heads,
            group == spec.n_heads / spec.n_kv_heads,
            group >= 1,
            out@ =~= attention_roles(*spec).take(i as int),
        decreases total - i,
    {
        out.push(if i % group == 0 { NodeRole::KeyValue } else { NodeRole::Query });
        proof {
            assert(out@ =~= attention_roles(*spec).take(i + 1));
        }
        i = i + 1;
    }
    proof {
        assert(attention_roles(*spec).take(total as int) =~= attention_roles(*spec));
    }
    out
}

fn block_name(i: usize, suffix: &str) -> (r: String)
    ensures
        r@ == "Block "@ + dec_str(i as nat) + suffix@,
{
    let mut name = String::from_str("Block ");
    push_decimal(&mut name, i as u64);
    name.append(suffix);
    name
}

/// Build the layer plan of a model (see `layer_plan`); every layer has at
/// most `MAX_NODES_PER_LAYER` nodes.
pub fn build_layers(spec: &ArchSpec) -> (r: Vec<LayerPlan>)
    requires
        spec.n_layers <= (usize::MAX - 2) / 3,
    ensures
        plans_view(r@) == layer_plan(*spec),
        r@.len() == 2 + 3 * spec.n_layers,
        forall|j: int| 0 <= j < r@.len() ==> #[trigger] r@[j].nodes@.len() <= MAX_NODES_PER_LAYER,
{
    let ghost want = layer_plan(*spec);
    let mut layers: Vec<LayerPlan> = Vec::new();
    layers.push(LayerPlan {
        name: String::from_str("Embedding"),
        kind: LayerKind::Embedding,
        nodes: uniform_roles(cap(spec.hidden_size), NodeRole::Embedding),
    });
    let w = spec.hidden_size / 32;
    let ln_n = if w < 4 { 4 } else { cap(w) };
    let mut i: usize = 0;
    while i < spec.n_layers
        invariant
            i <= spec.n_layers,
            spec.n_layers <= (usize::MAX - 2) / 3,
            want == layer_plan(*spec),
            ln_n == norm_width(*spec),
            layers@.len() == 1 + 3 * i,
            forall|j: int| 0 <= j < layers@.len() ==> #[trigger] plan_view(layers@[j]) == want[j],
        decreases spec.n_layers - i,
    {
        let base = 1 + 3 * i;
        layers.push(LayerPlan { name: block_name(i, " \u{b7} Attn"), kind: LayerKind::Attention, nodes: attention_nodes(spec) });
        layers.push(LayerPlan {
            name: block_name(i, " \u{b7} LN"),
            kind: LayerKind::LayerNorm,
            nodes: uniform_roles(ln_n, NodeRole::Norm),
        });
        layers.push(LayerPlan {
            name: block_name(i, " \u{b7} FFN"),
            kind: LayerKind::FeedForward,
            nodes: uniform_roles(cap(spec.ffn_size), NodeRole::FeedForward),
        });
        proof {
            assert forall|k: int| 0 <= k < 3 implies #[trigger] plan_view(layers@[base + k]) == want[base + k] by {
                let j = 3 * i + k;
                assert(want[base + k] == block_layer(*spec, (j / 3) as nat, j % 3));
                assert(j / 3 == i as int && j % 3 == k);
            }
            assert forall|j: int| 0 <= j < layers@.len() implies #[trigger] plan_view(layers@[j]) == want[j] by {
                if j >= base {
                    assert(plan_view(layers@[base + (j - base)]) == want[base + (j - base)]);
                }
            }
        }
        i = i + 1;
    }
    layers.push(LayerPlan {
        name: String::from_str("Output"),
        kind: LayerKind::Output,
        nodes: uniform_roles(cap(spec.hidden_size), NodeRole::Output),
    });
    proof {
        assert(plans_view(layers@) =~= want);
        assert forall|j: int| 0 <= j < layers@.len() implies #[trigger] layers@[j].nodes@.len() <= MAX_NODES_PER_LAYER by {
            assert(plans_view(layers@)[j] == want[j]);
            if 1 <= j < layers@.len() - 1 {
                let m = j - 1;
                assert(want[j] == block_layer(*spec, (m / 3) as nat, m % 3));
            }
        }
    }
    layers
}


/// Key/value width of one block: the head width times the key/value heads
/// (a model without heads counts as one head).
pub open spec fn kv_dim(spec: ArchSpec) -> int {
    let heads: int = if spec.n_heads == 0 { 1 } else { spec.n_heads as int };
    (spec.hidden_size as int / heads) * spec.n_kv_heads
}

/// Bytes of one transformer block in FP16: the four attention matrices, the
/// three feed-forward matrices and two norms.
pub open spec fn block_bytes(spec: ArchSpec) -> int {
    let h = spec.hidden_size as int;
    let ff = spec.ffn_size as int;
    (h * h + 2 * h * kv_dim(spec) + h * h) * 2 + (h * ff + ff * h + h * ff) * 2 + h * 4
}

/// Estimated FP16 bytes of a model: token embedding and output head over a
/// 32 000-token vocabulary, plus every block.
pub open spec fn vram_bytes(spec: ArchSpec) -> int {
    32000 * spec.hidden_size * 2 + spec.n_layers * block_bytes(spec)
}

/// Whether every intermediate value of the estimate, computed in the order
/// written above, fits in a `u64`.
pub open spec fn vram_fits(spec: ArchSpec) -> bool {
    let h = spec.hidden_size as int;
    let ff = spec.ffn_size as int;
    let m = u64::MAX as int;
    &&& kv_dim(spec) <= m
    &&& 32000 * h * 2 <= m
    &&& h * h <= m
    &&& 2 * h * kv_dim(spec) <= m
    &&& (h * h + 2 * h * kv_dim(spec) + h * h) * 2 <= m
    &&& h * ff <= m
    &&& (h * ff + ff * h + h * ff) * 2 <= m
    &&& h * 4 <= m
    &&& block_bytes(spec) <= m
    &&& spec.n_layers * block_bytes(spec) <= m
    &&& vram_bytes(spec) <= m
}

fn times(a: u64, b: u64) -> (r: Option<u64>)
    ensures
        r == (if a * b <= u64::MAX { Some((a * b) as u64) } else { None::<u64> }),
{
    a.checked_mul(b)
}

fn plus(a: u64, b: u64) -> (r: Option<u64>)
    ensures
        r == (if a + b <= u64::MAX { Some((a + b) as u64) } else { None::<u64> }),
{
    a.checked_add(b)
}

/// The FP16 memory estimate of a model in bytes (see `vram_bytes`), or
/// `None` where an intermediate value leaves the `u64` range.
pub fn estimate_vram_bytes(spec: &ArchSpec) -> (r: Option<u64>)
    ensures
        r == (if vram_fits(*spec) { Some(vram_bytes(*spec) as u64) } else { None::<u64> }),
{
    proof {
        assert(usize::MAX <= u64::MAX);
    }
    let h = spec.hidden_size as u64;
    let n = spec.n_layers as u64;
    let ff = spec.ffn_size as u64;
    let heads: u64 = if spec.n_heads == 0 { 1 } else { spec.n_heads as u64 };
    let kv = spec.n_kv_heads as u64;
    let kvd = times(h / heads, kv);
    let emb = match times(32000, h) { Some(e) => times(e, 2), None => None };
    let hh = times(h, h);
    let hkv = match times(2, h) { Some(t) => match kvd { Some(k) => times(t, k), None => None }, None => None };
    let attn = match (hh, hkv) {
        (Some(a), Some(b)) => match plus(a, b) {
            Some(c) => match plus(c, a) { Some(d) => times(d, 2), None => None },
            None => None,
        },
        _ => None,
    };
    let hf = times(h, ff);
    let ffn = match hf {
        Some(a) => match plus(a, a) {
            Some(b) => match plus(b, a) { Some(c) => times(c, 2), None => None },
            None => None,
        },
        None => None,
    };
    let ln = times(h, 4);
    let block = match (attn, ffn, ln) {
        (Some(a), Some(f), Some(l)) => match plus(a, f) { Some(af) => plus(af, l), None => None },
        _ => None,
    };
    let total = match (emb, block) {
        (Some(e), Some(b)) => match times(n, b) { Some(nb) => plus(e, nb), None => None },
        _ => None,
    };
    proof {
        let hi = h as int;
        let fi = ff as int;
        assert(h * ff == ff * h) by (nonlinear_arith);
        assert(2 * hi * kv_dim(*spec) == (2 * hi) * kv_dim(*spec)) by (nonlinear_arith);
        assert(32000 * hi * 2 == (32000 * hi) * 2) by (nonlinear_arith);
        assert(kv_dim(*spec) == (h / heads) * kv);
    }
    match (kvd, total) {
        (Some(_), Some(t)) => Some(t),
        _ => None,
    }
}

} // verus!
