//! Projection settings: the method, the number of spatial dimensions, the
//! source axes, and the identity tag and cache key derived from them.

use vstd::prelude::*;
use crate::dataset::DatasetError;
use crate::sampling::{strided, strided_indices};
use crate::text::{dec_str, is_digit, lemma_dec_str_digits, lemma_dec_str_injective, lemma_split_at_separator, push_decimal};

verus! {

#[derive(Debug, Clone, Copy, PartialEq, Eq, Structural)]
pub enum ProjectionMethod {
    /// Use the chosen feature columns directly (no analysis).
    Direct,
    /// Principal component analysis.
    Pca,
}

pub open spec fn method_tag(m: ProjectionMethod) -> Seq<char> {
    match m {
        ProjectionMethod::Direct => "direct"@,
        ProjectionMethod::Pca => "pca"@,
    }
}

impl ProjectionMethod {
    pub fn tag(&self) -> (r: &'static str)
        ensures
            r@ == method_tag(*self),
    {
        match self {
            ProjectionMethod::Direct => "direct",
            ProjectionMethod::Pca => "pca",
        }
    }
}

/// The two method tags differ.
pub proof fn lemma_method_tags_distinct()
    ensures
        method_tag(ProjectionMethod::Direct) != method_tag(ProjectionMethod::Pca),
{
    reveal_strlit("direct");
    reveal_strlit("pca");
    assert("direct"@[0] != "pca"@[0]);
}

/// A projection: method, number of spatial dimensions (clamped to 1..=3),
/// and for `Direct` the feature column feeding each output axis.
#[derive(Debug, Clone, Copy, PartialEq, Eq)]
pub struct ProjectionSpec {
    pub method: ProjectionMethod,
    pub dims: u8,
    pub axes: [usize; 3],
}

/// Effective dimension count, clamped to 1..=3.
pub open spec fn clamp_dims(d: u8) -> nat {
    if d < 1 {
        1
    } else if d > 3 {
        3
    } else {
        d as nat
    }
}

/// The identity tag of a projection: `pca-<dims>` or
/// `direct-<dims>-<x>_<y>_<z>`.
pub open spec fn spec_tag(method: ProjectionMethod, dims: u8, axes: Seq<usize>) -> Seq<char> {
    match method {
        ProjectionMethod::Pca => "pca-"@ + dec_str(clamp_dims(dims)),
        ProjectionMethod::Direct => "direct-"@ + dec_str(clamp_dims(dims)) + seq!['-'] + dec_str(axes[0] as nat)
            + seq!['_'] + dec_str(axes[1] as nat) + seq!['_'] + dec_str(axes[2] as nat),
    }
}

impl ProjectionSpec {
    /// Full 3D projection over the first three columns / components.
    pub fn full(method: ProjectionMethod) -> (r: Self)
        ensures
            r.method == method,
            r.dims == 3,
            r.axes@ == seq![0usize, 1, 2],
    {
        let r = ProjectionSpec { method, dims: 3, axes: [0, 1, 2] };
        proof {
            assert(r.axes@ =~= seq![0usize, 1, 2]);
        }
        r
    }

    /// Effective dimension count, clamped to 1..=3.
    pub fn dims(&self) -> (r: usize)
        ensures
            r == clamp_dims(self.dims),
    {
        if self.dims < 1 {
            1
        } else if self.dims > 3 {
            3
        } else {
            self.dims as usize
        }
    }

    /// Stable, unique identity tag, e.g. `pca-2` or `direct-3-0_4_7`.
    pub fn tag(&self) -> (r: String)
        ensures
            r@ == spec_tag(self.method, self.dims, self.axes@),
    {
        let d = self.dims() as u64;
        match self.method {
            ProjectionMethod::Pca => {
                let mut s = String::from_str("pca-");
                push_decimal(&mut s, d);
                s
            },
            ProjectionMethod::Direct => {
                let mut s = String::from_str("direct-");
                push_decimal(&mut s, d);
                s.append("-");
                push_decimal(&mut s, self.axes[0] as u64);
                s.append("_");
                push_decimal(&mut s, self.axes[1] as u64);
                s.append("_");
                push_decimal(&mut s, self.axes[2] as u64);
                proof {
                    reveal_strlit("-");
                    reveal_strlit("_");
                    assert("-"@ =~= seq!['-']);
                    assert("_"@ =~= seq!['_']);
                }
                s
            },
        }
    }
}

proof fn lemma_dec_no(n: nat, c: char)
    requires
        !is_digit(c),
    ensures
        forall|i: int| 0 <= i < dec_str(n).len() ==> dec_str(n)[i] != c,
{
    lemma_dec_str_digits(n);
}

/// The digit groups of `<e>-<x>_<y>_<z>` are recovered from the text.
proof fn lemma_direct_groups(e1: nat, x1: nat, y1: nat, z1: nat, e2: nat, x2: nat, y2: nat, z2: nat)
    requires
        dec_str(e1) + seq!['-'] + dec_str(x1) + seq!['_'] + dec_str(y1) + seq!['_'] + dec_str(z1)
            == dec_str(e2) + seq!['-'] + dec_str(x2) + seq!['_'] + dec_str(y2) + seq!['_'] + dec_str(z2),
    ensures
        e1 == e2 && x1 == x2 && y1 == y2 && z1 == z2,
{
    let r1 = dec_str(x1) + seq!['_'] + (dec_str(y1) + seq!['_'] + dec_str(z1));
    let r2 = dec_str(x2) + seq!['_'] + (dec_str(y2) + seq!['_'] + dec_str(z2));
    assert(dec_str(e1) + seq!['-'] + r1 =~= dec_str(e1) + seq!['-'] + dec_str(x1) + seq!['_'] + dec_str(y1)
        + seq!['_'] + dec_str(z1));
    assert(dec_str(e2) + seq!['-'] + r2 =~= dec_str(e2) + seq!['-'] + dec_str(x2) + seq!['_'] + dec_str(y2)
        + seq!['_'] + dec_str(z2));
    lemma_dec_no(e1, '-');
    lemma_dec_no(e2, '-');
    lemma_split_at_separator(dec_str(e1), r1, dec_str(e2), r2, '-');
    lemma_dec_no(x1, '_');
    lemma_dec_no(x2, '_');
    lemma_split_at_separator(dec_str(x1), dec_str(y1) + seq!['_'] + dec_str(z1), dec_str(x2), dec_str(y2) + seq!['_'] + dec_str(z2), '_');
    lemma_dec_no(y1, '_');
    lemma_dec_no(y2, '_');
    lemma_split_at_separator(dec_str(y1), dec_str(z1), dec_str(y2), dec_str(z2), '_');
    lemma_dec_str_injective(e1, e2);
    lemma_dec_str_injective(x1, x2);
    lemma_dec_str_injective(y1, y2);
    lemma_dec_str_injective(z1, z2);
}

proof fn lemma_pca_tag(d: u8)
    ensures
        spec_tag(ProjectionMethod::Pca, d, Seq::empty()).len() > 4,
        spec_tag(ProjectionMethod::Pca, d, Seq::empty())[0] == 'p',
        spec_tag(ProjectionMethod::Pca, d, Seq::empty()).skip(4) == dec_str(clamp_dims(d)),
{
    reveal_strlit("pca-");
    lemma_dec_str_digits(clamp_dims(d));
    let t = spec_tag(ProjectionMethod::Pca, d, Seq::empty());
    assert(t.skip(4) =~= dec_str(clamp_dims(d)));
}

proof fn lemma_direct_tag(d: u8, a: Seq<usize>)
    requires
        a.len() == 3,
    ensures
        spec_tag(ProjectionMethod::Direct, d, a)[0] == 'd',
        spec_tag(ProjectionMethod::Direct, d, a).skip(7) == dec_str(clamp_dims(d)) + seq!['-'] + dec_str(
            a[0] as nat,
        ) + seq!['_'] + dec_str(a[1] as nat) + seq!['_'] + dec_str(a[2] as nat),
{
    reveal_strlit("direct-");
    let g = dec_str(clamp_dims(d)) + seq!['-'] + dec_str(a[0] as nat) + seq!['_'] + dec_str(a[1] as nat) + seq!['_']
        + dec_str(a[2] as nat);
    let t = spec_tag(ProjectionMethod::Direct, d, a);
    assert(t =~= "direct-"@ + g);
    assert(t.skip(7) =~= g);
}

/// The tag identifies the projection: equal tags mean the same method, the
/// same effective dimension count and, for `Direct`, the same source axes.
pub proof fn lemma_tag_identifies_projection(
    m1: ProjectionMethod,
    d1: u8,
    a1: Seq<usize>,
    m2: ProjectionMethod,
    d2: u8,
    a2: Seq<usize>,
)
    requires
        a1.len() == 3,
        a2.len() == 3,
        spec_tag(m1, d1, a1) == spec_tag(m2, d2, a2),
    ensures
        m1 == m2,
        clamp_dims(d1) == clamp_dims(d2),
        m1 == ProjectionMethod::Direct ==> a1 == a2,
{
    lemma_pca_tag(d1);
    lemma_pca_tag(d2);
    lemma_direct_tag(d1, a1);
    lemma_direct_tag(d2, a2);
    assert(spec_tag(ProjectionMethod::Pca, d1, a1) == spec_tag(ProjectionMethod::Pca, d1, Seq::empty()));
    assert(spec_tag(ProjectionMethod::Pca, d2, a2) == spec_tag(ProjectionMethod::Pca, d2, Seq::empty()));
    if m1 == ProjectionMethod::Pca && m2 == ProjectionMethod::Pca {
        lemma_dec_str_injective(clamp_dims(d1), clamp_dims(d2));
    } else if m1 == ProjectionMethod::Direct && m2 == ProjectionMethod::Direct {
        lemma_direct_groups(
            clamp_dims(d1),
            a1[0] as nat,
            a1[1] as nat,
            a1[2] as nat,
            clamp_dims(d2),
            a2[0] as nat,
            a2[1] as nat,
            a2[2] as nat,
        );
        assert(a1 =~= a2);
    }
}

impl Default for ProjectionSpec {
    fn default() -> (r: Self)
        ensures
            r.method == ProjectionMethod::Pca,
            r.dims == 3,
            r.axes@ == seq![0usize, 1, 2],
    {
        Self::full(ProjectionMethod::Pca)
    }
}

/// The widest dataset PCA accepts.
pub const MAX_PCA_DIMS: usize = 4096;

/// Rows sampled to estimate the mean and covariance.
pub const MAX_ESTIMATION_ROWS: usize = 5000;

/// How a principal-component projection of `n_rows` rows of `n_cols`
/// features into `dims` dimensions (clamped to 1..=3) proceeds.
#[derive(Debug, Clone, Copy, PartialEq, Eq, Structural)]
pub enum PcaPlan {
    /// No rows: the projection is empty.
    NoRows,
    /// No more columns than components: the first columns are used as they are.
    Direct(usize),
    /// Reduce to this many components.
    Reduce(usize),
}

/// The plan of a PCA projection, or the error for a dataset too wide.
pub open spec fn pca_plan_of(n_rows: nat, n_cols: nat, dims: u8) -> Result<PcaPlan, Seq<char>> {
    let k = clamp_dims(dims);
    if n_rows == 0 {
        Ok(PcaPlan::NoRows)
    } else if n_cols <= k {
        Ok(PcaPlan::Direct(k as usize))
    } else if n_cols > MAX_PCA_DIMS {
        Err("PCA limited to 4096 dimensions (dataset has "@ + dec_str(n_cols) + ")"@)
    } else {
        Ok(PcaPlan::Reduce(k as usize))
    }
}

/// Decide how to run a PCA projection (see `pca_plan_of`); a dataset wider
/// than `MAX_PCA_DIMS` is unsupported.
pub fn pca_plan(n_rows: usize, n_cols: usize, dims: u8) -> (r: Result<PcaPlan, DatasetError>)
    ensures
        match pca_plan_of(n_rows as nat, n_cols as nat, dims) {
            Ok(p) => r == Ok::<PcaPlan, DatasetError>(p),
            Err(m) => r matches Err(DatasetError::Unsupported(e)) && e@ == m,
        },
{
    let k: usize = if dims < 1 { 1 } else if dims > 3 { 3 } else { dims as usize };
    if n_rows == 0 {
        Ok(PcaPlan::NoRows)
    } else if n_cols <= k {
        Ok(PcaPlan::Direct(k))
    } else if n_cols > MAX_PCA_DIMS {
        let mut m = String::from_str("PCA limited to 4096 dimensions (dataset has ");
        push_decimal(&mut m, n_cols as u64);
        m.append(")");
        Err(DatasetError::Unsupported(m))
    } else {
        Ok(PcaPlan::Reduce(k))
    }
}

/// The rows a PCA estimates its statistics from (see `strided`): at most
/// `MAX_ESTIMATION_ROWS`, spread evenly over the dataset.
pub fn estimation_rows(n_rows: usize) -> (r: Vec<usize>)
    ensures
        r@ == strided(n_rows as nat, MAX_ESTIMATION_ROWS as nat),
        forall|k: int| 0 <= k < r@.len() ==> #[trigger] r@[k] < n_rows,
{
    strided_indices(n_rows, MAX_ESTIMATION_ROWS)
}

} // verus!
