//! Even subsampling of an index range: at most `cap` indices, strided from
//! the first so that they spread over the whole range.

use vstd::prelude::*;

verus! {

/// The indices kept of `0..len`: `min(len, cap)` of them, `stride` apart,
/// where the stride is `len / min(len, cap)` (at least 1).
pub open spec fn strided(len: nat, cap: nat) -> Seq<usize> {
    let n: nat = if len < cap { len } else { cap };
    let stride: nat = if n == 0 || len / n < 1 { 1 } else { len / n };
    Seq::new(n, |k: int| (k * stride) as usize)
}

/// The indices of `strided`; every one lies within `0..len`.
pub fn strided_indices(len: usize, cap: usize) -> (r: Vec<usize>)
    ensures
        r@ == strided(len as nat, cap as nat),
        forall|k: int| 0 <= k < r@.len() ==> #[trigger] r@[k] < len,
{
    let n = if len < cap { len } else { cap };
    if n == 0 {
        proof {
            assert(strided(len as nat, cap as nat) =~= Seq::<usize>::empty());
        }
        return Vec::new();
    }
    let q = len / n;
    let stride = if q < 1 { 1 } else { q };
    proof {
        assert(stride * n <= len) by (nonlinear_arith)
            requires
                n > 0,
                n <= len,
                q == len / n,
                stride == (if q < 1 { 1 } else { q }),
        ;
    }
    let mut out: Vec<usize> = Vec::new();
    let mut k: usize = 0;
    while k < n
        invariant
            k <= n,
            0 < n <= len,
            n == (if len < cap { len } else { cap }),
            stride == (if n == 0 || len / n < 1 { 1 } else { len / n }),
            stride * n <= len,
            out@ == strided(len as nat, cap as nat).take(k as int),
            forall|i: int| 0 <= i < k ==> #[trigger] out@[i] < len,
        decreases n - k,
    {
        proof {
            assert(k * stride < len) by (nonlinear_arith)
                requires
                    k < n,
                    stride * n <= len,
                    stride >= 1,
            ;
        }
        out.push(k * stride);
        proof {
            assert(out@ =~= strided(len as nat, cap as nat).take(k + 1));
        }
        k = k + 1;
    }
    proof {
        assert(strided(len as nat, cap as nat).take(n as int) =~= strided(len as nat, cap as nat));
    }
    out
}

} // verus!
