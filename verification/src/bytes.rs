//! Little-endian integers as byte strings.

use vstd::prelude::*;

verus! {

/// Little-endian value of `n` bytes starting at `p`.
pub open spec fn le_value(d: Seq<u8>, p: int, n: nat) -> nat
    decreases n,
{
    if n == 0 {
        0
    } else {
        (d[p] as nat) + 256 * le_value(d, p + 1, (n - 1) as nat)
    }
}

/// The `n` low-order bytes of `v`, least significant first.
pub open spec fn le_digits(v: nat, n: nat) -> Seq<u8>
    decreases n,
{
    if n == 0 {
        Seq::empty()
    } else {
        seq![(v % 256) as u8] + le_digits(v / 256, (n - 1) as nat)
    }
}

/// `256^n`.
pub open spec fn byte_range(n: nat) -> nat
    decreases n,
{
    if n == 0 {
        1
    } else {
        256 * byte_range((n - 1) as nat)
    }
}

/// Reading back the bytes of a value that fits gives the value.
pub proof fn lemma_le_round_trip(v: nat, n: nat, d: Seq<u8>, p: int)
    requires
        v < byte_range(n),
        0 <= p,
        p + n <= d.len(),
        d.subrange(p, p + n) == le_digits(v, n),
    ensures
        le_value(d, p, n) == v,
    decreases n,
{
    if n > 0 {
        let rest = le_digits(v / 256, (n - 1) as nat);
        assert(le_digits(v, n) == seq![(v % 256) as u8] + rest);
        assert(d[p] == d.subrange(p, p + n)[0]);
        assert(d.subrange(p + 1, p + n) =~= d.subrange(p, p + n).skip(1));
        assert(d.subrange(p, p + n).skip(1) =~= rest);
        assert(v / 256 < byte_range((n - 1) as nat));
        lemma_le_round_trip(v / 256, (n - 1) as nat, d, p + 1);
    }
}

/// The length of `le_digits` is the byte count.
pub proof fn lemma_le_digits_len(v: nat, n: nat)
    ensures
        le_digits(v, n).len() == n,
    decreases n,
{
    if n > 0 {
        lemma_le_digits_len(v / 256, (n - 1) as nat);
    }
}

/// Append the `n` low-order bytes of `v`, least significant first.
pub fn push_le(out: &mut Vec<u8>, v: u64, n: usize)
    ensures
        final(out)@ == old(out)@ + le_digits(v as nat, n as nat),
{
    let ghost start = out@;
    let mut x = v;
    let mut i: usize = 0;
    while i < n
        invariant
            i <= n,
            out@ + le_digits(x as nat, (n - i) as nat) == start + le_digits(v as nat, n as nat),
        decreases n - i,
    {
        let ghost before = out@;
        out.push((x % 256) as u8);
        proof {
            assert(le_digits(x as nat, (n - i) as nat) == seq![(x % 256) as u8] + le_digits(
                (x / 256) as nat,
                (n - i - 1) as nat,
            ));
            assert(out@ + le_digits((x / 256) as nat, (n - i - 1) as nat) =~= before + le_digits(
                x as nat,
                (n - i) as nat,
            ));
        }
        x = x / 256;
        i = i + 1;
    }
    proof {
        assert(out@ + le_digits(x as nat, 0) =~= out@);
    }
}

} // verus!
