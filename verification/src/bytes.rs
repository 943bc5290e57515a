//! Little-endian byte representation of unsigned scalars.
//!
//! All multi-byte integers on the wire are little-endian. A scalar of width
//! `w` occupies exactly `w` bytes; `scalar_bound(w)` is the number of distinct
//! values such a scalar can take.

use vstd::prelude::*;

verus! {

/// Number of distinct values of a `w`-byte scalar, i.e. 256^w.
pub open spec fn scalar_bound(w: nat) -> nat
    decreases w,
{
    if w == 0 {
        1
    } else {
        256 * scalar_bound((w - 1) as nat)
    }
}

/// The `w` little-endian bytes of the value `v` (low byte first).
pub open spec fn le_bytes_of(v: nat, w: nat) -> Seq<u8>
    decreases w,
{
    if w == 0 {
        Seq::empty()
    } else {
        seq![(v % 256) as u8] + le_bytes_of(v / 256, (w - 1) as nat)
    }
}

/// The value of a little-endian byte string.
pub open spec fn le_value(b: Seq<u8>) -> nat
    decreases b.len(),
{
    if b.len() == 0 {
        0
    } else {
        b[0] as nat + 256 * le_value(b.drop_first())
    }
}

pub proof fn lemma_le_bytes_len(v: nat, w: nat)
    ensures
        le_bytes_of(v, w).len() == w,
    decreases w,
{
    if w > 0 {
        lemma_le_bytes_len(v / 256, (w - 1) as nat);
    }
}

/// Decoding the little-endian bytes of `v` yields `v` again, as long as `v`
/// fits in `w` bytes.
pub proof fn lemma_le_value_of_le_bytes(v: nat, w: nat)
    requires
        v < scalar_bound(w),
    ensures
        le_value(le_bytes_of(v, w)) == v,
    decreases w,
{
    if w == 0 {
        assert(v == 0);
    } else {
        let lo = v % 256;
        let hi = v / 256;
        assert(v == 256 * (v / 256) + v % 256) by (nonlinear_arith);
        assert(hi < scalar_bound((w - 1) as nat)) by (nonlinear_arith)
            requires
                v < 256 * scalar_bound((w - 1) as nat),
                hi == v / 256,
                lo == v % 256,
                v == 256 * hi + lo,
                0 <= lo < 256,
        ;
        lemma_le_value_of_le_bytes(hi, (w - 1) as nat);
        let b = le_bytes_of(v, w);
        lemma_le_bytes_len(hi, (w - 1) as nat);
        assert(b.drop_first() =~= le_bytes_of(hi, (w - 1) as nat));
        assert(b[0] == lo as u8);
    }
}

/// The value of `w` bytes always fits in `w` bytes.
pub proof fn lemma_le_value_bound(b: Seq<u8>)
    ensures
        le_value(b) < scalar_bound(b.len()),
    decreases b.len(),
{
    if b.len() > 0 {
        lemma_le_value_bound(b.drop_first());
        assert(le_value(b) < 256 * scalar_bound((b.len() - 1) as nat)) by (nonlinear_arith)
            requires
                le_value(b) == b[0] as nat + 256 * le_value(b.drop_first()),
                le_value(b.drop_first()) < scalar_bound((b.len() - 1) as nat),
                b[0] < 256,
        ;
    }
}

/// `scalar_bound` is monotone in the width.
pub proof fn lemma_scalar_bound_le(w1: nat, w2: nat)
    requires
        w1 <= w2,
    ensures
        scalar_bound(w1) <= scalar_bound(w2),
    decreases w2,
{
    if w1 < w2 {
        lemma_scalar_bound_le(w1, (w2 - 1) as nat);
        assert(scalar_bound((w2 - 1) as nat) <= 256 * scalar_bound((w2 - 1) as nat))
            by (nonlinear_arith)
            requires
                scalar_bound((w2 - 1) as nat) >= 0,
        ;
    }
}

/// An 8-byte scalar holds every `u64` value.
pub proof fn lemma_scalar_bound_u64()
    ensures
        scalar_bound(8) == 0x1_0000_0000_0000_0000,
{
    reveal_with_fuel(scalar_bound, 9);
}

/// Reads the `w`-byte little-endian scalar at offset `off` of `buf`.
pub fn read_le(buf: &[u8], off: usize, w: usize) -> (v: u64)
    requires
        1 <= w <= 8,
        off + w <= buf@.len(),
    ensures
        v as nat == le_value(buf@.subrange(off as int, off + w)),
{
    proof {
        lemma_scalar_bound_u64();
    }
    let n: usize = buf.len();
    let mut v: u64 = 0;
    let mut i: usize = w;
    while i > 0
        invariant
            0 <= i <= w <= 8,
            off + w <= n == buf@.len(),
            v as nat == le_value(buf@.subrange(off + i, off + w)),
            (v as nat) < scalar_bound((w - i) as nat),
            scalar_bound(8) == 0x1_0000_0000_0000_0000,
        decreases i,
    {
        let b = buf[off + i - 1];
        proof {
            let rest = buf@.subrange(off + i, off + w);
            let whole = buf@.subrange(off + i - 1, off + w);
            assert(whole.drop_first() =~= rest);
            assert(whole[0] == buf@[off + i - 1]);
            lemma_scalar_bound_le((w - i) as nat, 7);
            reveal_with_fuel(scalar_bound, 9);
            assert(b as nat + 256 * (v as nat) < 256 * scalar_bound((w - i) as nat))
                by (nonlinear_arith)
                requires
                    b < 256,
                    (v as nat) < scalar_bound((w - i) as nat),
            ;
        }
        v = b as u64 + 256 * v;
        i = i - 1;
    }
    proof {
        assert(buf@.subrange(off as int, off + w) =~= buf@.subrange(off + 0, off + w));
    }
    v
}

/// Appends the `w`-byte little-endian representation of `v` to `out`.
pub fn push_le(out: &mut Vec<u8>, v: u64, w: usize)
    requires
        1 <= w <= 8,
        (v as nat) < scalar_bound(w as nat),
    ensures
        final(out)@ == old(out)@ + le_bytes_of(v as nat, w as nat),
{
    let ghost start = out@;
    let mut x: u64 = v;
    let mut i: usize = 0;
    while i < w
        invariant
            0 <= i <= w <= 8,
            start + le_bytes_of(v as nat, w as nat) == out@ + le_bytes_of(
                x as nat,
                (w - i) as nat,
            ),
        decreases w - i,
    {
        let b: u8 = (x % 256) as u8;
        proof {
            assert(le_bytes_of(x as nat, (w - i) as nat) == seq![(x as nat % 256) as u8]
                + le_bytes_of(x as nat / 256, (w - i - 1) as nat));
            assert(x as nat % 256 == (x % 256) as nat);
            assert(x as nat / 256 == (x / 256) as nat);
            assert(out@.push(b) + le_bytes_of(x as nat / 256, (w - i - 1) as nat) =~= out@
                + le_bytes_of(x as nat, (w - i) as nat));
        }
        out.push(b);
        x = x / 256;
        i = i + 1;
    }
    proof {
        assert(le_bytes_of(x as nat, 0) =~= Seq::<u8>::empty());
        assert(out@ + le_bytes_of(x as nat, 0) =~= out@);
        assert(out@ =~= start + le_bytes_of(v as nat, w as nat));
    }
}

} // verus!
