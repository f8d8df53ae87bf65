//! The bit-reversal permutation that reorders a sequence before the
//! in-place butterfly network runs over it.

use vstd::prelude::*;
use vstd::arithmetic::power2::pow2;
use vstd::arithmetic::power2::lemma_pow2_unfold;
use vstd::arithmetic::power2::lemma_pow2_pos;
use vstd::arithmetic::div_mod::lemma_fundamental_div_mod_converse;
use vstd::arithmetic::div_mod::lemma_small_mod;

verus! {

/// The integer formed by reversing the low `h` bits of `i`: the lowest
/// bit of `i` becomes the highest of the `h` reversed bits, and so on.
/// Bits of `i` above the low `h` are ignored.
pub open spec fn rev_bits(h: nat, i: nat) -> nat
    decreases h,
{
    if h == 0 {
        0
    } else {
        (i % 2) * pow2((h - 1) as nat) + rev_bits((h - 1) as nat, i / 2)
    }
}

/// The base-two logarithm, rounded down.
pub open spec fn log2(n: nat) -> nat
    decreases n,
{
    if n <= 1 {
        0
    } else {
        1 + log2(n / 2)
    }
}

/// Whether `n` is an exact power of two (so zero is excluded).
pub open spec fn is_power_of_two(n: nat) -> bool {
    n == pow2(log2(n))
}

/// `log2` inverts `pow2`.
pub proof fn lemma_log2_pow2(h: nat)
    ensures
        log2(pow2(h)) == h,
    decreases h,
{
    if h == 0 {
        vstd::arithmetic::power2::lemma2_to64();
    } else {
        lemma_pow2_unfold(h);
        lemma_pow2_pos((h - 1) as nat);
        lemma_log2_pow2((h - 1) as nat);
        assert(pow2(h) / 2 == pow2((h - 1) as nat));
        assert(pow2(h) >= 2);
    }
}

/// A reversed index always fits in `h` bits.
pub proof fn lemma_rev_bits_bound(h: nat, i: nat)
    ensures
        rev_bits(h, i) < pow2(h),
    decreases h,
{
    if h == 0 {
        vstd::arithmetic::power2::lemma2_to64();
    } else {
        lemma_rev_bits_bound((h - 1) as nat, i / 2);
        lemma_pow2_unfold(h);
        if i % 2 == 0 {
            assert((i % 2) * pow2((h - 1) as nat) == 0);
        } else {
            assert(i % 2 == 1);
            assert((i % 2) * pow2((h - 1) as nat) == pow2((h - 1) as nat));
        }
    }
}

/// Reversing index zero gives zero, for any width.
pub proof fn lemma_rev_bits_zero(h: nat)
    ensures
        rev_bits(h, 0) == 0,
    decreases h,
{
    if h > 0 {
        lemma_rev_bits_zero((h - 1) as nat);
        assert(rev_bits(h, 0) == ((0 as nat) % 2) * pow2((h - 1) as nat) + rev_bits(
            (h - 1) as nat,
            (0 as nat) / 2,
        ));
    }
}

/// Dropping the last (highest) of the reversed bits is the same as
/// reversing one bit fewer: `rev_bits(h + 1, i) / 2 == rev_bits(h, i)`.
proof fn lemma_rev_bits_shrink(h: nat, i: nat)
    ensures
        rev_bits(h + 1, i) / 2 == rev_bits(h, i),
    decreases h,
{
    if h == 0 {
        assert(rev_bits(1, i) == (i % 2) * pow2(0) + rev_bits(0, i / 2));
        vstd::arithmetic::power2::lemma2_to64();
        assert(rev_bits(1, i) == i % 2);
    } else {
        lemma_rev_bits_shrink((h - 1) as nat, i / 2);
        lemma_rev_bits_bound(h, i / 2);
        lemma_pow2_unfold(h);
        // rev_bits(h + 1, i) = (i % 2) * pow2(h) + rev_bits(h, i / 2)
        let r = rev_bits(h, i / 2);
        let b = i % 2;
        assert(rev_bits(h + 1, i) == b * pow2(h) + r);
        assert(b * pow2(h) + r == 2 * (b * pow2((h - 1) as nat) + r / 2) + r % 2) by {
            assert(b * pow2(h) == 2 * (b * pow2((h - 1) as nat))) by (nonlinear_arith)
                requires pow2(h) == 2 * pow2((h - 1) as nat);
            assert(r == 2 * (r / 2) + r % 2);
        }
        lemma_fundamental_div_mod_converse(
            (b * pow2(h) + r) as int,
            2,
            (b * pow2((h - 1) as nat) + r / 2) as int,
            (r % 2) as int,
        );
        assert(rev_bits(h + 1, i) / 2 == b * pow2((h - 1) as nat) + r / 2);
        assert(rev_bits(h, i) == b * pow2((h - 1) as nat) + rev_bits((h - 1) as nat, i / 2));
    }
}

/// Setting the top of the `h + 1` reversed bits shows up as the lowest
/// bit of the reversal: `rev_bits(h + 1, i + b * pow2(h)) == 2 * rev_bits(h, i) + b`.
proof fn lemma_rev_bits_high_bit(h: nat, i: nat, b: nat)
    requires
        i < pow2(h),
        b <= 1,
    ensures
        rev_bits(h + 1, i + b * pow2(h)) == 2 * rev_bits(h, i) + b,
    decreases h,
{
    let x = i + b * pow2(h);
    if h == 0 {
        vstd::arithmetic::power2::lemma2_to64();
        if b == 0 {
            assert(b * pow2(h) == 0);
        } else {
            assert(b == 1);
            assert(b * pow2(h) == pow2(h));
        }
        assert(i == 0 && x == b);
        assert(rev_bits(1, b) == (b % 2) * pow2(0) + rev_bits(0, b / 2));
        lemma_small_mod(b, 2);
    } else {
        lemma_pow2_unfold(h);
        // x has the same low bit as i, and x / 2 == i / 2 + b * pow2(h - 1)
        assert(x == 2 * (i / 2 + b * pow2((h - 1) as nat)) + i % 2) by {
            assert(b * pow2(h) == 2 * (b * pow2((h - 1) as nat))) by (nonlinear_arith)
                requires pow2(h) == 2 * pow2((h - 1) as nat);
            assert(i == 2 * (i / 2) + i % 2);
        }
        lemma_fundamental_div_mod_converse(
            x as int,
            2,
            (i / 2 + b * pow2((h - 1) as nat)) as int,
            (i % 2) as int,
        );
        assert(x % 2 == i % 2);
        assert(x / 2 == i / 2 + b * pow2((h - 1) as nat));
        assert(i / 2 < pow2((h - 1) as nat)) by {
            assert(i < 2 * pow2((h - 1) as nat));
        }
        lemma_rev_bits_high_bit((h - 1) as nat, i / 2, b);
        assert(rev_bits(h + 1, x) == (i % 2) * pow2(h) + rev_bits(h, x / 2));
        assert(rev_bits(h, x / 2) == 2 * rev_bits((h - 1) as nat, i / 2) + b);
        assert(rev_bits(h, i) == (i % 2) * pow2((h - 1) as nat) + rev_bits((h - 1) as nat, i / 2));
        assert((i % 2) * pow2(h) == 2 * ((i % 2) * pow2((h - 1) as nat))) by (nonlinear_arith)
            requires pow2(h) == 2 * pow2((h - 1) as nat);
    }
}

/// Reversing the low `h` bits twice gives back the index: the
/// bit-reversal permutation is an involution.
pub proof fn lemma_rev_bits_involution(h: nat, i: nat)
    requires
        i < pow2(h),
    ensures
        rev_bits(h, rev_bits(h, i)) == i,
    decreases h,
{
    if h == 0 {
        vstd::arithmetic::power2::lemma2_to64();
        lemma_rev_bits_zero(0);
    } else {
        let h1 = (h - 1) as nat;
        lemma_pow2_unfold(h);
        let r = rev_bits(h1, i / 2);
        let b = i % 2;
        assert(rev_bits(h, i) == b * pow2(h1) + r);
        lemma_rev_bits_bound(h1, i / 2);
        assert(i / 2 < pow2(h1)) by {
            assert(i < 2 * pow2(h1));
        }
        lemma_rev_bits_high_bit(h1, r, b);
        assert(rev_bits(h, rev_bits(h, i)) == 2 * rev_bits(h1, r) + b);
        lemma_rev_bits_involution(h1, i / 2);
        assert(rev_bits(h1, r) == i / 2);
        assert(i == 2 * (i / 2) + i % 2);
    }
}

/// A sequence reordered by the bit-reversal permutation on `h` bits.
pub open spec fn bit_reverse_seq(a: Seq<int>, h: nat) -> Seq<int> {
    Seq::new(a.len(), |p: int| a[rev_bits(h, p as nat) as int])
}

/// Applying the bit-reversal reordering twice returns the original
/// sequence, for every power-of-two length.
pub proof fn lemma_bit_reverse_seq_involution(a: Seq<int>, h: nat)
    requires
        a.len() == pow2(h),
    ensures
        bit_reverse_seq(bit_reverse_seq(a, h), h) == a,
{
    let twice = bit_reverse_seq(bit_reverse_seq(a, h), h);
    assert forall|p: int| 0 <= p < a.len() implies twice[p] == a[p] by {
        lemma_rev_bits_bound(h, p as nat);
        lemma_rev_bits_involution(h, p as nat);
    }
    assert(twice =~= a);
}

/// The bit-reversal index mapping for a power-of-two length `n`:
/// position `i` holds the reversal of the low `log2(n)` bits of `i`.
/// Built by the recurrence `rev[i] = rev[i / 2] / 2 + (n / 2 if i is odd)`,
/// which extends the table one index at a time.
pub fn bit_reverse_permutation(n: usize) -> (rev: Vec<usize>)
    requires
        is_power_of_two(n as nat),
    ensures
        rev@.len() == n,
        forall|q: int| 0 <= q < n ==> rev@[q] == rev_bits(log2(n as nat), q as nat),
        forall|q: int| 0 <= q < n ==> rev@[q] < n,
{
    let ghost h: nat = log2(n as nat);
    let half = n / 2;
    let mut rev: Vec<usize> = Vec::new();
    proof {
        lemma_pow2_pos(h);
        lemma_rev_bits_zero(h);
    }
    rev.push(0);
    let mut idx: usize = 1;
    while idx < n
        invariant
            h == log2(n as nat),
            n as nat == pow2(h),
            half == n / 2,
            1 <= idx <= n,
            rev@.len() == idx,
            forall|q: int| 0 <= q < idx ==> rev@[q] == rev_bits(h, q as nat),
            forall|q: int| 0 <= q < idx ==> rev@[q] < n,
        decreases n - idx,
    {
        let prev = rev[idx / 2];
        let val = if idx % 2 == 1 {
            prev / 2 + half
        } else {
            prev / 2
        };
        proof {
            // n >= 2 here, so h >= 1 and half == pow2(h - 1)
            assert(h >= 1) by {
                if h == 0 {
                    vstd::arithmetic::power2::lemma2_to64();
                }
            }
            let h1 = (h - 1) as nat;
            lemma_pow2_unfold(h);
            assert(half as nat == pow2(h1));
            lemma_rev_bits_shrink(h1, (idx / 2) as nat);
            assert(rev_bits(h, (idx / 2) as nat) / 2 == rev_bits(h1, (idx / 2) as nat));
            assert(rev_bits(h, idx as nat)
                == ((idx as nat) % 2) * pow2(h1) + rev_bits(h1, (idx / 2) as nat));
            if idx % 2 == 1 {
                assert((idx as nat) % 2 == 1);
                assert(((idx as nat) % 2) * pow2(h1) == pow2(h1));
            } else {
                assert((idx as nat) % 2 == 0);
                assert(((idx as nat) % 2) * pow2(h1) == 0);
            }
            assert(val as nat == rev_bits(h, idx as nat));
            lemma_rev_bits_bound(h, idx as nat);
        }
        rev.push(val);
        idx += 1;
    }
    rev
}

} // verus!
