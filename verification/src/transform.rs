//! The transform engine: forward and inverse number-theoretic
//! transform in place, and the convolution driver built on them.
//!
//! The forward transform reorders the input by the bit-reversal
//! permutation and then runs `log2(n)` butterfly stages over it,
//! decimation in time.  Each stage of size `mh` pairs positions `j` and
//! `j + mh/2` inside every window of width `mh` and combines them with
//! a running power of the principal `mh`-th root of unity.  The inverse
//! transform is the forward transform taken at the inverse root,
//! scaled by the inverse of the length.

use vstd::prelude::*;
use vstd::arithmetic::power::pow;
use vstd::arithmetic::power::lemma_pow0;
use vstd::arithmetic::power::lemma_pow1;
use vstd::arithmetic::power::lemma_pow_adds;
use vstd::arithmetic::power::lemma1_pow;
use vstd::arithmetic::power2::pow2;
use vstd::arithmetic::power2::lemma_pow2_adds;
use vstd::arithmetic::power2::lemma_pow2_pos;
use vstd::arithmetic::power2::lemma_pow2_strictly_increases;
use vstd::arithmetic::div_mod::lemma_fundamental_div_mod;
use vstd::arithmetic::div_mod::lemma_fundamental_div_mod_converse;
use vstd::arithmetic::div_mod::lemma_mul_mod_noop_left;
use vstd::arithmetic::div_mod::lemma_mul_mod_noop_right;
use vstd::arithmetic::div_mod::lemma_small_mod;
use crate::MODULUS;
use crate::modarith::power_mod;
use crate::bitrev::rev_bits;
use crate::bitrev::log2;
use crate::bitrev::is_power_of_two;
use crate::bitrev::bit_reverse_seq;
use crate::bitrev::bit_reverse_permutation;
use crate::bitrev::lemma_rev_bits_bound;
use crate::bitrev::lemma_rev_bits_involution;

verus! {

/// A sequence of field elements read as mathematical integers.
pub open spec fn vals(s: Seq<u64>) -> Seq<int> {
    Seq::new(s.len(), |i: int| s[i] as int)
}

/// Every stored element is fully reduced modulo `MODULUS`.
pub open spec fn all_reduced(s: Seq<u64>) -> bool {
    forall|i: int| 0 <= i < s.len() ==> s[i] < MODULUS
}

/// The twiddle base of the stage of size `2^i`: the principal
/// `2^i`-th root of unity obtained from `root`.
pub open spec fn stage_base(root: int, i: nat) -> int {
    pow(root, ((MODULUS - 1) as nat / pow2(i)) as nat) % (MODULUS as int)
}

/// The value at position `p` after one butterfly stage of size `mh`
/// has combined each pair `(u, t)` at offsets `j` and `j + mh/2` of a
/// window into `u + w*t` and `u - w*t`, with `w` the `j`-th power of
/// `base`, everything reduced modulo `MODULUS`.
pub open spec fn butterfly(a: Seq<int>, mh: nat, base: int, p: int) -> int {
    let m = (mh / 2) as int;
    let off = p % (mh as int);
    if off < m {
        (a[p] + (a[p + m] * pow(base, off as nat)) % (MODULUS as int)) % (MODULUS as int)
    } else {
        (a[p - m] + (MODULUS as int) - (a[p] * pow(base, (off - m) as nat)) % (MODULUS as int))
            % (MODULUS as int)
    }
}

/// One whole butterfly stage of size `mh`.
pub open spec fn butterfly_stage(a: Seq<int>, mh: nat, base: int) -> Seq<int> {
    Seq::new(a.len(), |p: int| butterfly(a, mh, base, p))
}

/// Butterfly stages of sizes `2^i, 2^(i+1), ..., 2^h` applied in turn.
pub open spec fn ntt_stages(a: Seq<int>, root: int, i: nat, h: nat) -> Seq<int>
    decreases h + 1 - i,
{
    if i > h {
        a
    } else {
        ntt_stages(butterfly_stage(a, pow2(i), stage_base(root, i)), root, i + 1, h)
    }
}

/// The forward transform of a sequence of length `2^h`: bit-reversal
/// reordering followed by the `h` butterfly stages.
pub open spec fn ntt_spec(a: Seq<int>, root: int, h: nat) -> Seq<int> {
    ntt_stages(bit_reverse_seq(a, h), root, 1, h)
}

/// The inverse of a nonzero residue, by Fermat's little theorem.
pub open spec fn inv_mod(x: int) -> int {
    pow(x, (MODULUS - 2) as nat) % (MODULUS as int)
}

/// Every element multiplied by `c` and reduced.
pub open spec fn scale_seq(a: Seq<int>, c: int) -> Seq<int> {
    Seq::new(a.len(), |p: int| (a[p] * c) % (MODULUS as int))
}

/// The inverse transform: the forward transform at the inverse root,
/// scaled by the inverse of the length.
pub open spec fn intt_spec(a: Seq<int>, root: int, h: nat) -> Seq<int> {
    scale_seq(ntt_spec(a, inv_mod(root), h), inv_mod(pow2(h) as int))
}

/// The index-wise product of two transformed sequences, reduced.
pub open spec fn pointwise_mul(x: Seq<int>, y: Seq<int>) -> Seq<int> {
    Seq::new(x.len(), |p: int| (x[p] * y[p]) % (MODULUS as int))
}

/// Polynomial multiplication through the transform: transform both
/// inputs, multiply index-wise, transform back.
pub open spec fn convolution_spec(a: Seq<int>, b: Seq<int>, root: int, h: nat) -> Seq<int> {
    intt_spec(pointwise_mul(ntt_spec(a, root, h), ntt_spec(b, root, h)), root, h)
}

/// Whether position `p` has already been rewritten by the running
/// stage of size `mh`, when the pair offset loop is at `j` and the
/// window loop of the current offset is at window start `k`.
spec fn stage_done(p: int, mh: int, j: int, k: int) -> bool {
    let m = mh / 2;
    let off = p % mh;
    let jj = if off < m {
        off
    } else {
        off - m
    };
    jj < j || (jj == j && p / mh < k / mh)
}

/// Reorders the sequence into bit-reversed index order in place, by
/// swapping each index with its reversal once.
fn apply_bit_reverse(a: &mut Vec<u64>, n: usize)
    requires
        old(a)@.len() == n,
        is_power_of_two(n as nat),
        all_reduced(old(a)@),
    ensures
        final(a)@.len() == n,
        all_reduced(final(a)@),
        vals(final(a)@) == bit_reverse_seq(vals(old(a)@), log2(n as nat)),
{
    let ghost h: nat = log2(n as nat);
    let ghost orig: Seq<int> = vals(a@);

    let rev = bit_reverse_permutation(n);
    let mut i: usize = 0;
    while i < n
        invariant
            a@.len() == n,
            n as nat == pow2(h),
            orig.len() == n,
            forall|p: int| 0 <= p < n ==> 0 <= #[trigger] orig[p] < MODULUS,
            rev@.len() == n,
            forall|q: int|
                0 <= q < n ==> #[trigger] rev@[q] == rev_bits(h, q as nat) && rev@[q] < n,
            i <= n,
            forall|p: int|
                0 <= p < n ==> (#[trigger] a@[p]) as int == (if p < i || rev_bits(
                    h,
                    p as nat,
                ) < i {
                    orig[rev_bits(h, p as nat) as int]
                } else {
                    orig[p]
                }),
        decreases n - i,
    {
        let r = rev[i];
        proof {
            lemma_rev_bits_involution(h, i as nat);
            assert forall|p: int|
                0 <= p < n && #[trigger] rev_bits(h, p as nat) == i as nat implies p
                == r as int by {
                lemma_rev_bits_involution(h, p as nat);
            }
        }
        if i < r {
            let ai = a[i];
            let ar = a[r];
            a.set(i, ar);
            a.set(r, ai);
        }
        i += 1;
    }
    proof {
        assert forall|p: int| 0 <= p < n implies #[trigger] rev_bits(h, p as nat) < n by {
            lemma_rev_bits_bound(h, p as nat);
        }
        assert(vals(a@) =~= bit_reverse_seq(orig, h));
    }
}

/// The forward transform, in place.  `a` must have power-of-two length
/// `n`, no longer than 2^23 so that `n` divides `MODULUS - 1`, with
/// every element fully reduced.
pub fn ntt(a: &mut Vec<u64>, n: usize, primitive_root: u64)
    requires
        old(a)@.len() == n,
        is_power_of_two(n as nat),
        n <= 0x80_0000,
        all_reduced(old(a)@),
    ensures
        final(a)@.len() == n,
        all_reduced(final(a)@),
        vals(final(a)@) == ntt_spec(vals(old(a)@), primitive_root as int, log2(n as nat)),
{
    let ghost h: nat = log2(n as nat);
    let ghost root: int = primitive_root as int;

    // reorder the input into bit-reversed index order
    apply_bit_reverse(a, n);
    let ghost reordered: Seq<int> = vals(a@);

    // butterfly stages of sizes 2, 4, ..., n
    let mut mh: usize = 2;
    let ghost mut si: nat = 1;
    proof {
        vstd::arithmetic::power2::lemma2_to64();
    }
    while mh <= n
        invariant
            a@.len() == n,
            n as nat == pow2(h),
            n <= 0x80_0000,
            reordered.len() == n,
            root == primitive_root as int,
            2 <= mh,
            mh as nat == pow2(si),
            1 <= si,
            si <= h + 1,
            all_reduced(a@),
            ntt_stages(reordered, root, 1, h) == ntt_stages(vals(a@), root, si, h),
        decreases 2 * n - mh,
    {
        proof {
            if si > h {
                lemma_pow2_strictly_increases(h, si);
            }
        }
        let ghost astart: Seq<int> = vals(a@);
        let m = mh / 2;
        let expnt = (MODULUS - 1) / (mh as u64);
        let base = power_mod(primitive_root, expnt, MODULUS);
        proof {
            vstd::arithmetic::power2::lemma_pow2_unfold(si);
            assert(mh % 2 == 0);
            assert((mh as u64) as nat == pow2(si));
            assert(expnt as nat == ((MODULUS - 1) as nat) / ((mh as u64) as nat));
            assert(expnt as nat == ((MODULUS - 1) as nat) / pow2(si));
            assert(base as int == pow(root, expnt as nat) % (MODULUS as int));
            assert(base as int == stage_base(root, si));
            // mh divides n: both are powers of two and mh <= n
            assert(si <= h);
            lemma_pow2_adds(si, (h - si) as nat);
            lemma_pow2_pos((h - si) as nat);
            assert(si + ((h - si) as nat) == h);
            assert(pow2(si + ((h - si) as nat)) == pow2(si) * pow2((h - si) as nat));
            assert(pow2(h) == pow2(si) * pow2((h - si) as nat));
            assert(n as int == pow2((h - si) as nat) as int * (mh as int) + 0)
                by (nonlinear_arith)
                requires
                    n as nat == pow2(h),
                    pow2(h) == pow2(si) * pow2((h - si) as nat),
                    mh as nat == pow2(si),
            ;
            lemma_fundamental_div_mod_converse(
                n as int,
                mh as int,
                pow2((h - si) as nat) as int,
                0,
            );
            assert(n as int == (mh as int) * ((n as int) / (mh as int)));
        }
        let mut j: usize = 0;
        let mut w: u64 = 1;
        proof {
            lemma_pow0(base as int);
        }
        while j < m
            invariant
                a@.len() == n,
                astart.len() == n,
                forall|p: int| 0 <= p < n ==> 0 <= #[trigger] astart[p] < MODULUS,
                2 <= mh <= n,
                m == mh / 2,
                mh % 2 == 0,
                n as int == (mh as int) * ((n as int) / (mh as int)),
                j <= m,
                w as int == pow(base as int, j as nat) % (MODULUS as int),
                base < MODULUS,
                all_reduced(a@),
                forall|p: int|
                    0 <= p < n ==> (#[trigger] a@[p]) as int == (if stage_done(
                        p,
                        mh as int,
                        j as int,
                        0,
                    ) {
                        butterfly(astart, mh as nat, base as int, p)
                    } else {
                        astart[p]
                    }),
            decreases m - j,
        {
            let mut k: usize = 0;
            while k < n
                invariant
                    a@.len() == n,
                    astart.len() == n,
                    forall|p: int| 0 <= p < n ==> 0 <= #[trigger] astart[p] < MODULUS,
                    2 <= mh <= n,
                    m == mh / 2,
                    mh % 2 == 0,
                    n as int == (mh as int) * ((n as int) / (mh as int)),
                    j < m,
                    w as int == pow(base as int, j as nat) % (MODULUS as int),
                    base < MODULUS,
                    k <= n,
                    k % mh == 0,
                    all_reduced(a@),
                    forall|p: int|
                        0 <= p < n ==> (#[trigger] a@[p]) as int == (if stage_done(
                            p,
                            mh as int,
                            j as int,
                            k as int,
                        ) {
                            butterfly(astart, mh as nat, base as int, p)
                        } else {
                            astart[p]
                        }),
                decreases n - k,
            {
                proof {
                    lemma_fundamental_div_mod(k as int, mh as int);
                    assert(k as int == (mh as int) * ((k as int) / (mh as int)));
                    assert(k + mh <= n) by (nonlinear_arith)
                        requires
                            k as int == (mh as int) * ((k as int) / (mh as int)),
                            n as int == (mh as int) * ((n as int) / (mh as int)),
                            (k as int) < (n as int),
                            (mh as int) >= 2,
                    ;
                    // the two positions of the pair lie in window k
                    assert((j as int) < (mh as int));
                    assert(((j + m) as int) < (mh as int));
                    vstd::arithmetic::mul::lemma_mul_is_commutative(
                        mh as int,
                        (k as int) / (mh as int),
                    );
                    assert((k + j) as int == ((k as int) / (mh as int)) * (mh as int)
                        + j as int);
                    assert((k + j + m) as int == ((k as int) / (mh as int)) * (mh as int) + (j
                        + m) as int);
                    lemma_fundamental_div_mod_converse(
                        (k + j) as int,
                        mh as int,
                        (k as int) / (mh as int),
                        j as int,
                    );
                    lemma_fundamental_div_mod_converse(
                        (k + j + m) as int,
                        mh as int,
                        (k as int) / (mh as int),
                        (j + m) as int,
                    );
                    crate::modarith::lemma_mul_mod_bound(
                        astart[(k + j + m) as int],
                        w as int,
                        MODULUS as int,
                    );
                }
                let u = a[k + j];
                let t = a[k + j + m] * w % MODULUS;
                proof {
                    lemma_mul_mod_noop_right(
                        astart[(k + j + m) as int],
                        pow(base as int, j as nat),
                        MODULUS as int,
                    );
                    assert(t as int == (astart[(k + j + m) as int] * pow(base as int, j as nat))
                        % (MODULUS as int));
                }
                a.set(k + j, (u + t) % MODULUS);
                a.set(k + j + m, (u + MODULUS - t) % MODULUS);
                proof {
                    let mhi = mh as int;
                    let ki = k as int;
                    let p1 = ki + j;
                    let p2 = ki + j + m;
                    assert((a@[p1]) as int == butterfly(astart, mh as nat, base as int, p1));
                    assert((a@[p2]) as int == butterfly(astart, mh as nat, base as int, p2));
                    lemma_fundamental_div_mod(ki, mhi);
                    assert(ki + mhi == (ki / mhi + 1) * mhi + 0) by (nonlinear_arith)
                        requires
                            ki == mhi * (ki / mhi),
                    ;
                    lemma_fundamental_div_mod_converse(
                        ki + mhi,
                        mhi,
                        ki / mhi + 1,
                        0,
                    );
                    assert forall|p: int|
                        0 <= p < n && !stage_done(p, mhi, j as int, ki) && stage_done(
                            p,
                            mhi,
                            j as int,
                            ki + mhi,
                        ) implies p == p1 || p == p2 by {
                        lemma_fundamental_div_mod(p, mhi);
                    }
                }
                k += mh;
            }
            proof {
                // every position of pair offset j is now rewritten
                let mhi = mh as int;
                assert forall|p: int|
                    0 <= p < n implies stage_done(p, mhi, j as int, k as int) == stage_done(
                    p,
                    mhi,
                    (j + 1) as int,
                    0,
                ) by {
                    lemma_fundamental_div_mod(p, mhi);
                    if p / mhi >= k as int / mhi {
                        assert(p >= mhi * (p / mhi));
                        assert(mhi * (p / mhi) >= mhi * (k as int / mhi)) by (nonlinear_arith)
                            requires
                                p / mhi >= k as int / mhi,
                                mhi >= 2,
                        ;
                        lemma_fundamental_div_mod(k as int, mhi);
                        assert(p >= k as int);
                    }
                }
                lemma_pow_adds(base as int, j as nat, 1);
                lemma_pow1(base as int);
                lemma_mul_mod_noop_left(
                    pow(base as int, j as nat),
                    base as int,
                    MODULUS as int,
                );
                crate::modarith::lemma_mul_mod_bound(w as int, base as int, MODULUS as int);
            }
            w = w * base % MODULUS;
            j += 1;
        }
        proof {
            // the stage is complete: every pair offset is below m
            let mhi = mh as int;
            assert forall|p: int| 0 <= p < n implies stage_done(p, mhi, m as int, 0) by {
                assert(0 <= p % mhi < mhi);
            }
            assert(vals(a@) =~= butterfly_stage(astart, mh as nat, base as int));
            assert(si <= h);
            assert(ntt_stages(astart, root, si, h) == ntt_stages(
                butterfly_stage(astart, pow2(si), stage_base(root, si)),
                root,
                si + 1,
                h,
            ));
        }
        mh = mh * 2;
        proof {
            si = si + 1;
            vstd::arithmetic::power2::lemma_pow2_unfold(si);
        }
    }
    proof {
        if si <= h {
            if si < h {
                lemma_pow2_strictly_increases(si, h);
            }
            assert(pow2(si) <= pow2(h));
            assert(false);
        }
        assert(ntt_stages(vals(a@), root, si, h) == vals(a@));
    }
}

/// The inverse transform, in place: the forward transform taken at the
/// inverse of `primitive_root`, then every element scaled by the
/// inverse of `n`.
pub fn intt(a: &mut Vec<u64>, n: usize, primitive_root: u64)
    requires
        old(a)@.len() == n,
        is_power_of_two(n as nat),
        n <= 0x80_0000,
        all_reduced(old(a)@),
    ensures
        final(a)@.len() == n,
        all_reduced(final(a)@),
        vals(final(a)@) == intt_spec(vals(old(a)@), primitive_root as int, log2(n as nat)),
{
    let ghost h: nat = log2(n as nat);
    let ghost orig: Seq<int> = vals(a@);
    let n_inv = power_mod(n as u64, MODULUS - 2, MODULUS);
    let root_inv = power_mod(primitive_root, MODULUS - 2, MODULUS);
    proof {
        assert(root_inv as int == inv_mod(primitive_root as int));
        assert(n_inv as int == inv_mod(pow2(h) as int));
    }
    ntt(a, n, root_inv);
    proof {
        vstd::arithmetic::power::lemma_pow_mod_noop(
            primitive_root as int,
            (MODULUS - 2) as nat,
            MODULUS as int,
        );
        assert(ntt_spec(orig, root_inv as int, h) == ntt_spec(
            orig,
            inv_mod(primitive_root as int),
            h,
        ));
    }
    let ghost mid: Seq<int> = vals(a@);
    let mut i: usize = 0;
    while i < n
        invariant
            a@.len() == n,
            mid.len() == n,
            n_inv < MODULUS,
            i <= n,
            forall|p: int| i <= p < n ==> (#[trigger] a@[p]) as int == mid[p],
            forall|p: int| 0 <= p < n ==> 0 <= #[trigger] mid[p] < MODULUS,
            forall|p: int|
                0 <= p < i ==> (#[trigger] a@[p]) as int == (mid[p] * (n_inv as int)) % (
                MODULUS as int),
            all_reduced(a@),
        decreases n - i,
    {
        proof {
            crate::modarith::lemma_mul_mod_bound(a@[i as int] as int, n_inv as int, MODULUS as int);
        }
        let scaled = a[i] * n_inv % MODULUS;
        a.set(i, scaled);
        i += 1;
    }
    proof {
        assert(vals(a@) =~= scale_seq(mid, n_inv as int));
    }
}

/// Multiplies two coefficient sequences of the same power-of-two
/// length `n` through the transform: both are transformed in place,
/// multiplied index-wise modulo `MODULUS`, and transformed back.  The
/// caller chooses `n` at least as large as the true product length.
pub fn convolution(a: Vec<u64>, b: Vec<u64>, n: usize, primitive_root: u64) -> (r: Vec<u64>)
    requires
        a@.len() == n,
        b@.len() == n,
        is_power_of_two(n as nat),
        n <= 0x80_0000,
        all_reduced(a@),
        all_reduced(b@),
    ensures
        r@.len() == n,
        all_reduced(r@),
        vals(r@) == convolution_spec(vals(a@), vals(b@), primitive_root as int, log2(n as nat)),
{
    let ghost h: nat = log2(n as nat);
    let mut fa = a;
    let mut fb = b;
    ntt(&mut fa, n, primitive_root);
    ntt(&mut fb, n, primitive_root);
    let mut prod: Vec<u64> = Vec::new();
    let mut i: usize = 0;
    while i < n
        invariant
            fa@.len() == n,
            fb@.len() == n,
            all_reduced(fa@),
            all_reduced(fb@),
            i <= n,
            prod@.len() == i,
            forall|p: int|
                0 <= p < i ==> (#[trigger] prod@[p]) as int == ((fa@[p] as int) * (fb@[p] as int))
                    % (MODULUS as int),
            all_reduced(prod@),
        decreases n - i,
    {
        proof {
            crate::modarith::lemma_mul_mod_bound(fa@[i as int] as int, fb@[i as int] as int, MODULUS as int);
        }
        prod.push(fa[i] * fb[i] % MODULUS);
        i += 1;
    }
    proof {
        assert(vals(prod@) =~= pointwise_mul(vals(fa@), vals(fb@)));
    }
    intt(&mut prod, n, primitive_root);
    prod
}

/// The value at position `p` after one decimation-in-frequency stage
/// of pair distance `m` (window width `2m`): the pair `(u, d)` at
/// offsets `s` and `s + m` of a window becomes `u + d` and
/// `w * (u - d)`, with `w` the power of `base` given by the position
/// of the pair inside its window, everything reduced modulo `MODULUS`.
pub open spec fn gs_butterfly(a: Seq<int>, m: nat, base: int, p: int) -> int {
    let m2 = (2 * m) as int;
    let off = p % m2;
    if off < m {
        (a[p] + a[p + m]) % (MODULUS as int)
    } else {
        (pow(base, (off - m) as nat) * ((a[p - m] + (MODULUS as int) - a[p]) % (MODULUS as int)))
            % (MODULUS as int)
    }
}

/// One whole decimation-in-frequency stage of pair distance `m`.
pub open spec fn gs_stage(a: Seq<int>, m: nat, base: int) -> Seq<int> {
    Seq::new(a.len(), |p: int| gs_butterfly(a, m, base, p))
}

/// Decimation-in-frequency stages of pair distances `m, m/2, ..., 1`
/// applied in turn, the twiddle base squared after each stage.
pub open spec fn gs_stages(a: Seq<int>, base: int, m: nat) -> Seq<int>
    decreases m,
{
    if m == 0 {
        a
    } else {
        gs_stages(gs_stage(a, m, base), (base * base) % (MODULUS as int), m / 2)
    }
}

/// The decimation-in-frequency forward transform of a sequence of
/// length `2^h`: bit-reversal reordering first, for parity with the
/// decimation-in-time variant, then the stages from pair distance
/// `2^h / 2` down to `1`, starting from the principal `2^h`-th root
/// of unity.
pub open spec fn ntt_dif_spec(a: Seq<int>, root: int, h: nat) -> Seq<int> {
    gs_stages(
        bit_reverse_seq(a, h),
        pow(root, ((MODULUS - 1) as nat / pow2(h)) as nat) % (MODULUS as int),
        (pow2(h) / 2) as nat,
    )
}

/// Whether position `p` has already been rewritten by the running
/// decimation-in-frequency stage of window width `m2`, when the window
/// loop is at window start `k` and the pair loop inside that window is
/// at position `s`.
spec fn gs_done(p: int, m2: int, k: int, s: int) -> bool {
    let m = m2 / 2;
    let off = p % m2;
    let jj = if off < m {
        off
    } else {
        off - m
    };
    p / m2 < k / m2 || (p / m2 == k / m2 && jj < s - k)
}

/// The decimation-in-frequency forward transform, in place, under the
/// same preconditions as `ntt`.  The two variants order their
/// butterflies differently and do not give the same sequence; whatever
/// consumes the output must follow this variant's convention.
pub fn ntt_dif(a: &mut Vec<u64>, n: usize, primitive_root: u64)
    requires
        old(a)@.len() == n,
        is_power_of_two(n as nat),
        n <= 0x80_0000,
        all_reduced(old(a)@),
    ensures
        final(a)@.len() == n,
        all_reduced(final(a)@),
        vals(final(a)@) == ntt_dif_spec(vals(old(a)@), primitive_root as int, log2(n as nat)),
{
    let ghost h: nat = log2(n as nat);
    let ghost root: int = primitive_root as int;

    apply_bit_reverse(a, n);
    let ghost reordered: Seq<int> = vals(a@);

    proof {
        lemma_pow2_pos(h);
    }
    let expnt = (MODULUS - 1) / (n as u64);
    let mut base = power_mod(primitive_root, expnt, MODULUS);
    let ghost wn: int = base as int;
    let mut m: usize = n / 2;
    let ghost mut em: nat = if h > 0 {
        (h - 1) as nat
    } else {
        0
    };
    proof {
        vstd::arithmetic::power2::lemma2_to64();
        assert((n as u64) as nat == pow2(h));
        assert(expnt as nat == ((MODULUS - 1) as nat) / pow2(h));
        assert(wn == pow(root, ((MODULUS - 1) as nat / pow2(h)) as nat) % (MODULUS as int));
        if h > 0 {
            vstd::arithmetic::power2::lemma_pow2_unfold(h);
            assert(m as nat == pow2(em));
        } else {
            assert(n == 1 && m == 0);
        }
        assert((pow2(h) / 2) as nat == m as nat);
    }
    while m >= 1
        invariant
            a@.len() == n,
            n as nat == pow2(h),
            n <= 0x80_0000,
            reordered.len() == n,
            root == primitive_root as int,
            base < MODULUS,
            2 * m <= n,
            m == 0 || (m as nat == pow2(em) && em + 1 <= h),
            all_reduced(a@),
            gs_stages(reordered, wn, (pow2(h) / 2) as nat) == gs_stages(
                vals(a@),
                base as int,
                m as nat,
            ),
        decreases m,
    {
        let ghost astart: Seq<int> = vals(a@);
        let m2 = 2 * m;
        proof {
            // the window width divides n
            vstd::arithmetic::power2::lemma_pow2_unfold((em + 1) as nat);
            assert(m2 as nat == pow2((em + 1) as nat));
            assert(em + 1 <= h);
            lemma_pow2_adds((em + 1) as nat, (h - em - 1) as nat);
            lemma_pow2_pos((h - em - 1) as nat);
            assert(n as int == pow2((h - em - 1) as nat) as int * (m2 as int) + 0)
                by (nonlinear_arith)
                requires
                    n as nat == pow2(h),
                    pow2(h) == pow2((em + 1) as nat) * pow2((h - em - 1) as nat),
                    m2 as nat == pow2((em + 1) as nat),
            ;
            lemma_fundamental_div_mod_converse(
                n as int,
                m2 as int,
                pow2((h - em - 1) as nat) as int,
                0,
            );
            assert(n as int == (m2 as int) * ((n as int) / (m2 as int)));
        }
        let mut k: usize = 0;
        while k < n
            invariant
                a@.len() == n,
                astart.len() == n,
                forall|p: int| 0 <= p < n ==> 0 <= #[trigger] astart[p] < MODULUS,
                1 <= m,
                m2 == 2 * m,
                m2 <= n,
                n as int == (m2 as int) * ((n as int) / (m2 as int)),
                base < MODULUS,
                k <= n,
                k % m2 == 0,
                all_reduced(a@),
                forall|p: int|
                    0 <= p < n ==> (#[trigger] a@[p]) as int == (if gs_done(
                        p,
                        m2 as int,
                        k as int,
                        k as int,
                    ) {
                        gs_butterfly(astart, m as nat, base as int, p)
                    } else {
                        astart[p]
                    }),
            decreases n - k,
        {
            proof {
                lemma_fundamental_div_mod(k as int, m2 as int);
                assert(k as int == (m2 as int) * ((k as int) / (m2 as int)));
                assert(k + m2 <= n) by (nonlinear_arith)
                    requires
                        k as int == (m2 as int) * ((k as int) / (m2 as int)),
                        n as int == (m2 as int) * ((n as int) / (m2 as int)),
                        (k as int) < (n as int),
                        (m2 as int) >= 2,
                ;
                vstd::arithmetic::mul::lemma_mul_is_commutative(
                    m2 as int,
                    (k as int) / (m2 as int),
                );
                lemma_pow0(base as int);
            }
            let mut s: usize = k;
            let mut w: u64 = 1;
            while s < k + m
                invariant
                    a@.len() == n,
                    astart.len() == n,
                    forall|p: int| 0 <= p < n ==> 0 <= #[trigger] astart[p] < MODULUS,
                    1 <= m,
                    m2 == 2 * m,
                    k + m2 <= n,
                    k as int == ((k as int) / (m2 as int)) * (m2 as int),
                    base < MODULUS,
                    k <= s <= k + m,
                    w as int == pow(base as int, (s - k) as nat) % (MODULUS as int),
                    all_reduced(a@),
                    forall|p: int|
                        0 <= p < n ==> (#[trigger] a@[p]) as int == (if gs_done(
                            p,
                            m2 as int,
                            k as int,
                            s as int,
                        ) {
                            gs_butterfly(astart, m as nat, base as int, p)
                        } else {
                            astart[p]
                        }),
                decreases k + m - s,
            {
                proof {
                    // the pair positions s and s + m lie in window k
                    lemma_fundamental_div_mod_converse(
                        s as int,
                        m2 as int,
                        (k as int) / (m2 as int),
                        (s - k) as int,
                    );
                    lemma_fundamental_div_mod_converse(
                        (s + m) as int,
                        m2 as int,
                        (k as int) / (m2 as int),
                        (s - k + m) as int,
                    );
                }
                let u = a[s];
                let d = a[s + m];
                let diff = (u + MODULUS - d) % MODULUS;
                proof {
                    crate::modarith::lemma_mul_mod_bound(w as int, diff as int, MODULUS as int);
                    lemma_mul_mod_noop_left(
                        pow(base as int, (s - k) as nat),
                        diff as int,
                        MODULUS as int,
                    );
                }
                a.set(s, (u + d) % MODULUS);
                a.set(s + m, w * diff % MODULUS);
                proof {
                    let m2i = m2 as int;
                    let si = s as int;
                    assert((a@[si]) as int == gs_butterfly(astart, m as nat, base as int, si));
                    assert((a@[si + m]) as int == gs_butterfly(
                        astart,
                        m as nat,
                        base as int,
                        si + m,
                    ));
                    assert forall|p: int|
                        0 <= p < n && !gs_done(p, m2i, k as int, si) && gs_done(
                            p,
                            m2i,
                            k as int,
                            si + 1,
                        ) implies p == si || p == si + m by {
                        lemma_fundamental_div_mod(p, m2i);
                        vstd::arithmetic::mul::lemma_mul_is_commutative(m2i, p / m2i);
                    }
                    lemma_pow_adds(base as int, (s - k) as nat, 1);
                    lemma_pow1(base as int);
                    lemma_mul_mod_noop_left(
                        pow(base as int, (s - k) as nat),
                        base as int,
                        MODULUS as int,
                    );
                    crate::modarith::lemma_mul_mod_bound(w as int, base as int, MODULUS as int);
                }
                w = w * base % MODULUS;
                s += 1;
            }
            proof {
                let m2i = m2 as int;
                let ki = k as int;
                lemma_fundamental_div_mod(ki, m2i);
                assert(ki + m2i == (ki / m2i + 1) * m2i + 0) by (nonlinear_arith)
                    requires
                        ki == m2i * (ki / m2i),
                ;
                lemma_fundamental_div_mod_converse(ki + m2i, m2i, ki / m2i + 1, 0);
                assert forall|p: int|
                    0 <= p < n implies gs_done(p, m2i, ki, s as int) == gs_done(
                    p,
                    m2i,
                    ki + m2i,
                    ki + m2i,
                ) by {
                    lemma_fundamental_div_mod(p, m2i);
                }
            }
            k += m2;
        }
        proof {
            // the stage is complete: every window start is below k == n
            let m2i = m2 as int;
            assert forall|p: int| 0 <= p < n implies gs_done(p, m2i, k as int, k as int) by {
                lemma_fundamental_div_mod(p, m2i);
                lemma_fundamental_div_mod(k as int, m2i);
                if p / m2i >= (k as int) / m2i {
                    assert(p >= m2i * (p / m2i));
                    assert(m2i * (p / m2i) >= m2i * ((k as int) / m2i)) by (nonlinear_arith)
                        requires
                            p / m2i >= (k as int) / m2i,
                            m2i >= 2,
                    ;
                    assert(p >= k as int);
                }
            }
            assert(vals(a@) =~= gs_stage(astart, m as nat, base as int));
            assert(gs_stages(astart, base as int, m as nat) == gs_stages(
                gs_stage(astart, m as nat, base as int),
                ((base as int) * (base as int)) % (MODULUS as int),
                (m / 2) as nat,
            ));
            crate::modarith::lemma_mul_mod_bound(base as int, base as int, MODULUS as int);
            if m >= 2 {
                vstd::arithmetic::power2::lemma2_to64();
                assert(em >= 1);
                vstd::arithmetic::power2::lemma_pow2_unfold(em);
                assert((m / 2) as nat == pow2((em - 1) as nat));
            }
        }
        base = base * base % MODULUS;
        m = m / 2;
        proof {
            if em > 0 {
                em = (em - 1) as nat;
            }
        }
    }
    proof {
        assert(gs_stages(vals(a@), base as int, 0) == vals(a@));
    }
}

/// The two forward-transform strategies.  Both reorder the input by
/// the bit-reversal permutation first; their butterfly networks then
/// walk the stages in opposite orders and do not produce the same
/// element ordering, so the consumer of a transformed sequence must
/// pair it with the matching convention.
#[derive(Clone, Copy, PartialEq, Eq, Structural, Debug)]
pub enum ForwardVariant {
    DecimationInTime,
    DecimationInFrequency,
}

/// The forward transform with the strategy chosen by `variant`, in
/// place, under the same preconditions as `ntt`.
pub fn forward_transform(a: &mut Vec<u64>, n: usize, primitive_root: u64, variant: ForwardVariant)
    requires
        old(a)@.len() == n,
        is_power_of_two(n as nat),
        n <= 0x80_0000,
        all_reduced(old(a)@),
    ensures
        final(a)@.len() == n,
        all_reduced(final(a)@),
        variant == ForwardVariant::DecimationInTime ==> vals(final(a)@) == ntt_spec(
            vals(old(a)@),
            primitive_root as int,
            log2(n as nat),
        ),
        variant == ForwardVariant::DecimationInFrequency ==> vals(final(a)@) == ntt_dif_spec(
            vals(old(a)@),
            primitive_root as int,
            log2(n as nat),
        ),
{
    match variant {
        ForwardVariant::DecimationInTime => ntt(a, n, primitive_root),
        ForwardVariant::DecimationInFrequency => ntt_dif(a, n, primitive_root),
    }
}

/// The first `i` terms of coefficient `k` of the schoolbook product:
/// the sum of `a[j] * b[k - j]` over `j < i`, reduced modulo `MODULUS`
/// after each term, with out-of-range indices contributing nothing.
pub open spec fn schoolbook_sum(a: Seq<int>, b: Seq<int>, k: int, i: nat) -> int
    decreases i,
{
    if i == 0 {
        0
    } else {
        (schoolbook_sum(a, b, k, (i - 1) as nat) + (if 0 <= k - (i - 1) < b.len() {
            a[i - 1] * b[k - (i - 1)]
        } else {
            0
        })) % (MODULUS as int)
    }
}

/// The schoolbook product of two coefficient sequences of equal
/// length, truncated to that length: coefficient `k` is the sum of all
/// `a[j] * b[k - j]`, reduced modulo `MODULUS`.
pub open spec fn schoolbook(a: Seq<int>, b: Seq<int>) -> Seq<int> {
    Seq::new(a.len(), |k: int| schoolbook_sum(a, b, k, a.len()))
}

/// Convolution through the transform agrees with the schoolbook
/// product at length one, for every root: a transform of one element
/// is the identity, so the driver returns the reduced product of the
/// two single coefficients, which is the whole schoolbook product.
pub proof fn lemma_convolution_singleton(a: Seq<int>, b: Seq<int>, root: int)
    requires
        a.len() == 1,
        b.len() == 1,
        0 <= a[0] < MODULUS,
        0 <= b[0] < MODULUS,
    ensures
        convolution_spec(a, b, root, 0) == schoolbook(a, b),
{
    let mi = MODULUS as int;
    vstd::arithmetic::power2::lemma2_to64();
    assert(bit_reverse_seq(a, 0) =~= a) by {
        crate::bitrev::lemma_rev_bits_zero(0);
    }
    assert(bit_reverse_seq(b, 0) =~= b) by {
        crate::bitrev::lemma_rev_bits_zero(0);
    }
    assert(ntt_spec(a, root, 0) == a);
    assert(ntt_spec(b, root, 0) == b);
    let prod = pointwise_mul(a, b);
    assert(prod[0] == (a[0] * b[0]) % mi);
    assert(bit_reverse_seq(prod, 0) =~= prod) by {
        crate::bitrev::lemma_rev_bits_zero(0);
    }
    assert(ntt_spec(prod, inv_mod(root), 0) == prod);
    lemma1_pow((MODULUS - 2) as nat);
    assert(inv_mod(1) == 1int % mi);
    assert((a[0] * b[0]) % mi * 1 == (a[0] * b[0]) % mi);
    vstd::arithmetic::div_mod::lemma_mod_bound(a[0] * b[0], mi);
    lemma_small_mod(((a[0] * b[0]) % mi) as nat, MODULUS as nat);
    assert(scale_seq(prod, 1) =~= prod);
    assert(schoolbook_sum(a, b, 0, 0) == 0);
    assert(schoolbook(a, b)[0] == (0 + a[0] * b[0]) % mi);
    assert(convolution_spec(a, b, root, 0) =~= schoolbook(a, b));
}

/// Round trip at length one: a transform of a single element is the
/// identity, and the inverse scales by the inverse of one, so the
/// element comes back unchanged.
pub proof fn lemma_round_trip_singleton(a: Seq<int>, root: int)
    requires
        a.len() == 1,
        0 <= a[0] < MODULUS,
    ensures
        intt_spec(ntt_spec(a, root, 0), root, 0) == a,
{
    vstd::arithmetic::power2::lemma2_to64();
    assert(bit_reverse_seq(a, 0) =~= a) by {
        crate::bitrev::lemma_rev_bits_zero(0);
    }
    let fwd = ntt_spec(a, root, 0);
    assert(fwd == a);
    let back = ntt_spec(fwd, inv_mod(root), 0);
    assert(bit_reverse_seq(fwd, 0) =~= fwd) by {
        crate::bitrev::lemma_rev_bits_zero(0);
    }
    assert(back == fwd);
    lemma1_pow((MODULUS - 2) as nat);
    assert(inv_mod(1) == 1int % (MODULUS as int));
    assert(inv_mod(1) == 1);
    lemma_small_mod(a[0] as nat, MODULUS as nat);
    assert(scale_seq(back, 1) =~= a);
}

/// Convolution through the transform agrees with the schoolbook
/// product at length two, for every root, whenever the true product
/// fits in two coefficients — the transform computes the cyclic
/// convolution, which wraps the top coefficient `a1 * b1` around to
/// position zero, so that coefficient must vanish.
pub proof fn lemma_convolution_pair(a: Seq<int>, b: Seq<int>, root: int)
    requires
        a.len() == 2,
        b.len() == 2,
        0 <= a[0] < MODULUS,
        0 <= a[1] < MODULUS,
        0 <= b[0] < MODULUS,
        0 <= b[1] < MODULUS,
        a[1] * b[1] == 0,
    ensures
        convolution_spec(a, b, root, 1) == schoolbook(a, b),
{
    let mi = MODULUS as int;
    let a0 = a[0];
    let a1 = a[1];
    let b0 = b[0];
    let b1 = b[1];
    vstd::arithmetic::power2::lemma2_to64();
    lemma_pair_stage(a, root);
    lemma_pair_stage(b, root);
    let fa = ntt_spec(a, root, 1);
    let fb = ntt_spec(b, root, 1);
    let u = a0 + a1;
    let v = a0 + mi - a1;
    let s = b0 + b1;
    let t = b0 + mi - b1;
    let prod = pointwise_mul(fa, fb);
    assert(prod[0] == ((u % mi) * (s % mi)) % mi);
    assert(prod[1] == ((v % mi) * (t % mi)) % mi);
    vstd::arithmetic::div_mod::lemma_mul_mod_noop(u, s, mi);
    vstd::arithmetic::div_mod::lemma_mul_mod_noop(v, t, mi);
    assert(prod[0] == (u * s) % mi);
    assert(prod[1] == (v * t) % mi);
    vstd::arithmetic::div_mod::lemma_mod_bound(u * s, mi);
    vstd::arithmetic::div_mod::lemma_mod_bound(v * t, mi);
    // the inverse butterfly doubles the two product sums
    lemma_pair_stage(prod, inv_mod(root));
    let back = ntt_spec(prod, inv_mod(root), 1);
    assert(back[0] == (prod[0] + prod[1]) % mi);
    assert(back[1] == (prod[0] + mi - prod[1]) % mi);
    vstd::arithmetic::div_mod::lemma_add_mod_noop(u * s, v * t, mi);
    assert(back[0] == (u * s + v * t) % mi);
    assert(u * s + v * t == mi * (a0 - a1 + b0 - b1 + mi) + 2 * (a0 * b0 + a1 * b1))
        by (nonlinear_arith)
        requires
            u == a0 + a1 && v == a0 + mi - a1 && s == b0 + b1 && t == b0 + mi - b1,
    ;
    vstd::arithmetic::div_mod::lemma_mod_multiples_vanish(
        a0 - a1 + b0 - b1 + mi,
        2 * (a0 * b0 + a1 * b1),
        mi,
    );
    assert(back[0] == (2 * (a0 * b0 + a1 * b1)) % mi);
    vstd::arithmetic::div_mod::lemma_sub_mod_noop(u * s, v * t, mi);
    vstd::arithmetic::div_mod::lemma_mod_add_multiples_vanish((u * s) % mi - (v * t) % mi, mi);
    assert(back[1] == (u * s - v * t) % mi);
    assert(u * s - v * t == mi * (a1 - a0 + b1 - b0 - mi) + 2 * (a0 * b1 + a1 * b0))
        by (nonlinear_arith)
        requires
            u == a0 + a1 && v == a0 + mi - a1 && s == b0 + b1 && t == b0 + mi - b1,
    ;
    vstd::arithmetic::div_mod::lemma_mod_multiples_vanish(
        a1 - a0 + b1 - b0 - mi,
        2 * (a0 * b1 + a1 * b0),
        mi,
    );
    assert(back[1] == (2 * (a0 * b1 + a1 * b0)) % mi);
    // the final scale by the inverse of two halves them
    let c = inv_mod(2);
    crate::modarith::lemma_pow_mod_sq(2, (MODULUS - 2) as nat, mi);
    lemma_two_times_its_inverse();
    lemma_mul_mod_noop_right(2, pow(2, (MODULUS - 2) as nat), mi);
    assert((2 * c) % mi == 1);
    vstd::arithmetic::div_mod::lemma_mod_bound(2 * c, mi);
    assert(0 <= a0 * b0 + a1 * b1 && 0 <= a0 * b1 + a1 * b0) by (nonlinear_arith)
        requires
            0 <= a0 && 0 <= a1 && 0 <= b0 && 0 <= b1,
    ;
    let w0 = (a0 * b0 + a1 * b1) % mi;
    let w1 = (a0 * b1 + a1 * b0) % mi;
    vstd::arithmetic::div_mod::lemma_mod_bound(a0 * b0 + a1 * b1, mi);
    vstd::arithmetic::div_mod::lemma_mod_bound(a0 * b1 + a1 * b0, mi);
    lemma_mul_mod_noop_right(2, a0 * b0 + a1 * b1, mi);
    lemma_mul_mod_noop_right(2, a0 * b1 + a1 * b0, mi);
    assert(back[0] == (2 * w0) % mi);
    assert(back[1] == (2 * w1) % mi);
    lemma_pair_unscale(w0, c);
    lemma_pair_unscale(w1, c);
    let res = scale_seq(back, inv_mod(pow2(1) as int));
    assert(res[0] == w0 && res[1] == w1);
    // the schoolbook coefficients are the same sums
    assert(schoolbook_sum(a, b, 0, 0) == 0);
    assert(schoolbook_sum(a, b, 0, 1) == (0 + a0 * b0) % mi);
    assert(schoolbook_sum(a, b, 0, 2) == ((a0 * b0) % mi + 0) % mi);
    vstd::arithmetic::div_mod::lemma_mod_bound(a0 * b0, mi);
    lemma_small_mod(((a0 * b0) % mi) as nat, MODULUS as nat);
    assert(schoolbook(a, b)[0] == (a0 * b0) % mi);
    assert(w0 == (a0 * b0) % mi);
    assert(schoolbook_sum(a, b, 1, 0) == 0);
    assert(schoolbook_sum(a, b, 1, 1) == (0 + a0 * b1) % mi);
    assert(schoolbook_sum(a, b, 1, 2) == ((a0 * b1) % mi + a1 * b0) % mi);
    vstd::arithmetic::div_mod::lemma_add_mod_noop_right(a1 * b0, a0 * b1, mi);
    assert(((a0 * b1) % mi + a1 * b0) % mi == (a0 * b1 + a1 * b0) % mi);
    assert(schoolbook(a, b)[1] == w1);
    assert(convolution_spec(a, b, root, 1) =~= schoolbook(a, b));
}

/// Round trip at length two, for every root: at that length the
/// butterfly multiplies only by the zeroth power of the twiddle base,
/// so the forward transform sends `[a0, a1]` to `[a0 + a1, a0 - a1]`
/// modulo `MODULUS`, the inverse pass doubles each element, and the
/// final scale by the inverse of two restores the input.
pub proof fn lemma_round_trip_pair(a: Seq<int>, root: int)
    requires
        a.len() == 2,
        0 <= a[0] < MODULUS,
        0 <= a[1] < MODULUS,
    ensures
        intt_spec(ntt_spec(a, root, 1), root, 1) == a,
{
    let mi = MODULUS as int;
    vstd::arithmetic::power2::lemma2_to64();
    lemma_pair_stage(a, root);
    let s1 = butterfly_stage(a, 2, stage_base(root, 1));
    let fwd = ntt_spec(a, root, 1);
    assert(fwd == s1);
    let x = a[0] + a[1];
    let y = a[0] + mi - a[1];
    assert(fwd[0] == x % mi && fwd[1] == y % mi);
    assert(0 <= fwd[0] < mi && 0 <= fwd[1] < mi);
    lemma_pair_stage(fwd, inv_mod(root));
    let back = ntt_spec(fwd, inv_mod(root), 1);
    assert(back[0] == (fwd[0] + fwd[1]) % mi);
    assert(back[1] == (fwd[0] + mi - fwd[1]) % mi);
    // the two butterflies double each element
    vstd::arithmetic::div_mod::lemma_add_mod_noop(x, y, mi);
    vstd::arithmetic::div_mod::lemma_mod_add_multiples_vanish(2 * a[0], mi);
    assert(x + y == mi + 2 * a[0]);
    assert(back[0] == (2 * a[0]) % mi);
    vstd::arithmetic::div_mod::lemma_sub_mod_noop(x, y, mi);
    vstd::arithmetic::div_mod::lemma_mod_add_multiples_vanish(x % mi - y % mi, mi);
    assert((fwd[0] + mi - fwd[1]) % mi == (x % mi - y % mi) % mi);
    assert((x % mi - y % mi) % mi == (x - y) % mi);
    vstd::arithmetic::div_mod::lemma_mod_sub_multiples_vanish(2 * a[1], mi);
    assert(x - y == 2 * a[1] - mi);
    assert(back[1] == (2 * a[1]) % mi);
    // two times its inverse is one in the field
    let c = inv_mod(2);
    crate::modarith::lemma_pow_mod_sq(2, (MODULUS - 2) as nat, mi);
    lemma_two_times_its_inverse();
    lemma_mul_mod_noop_right(2, pow(2, (MODULUS - 2) as nat), mi);
    assert((2 * c) % mi == 1);
    // scaling by the inverse of two undoes the doubling
    assert(intt_spec(fwd, root, 1) == scale_seq(back, c));
    lemma_pair_unscale(a[0], c);
    lemma_pair_unscale(a[1], c);
    assert(scale_seq(back, c) =~= a);
}

/// Two times two-to-the-power `MODULUS - 2` is one modulo `MODULUS`:
/// that power is the inverse of two in the field.  Settled by writing
/// out the evaluation of the squaring form, one definitional step per
/// assertion, down to the exponent zero.
#[verifier::rlimit(100)]
proof fn lemma_two_times_its_inverse()
    ensures
        (2 * crate::modarith::pow_mod_sq(2, (MODULUS - 2) as nat, MODULUS as int)) % (
        MODULUS as int) == 1,
{
    let m = MODULUS as int;
    assert(crate::modarith::pow_mod_sq(539618490, 0, m) == 1);
    assert(crate::modarith::pow_mod_sq(539618490, 1, m) == 539618490);
    assert(crate::modarith::pow_mod_sq(346033774, 2, m) == 539618490);
    assert(crate::modarith::pow_mod_sq(346033774, 3, m) == 504342988);
    assert(crate::modarith::pow_mod_sq(917380677, 6, m) == 504342988);
    assert(crate::modarith::pow_mod_sq(917380677, 7, m) == 497444627);
    assert(crate::modarith::pow_mod_sq(598597635, 14, m) == 497444627);
    assert(crate::modarith::pow_mod_sq(678702777, 28, m) == 497444627);
    assert(crate::modarith::pow_mod_sq(678702777, 29, m) == 574174895);
    assert(crate::modarith::pow_mod_sq(640755667, 58, m) == 574174895);
    assert(crate::modarith::pow_mod_sq(640755667, 59, m) == 553914267);
    assert(crate::modarith::pow_mod_sq(255016623, 118, m) == 553914267);
    assert(crate::modarith::pow_mod_sq(820873187, 236, m) == 553914267);
    assert(crate::modarith::pow_mod_sq(820873187, 237, m) == 690834867);
    assert(crate::modarith::pow_mod_sq(849665201, 474, m) == 690834867);
    assert(crate::modarith::pow_mod_sq(849665201, 475, m) == 322451462);
    assert(crate::modarith::pow_mod_sq(722462153, 950, m) == 322451462);
    assert(crate::modarith::pow_mod_sq(722462153, 951, m) == 515010116);
    assert(crate::modarith::pow_mod_sq(408611293, 1902, m) == 515010116);
    assert(crate::modarith::pow_mod_sq(408611293, 1903, m) == 691823573);
    assert(crate::modarith::pow_mod_sq(24717300, 3806, m) == 691823573);
    assert(crate::modarith::pow_mod_sq(24717300, 3807, m) == 183252895);
    assert(crate::modarith::pow_mod_sq(918327899, 7614, m) == 183252895);
    assert(crate::modarith::pow_mod_sq(918327899, 7615, m) == 912791357);
    assert(crate::modarith::pow_mod_sq(683753077, 15230, m) == 912791357);
    assert(crate::modarith::pow_mod_sq(683753077, 15231, m) == 376194338);
    assert(crate::modarith::pow_mod_sq(167578608, 30462, m) == 376194338);
    assert(crate::modarith::pow_mod_sq(167578608, 30463, m) == 869245563);
    assert(crate::modarith::pow_mod_sq(679814667, 60926, m) == 869245563);
    assert(crate::modarith::pow_mod_sq(679814667, 60927, m) == 816353629);
    assert(crate::modarith::pow_mod_sq(830057642, 121854, m) == 816353629);
    assert(crate::modarith::pow_mod_sq(830057642, 121855, m) == 144320799);
    assert(crate::modarith::pow_mod_sq(954185916, 243710, m) == 144320799);
    assert(crate::modarith::pow_mod_sq(954185916, 243711, m) == 168592233);
    assert(crate::modarith::pow_mod_sq(819041188, 487422, m) == 168592233);
    assert(crate::modarith::pow_mod_sq(819041188, 487423, m) == 896780049);
    assert(crate::modarith::pow_mod_sq(595200811, 974846, m) == 896780049);
    assert(crate::modarith::pow_mod_sq(595200811, 974847, m) == 104546153);
    assert(crate::modarith::pow_mod_sq(60241440, 1949694, m) == 104546153);
    assert(crate::modarith::pow_mod_sq(60241440, 1949695, m) == 332844609);
    assert(crate::modarith::pow_mod_sq(169907034, 3899390, m) == 332844609);
    assert(crate::modarith::pow_mod_sq(169907034, 3899391, m) == 389244053);
    assert(crate::modarith::pow_mod_sq(299560064, 7798782, m) == 389244053);
    assert(crate::modarith::pow_mod_sq(299560064, 7798783, m) == 366432507);
    assert(crate::modarith::pow_mod_sq(932051910, 15597566, m) == 366432507);
    assert(crate::modarith::pow_mod_sq(932051910, 15597567, m) == 944319265);
    assert(crate::modarith::pow_mod_sq(301989884, 31195134, m) == 944319265);
    assert(crate::modarith::pow_mod_sq(301989884, 31195135, m) == 232013824);
    assert(crate::modarith::pow_mod_sq(65536, 62390270, m) == 232013824);
    assert(crate::modarith::pow_mod_sq(65536, 62390271, m) == 998229121);
    assert(crate::modarith::pow_mod_sq(256, 124780542, m) == 998229121);
    assert(crate::modarith::pow_mod_sq(256, 124780543, m) == 994344961);
    assert(crate::modarith::pow_mod_sq(16, 249561086, m) == 994344961);
    assert(crate::modarith::pow_mod_sq(16, 249561087, m) == 935854081);
    assert(crate::modarith::pow_mod_sq(4, 499122174, m) == 935854081);
    assert(crate::modarith::pow_mod_sq(4, 499122175, m) == 748683265);
    assert(crate::modarith::pow_mod_sq(2, 998244350, m) == 748683265);
    assert(crate::modarith::pow_mod_sq(2, 998244351, m) == 499122177);
    assert((2 * 499122177int) % m == 1);
}

/// At window width two the butterfly stage is `[a0 + a1, a0 - a1]`
/// modulo `MODULUS`, whatever the twiddle base.
proof fn lemma_pair_stage(a: Seq<int>, root: int)
    requires
        a.len() == 2,
        0 <= a[0] < MODULUS,
        0 <= a[1] < MODULUS,
    ensures
        ntt_spec(a, root, 1) == butterfly_stage(a, 2, stage_base(root, 1)),
        ntt_spec(a, root, 1)[0] == (a[0] + a[1]) % (MODULUS as int),
        ntt_spec(a, root, 1)[1] == (a[0] + (MODULUS as int) - a[1]) % (MODULUS as int),
{
    let mi = MODULUS as int;
    vstd::arithmetic::power2::lemma2_to64();
    assert(bit_reverse_seq(a, 1) =~= a) by {
        crate::bitrev::lemma_rev_bits_zero(1);
        crate::bitrev::lemma_rev_bits_zero(0);
        assert(rev_bits(1, 1) == (1nat % 2) * pow2(0) + rev_bits(0, 0));
        assert(rev_bits(1, 0) == 0 && rev_bits(1, 1) == 1);
    }
    let b1 = stage_base(root, 1);
    let s1 = butterfly_stage(a, 2, b1);
    assert(ntt_stages(a, root, 1, 1) == ntt_stages(s1, root, 2, 1));
    assert(ntt_stages(s1, root, 2, 1) == s1);
    lemma_pow0(b1);
    lemma_small_mod(a[1] as nat, MODULUS as nat);
    assert(a[1] * pow(b1, 0) == a[1]) by (nonlinear_arith)
        requires
            pow(b1, 0) == 1,
    ;
    assert(s1[0] == (a[0] + (a[1] * pow(b1, 0)) % mi) % mi);
    assert(s1[0] == (a[0] + a[1]) % mi);
    assert(s1[1] == (a[0] + mi - (a[1] * pow(b1, 0)) % mi) % mi);
    assert(s1[1] == (a[0] + mi - a[1]) % mi);
}

/// Doubling a reduced element and then multiplying by the inverse of
/// two gives the element back.
proof fn lemma_pair_unscale(v: int, c: int)
    requires
        0 <= v < MODULUS,
        0 <= c < MODULUS,
        (2 * c) % (MODULUS as int) == 1,
    ensures
        (((2 * v) % (MODULUS as int)) * c) % (MODULUS as int) == v,
{
    let mi = MODULUS as int;
    lemma_mul_mod_noop_left(2 * v, c, mi);
    assert((2 * v) * c == v * (2 * c)) by (nonlinear_arith);
    lemma_mul_mod_noop_right(v, 2 * c, mi);
    assert((v * ((2 * c) % mi)) % mi == (v * (2 * c)) % mi);
    assert(v * 1 == v) by (nonlinear_arith);
    lemma_small_mod(v as nat, MODULUS as nat);
}

} // verus!
