//! Integer arithmetic behind the activity scores: binomial coefficients and
//! the subband downsampling that turns fine-grained activity counts into
//! coarser ones.

use vstd::prelude::*;

verus! {

// ---------------------------------------------------------------------------
// Binomial coefficients
// ---------------------------------------------------------------------------

/// The binomial coefficient C(n, k), defined by Pascal's rule.
pub open spec fn binom(n: nat, k: nat) -> nat
    decreases n,
{
    if k == 0 {
        1
    } else if n == 0 {
        0
    } else {
        binom((n - 1) as nat, (k - 1) as nat) + binom((n - 1) as nat, k)
    }
}

/// C(n, r) over machine integers: zero unless `0 <= r <= n`.
pub open spec fn spec_binomial(n: int, r: int) -> int {
    if r < 0 || r > n {
        0
    } else {
        binom(n as nat, r as nat) as int
    }
}

/// The smaller of `r` and `n - r`: the number of multiplicative steps the
/// coefficient is computed in.
pub open spec fn binomial_steps(n: int, r: int) -> int {
    if r < n - r {
        r
    } else {
        n - r
    }
}

/// Every intermediate product `C(n, k) * k` of the multiplicative formula
/// fits in an `i64`.
pub open spec fn binomial_fits(n: int, r: int) -> bool {
    r < 0 || r > n || forall|k: nat|
        1 <= k <= binomial_steps(n, r) ==> #[trigger] binom(n as nat, k) * k <= i64::MAX
}

pub proof fn lemma_binom_above(n: nat, k: nat)
    requires
        k > n,
    ensures
        binom(n, k) == 0,
    decreases n,
{
    if n > 0 {
        lemma_binom_above((n - 1) as nat, (k - 1) as nat);
        lemma_binom_above((n - 1) as nat, k);
    }
}

pub proof fn lemma_binom_diagonal(n: nat)
    ensures
        binom(n, n) == 1,
    decreases n,
{
    if n > 0 {
        lemma_binom_diagonal((n - 1) as nat);
        lemma_binom_above((n - 1) as nat, n);
    }
}

/// Absorption: `k * C(n, k) == n * C(n - 1, k - 1)`.
pub proof fn lemma_binom_absorb(n: nat, k: nat)
    requires
        1 <= k,
        1 <= n,
    ensures
        k * binom(n, k) == n * binom((n - 1) as nat, (k - 1) as nat),
    decreases n,
{
    if n == 1 {
        if k > 1 {
            lemma_binom_above(1, k);
            lemma_binom_above(0, (k - 1) as nat);
            assert(k * binom(n, k) == 0) by (nonlinear_arith)
                requires
                    binom(n, k) == 0,
            ;
            assert(n * binom((n - 1) as nat, (k - 1) as nat) == 0) by (nonlinear_arith)
                requires
                    binom((n - 1) as nat, (k - 1) as nat) == 0,
            ;
        } else {
            lemma_binom_diagonal(1);
            assert(binom(0, 0) == 1);
        }
    } else {
        let a = binom((n - 1) as nat, (k - 1) as nat);
        let b = binom((n - 1) as nat, k);
        assert(binom(n, k) == a + b);
        lemma_binom_absorb((n - 1) as nat, k);
        assert(k * b == (n - 1) * binom((n - 2) as nat, (k - 1) as nat));
        if k == 1 {
            assert(binom((n - 2) as nat, 0) == 1);
            assert(a == 1);
            assert(k * binom(n, k) == n * a) by (nonlinear_arith)
                requires
                    k == 1,
                    binom(n, k) == a + b,
                    k * b == (n - 1) * 1,
                    a == 1,
            ;
        } else {
            lemma_binom_absorb((n - 1) as nat, (k - 1) as nat);
            let c = binom((n - 2) as nat, (k - 2) as nat);
            let d = binom((n - 2) as nat, (k - 1) as nat);
            assert((k - 1) * a == (n - 1) * c);
            assert(k * b == (n - 1) * d);
            assert(a == c + d);
            assert(k * binom(n, k) == n * a) by (nonlinear_arith)
                requires
                    binom(n, k) == a + b,
                    (k - 1) * a == (n - 1) * c,
                    k * b == (n - 1) * d,
                    a == c + d,
            ;
        }
    }
}

/// One step of the multiplicative formula is exact:
/// `C(n, k - 1) * (n - k + 1) == C(n, k) * k`.
pub proof fn lemma_binom_step(n: nat, k: nat)
    requires
        1 <= k <= n,
    ensures
        binom(n, (k - 1) as nat) * (n - k + 1) == binom(n, k) * k,
{
    let j = (k - 1) as nat;
    lemma_binom_absorb(n, k);
    let e = binom((n - 1) as nat, j);
    if j == 0 {
        assert(binom(n, 0) == 1);
        assert(e == 1);
        assert(binom(n, j) * (n - k + 1) == n * e) by (nonlinear_arith)
            requires
                binom(n, j) == 1,
                e == 1,
                k == 1,
        ;
    } else {
        lemma_binom_absorb(n, j);
        let f = binom((n - 1) as nat, (j - 1) as nat);
        assert(binom(n, j) == f + e);
        assert(j * binom(n, j) == n * f);
        assert(binom(n, j) * (n - k + 1) == n * e) by (nonlinear_arith)
            requires
                binom(n, j) == f + e,
                j * binom(n, j) == n * f,
                j == k - 1,
        ;
    }
    assert(k * binom(n, k) == binom(n, k) * k) by (nonlinear_arith);
}

/// Symmetry: `C(n, k) == C(n, n - k)`.
pub proof fn lemma_binom_symmetric(n: nat, k: nat)
    requires
        k <= n,
    ensures
        binom(n, k) == binom(n, (n - k) as nat),
    decreases n,
{
    if k == 0 || k == n {
        lemma_binom_diagonal(n);
    } else {
        lemma_binom_symmetric((n - 1) as nat, (k - 1) as nat);
        lemma_binom_symmetric((n - 1) as nat, k);
        assert(binom(n, (n - k) as nat) == binom((n - 1) as nat, (n - k - 1) as nat) + binom(
            (n - 1) as nat,
            (n - k) as nat,
        ));
    }
}

/// `C(n, r)`, or `None` where the multiplicative formula overflows `i64`.
pub fn checked_binomial_coefficient(n: i32, r: i32) -> (res: Option<i64>)
    ensures
        res is Some <==> binomial_fits(n as int, r as int),
        res matches Some(c) ==> c == spec_binomial(n as int, r as int),
{
    if r < 0 || r > n {
        return Some(0);
    }
    // Use the larger of r and n - r to reduce loop iterations.
    let hi: i32 = if r > n - r { r } else { n - r };
    let ghost nn: nat = n as nat;
    let ghost steps: int = binomial_steps(n as int, r as int);
    let mut t: i64 = 1;
    let mut i: i64 = n as i64;
    let mut j: i64 = 1;
    while i > hi as i64
        invariant
            0 <= r <= n,
            nn == n,
            steps == n - hi,
            steps == binomial_steps(n as int, r as int),
            1 <= j,
            j - 1 <= steps,
            i == n - (j - 1),
            t == binom(nn, (j - 1) as nat),
            forall|k: nat| 1 <= k < j ==> #[trigger] binom(nn, k) * k <= i64::MAX,
        decreases i,
    {
        proof {
            lemma_binom_step(nn, j as nat);
        }
        match t.checked_mul(i) {
            None => {
                let ghost w: nat = j as nat;
                assert(binom(nn, w) * w > i64::MAX);
                assert(((n as int) as nat) == nn);
                assert(binom((n as int) as nat, w) * w > i64::MAX);
                assert(1 <= w <= binomial_steps(n as int, r as int));
                assert(!binomial_fits(n as int, r as int));
                return None;
            },
            Some(p) => {
                assert(p == binom(nn, j as nat) * j);
                proof {
                    vstd::arithmetic::div_mod::lemma_div_multiples_vanish(
                        binom(nn, j as nat) as int,
                        j as int,
                    );
                    assert(j * binom(nn, j as nat) == binom(nn, j as nat) * j) by (nonlinear_arith);
                }
                t = p / j;
            },
        }
        i -= 1;
        j += 1;
    }
    proof {
        lemma_binom_symmetric(nn, r as nat);
        assert forall|k: nat| 1 <= k <= steps implies #[trigger] binom(nn, k) * k <= i64::MAX by {
            assert(k < j);
        }
    }
    Some(t)
}

/// Compute the binomial coefficient C(n, r); zero when `r < 0` or `r > n`.
pub fn binomial_coefficient(n: i32, r: i32) -> (c: i64)
    requires
        binomial_fits(n as int, r as int),
    ensures
        c == spec_binomial(n as int, r as int),
{
    match checked_binomial_coefficient(n, r) {
        Some(c) => c,
        None => {
            assert(false);
            0
        },
    }
}

/// The integer ingredients of the activity score of one time-scale window
/// with `n_r` subbands of which `v_l` were active.
pub struct ActivityCounts {
    /// Active subbands, `min(v_l, n_r)`.
    pub active: u32,
    /// Inactive subbands, `n_r - active`.
    pub inactive: u32,
    /// `max(C(n_r, active), 1)`.
    pub coefficient: i64,
}

/// The active-subband count clamped to the window: more active subbands
/// than the window holds count as a full window.
pub open spec fn clamped_activity(v_l: u8, n_r: u32) -> int {
    if v_l < n_r {
        v_l as int
    } else {
        n_r as int
    }
}

/// The integer ingredients of the activity score: the clamped counts of
/// active and inactive subbands and the binomial coefficient of the window.
/// `None` where the coefficient's computation overflows `i64`.
pub fn activity_counts(v_l: u8, n_r: u32) -> (res: Option<ActivityCounts>)
    requires
        n_r <= i32::MAX,
    ensures
        res is Some <==> binomial_fits(n_r as int, clamped_activity(v_l, n_r)),
        res matches Some(c) ==> {
            &&& c.active == clamped_activity(v_l, n_r)
            &&& c.inactive == n_r - c.active
            &&& c.coefficient == (if spec_binomial(n_r as int, c.active as int) < 1 {
                1
            } else {
                spec_binomial(n_r as int, c.active as int)
            })
        },
{
    let active: u32 = if (v_l as u32) < n_r {
        v_l as u32
    } else {
        n_r
    };
    match checked_binomial_coefficient(n_r as i32, active as i32) {
        None => None,
        Some(bc) => Some(
            ActivityCounts {
                active,
                inactive: n_r - active,
                coefficient: if bc < 1 {
                    1
                } else {
                    bc
                },
            },
        ),
    }
}

// ---------------------------------------------------------------------------
// Subband downsampling
// ---------------------------------------------------------------------------

/// The number of positions `l` in `lo..hi` where `s[l] > t`.
pub open spec fn count_above(s: Seq<u8>, lo: int, hi: int, t: u8) -> nat
    decreases hi - lo,
{
    if hi <= lo {
        0
    } else {
        count_above(s, lo, hi - 1, t) + (if s[hi - 1] > t {
            1nat
        } else {
            0nat
        })
    }
}

/// `littles` cut into `nb` buckets of `littles.len() / nb` consecutive samples
/// (any remainder at the end is left out); bucket `b` holds the number of its
/// samples above `t`.
pub open spec fn downsample(littles: Seq<u8>, nb: nat, t: u8) -> Seq<u8> {
    let total = littles.len();
    let per = total / nb;
    Seq::new(nb, |b: int| count_above(littles, b * per, b * per + per, t) as u8)
}

pub proof fn lemma_count_above_bound(s: Seq<u8>, lo: int, hi: int, t: u8)
    requires
        lo <= hi,
    ensures
        count_above(s, lo, hi, t) <= hi - lo,
    decreases hi - lo,
{
    if hi > lo {
        lemma_count_above_bound(s, lo, hi - 1, t);
    }
}

/// Every bucket of a downsampling counts at most its own length.
pub proof fn lemma_downsample_bounded(littles: Seq<u8>, nb: nat, t: u8, b: int)
    requires
        nb > 0,
        littles.len() / nb <= u8::MAX,
        0 <= b < nb,
    ensures
        downsample(littles, nb, t)[b] <= littles.len() / nb,
{
    let per = littles.len() / nb;
    lemma_count_above_bound(littles, b * per, b * per + per, t);
}

/// Downsampling depends on the samples alone: downsampling the same samples
/// into the result of a first downsampling gives that result back, so a
/// second `compute_bigs` over unchanged samples reports no change.
pub proof fn lemma_downsample_settles(littles: Seq<u8>, nb: nat, t: u8)
    ensures
        downsample(littles, downsample(littles, nb, t).len(), t) == downsample(littles, nb, t),
{
}

/// Downsample `littles` into `bigs` by counting, per bucket, the samples
/// that exceed `threshold`. Returns `true` if any bucket changed.
pub fn compute_bigs(littles: &[u8], bigs: &mut [u8], threshold: u8) -> (changed: bool)
    requires
        old(bigs)@.len() > 0,
        littles@.len() / old(bigs)@.len() <= u8::MAX,
    ensures
        final(bigs)@ == downsample(littles@, old(bigs)@.len(), threshold),
        changed == (final(bigs)@ != old(bigs)@),
{
    let ghost orig = bigs@;
    let ghost target = downsample(littles@, orig.len(), threshold);
    let nb = bigs.len();
    let total = littles.len();
    let per = total / nb;
    proof {
        assert(nb * per <= littles@.len()) by (nonlinear_arith)
            requires
                nb > 0,
                per as int == (littles@.len() as int) / (nb as int),
        ;
    }
    let mut changed = false;
    let mut l: usize = 0;
    let mut b: usize = 0;
    while b < nb
        invariant
            bigs@.len() == orig.len(),
            nb == orig.len(),
            nb > 0,
            per as int == (littles@.len() as int) / (nb as int),
            per <= u8::MAX,
            total == littles@.len(),
            nb * per <= littles@.len(),
            target == downsample(littles@, orig.len(), threshold),
            b <= nb,
            l == b * per,
            forall|x: int| 0 <= x < b ==> bigs@[x] == target[x],
            forall|x: int| b <= x < nb ==> bigs@[x] == orig[x],
            changed == exists|x: int| 0 <= x < b && orig[x] != bigs@[x],
        decreases nb - b,
    {
        proof {
            assert(b * per + per <= nb * per) by (nonlinear_arith)
                requires
                    b < nb,
            ;
        }
        let mut sum: u8 = 0;
        let end = l + per;
        while l < end
            invariant
                b < nb,
                b * per <= l <= end,
                end == b * per + per,
                end <= littles@.len(),
                per <= u8::MAX,
                sum == count_above(littles@, b * per, l as int, threshold),
            decreases end - l,
        {
            proof {
                lemma_count_above_bound(littles@, b * per, l as int, threshold);
            }
            if littles[l] > threshold {
                sum += 1;
            }
            l += 1;
        }
        assert(sum == target[b as int]);
        let ghost prev = bigs@;
        let ghost prev_changed = changed;
        if bigs[b] != sum {
            bigs[b] = sum;
            changed = true;
            assert(orig[b as int] != bigs@[b as int]);
        }
        proof {
            assert(forall|x: int| 0 <= x < b ==> bigs@[x] == prev[x]);
            if prev_changed {
                let w = choose|x: int| 0 <= x < b && orig[x] != prev[x];
                assert(orig[w] != bigs@[w]);
            }
            if !changed {
                assert(orig[b as int] == bigs@[b as int]);
            }
        }
        proof {
            assert(b * per + per == (b + 1) * per) by (nonlinear_arith);
        }
        b += 1;
    }
    proof {
        if !changed {
            assert(bigs@ =~= orig);
        }
        assert(bigs@ =~= target);
    }
    changed
}

} // verus!
