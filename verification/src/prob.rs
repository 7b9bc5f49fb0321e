use vstd::prelude::*;
use vstd::arithmetic::div_mod::{
    lemma_div_is_ordered, lemma_div_is_ordered_by_denominator, lemma_div_multiples_vanish,
};
use vstd::arithmetic::mul::lemma_mul_inequality;

verus! {

/// Fixed-point scale: probabilities and transformed ratings are held
/// in units of 1/SCALE.
pub const SCALE: u64 = 1048576;

/// SCALE times the 400th root of 10, rounded to the nearest integer:
/// one rating point multiplies the transformed rating by this factor
/// over SCALE.
pub const BASE: u64 = 1054629;

/// Transformed ratings saturate here; far beyond the point where the
/// win probability has already clamped to its floor.
pub const CAP: u64 = 8796093022208;

/// One million (the probability unit) times SCALE.
pub const NUMER: u64 = 1048576000000;

/// Rating gaps beyond this are clamped: the probability is already at
/// its 1-per-million floor.
pub const MAX_GAP: u64 = 2400;

/// The transformed rating 10^(d/400), in units of 1/SCALE, computed
/// by repeated multiplication with floor rounding and saturation.
pub open spec fn spec_pow_t(d: nat) -> nat
    decreases d,
{
    if d == 0 {
        SCALE as nat
    } else {
        let next = spec_pow_t((d - 1) as nat) * (BASE as nat) / (SCALE as nat);
        if next > CAP {
            CAP as nat
        } else {
            next
        }
    }
}

/// The transformed rating always stays between SCALE and CAP.
pub proof fn lemma_pow_t_bounds(d: nat)
    ensures
        SCALE <= spec_pow_t(d) <= CAP,
    decreases d,
{
    if d > 0 {
        lemma_pow_t_bounds((d - 1) as nat);
        let prev = spec_pow_t((d - 1) as nat) as int;
        lemma_mul_inequality(SCALE as int, prev, SCALE as int);
        assert(prev * SCALE <= prev * BASE) by {
            lemma_mul_inequality(SCALE as int, BASE as int, prev);
            assert(SCALE * prev == prev * SCALE) by (nonlinear_arith);
            assert(BASE * prev == prev * BASE) by (nonlinear_arith);
        }
        lemma_div_is_ordered(SCALE * SCALE, prev * BASE, SCALE as int);
        assert(SCALE * SCALE / (SCALE as int) == SCALE) by (nonlinear_arith);
    }
}

/// A longer gap never shrinks the transformed rating.
pub proof fn lemma_pow_t_step(d: nat)
    ensures
        spec_pow_t(d) <= spec_pow_t(d + 1),
{
    lemma_pow_t_bounds(d);
    let prev = spec_pow_t(d) as int;
    assert(prev * SCALE <= prev * BASE) by {
        lemma_mul_inequality(SCALE as int, BASE as int, prev);
        assert(SCALE * prev == prev * SCALE) by (nonlinear_arith);
        assert(BASE * prev == prev * BASE) by (nonlinear_arith);
    }
    lemma_div_is_ordered(prev * SCALE, prev * BASE, SCALE as int);
    assert(prev * SCALE / (SCALE as int) == prev) by (nonlinear_arith);
}

/// Monotonicity of the transformed rating in the gap.
pub proof fn lemma_pow_t_mono(d1: nat, d2: nat)
    requires
        d1 <= d2,
    ensures
        spec_pow_t(d1) <= spec_pow_t(d2),
    decreases d2 - d1,
{
    if d1 < d2 {
        lemma_pow_t_mono(d1, (d2 - 1) as nat);
        lemma_pow_t_step((d2 - 1) as nat);
    }
}

/// Win probability, in parts per million, of the competitor whose
/// transformed rating is SCALE against one whose transformed rating
/// is `t`: NUMER / (SCALE + t), floored, clamped up to 1.
pub open spec fn spec_ppm_from_t(t: nat) -> int {
    let q = (NUMER as int) / (SCALE as int + t as int);
    if q == 0 {
        1
    } else {
        q
    }
}

/// An even split: the probability against an equally rated opponent
/// is exactly one half.
pub proof fn lemma_ppm_half()
    ensures
        spec_ppm_from_t(SCALE as nat) == 500000,
{
    lemma_div_multiples_vanish(500000, 2097152);
    assert((2097152 * 500000) / 2097152 == 500000);
    assert((NUMER as int) / (2097152 as int) == 500000);
}

/// The probability against an opponent at least as strong never
/// exceeds one half and never reaches zero.
pub proof fn lemma_ppm_from_t_bounds(t: nat)
    requires
        SCALE <= t,
    ensures
        1 <= spec_ppm_from_t(t) <= 500000,
{
    lemma_div_is_ordered_by_denominator(NUMER as int, 2 * SCALE, SCALE as int + t);
    lemma_ppm_half();
}

/// A stronger opponent (larger `t`) never raises the probability.
pub proof fn lemma_ppm_from_t_antitone(t1: nat, t2: nat)
    requires
        SCALE <= t1 <= t2,
    ensures
        spec_ppm_from_t(t2) <= spec_ppm_from_t(t1),
{
    lemma_div_is_ordered_by_denominator(NUMER as int, SCALE as int + t1, SCALE as int + t2);
}

/// The rating gap `hi - lo`, clamped to MAX_GAP, as a mathematical
/// value; zero when `hi` is not above `lo`.
pub open spec fn spec_gap(lo: int, hi: int) -> nat {
    if hi - lo >= MAX_GAP {
        MAX_GAP as nat
    } else if hi >= lo {
        (hi - lo) as nat
    } else {
        0
    }
}

/// Win probability of a competitor rated `ra` against one rated
/// `rb`, in parts per million.
pub open spec fn spec_win_prob_ppm(ra: int, rb: int) -> int {
    if rb >= ra {
        spec_ppm_from_t(spec_pow_t(spec_gap(ra, rb)))
    } else {
        1000000 - spec_ppm_from_t(spec_pow_t(spec_gap(rb, ra)))
    }
}

/// The win probability always lies strictly between 0 and 1, and is
/// exactly one half for equal ratings.
pub proof fn lemma_win_prob_bounds(ra: int, rb: int)
    ensures
        1 <= spec_win_prob_ppm(ra, rb) <= 999999,
        ra == rb ==> spec_win_prob_ppm(ra, rb) == 500000,
{
    if rb >= ra {
        lemma_pow_t_bounds(spec_gap(ra, rb));
        lemma_ppm_from_t_bounds(spec_pow_t(spec_gap(ra, rb)));
        if ra == rb {
            assert(spec_gap(ra, rb) == 0);
            assert(spec_pow_t(0) == SCALE as nat);
            assert((NUMER as int) / ((SCALE as int) + (SCALE as int)) == 500000);
        }
    } else {
        lemma_pow_t_bounds(spec_gap(rb, ra));
        lemma_ppm_from_t_bounds(spec_pow_t(spec_gap(rb, ra)));
    }
}

/// Raising a competitor's rating never lowers their win probability
/// against a fixed opponent.
pub proof fn lemma_win_prob_monotone(ra1: int, ra2: int, rb: int)
    requires
        ra1 <= ra2,
    ensures
        spec_win_prob_ppm(ra1, rb) <= spec_win_prob_ppm(ra2, rb),
{
    if rb >= ra2 {
        assert(spec_gap(ra2, rb) <= spec_gap(ra1, rb));
        lemma_pow_t_mono(spec_gap(ra2, rb), spec_gap(ra1, rb));
        lemma_pow_t_bounds(spec_gap(ra2, rb));
        lemma_ppm_from_t_antitone(spec_pow_t(spec_gap(ra2, rb)), spec_pow_t(spec_gap(ra1, rb)));
    } else if rb < ra1 {
        assert(spec_gap(rb, ra1) <= spec_gap(rb, ra2));
        lemma_pow_t_mono(spec_gap(rb, ra1), spec_gap(rb, ra2));
        lemma_pow_t_bounds(spec_gap(rb, ra1));
        lemma_ppm_from_t_antitone(spec_pow_t(spec_gap(rb, ra1)), spec_pow_t(spec_gap(rb, ra2)));
    } else {
        lemma_pow_t_bounds(spec_gap(ra1, rb));
        lemma_ppm_from_t_bounds(spec_pow_t(spec_gap(ra1, rb)));
        lemma_pow_t_bounds(spec_gap(rb, ra2));
        lemma_ppm_from_t_bounds(spec_pow_t(spec_gap(rb, ra2)));
    }
}

/// A strictly higher rating gives strictly better than even odds,
/// and strictly worse to the other side.
pub proof fn lemma_win_prob_favours(ra: int, rb: int)
    requires
        ra > rb,
    ensures
        spec_win_prob_ppm(ra, rb) > 500000,
        spec_win_prob_ppm(rb, ra) < 500000,
{
    let g = spec_gap(rb, ra);
    assert(1 <= g);
    assert(spec_pow_t(0) == SCALE);
    assert(spec_pow_t(1) == BASE) by {
        lemma_div_multiples_vanish(BASE as int, SCALE as int);
        assert(((SCALE as int) * (BASE as int)) / (SCALE as int) == BASE as int);
        assert(spec_pow_t(1) == spec_pow_t(0) * (BASE as nat) / (SCALE as nat));
    }
    lemma_pow_t_mono(1, g);
    lemma_pow_t_bounds(g);
    lemma_ppm_from_t_antitone(BASE as nat, spec_pow_t(g));
    assert(spec_ppm_from_t(BASE as nat) < 500000) by {
        let d = SCALE as int + BASE as int;
        let q = (NUMER as int) / d;
        vstd::arithmetic::div_mod::lemma_fundamental_div_mod(NUMER as int, d);
        assert(0 <= (NUMER as int) % d < d) by {
            vstd::arithmetic::div_mod::lemma_mod_bound(NUMER as int, d);
        }
        if q >= 500000 {
            assert(d * q >= d * 500000) by (nonlinear_arith)
                requires
                    q >= 500000,
                    d > 0,
            ;
            assert(d * 500000 > NUMER as int);
            assert(false);
        }
    }
    lemma_ppm_from_t_bounds(spec_pow_t(g));
}

/// The two competitors' win probabilities sum to one.
pub proof fn lemma_win_prob_complement(ra: int, rb: int)
    ensures
        spec_win_prob_ppm(ra, rb) + spec_win_prob_ppm(rb, ra) == 1000000,
{
    if ra == rb {
        lemma_ppm_half();
    }
}

/// The transformed rating for a clamped gap, computed by repeated
/// multiplication.
fn pow_t(d: u64) -> (t: u64)
    requires
        d <= MAX_GAP,
    ensures
        t as nat == spec_pow_t(d as nat),
{
    let mut t: u64 = SCALE;
    let mut i: u64 = 0;
    while i < d
        invariant
            i <= d,
            t as nat == spec_pow_t(i as nat),
            SCALE <= t <= CAP,
        decreases d - i,
    {
        proof {
            lemma_mul_inequality(t as int, CAP as int, BASE as int);
        }
        let prod = t * BASE;
        let next = prod / SCALE;
        t = if next > CAP {
            CAP
        } else {
            next
        };
        i = i + 1;
        proof {
            lemma_pow_t_bounds(i as nat);
        }
    }
    t
}

/// The gap `hi - lo` (non-negative by the precondition), clamped to
/// MAX_GAP, computed without overflow for any pair of ratings.
fn clamp_gap(lo: i64, hi: i64) -> (g: u64)
    requires
        lo <= hi,
    ensures
        g as nat == spec_gap(lo as int, hi as int),
{
    if lo >= 0 || hi < 0 {
        let diff = hi - lo;
        if diff >= 2400 {
            2400
        } else {
            diff as u64
        }
    } else {
        if hi >= 2400 {
            2400
        } else if lo <= -2400 {
            2400
        } else {
            let diff = hi - lo;
            if diff >= 2400 {
                2400
            } else {
                diff as u64
            }
        }
    }
}

/// Probability in parts per million from a transformed rating.
fn ppm_from_t(t: u64) -> (p: u64)
    requires
        SCALE <= t <= CAP,
    ensures
        p as int == spec_ppm_from_t(t as nat),
{
    let q = NUMER / (SCALE + t);
    if q == 0 {
        1
    } else {
        q
    }
}

/// The probability, in parts per million, that a competitor rated
/// `ra` beats one rated `rb` under the Elo model: the real-valued
/// probability is 10^(ra/400) / (10^(ra/400) + 10^(rb/400)), and this
/// fixed-point version is monotone in `ra`, exactly one half on equal
/// ratings, and always strictly between 0 and 1000000.
pub fn win_prob_ppm(ra: i64, rb: i64) -> (p: u64)
    ensures
        p as int == spec_win_prob_ppm(ra as int, rb as int),
        1 <= p <= 999999,
        ra == rb ==> p == 500000,
{
    proof {
        lemma_win_prob_bounds(ra as int, rb as int);
    }
    if rb >= ra {
        let g = clamp_gap(ra, rb);
        let t = pow_t(g);
        proof {
            lemma_pow_t_bounds(g as nat);
        }
        ppm_from_t(t)
    } else {
        let g = clamp_gap(rb, ra);
        let t = pow_t(g);
        proof {
            lemma_pow_t_bounds(g as nat);
            lemma_ppm_from_t_bounds(t as nat);
        }
        1000000 - ppm_from_t(t)
    }
}

} // verus!
