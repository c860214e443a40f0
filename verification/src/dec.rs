//! Exact decimal numbers: the weight type of the histogram.
//!
//! A weight is a signed decimal literal of bounded size, held exactly as a
//! mantissa and a power-of-ten scale: `man / 10^sc`. Unit and integral
//! weights always have scale 0. Keeping the value exact makes every report
//! a pure function of the input lines.

use vstd::prelude::*;
use vstd::arithmetic::mul::{lemma_mul_inequality, lemma_mul_upper_bound, lemma_mul_is_associative};

verus! {

/// Largest scale (number of fraction digits) a weight may carry.
pub const SCALE_MAX: u32 = 18;

/// Mantissa magnitude bound; a sum past this bound is an overflow error.
pub const MANT_BOUND: i128 = 10_000_000_000_000_000_000;

/// `10^e` as a mathematical integer.
pub open spec fn pow10(e: nat) -> int
    decreases e,
{
    if e == 0 {
        1
    } else {
        10 * pow10((e - 1) as nat)
    }
}

pub proof fn lemma_pow10_pos(e: nat)
    ensures
        pow10(e) >= 1,
    decreases e,
{
    if e > 0 {
        lemma_pow10_pos((e - 1) as nat);
    }
}

pub proof fn lemma_pow10_adds(a: nat, b: nat)
    ensures
        pow10(a + b) == pow10(a) * pow10(b),
    decreases a,
{
    if a == 0 {
    } else {
        lemma_pow10_adds((a - 1) as nat, b);
        assert(pow10(a + b) == 10 * pow10((a + b - 1) as nat));
        assert((a - 1) + b == a + b - 1);
        assert(pow10(a) * pow10(b) == (10 * pow10((a - 1) as nat)) * pow10(b));
        lemma_mul_is_associative(10, pow10((a - 1) as nat), pow10(b));
    }
}

pub proof fn lemma_pow10_increases(a: nat, b: nat)
    requires
        a <= b,
    ensures
        pow10(a) <= pow10(b),
{
    lemma_pow10_adds(a, (b - a) as nat);
    lemma_pow10_pos(a);
    lemma_pow10_pos((b - a) as nat);
    lemma_mul_inequality(1, pow10((b - a) as nat), pow10(a));
}

pub proof fn lemma_pow10_18()
    ensures
        pow10(18) == 1_000_000_000_000_000_000,
{
    reveal_with_fuel(pow10, 19);
}

pub proof fn lemma_pow10_37()
    ensures
        pow10(37) == 10_000_000_000_000_000_000_000_000_000_000_000_000,
{
    reveal_with_fuel(pow10, 38);
}

/// `10^e` as a machine integer.
pub fn pow10_exec(e: u32) -> (r: i128)
    requires
        e <= 37,
    ensures
        r == pow10(e as nat),
{
    let mut r: i128 = 1;
    let mut i: u32 = 0;
    while i < e
        invariant
            i <= e <= 37,
            r == pow10(i as nat),
        decreases e - i,
    {
        proof {
            lemma_pow10_37();
            lemma_pow10_pos(i as nat);
            lemma_pow10_increases((i + 1) as nat, 37);
        }
        r = r * 10;
        i = i + 1;
    }
    r
}

/// An exact decimal value `man / 10^sc`.
#[derive(Clone, Copy, PartialEq, Eq, Structural, Debug)]
pub struct Dec {
    pub man: i128,
    pub sc: u32,
}

impl Dec {
    /// Well-formed: bounded scale and mantissa.
    pub open spec fn wf(self) -> bool {
        self.sc <= SCALE_MAX && -MANT_BOUND <= self.man <= MANT_BOUND
    }

    /// The value scaled to a common denominator of `10^SCALE_MAX`:
    /// `scaled(self) / 10^SCALE_MAX` is the value of `self` as a rational.
    pub open spec fn scaled(self) -> int
        recommends
            self.wf(),
    {
        self.man * pow10((SCALE_MAX - self.sc) as nat)
    }

    /// The zero weight.
    pub fn zero() -> (r: Dec)
        ensures
            r.wf(),
            r.man == 0 && r.sc == 0,
            r.scaled() == 0,
    {
        let r = Dec { man: 0, sc: 0 };
        r
    }

    /// An integral weight.
    pub fn from_int(n: i64) -> (r: Dec)
        ensures
            r.wf(),
            r.man == n as i128 && r.sc == 0,
            r.scaled() == n * pow10(SCALE_MAX as nat),
    {
        proof {
            lemma_pow10_18();
        }
        Dec { man: n as i128, sc: 0 }
    }
}

/// A product of a signed bounded factor and a positive factor is bounded.
pub proof fn lemma_signed_mul_bound(x: int, b: int, f: int, fb: int)
    requires
        -b <= x <= b,
        0 <= b,
        1 <= f <= fb,
    ensures
        -(b * fb) <= x * f <= b * fb,
{
    lemma_mul_inequality(x, b, f);
    lemma_mul_inequality(-b, x, f);
    lemma_mul_upper_bound(b, b, f, fb);
    vstd::arithmetic::mul::lemma_mul_unary_negation(b, f);
    lemma_mul_upper_bound(b, b, f, fb);
    lemma_mul_inequality(f, fb, b);
    vstd::arithmetic::mul::lemma_mul_is_commutative(f, b);
    vstd::arithmetic::mul::lemma_mul_is_commutative(fb, b);
}

/// Whether a mantissa is within the representable range.
pub open spec fn mant_fits(x: int) -> bool {
    -MANT_BOUND <= x <= MANT_BOUND
}

/// A stored weight pair, seen as a decimal.
pub open spec fn pd(p: (i128, u32)) -> Dec {
    Dec { man: p.0, sc: p.1 }
}

/// Well-formedness of a stored weight pair.
pub open spec fn pair_wf(p: (i128, u32)) -> bool {
    pd(p).wf()
}

/// The scaled value of a stored weight pair.
pub open spec fn pair_scaled(p: (i128, u32)) -> int {
    pd(p).scaled()
}

/// The scaled value of a well-formed decimal, as a machine integer.
pub fn scaled_exec(d: Dec) -> (r: i128)
    requires
        d.wf(),
    ensures
        r == d.scaled(),
        -(MANT_BOUND as int) * pow10(SCALE_MAX as nat) <= r <= (MANT_BOUND as int) * pow10(
            SCALE_MAX as nat,
        ),
{
    let f = pow10_exec(SCALE_MAX - d.sc);
    proof {
        lemma_pow10_18();
        lemma_pow10_pos((SCALE_MAX - d.sc) as nat);
        lemma_pow10_increases((SCALE_MAX - d.sc) as nat, 18);
        lemma_signed_mul_bound(d.man as int, MANT_BOUND as int, f as int, pow10(18));
        vstd::arithmetic::mul::lemma_mul_unary_negation(MANT_BOUND as int, pow10(18));
    }
    d.man * f
}

/// The mantissa of `d` re-expressed at the (no smaller) scale `s`.
pub open spec fn aligned(d: Dec, s: u32) -> int
    recommends
        d.sc <= s,
{
    d.man * pow10((s - d.sc) as nat)
}

/// The larger of the two scales: the scale of an exact sum.
pub open spec fn scale_of_sum(a: Dec, b: Dec) -> u32 {
    if a.sc >= b.sc {
        a.sc
    } else {
        b.sc
    }
}

/// The mantissa of the exact sum of `a` and `b`, at scale `scale_of_sum(a, b)`.
pub open spec fn sum_mant(a: Dec, b: Dec) -> int {
    aligned(a, scale_of_sum(a, b)) + aligned(b, scale_of_sum(a, b))
}

proof fn lemma_aligned_scaled(d: Dec, s: u32)
    requires
        d.wf(),
        d.sc <= s <= SCALE_MAX,
    ensures
        aligned(d, s) * pow10((SCALE_MAX - s) as nat) == d.scaled(),
        -MANT_BOUND * pow10((s - d.sc) as nat) <= aligned(d, s) <= MANT_BOUND * pow10(
            (s - d.sc) as nat,
        ),
{
    let e1 = (s - d.sc) as nat;
    let e2 = (SCALE_MAX - s) as nat;
    lemma_pow10_adds(e1, e2);
    lemma_mul_is_associative(d.man as int, pow10(e1), pow10(e2));
    lemma_pow10_pos(e1);
    lemma_signed_mul_bound(d.man as int, MANT_BOUND as int, pow10(e1), pow10(e1));
}

/// The exact sum's mantissa, rescaled, is the sum of the scaled values.
pub proof fn lemma_sum_mant_scaled(a: Dec, b: Dec)
    requires
        a.wf(),
        b.wf(),
    ensures
        sum_mant(a, b) * pow10((SCALE_MAX - scale_of_sum(a, b)) as nat) == a.scaled() + b.scaled(),
{
    let s = scale_of_sum(a, b);
    lemma_aligned_scaled(a, s);
    lemma_aligned_scaled(b, s);
    vstd::arithmetic::mul::lemma_mul_is_distributive_add_other_way(
        pow10((SCALE_MAX - s) as nat),
        aligned(a, s),
        aligned(b, s),
    );
}

/// Exact addition. `None` exactly when the sum's mantissa leaves
/// `[-MANT_BOUND, MANT_BOUND]`; the scale of a sum is the larger scale.
pub fn dec_add(a: Dec, b: Dec) -> (r: Option<Dec>)
    requires
        a.wf(),
        b.wf(),
    ensures
        match r {
            Some(c) => {
                &&& c.wf()
                &&& c.man == sum_mant(a, b)
                &&& c.sc == scale_of_sum(a, b)
                &&& c.scaled() == a.scaled() + b.scaled()
                &&& -MANT_BOUND <= sum_mant(a, b) <= MANT_BOUND
            },
            None => !(-MANT_BOUND <= sum_mant(a, b) <= MANT_BOUND),
        },
{
    let s = if a.sc >= b.sc {
        a.sc
    } else {
        b.sc
    };
    let fa = pow10_exec(s - a.sc);
    let fb = pow10_exec(s - b.sc);
    proof {
        lemma_aligned_scaled(a, s);
        lemma_aligned_scaled(b, s);
        lemma_pow10_18();
        lemma_pow10_pos((s - a.sc) as nat);
        lemma_pow10_pos((s - b.sc) as nat);
        lemma_pow10_increases((s - a.sc) as nat, 18);
        lemma_pow10_increases((s - b.sc) as nat, 18);
        lemma_signed_mul_bound(a.man as int, MANT_BOUND as int, fa as int, pow10(18));
        lemma_signed_mul_bound(b.man as int, MANT_BOUND as int, fb as int, pow10(18));
    }
    let ma: i128 = a.man * fa;
    let mb: i128 = b.man * fb;
    let m: i128 = ma + mb;
    if -MANT_BOUND <= m && m <= MANT_BOUND {
        let c = Dec { man: m, sc: s };
        proof {
            lemma_aligned_scaled(a, s);
            lemma_aligned_scaled(b, s);
            vstd::arithmetic::mul::lemma_mul_is_distributive_add_other_way(
                pow10((SCALE_MAX - s) as nat),
                aligned(a, s),
                aligned(b, s),
            );
        }
        Some(c)
    } else {
        None
    }
}

/// The nearest integer to `n / d` for positive `d`, ties away from zero.
pub open spec fn rat_round_pos(n: int, d: int) -> int
    recommends
        d > 0,
{
    if n >= 0 {
        (2 * n + d) / (2 * d)
    } else {
        -((2 * (-n) + d) / (2 * d))
    }
}

/// The nearest integer to `n / d`, ties away from zero.
pub open spec fn rat_round(n: int, d: int) -> int
    recommends
        d != 0,
{
    if d < 0 {
        rat_round_pos(-n, -d)
    } else {
        rat_round_pos(n, d)
    }
}

/// Rounding a non-negative fraction is plain division plus a half test.
proof fn lemma_round_parts(n: int, d: int)
    requires
        d > 0,
        n >= 0,
    ensures
        rat_round_pos(n, d) == n / d + if 2 * (n % d) >= d {
            1int
        } else {
            0int
        },
{
    let q = n / d;
    let r = n % d;
    vstd::arithmetic::div_mod::lemma_fundamental_div_mod(n, d);
    assert(2 * n + d == (2 * d) * q + (2 * r + d)) by {
        vstd::arithmetic::mul::lemma_mul_is_distributive_add(q, d, d);
        vstd::arithmetic::mul::lemma_mul_is_commutative(2 * d, q);
        vstd::arithmetic::mul::lemma_mul_is_associative(2, d, q);
    }
    vstd::arithmetic::div_mod::lemma_remainder_lower(n, d);
    vstd::arithmetic::div_mod::lemma_remainder_upper(n, d);
    vstd::arithmetic::div_mod::lemma_div_pos_is_pos(n, d);
    vstd::arithmetic::div_mod::lemma_hoist_over_denominator(2 * r + d, q, (2 * d) as nat);
    assert(q * (2 * d) == (2 * d) * q) by {
        vstd::arithmetic::mul::lemma_mul_is_commutative(q, 2 * d);
    }
    if 2 * r >= d {
        assert((2 * r + d) / (2 * d) == 1) by {
            vstd::arithmetic::div_mod::lemma_hoist_over_denominator(2 * r - d, 1, (2 * d) as nat);
            vstd::arithmetic::div_mod::lemma_basic_div(2 * r - d, 2 * d);
        }
    } else {
        assert((2 * r + d) / (2 * d) == 0) by {
            vstd::arithmetic::div_mod::lemma_basic_div(2 * r + d, 2 * d);
        }
    }
}

/// Scaling numerator and denominator by the same positive factor does not
/// change the rounded value.
pub proof fn lemma_rat_round_scale(n: int, d: int, k: int)
    requires
        d > 0,
        k > 0,
    ensures
        rat_round(n * k, d * k) == rat_round(n, d),
{
    lemma_rat_round_pos_scale(n, d, k);
    vstd::arithmetic::mul::lemma_mul_strictly_positive(d, k);
}

proof fn lemma_rat_round_pos_scale(n: int, d: int, k: int)
    requires
        d > 0,
        k > 0,
    ensures
        rat_round_pos(n * k, d * k) == rat_round_pos(n, d),
{
    vstd::arithmetic::mul::lemma_mul_strictly_positive(d, k);
    if n >= 0 {
        vstd::arithmetic::mul::lemma_mul_nonnegative(n, k);
        lemma_div_scaled(2 * n + d, 2 * d, k);
        assert((2 * (n * k) + d * k) == (2 * n + d) * k) by {
            vstd::arithmetic::mul::lemma_mul_is_distributive_add_other_way(k, 2 * n, d);
            vstd::arithmetic::mul::lemma_mul_is_associative(2, n, k);
        }
        assert(2 * (d * k) == (2 * d) * k) by {
            vstd::arithmetic::mul::lemma_mul_is_associative(2, d, k);
        }
    } else {
        assert(n * k < 0) by {
            vstd::arithmetic::mul::lemma_mul_strict_inequality(n, 0, k);
        }
        lemma_div_scaled(2 * (-n) + d, 2 * d, k);
        assert((2 * (-(n * k)) + d * k) == (2 * (-n) + d) * k) by {
            vstd::arithmetic::mul::lemma_mul_is_distributive_add_other_way(k, 2 * (-n), d);
            vstd::arithmetic::mul::lemma_mul_is_associative(2, -n, k);
            vstd::arithmetic::mul::lemma_mul_unary_negation(n, k);
        }
        assert(2 * (d * k) == (2 * d) * k) by {
            vstd::arithmetic::mul::lemma_mul_is_associative(2, d, k);
        }
    }
}

proof fn lemma_div_scaled(x: int, d: int, k: int)
    requires
        x >= 0,
        d > 0,
        k > 0,
    ensures
        (x * k) / (d * k) == x / d,
{
    vstd::arithmetic::mul::lemma_mul_strictly_positive(d, k);
    vstd::arithmetic::mul::lemma_mul_nonnegative(x, k);
    vstd::arithmetic::div_mod::lemma_div_denominator(x * k, k, d);
    assert(k * d == d * k) by {
        vstd::arithmetic::mul::lemma_mul_is_commutative(k, d);
    }
    vstd::arithmetic::div_mod::lemma_div_by_multiple(x, k);
    assert(x * k == k * x) by {
        vstd::arithmetic::mul::lemma_mul_is_commutative(x, k);
    }
}

/// A value is one hundred percent of itself.
pub proof fn lemma_rat_round_self(x: int)
    requires
        x != 0,
    ensures
        rat_round(1000 * x, x) == 1000,
{
    assert(rat_round(1000, 1) == 1000) by {
        assert(2001int / 2 == 1000);
    }
    if x > 0 {
        lemma_rat_round_scale(1000, 1, x);
        vstd::arithmetic::mul::lemma_mul_basics_3(x);
    } else {
        lemma_rat_round_scale(1000, 1, -x);
        vstd::arithmetic::mul::lemma_mul_basics_3(-x);
        assert(1000 * x == -(1000 * (-x))) by {
            vstd::arithmetic::mul::lemma_mul_unary_negation(1000, x);
        }
    }
}

/// Round `n / d` to the nearest integer, ties away from zero.
pub fn rat_round_exec(n: i128, d: i128) -> (r: i128)
    requires
        d > 0,
        n > i128::MIN,
    ensures
        r == rat_round(n as int, d as int),
{
    if n >= 0 {
        let q = n / d;
        let rm = n % d;
        proof {
            lemma_round_parts(n as int, d as int);
            vstd::arithmetic::div_mod::lemma_fundamental_div_mod(n as int, d as int);
            vstd::arithmetic::div_mod::lemma_remainder_lower(n as int, d as int);
            vstd::arithmetic::div_mod::lemma_remainder_upper(n as int, d as int);
            vstd::arithmetic::div_mod::lemma_div_pos_is_pos(n as int, d as int);
            if rm >= d - rm {
                assert(2 * q <= (d as int) * q) by {
                    lemma_mul_inequality(2, d as int, q as int);
                    vstd::arithmetic::mul::lemma_mul_is_commutative(2, q as int);
                    vstd::arithmetic::mul::lemma_mul_is_commutative(d as int, q as int);
                }
            }
        }
        if rm >= d - rm {
            q + 1
        } else {
            q
        }
    } else {
        let m = -n;
        let q = m / d;
        let rm = m % d;
        proof {
            lemma_round_parts(m as int, d as int);
            vstd::arithmetic::div_mod::lemma_fundamental_div_mod(m as int, d as int);
            vstd::arithmetic::div_mod::lemma_remainder_lower(m as int, d as int);
            vstd::arithmetic::div_mod::lemma_remainder_upper(m as int, d as int);
            vstd::arithmetic::div_mod::lemma_div_pos_is_pos(m as int, d as int);
            if rm >= d - rm {
                assert(2 * q <= (d as int) * q) by {
                    lemma_mul_inequality(2, d as int, q as int);
                    vstd::arithmetic::mul::lemma_mul_is_commutative(2, q as int);
                    vstd::arithmetic::mul::lemma_mul_is_commutative(d as int, q as int);
                }
            }
        }
        if rm >= d - rm {
            -(q + 1)
        } else {
            -q
        }
    }
}

/// Scaling numerator and a nonzero denominator by the same positive
/// factor does not change the rounded value.
pub proof fn lemma_rat_round_scale_any(n: int, d: int, k: int)
    requires
        d != 0,
        k > 0,
    ensures
        rat_round(n * k, d * k) == rat_round(n, d),
{
    if d > 0 {
        lemma_rat_round_scale(n, d, k);
    } else {
        vstd::arithmetic::mul::lemma_mul_strict_inequality(d, 0, k);
        lemma_rat_round_pos_scale(-n, -d, k);
        assert(-(n * k) == (-n) * k) by {
            vstd::arithmetic::mul::lemma_mul_unary_negation(n, k);
        }
        assert(-(d * k) == (-d) * k) by {
            vstd::arithmetic::mul::lemma_mul_unary_negation(d, k);
        }
    }
}

/// Whether the percentage of `w` against the total `t` is computable in
/// the machine range.
pub open spec fn pct_fits(w: Dec, t: Dec) -> bool {
    -(i128::MAX as int) <= 1000 * aligned(w, scale_of_sum(w, t)) <= i128::MAX as int
}

/// The percentage of `w` against the total `t`, in tenths of a percent,
/// rounded to the nearest tenth: `1000 * w / t` as a rounded integer.
pub open spec fn pct_val(w: Dec, t: Dec) -> int {
    rat_round(1000 * w.scaled(), t.scaled())
}

/// Compute the percentage of `w` against the total `t` in tenths of a
/// percent. `None` exactly when the scaled numerator leaves the machine
/// range.
pub fn pct_tenths(w: Dec, t: Dec) -> (r: Option<i128>)
    requires
        w.wf(),
        t.wf(),
        t.man != 0,
    ensures
        r is Some <==> pct_fits(w, t),
        r matches Some(p) ==> p == pct_val(w, t) && -(i128::MAX as int) <= p <= i128::MAX as int,
{
    let s = if w.sc >= t.sc {
        w.sc
    } else {
        t.sc
    };
    let fw = pow10_exec(s - w.sc);
    let ft = pow10_exec(s - t.sc);
    proof {
        lemma_pow10_18();
        lemma_pow10_pos((s - w.sc) as nat);
        lemma_pow10_pos((s - t.sc) as nat);
        lemma_pow10_increases((s - w.sc) as nat, 18);
        lemma_pow10_increases((s - t.sc) as nat, 18);
        lemma_signed_mul_bound(w.man as int, MANT_BOUND as int, fw as int, pow10(18));
        lemma_signed_mul_bound(t.man as int, MANT_BOUND as int, ft as int, pow10(18));
        vstd::arithmetic::mul::lemma_mul_nonzero(t.man as int, ft as int);
    }
    let a: i128 = w.man * fw;
    let b: i128 = t.man * ft;
    let n = match a.checked_mul(1000) {
        Some(n) => n,
        None => {
            return None;
        },
    };
    if n == i128::MIN {
        return None;
    }
    proof {
        assert(a as int * 1000 == 1000 * aligned(w, scale_of_sum(w, t))) by {
            vstd::arithmetic::mul::lemma_mul_is_commutative(a as int, 1000);
        }
    }
    let p = if b < 0 {
        proof {
            lemma_round_mag(-n as int, -b as int);
        }
        rat_round_exec(-n, -b)
    } else {
        proof {
            lemma_round_mag(n as int, b as int);
        }
        rat_round_exec(n, b)
    };
    proof {
        assert(p == rat_round(n as int, b as int));
        let k = pow10((SCALE_MAX - s) as nat);
        lemma_pow10_pos((SCALE_MAX - s) as nat);
        lemma_aligned_scaled(w, s);
        lemma_aligned_scaled(t, s);
        lemma_rat_round_scale_any(n as int, b as int, k);
        assert((n as int) * k == 1000 * w.scaled()) by {
            vstd::arithmetic::mul::lemma_mul_is_associative(1000, aligned(w, s), k);
        }
    }
    Some(p)
}

/// The value of `d` in tenths, rounded to the nearest tenth.
pub open spec fn tenths_of(d: Dec) -> int
    recommends
        d.wf(),
{
    rat_round(10 * d.scaled(), pow10(SCALE_MAX as nat))
}

/// Round a weight to tenths for display with one decimal place.
pub fn round_tenths(d: Dec) -> (r: i128)
    requires
        d.wf(),
    ensures
        r == tenths_of(d),
        -10 * MANT_BOUND <= r <= 10 * MANT_BOUND,
{
    let den = pow10_exec(d.sc);
    proof {
        lemma_pow10_pos(d.sc as nat);
        lemma_pow10_18();
        lemma_pow10_increases(d.sc as nat, 18);
    }
    let n = 10 * d.man;
    let r = rat_round_exec(n, den);
    proof {
        let k = pow10((SCALE_MAX - d.sc) as nat);
        lemma_pow10_pos((SCALE_MAX - d.sc) as nat);
        lemma_rat_round_scale(n as int, den as int, k);
        assert((n as int) * k == 10 * d.scaled()) by {
            vstd::arithmetic::mul::lemma_mul_is_associative(10, d.man as int, k);
        }
        assert((den as int) * k == pow10(SCALE_MAX as nat)) by {
            lemma_pow10_adds(d.sc as nat, (SCALE_MAX - d.sc) as nat);
        }
        lemma_round_mag(n as int, den as int);
    }
    r
}

/// The rounded fraction is no larger in magnitude than the numerator,
/// for a positive denominator.
proof fn lemma_round_mag(n: int, d: int)
    requires
        d > 0,
    ensures
        n >= 0 ==> 0 <= rat_round_pos(n, d) <= n,
        n < 0 ==> n <= rat_round_pos(n, d) <= 0,
{
    if n >= 0 {
        lemma_round_parts(n, d);
        vstd::arithmetic::div_mod::lemma_fundamental_div_mod(n, d);
        vstd::arithmetic::div_mod::lemma_remainder_lower(n, d);
        vstd::arithmetic::div_mod::lemma_remainder_upper(n, d);
        vstd::arithmetic::div_mod::lemma_div_pos_is_pos(n, d);
        let q = n / d;
        if 2 * (n % d) >= d {
            assert(q + 1 <= n) by {
                lemma_mul_inequality(1, d, q);
                vstd::arithmetic::mul::lemma_mul_is_commutative(d, q);
                vstd::arithmetic::mul::lemma_mul_basics_3(q);
            }
        } else {
            assert(q <= n) by {
                lemma_mul_inequality(1, d, q);
                vstd::arithmetic::mul::lemma_mul_is_commutative(d, q);
                vstd::arithmetic::mul::lemma_mul_basics_3(q);
            }
        }
    } else {
        lemma_round_parts(-n, d);
        vstd::arithmetic::div_mod::lemma_fundamental_div_mod(-n, d);
        vstd::arithmetic::div_mod::lemma_remainder_lower(-n, d);
        vstd::arithmetic::div_mod::lemma_remainder_upper(-n, d);
        vstd::arithmetic::div_mod::lemma_div_pos_is_pos(-n, d);
        let q = (-n) / d;
        assert(q <= -n - (d - 1) * q) by {
            vstd::arithmetic::mul::lemma_mul_nonnegative(d - 1, q);
            vstd::arithmetic::mul::lemma_mul_is_distributive_sub_other_way(q, d, 1);
            vstd::arithmetic::mul::lemma_mul_is_commutative(d, q);
            vstd::arithmetic::mul::lemma_mul_basics_3(q);
        }
        if 2 * ((-n) % d) >= d {
            assert(q + 1 <= -n) by {
                lemma_mul_inequality(1, d, q);
                vstd::arithmetic::mul::lemma_mul_is_commutative(d, q);
                vstd::arithmetic::mul::lemma_mul_basics_3(q);
            }
        }
    }
}

} // verus!
