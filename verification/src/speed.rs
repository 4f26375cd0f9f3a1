//! The speed controller.
//!
//! Each tick the interval of the fixed-rate pass is recomputed from the
//! score and the difficulty: `period = log_600(score + base_rate)`, and
//! the next interval is `1 - period` seconds, clamped to a strictly
//! positive floor.  Floating point stays out of the core, so the
//! logarithm is carried in fixed point with 2^20 fractional steps: the
//! normalized argument is squared twenty times, extracting one binary
//! digit of the logarithm per squaring.  The result provably stays
//! within one step of `floor(2^20 * log_600(t))` — stated exactly as the
//! integer logarithm of `t^(2^20)` — which makes the published interval
//! match the curve to a few microseconds and decrease *strictly* with
//! the score wherever it sits above the floor: adjacent reachable
//! scores separate the exact logarithm by at least three steps, and the
//! computation loses at most one.

use vstd::prelude::*;
use vstd::arithmetic::logarithm::{log, lemma_log0, lemma_log_s, lemma_log_nonnegative};
use vstd::arithmetic::power::{pow, lemma_pow0, lemma_pow1, lemma_pow_adds, lemma_pow_increases, lemma_pow_positive, lemma_pow_multiplies, lemma_pow_distributes};
use vstd::arithmetic::div_mod::{lemma_div_is_ordered, lemma_multiply_divide_lt, lemma_div_by_self, lemma_fundamental_div_mod, lemma_div_decreases, lemma_div_pos_is_pos, lemma_div_plus_one, lemma_div_multiples_vanish};
use vstd::arithmetic::mul::{lemma_mul_inequality, lemma_mul_inequality_converse};
use crate::session::Difficulty;

verus! {

/// Lower bound of the tick interval, in microseconds.  The logarithmic
/// curve crosses zero for high enough scores, so the interval is
/// clamped here to keep the fixed-rate scheduler valid.
pub const MIN_TICK_US: u32 = 10000;

/// Base of the speed curve per difficulty: higher difficulty starts the
/// logarithm further along, so the session starts faster.
pub open spec fn base_rate(d: Difficulty) -> int {
    match d {
        Difficulty::Simple => 2,
        Difficulty::Regular => 20,
        Difficulty::Hard => 200,
    }
}

/// The fixed-point scale: 2^45.
pub open spec fn fp_scale() -> int {
    0x200000000000
}

/// The normalized mantissa before any digit is extracted: `t` scaled
/// into `[fp_scale(), 600 * fp_scale())`.
pub open spec fn norm_x(t: int) -> int {
    if t >= 600 {
        t * fp_scale() / 600
    } else {
        t * fp_scale()
    }
}

/// The integer part extracted by the normalization.
pub open spec fn norm_m(t: int) -> int {
    if t >= 600 {
        1
    } else {
        0
    }
}

/// The mantissa after `k` squarings.
pub open spec fn approx_x(t: int, k: nat) -> int
    decreases k,
{
    if k == 0 {
        norm_x(t)
    } else {
        let x = approx_x(t, (k - 1) as nat);
        let xx = x * x / fp_scale();
        if xx >= 600 * fp_scale() {
            xx / 600
        } else {
            xx
        }
    }
}

/// The logarithm digits accumulated after `k` squarings: one binary
/// digit of `log_600(t)` per squaring.
pub open spec fn approx_m(t: int, k: nat) -> int
    decreases k,
{
    if k == 0 {
        norm_m(t)
    } else {
        let x = approx_x(t, (k - 1) as nat);
        let xx = x * x / fp_scale();
        let m = approx_m(t, (k - 1) as nat);
        if xx >= 600 * fp_scale() {
            2 * m + 1
        } else {
            2 * m
        }
    }
}

/// The fixed-point logarithm: `log_600(t)` in steps of `2^-20`.
pub open spec fn log600_fix(t: int) -> int {
    approx_m(t, 20)
}

/// The exact reference the computation is held to:
/// `floor(2^20 * log_600(t))`, written as the integer base-600
/// logarithm of `t^(2^20)`.
pub open spec fn m_exact(t: int) -> int {
    log(600, pow(t, 1048576))
}

/// The error budget of the mantissa after `k` squarings, in parts of
/// `fp_scale()`: each squaring doubles the relative error and the two
/// floor divisions add a few parts more.
spec fn fp_err(k: nat) -> int
    decreases k,
{
    if k == 0 {
        1
    } else {
        4 * fp_err((k - 1) as nat) + 16
    }
}

proof fn lemma_mul_le(a: int, b: int, c: int, d: int)
    requires
        0 <= a <= b,
        0 <= c <= d,
    ensures
        0 <= a * c <= b * d,
{
    assert(0 <= a * c <= b * d) by (nonlinear_arith)
        requires 0 <= a <= b, 0 <= c <= d;
}

/// Small powers of two, by repeated squaring of the literal.
proof fn lemma_pow2_values()
    ensures
        pow(2, 20) == 1048576,
        pow(2, 21) == 2097152,
        pow(2, 28) == 268435456,
        pow(2, 40) == 1099511627776,
{
    assert(pow(2, 5) == 32) by {
        reveal_with_fuel(pow, 6);
    }
    lemma_pow_adds(2, 5, 5);
    assert(pow(2, 10) == 1024);
    lemma_pow_adds(2, 10, 10);
    assert(pow(2, 20) == 1048576);
    lemma_pow_adds(2, 20, 1);
    assert(pow(2, 1) == 2) by {
        reveal_with_fuel(pow, 2);
    }
    assert(pow(2, 21) == 2097152);
    lemma_pow_adds(2, 20, 8);
    assert(pow(2, 8) == 256) by {
        reveal_with_fuel(pow, 9);
    }
    assert(pow(2, 28) == 268435456);
    lemma_pow_adds(2, 20, 20);
    assert(pow(2, 40) == 1099511627776);
}

/// The defining bracket of the integer base-600 logarithm:
/// `600^log(x) <= x < 600^(log(x)+1)`.
proof fn lemma_log600_bracket(x: int)
    requires
        1 <= x,
    ensures
        0 <= log(600, x),
        pow(600, log(600, x) as nat) <= x,
        x < 600 * pow(600, log(600, x) as nat),
    decreases x,
{
    lemma_log_nonnegative(600, x);
    if x < 600 {
        lemma_log0(600, x);
        lemma_pow0(600);
    } else {
        lemma_log_s(600, x);
        lemma_div_is_ordered(600, x, 600);
        lemma_div_by_self(600);
        lemma_div_decreases(x, 600);
        lemma_log600_bracket(x / 600);
        let l = log(600, x / 600);
        let p = pow(600, l as nat);
        assert(log(600, x) == 1 + l);
        lemma_pow1(600);
        lemma_pow_adds(600, 1nat, l as nat);
        assert(pow(600, (1 + l) as nat) == 600 * p);
        lemma_mul_inequality(p, x / 600, 600);
        lemma_fundamental_div_mod(x, 600);
        assert(600 * p <= x);
        lemma_mul_inequality(x / 600 + 1, 600 * p, 600);
        assert(x < 600 * (600 * p));
    }
}

/// A power of 600 below `x` bounds the integer logarithm from below.
proof fn lemma_log600_lower(x: int, a: nat)
    requires
        1 <= x,
        pow(600, a) <= x,
    ensures
        a <= log(600, x),
{
    lemma_log600_bracket(x);
    let l = log(600, x) as nat;
    if a > l {
        lemma_pow1(600);
        lemma_pow_adds(600, 1nat, l);
        lemma_pow_increases(600, l + 1, a);
        assert(false);
    }
}

/// The mantissa/digit invariants of the squaring recurrence: the
/// mantissa stays normalized, and `x * 600^m` brackets
/// `fp_scale() * t^(2^k)` to within the error budget.
proof fn lemma_approx_invariants(t: int, k: nat)
    requires
        2 <= t <= 1000,
        k <= 20,
    ensures
        fp_scale() <= approx_x(t, k) < 600 * fp_scale(),
        0 <= approx_m(t, k) < pow(2, (k + 1) as nat),
        1 <= fp_err(k) <= fp_scale(),
        approx_x(t, k) * pow(600, approx_m(t, k) as nat)
            <= fp_scale() * pow(t, pow(2, k) as nat),
        fp_scale() * pow(t, pow(2, k) as nat) * fp_scale()
            <= approx_x(t, k) * (fp_scale() + fp_err(k)) * pow(600, approx_m(t, k) as nat),
        3 * fp_err(k) == 19 * pow(4, k) - 16,
    decreases k,
{
    let q = fp_scale();
    lemma_pow2_values();
    if k == 0 {
        lemma_pow0(600);
        lemma_pow1(t);
        lemma_pow0(4);
        assert(pow(2, 1) == 2) by {
            reveal_with_fuel(pow, 2);
        }
        assert(pow(2, 0) == 1) by {
            reveal_with_fuel(pow, 1);
        }
        if t >= 600 {
            let x = t * q / 600;
            lemma_fundamental_div_mod(t * q, 600);
            assert(600 * x <= t * q);
            assert(t * q < 600 * (x + 1));
            lemma_div_multiples_vanish(q, 600);
            lemma_div_is_ordered(600 * q, t * q, 600);
            assert((600 * q) / 600 == q);
            assert(x >= q);
            assert(t * q < 600 * (600 * q)) by (nonlinear_arith)
                requires t <= 1000, q == 0x200000000000;
            lemma_multiply_divide_lt(t * q, 600, 600 * q);
            assert(x < 600 * q);
            lemma_pow1(600);
            // lower bracket: q*t*q <= x*(q+1)*600 from t*q <= 600*x + 600 and x >= q
            assert(q * pow(t, 1) * q <= x * (q + 1) * pow(600, 1nat)) by (nonlinear_arith)
                requires
                    pow(t, 1) == t,
                    pow(600, 1nat) == 600,
                    t * q <= 600 * x + 600,
                    x >= q,
                    q > 0;
            assert(x * pow(600, 1nat) <= q * pow(t, 1));
        } else {
            assert(t * q * 1 <= q * t);
            assert(q * t * q <= t * q * (q + 1) * 1) by (nonlinear_arith)
                requires q > 0, t > 0;
        }
    } else {
        let km1 = (k - 1) as nat;
        lemma_approx_invariants(t, km1);
        let x = approx_x(t, km1);
        let m = approx_m(t, km1);
        let g = fp_err(km1);
        let p2 = pow(2, km1);
        let tp = pow(t, p2 as nat);
        let s = pow(600, m as nat);
        let xx = x * x / q;
        let gn = 4 * g + 16;
        lemma_pow_positive(t, p2 as nat);
        lemma_pow_positive(600, m as nat);
        // the doubled exponent
        lemma_pow_adds(2, 1nat, km1);
        assert(pow(2, 1) == 2) by {
            reveal_with_fuel(pow, 2);
        }
        assert(pow(2, k) == 2 * p2);
        lemma_pow_adds(t, p2 as nat, p2 as nat);
        assert(pow(t, pow(2, k) as nat) == tp * tp);
        // the error budget stays small
        lemma_pow_adds(4, 1nat, km1);
        assert(pow(4, 1) == 4) by {
            reveal_with_fuel(pow, 2);
        }
        assert(3 * gn == 19 * pow(4, k) - 16);
        assert(pow(4, k) == pow(2, (2 * k) as nat)) by {
            lemma_pow_multiplies(2, 2nat, k);
            lemma_pow_adds(2, 1nat, 1nat);
        }
        lemma_pow_increases(2, (2 * k) as nat, 40);
        assert(gn <= q);
        assert(gn >= 1);
        // mantissa bounds of the squaring
        lemma_fundamental_div_mod(x * x, q);
        assert(q * xx <= x * x);
        assert(x * x < q * (xx + 1));
        assert(x * x < 360000 * q * q) by (nonlinear_arith)
            requires x < 600 * q, x >= 0, q > 0;
        lemma_multiply_divide_lt(x * x, q, 360000 * q);
        assert(xx < 360000 * q);
        assert(x * x >= q * q) by (nonlinear_arith)
            requires x >= q, q > 0;
        lemma_div_multiples_vanish(q, q);
        lemma_div_is_ordered(q * q, x * x, q);
        assert(xx >= q);
        // the squared upper bracket
        lemma_mul_le(x * s, q * tp, x * s, q * tp);
        assert((x * s) * (x * s) == (x * x) * (s * s)) by (nonlinear_arith);
        assert((q * tp) * (q * tp) == (q * q) * (tp * tp)) by (nonlinear_arith);
        // the squared lower bracket
        lemma_mul_le(q * tp * q, x * (q + g) * s, q * tp * q, x * (q + g) * s);
        assert((q * tp * q) * (q * tp * q) == (q * q * q) * (q * (tp * tp))) by (nonlinear_arith);
        assert((x * (q + g) * s) * (x * (q + g) * s) == (x * x) * ((q + g) * (q + g)) * (s * s))
            by (nonlinear_arith);
        // the polynomial heart of the error recurrence
        assert((q + 1) * ((q + g) * (q + g)) <= q * q * (q + gn)) by (nonlinear_arith)
            requires 0 <= g <= q, gn == 4 * g + 16, q == 0x200000000000;
        if xx >= 600 * q {
            let xn = xx / 600;
            let mn = 2 * m + 1;
            lemma_fundamental_div_mod(xx, 600);
            assert(600 * xn <= xx);
            assert(xx < 600 * (xn + 1));
            lemma_div_multiples_vanish(q, 600);
            lemma_div_is_ordered(600 * q, xx, 600);
            assert(xn >= q);
            lemma_multiply_divide_lt(xx, 600, 600 * q);
            assert(xn < 600 * q);
            lemma_pow_adds(600, m as nat, m as nat);
            lemma_pow_adds(600, 1nat, (2 * m) as nat);
            lemma_pow1(600);
            assert(pow(600, mn as nat) == 600 * (s * s));
            assert(approx_x(t, k) == xn);
            assert(approx_m(t, k) == mn);
            assert(mn < pow(2, (k + 1) as nat)) by {
                lemma_pow_adds(2, 1nat, k);
            }
            // upper: xn*600*q <= xx*q <= x*x, so xn*600*(s*s)*q <= (x*s)^2 <= (q*tp)^2
            assert(xn * (600 * (s * s)) * q <= (q * (tp * tp)) * q) by (nonlinear_arith)
                requires
                    600 * xn <= xx,
                    q * xx <= x * x,
                    (x * x) * (s * s) <= (q * q) * (tp * tp),
                    s > 0, q > 0, xn >= 0, xx >= 0, x >= 0, tp > 0;
            lemma_mul_inequality_converse(
                xn * (600 * (s * s)),
                q * (tp * tp),
                q,
            );
            // lower: q^4 tp^2 <= q(xx+1)(q+g)^2 s^2 <= 600 q (xn+1)(q+g)^2 s^2
            //        <= 600 xn (q+1)(q+g)^2 s^2 <= 600 xn q^2 (q+gn) s^2
            assert((q * (tp * tp)) * q * (q * q)
                <= (xn * ((q + gn) * (600 * (s * s)))) * (q * q)) by (nonlinear_arith)
                requires
                    (q * q * q) * (q * (tp * tp))
                        <= (x * x) * ((q + g) * (q + g)) * (s * s),
                    x * x < q * (xx + 1),
                    xx < 600 * (xn + 1),
                    q * (xn + 1) <= xn * (q + 1),
                    (q + 1) * ((q + g) * (q + g)) <= q * q * (q + gn),
                    s > 0, q > 0, g >= 0, gn >= 0, xn >= q, tp > 0, x >= 0, xx >= 0;
            lemma_mul_inequality_converse(
                (q * (tp * tp)) * q,
                xn * ((q + gn) * (600 * (s * s))),
                q * q,
            );
            assert(q * pow(t, pow(2, k) as nat) * q
                <= approx_x(t, k) * (q + gn) * pow(600, approx_m(t, k) as nat))
                by (nonlinear_arith)
                requires
                    (q * (tp * tp)) * q <= xn * ((q + gn) * (600 * (s * s))),
                    approx_x(t, k) == xn,
                    pow(600, approx_m(t, k) as nat) == 600 * (s * s),
                    pow(t, pow(2, k) as nat) == tp * tp;
            assert(approx_x(t, k) * pow(600, approx_m(t, k) as nat)
                <= q * pow(t, pow(2, k) as nat)) by (nonlinear_arith)
                requires
                    xn * (600 * (s * s)) <= q * (tp * tp),
                    approx_x(t, k) == xn,
                    pow(600, approx_m(t, k) as nat) == 600 * (s * s),
                    pow(t, pow(2, k) as nat) == tp * tp;
        } else {
            let mn = 2 * m;
            lemma_pow_adds(600, m as nat, m as nat);
            assert(pow(600, mn as nat) == s * s);
            assert(approx_x(t, k) == xx);
            assert(approx_m(t, k) == mn);
            assert(mn < pow(2, (k + 1) as nat)) by {
                lemma_pow_adds(2, 1nat, k);
            }
            // upper: xx*q <= x*x, so xx*(s*s)*q <= (q*tp)^2
            assert(xx * (s * s) * q <= (q * (tp * tp)) * q) by (nonlinear_arith)
                requires
                    q * xx <= x * x,
                    (x * x) * (s * s) <= (q * q) * (tp * tp),
                    s > 0, q > 0, xx >= 0, x >= 0, tp > 0;
            lemma_mul_inequality_converse(xx * (s * s), q * (tp * tp), q);
            // lower
            assert((q * (tp * tp)) * q * (q * q)
                <= (xx * ((q + gn) * (s * s))) * (q * q)) by (nonlinear_arith)
                requires
                    (q * q * q) * (q * (tp * tp))
                        <= (x * x) * ((q + g) * (q + g)) * (s * s),
                    x * x < q * (xx + 1),
                    q * (xx + 1) <= xx * (q + 1),
                    (q + 1) * ((q + g) * (q + g)) <= q * q * (q + gn),
                    s > 0, q > 0, g >= 0, gn >= 0, xx >= q, tp > 0, x >= 0;
            lemma_mul_inequality_converse(
                (q * (tp * tp)) * q,
                xx * ((q + gn) * (s * s)),
                q * q,
            );
            assert(q * pow(t, pow(2, k) as nat) * q
                <= approx_x(t, k) * (q + gn) * pow(600, approx_m(t, k) as nat))
                by (nonlinear_arith)
                requires
                    (q * (tp * tp)) * q <= xx * ((q + gn) * (s * s)),
                    approx_x(t, k) == xx,
                    pow(600, approx_m(t, k) as nat) == s * s,
                    pow(t, pow(2, k) as nat) == tp * tp;
            assert(approx_x(t, k) * pow(600, approx_m(t, k) as nat)
                <= q * pow(t, pow(2, k) as nat)) by (nonlinear_arith)
                requires
                    xx * (s * s) <= q * (tp * tp),
                    approx_x(t, k) == xx,
                    pow(600, approx_m(t, k) as nat) == s * s,
                    pow(t, pow(2, k) as nat) == tp * tp;
        }
    }
}

/// The fixed-point logarithm stays within one step of the exact
/// reference.
proof fn lemma_fix_bracket(t: int)
    requires
        2 <= t <= 1000,
    ensures
        m_exact(t) - 1 <= log600_fix(t) <= m_exact(t),
        0 <= log600_fix(t) < 2097152,
{
    lemma_approx_invariants(t, 20);
    lemma_pow2_values();
    let q = fp_scale();
    let m = log600_fix(t);
    let x = approx_x(t, 20);
    let g = fp_err(20);
    let tn = pow(t, 1048576);
    let s = pow(600, m as nat);
    lemma_pow_positive(t, 1048576);
    lemma_pow_positive(600, m as nat);
    assert(pow(2, 20) == 1048576);
    // upper: q*s <= x*s <= q*tn, so s <= tn and m <= m_exact
    assert(s * q <= tn * q) by (nonlinear_arith)
        requires x * s <= q * tn, x >= q, s > 0, q > 0, tn > 0;
    lemma_mul_inequality_converse(s, tn, q);
    lemma_log600_lower(tn, m as nat);
    // lower: q*tn*q < 600q * 2q * s, so tn < 1200 s <= 600^(m+2)
    assert(tn * (q * q) < (1200 * s) * (q * q)) by (nonlinear_arith)
        requires
            q * tn * q <= x * (q + g) * s,
            x < 600 * q,
            g <= q,
            s > 0, q > 0, tn > 0, x >= 0, g >= 0;
    lemma_mul_inequality_converse(tn, 1200 * s - 1, q * q);
    assert(tn < 1200 * s);
    lemma_pow_adds(600, 2nat, m as nat);
    assert(pow(600, 2nat) == 360000) by {
        reveal_with_fuel(pow, 3);
    }
    assert(tn < pow(600, (m + 2) as nat)) by (nonlinear_arith)
        requires
            tn < 1200 * s,
            pow(600, (m + 2) as nat) == 360000 * s,
            s > 0;
    lemma_log600_bracket(tn);
    let l = log(600, tn);
    if l >= m + 2 {
        lemma_pow_increases(600, (m + 2) as nat, l as nat);
        assert(false);
    }
}

/// Binomial lower bound: `(a+1)^n >= a^n + n * a^(n-1)`.
proof fn lemma_binomial(a: int, n: nat)
    requires
        a >= 1,
        n >= 1,
    ensures
        pow(a + 1, n) >= pow(a, n) + n * pow(a, (n - 1) as nat),
    decreases n,
{
    if n == 1 {
        lemma_pow1(a);
        lemma_pow1(a + 1);
        lemma_pow0(a);
    } else {
        let nm1 = (n - 1) as nat;
        lemma_binomial(a, nm1);
        let p1 = pow(a, nm1);
        let p2 = pow(a, (n - 2) as nat);
        lemma_pow_positive(a, nm1);
        lemma_pow_positive(a, (n - 2) as nat);
        lemma_pow_adds(a, 1nat, (n - 2) as nat);
        lemma_pow1(a);
        assert(p1 == a * p2);
        lemma_pow_adds(a + 1, 1nat, nm1);
        lemma_pow1(a + 1);
        assert(pow(a + 1, n) == (a + 1) * pow(a + 1, nm1));
        lemma_pow_adds(a, 1nat, nm1);
        assert(pow(a, n) == a * p1);
        assert((a + 1) * pow(a + 1, nm1) >= a * p1 + n * p1) by (nonlinear_arith)
            requires
                pow(a + 1, nm1) >= p1 + (n - 1) * p2,
                p1 == a * p2,
                a >= 1,
                n >= 2,
                p1 >= 1,
                p2 >= 1;
    }
}

/// `(t+1)^t` is at least twice `t^t`: the step the gap certificate
/// rests on.
proof fn lemma_ratio_doubles(t: int)
    requires
        t >= 1,
    ensures
        pow(t + 1, t as nat) >= 2 * pow(t, t as nat),
{
    lemma_binomial(t, t as nat);
    lemma_pow_adds(t, 1nat, (t - 1) as nat);
    lemma_pow1(t);
    assert(t * pow(t, (t - 1) as nat) == pow(t, t as nat));
}

/// Powers are monotone in the base.
proof fn lemma_pow_base_mono(a: int, b: int, e: nat)
    requires
        1 <= a <= b,
    ensures
        pow(a, e) <= pow(b, e),
    decreases e,
{
    if e == 0 {
        lemma_pow0(a);
        lemma_pow0(b);
    } else {
        lemma_pow_base_mono(a, b, (e - 1) as nat);
        lemma_pow_positive(a, (e - 1) as nat);
        lemma_pow_adds(a, 1nat, (e - 1) as nat);
        lemma_pow_adds(b, 1nat, (e - 1) as nat);
        lemma_pow1(a);
        lemma_pow1(b);
        lemma_mul_le(a, b, pow(a, (e - 1) as nat), pow(b, (e - 1) as nat));
    }
}

/// The exact reference jumps by at least three steps between adjacent
/// arguments of the reachable range: `(1 + 1/t)^(2^20)` exceeds
/// `2^1314`, which exceeds `600^3`.
proof fn lemma_exact_gap(t: int)
    requires
        2 <= t <= 797,
    ensures
        m_exact(t + 1) >= m_exact(t) + 3,
{
    let n: nat = 1048576;
    let k: nat = 1314;
    let tk: nat = (t * 1314) as nat;
    let m = m_exact(t);
    let tn = pow(t, n);
    lemma_pow_positive(t, n);
    lemma_pow_positive(t + 1, n);
    lemma_log600_bracket(tn);
    assert(pow(600, m as nat) <= tn);
    // (t+1)^(t*k) >= 2^k * t^(t*k)
    lemma_ratio_doubles(t);
    lemma_pow_positive(t, t as nat);
    lemma_pow_base_mono(2 * pow(t, t as nat), pow(t + 1, t as nat), k);
    lemma_pow_distributes(2, pow(t, t as nat), k);
    lemma_pow_multiplies(t, t as nat, k);
    lemma_pow_multiplies(t + 1, t as nat, k);
    assert(pow(t + 1, tk) >= pow(2, k) * pow(t, tk));
    // 600^3 <= 2^28 <= 2^k
    assert(pow(600, 3nat) == 216000000) by {
        reveal_with_fuel(pow, 4);
    }
    lemma_pow2_values();
    lemma_pow_increases(2, 28nat, k);
    assert(pow(600, 3nat) <= pow(2, k));
    // split the exponent: n == tk + (n - tk), with tk <= n since t <= 797
    assert(t * 1314 <= 1047258);
    let r: nat = (n - tk) as nat;
    lemma_pow_adds(t, tk, r);
    lemma_pow_adds(t + 1, tk, r);
    lemma_pow_base_mono(t, t + 1, r);
    lemma_pow_positive(t, tk);
    lemma_pow_positive(t, r);
    lemma_pow_positive(t + 1, tk);
    lemma_pow_positive(t + 1, r);
    lemma_pow_positive(2, k);
    lemma_pow_positive(600, m as nat);
    // assemble: 600^(m+3) <= t^n * 2^k <= (t+1)^tk * t^r <= (t+1)^n
    lemma_pow_adds(600, m as nat, 3nat);
    assert(pow(600, (m + 3) as nat) <= pow(t + 1, n)) by (nonlinear_arith)
        requires
            pow(600, (m + 3) as nat) == pow(600, m as nat) * pow(600, 3nat),
            pow(600, m as nat) <= pow(t, tk) * pow(t, r),
            pow(600, 3nat) <= pow(2, k),
            pow(t + 1, tk) >= pow(2, k) * pow(t, tk),
            pow(t, r) <= pow(t + 1, r),
            pow(t + 1, n) == pow(t + 1, tk) * pow(t + 1, r),
            tn == pow(t, tk) * pow(t, r),
            pow(t, tk) >= 1,
            pow(t, r) >= 1,
            pow(t + 1, tk) >= 1,
            pow(t + 1, r) >= 1,
            pow(2, k) >= 1,
            pow(600, m as nat) >= 1,
            pow(600, 3nat) >= 1;
    lemma_log600_lower(pow(t + 1, n), (m + 3) as nat);
}

/// The fixed-point logarithm strictly separates any two arguments of
/// the reachable range, by at least two steps.
proof fn lemma_fix_strict(t1: int, t2: int)
    requires
        2 <= t1 < t2 <= 798,
    ensures
        log600_fix(t2) >= log600_fix(t1) + 2,
    decreases t2 - t1,
{
    if t2 == t1 + 1 {
        lemma_fix_bracket(t1);
        lemma_fix_bracket(t2);
        lemma_exact_gap(t1);
    } else {
        lemma_fix_strict(t1, t2 - 1);
        lemma_fix_strict(t2 - 1, t2);
    }
}

/// The tick interval in microseconds for a score and difficulty:
/// `10^6 - 10^6 * log_600(score + base)`, clamped to the floor.  Past
/// the largest reachable score (the body fills the board at 598) the
/// curve sits below the floor, so the floor is returned outright.
pub open spec fn interval_us_spec(d: Difficulty, score: int) -> int {
    if score > 598 {
        MIN_TICK_US as int
    } else {
        let sub = log600_fix(score + base_rate(d)) * 1000000 / 1048576;
        if sub > 1000000 - MIN_TICK_US {
            MIN_TICK_US as int
        } else {
            1000000 - sub
        }
    }
}

/// The interval always lies between the floor and one second.
pub proof fn lemma_interval_bounds(d: Difficulty, s: int)
    requires
        0 <= s,
    ensures
        MIN_TICK_US <= interval_us_spec(d, s) <= 1000000,
{
    if s <= 598 {
        let t = s + base_rate(d);
        lemma_fix_bracket(t);
        lemma_div_pos_is_pos(log600_fix(t) * 1000000, 1048576);
        assert(log600_fix(t) * 1000000 >= 0) by (nonlinear_arith)
            requires log600_fix(t) >= 0;
    }
}

/// Speed curve law: for a fixed difficulty the tick interval never
/// grows with the score, stays between the positive floor and one
/// second, and *strictly* shrinks with the score wherever it has not
/// yet reached the floor (scores beyond the largest reachable one are
/// all clamped at the floor).
pub proof fn lemma_speed_monotone(d: Difficulty, s1: int, s2: int)
    requires
        0 <= s1 <= s2,
    ensures
        interval_us_spec(d, s2) <= interval_us_spec(d, s1),
        MIN_TICK_US <= interval_us_spec(d, s1) <= 1000000,
        MIN_TICK_US <= interval_us_spec(d, s2) <= 1000000,
        (s1 < s2 && interval_us_spec(d, s1) != MIN_TICK_US)
            ==> interval_us_spec(d, s2) < interval_us_spec(d, s1),
{
    lemma_interval_bounds(d, s1);
    lemma_interval_bounds(d, s2);
    if s1 < s2 && s2 <= 598 {
        let t1 = s1 + base_rate(d);
        let t2 = s2 + base_rate(d);
        lemma_fix_strict(t1, t2);
        let m1 = log600_fix(t1);
        let m2 = log600_fix(t2);
        lemma_fix_bracket(t1);
        lemma_fix_bracket(t2);
        // two extra steps push the subtrahend up by at least one
        assert(m2 * 1000000 >= m1 * 1000000 + 2000000) by (nonlinear_arith)
            requires m2 >= m1 + 2;
        lemma_div_is_ordered(m1 * 1000000 + 1048576, m2 * 1000000, 1048576);
        lemma_div_plus_one(m1 * 1000000, 1048576);
        assert(m2 * 1000000 / 1048576 >= m1 * 1000000 / 1048576 + 1);
    }
}

/// The fixed-point logarithm, computed by twenty squarings in 128-bit
/// arithmetic.
fn log600_fix_exec(t: u32) -> (m: u32)
    requires
        2 <= t <= 1000,
    ensures
        m == log600_fix(t as int),
        m < 2097152,
{
    let q: u128 = 0x200000000000;
    let mut x: u128;
    let mut m: u32;
    if t >= 600 {
        x = (t as u128) * q / 600;
        m = 1;
    } else {
        x = (t as u128) * q;
        m = 0;
    }
    let mut k: usize = 0;
    while k < 20
        invariant
            2 <= t <= 1000,
            q == fp_scale(),
            k <= 20,
            x == approx_x(t as int, k as nat),
            m == approx_m(t as int, k as nat),
        decreases 20 - k,
    {
        proof {
            lemma_approx_invariants(t as int, k as nat);
            lemma_pow2_values();
            lemma_pow_increases(2, (k + 1) as nat, 21nat);
            assert(x * x < 0x10000000000000000000000000000) by (nonlinear_arith)
                requires x < 600 * 0x200000000000;
        }
        let xx = x * x / q;
        if xx >= 600 * q {
            x = xx / 600;
            m = 2 * m + 1;
        } else {
            x = xx;
            m = 2 * m;
        }
        k = k + 1;
    }
    proof {
        lemma_fix_bracket(t as int);
    }
    m
}

/// The tick interval for a score and difficulty, in microseconds.
pub fn compute_interval_us(d: Difficulty, score: u32) -> (us: u32)
    ensures
        us == interval_us_spec(d, score as int),
        MIN_TICK_US <= us <= 1000000,
{
    proof {
        lemma_interval_bounds(d, score as int);
    }
    if score > 598 {
        return MIN_TICK_US;
    }
    let base: u32 = match d {
        Difficulty::Simple => 2,
        Difficulty::Regular => 20,
        Difficulty::Hard => 200,
    };
    let t = score + base;
    let m = log600_fix_exec(t);
    let sub = (m as u64) * 1000000 / 1048576;
    if sub > (1000000 - MIN_TICK_US) as u64 {
        MIN_TICK_US
    } else {
        1000000 - (sub as u32)
    }
}

} // verus!
