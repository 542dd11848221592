//! Rounding to a bounded number of significant bits, ties to even.
//!
//! Quantities here are non-negative rationals, written as a numerator `n` over a positive
//! denominator `d`. `nearest(n, d, p)` is the value that IEEE-754 arithmetic with `p`
//! significant bits gives for `n / d`, in the unit in which `n / d` is counted; the unit itself
//! is the finest step, so values below `2^p` units are rounded to whole units.
use vstd::arithmetic::div_mod::*;
use vstd::arithmetic::mul::*;
use vstd::arithmetic::power2::*;
use vstd::prelude::*;

verus! {

/// `n / d` rounded to a whole number, a tie going to the even neighbour.
pub open spec fn half_even(n: nat, d: nat) -> nat {
    let q = n / d;
    let r = n % d;
    if 2 * r < d || (2 * r == d && q % 2 == 0) {
        q
    } else {
        (q + 1) as nat
    }
}

/// `2^k` units is the step between neighbouring `p`-bit values around `n / d`.
pub open spec fn is_quantum(n: nat, d: nat, p: nat, k: nat) -> bool {
    &&& n < pow2(p) * (d * pow2(k))
    &&& k > 0 ==> n >= pow2(p) * (d * pow2((k - 1) as nat))
}

/// The exponent of the step between neighbouring `p`-bit values around `n / d`.
pub open spec fn quantum(n: nat, d: nat, p: nat) -> nat {
    choose|k: nat| is_quantum(n, d, p, k)
}

/// `n / d` rounded to `p` significant bits, ties to even.
pub open spec fn nearest(n: nat, d: nat, p: nat) -> nat {
    let k = quantum(n, d, p);
    half_even(n, d * pow2(k)) * pow2(k)
}

/// A larger exponent gives a larger power.
pub proof fn lemma_pow2_monotone(a: nat, b: nat)
    requires
        a <= b,
    ensures
        0 < pow2(a) <= pow2(b),
{
    lemma_pow2_pos(a);
    if a < b {
        lemma_pow2_strictly_increases(a, b);
    }
}

/// The step is unique.
pub proof fn lemma_quantum_unique(n: nat, d: nat, p: nat, k: nat)
    requires
        d > 0,
        is_quantum(n, d, p, k),
    ensures
        quantum(n, d, p) == k,
{
    let j: nat = quantum(n, d, p);
    assert(is_quantum(n, d, p, j));
    if j < k {
        lemma_step_order(d, p, j, (k - 1) as nat);
    } else if k < j {
        lemma_step_order(d, p, k, (j - 1) as nat);
    }
}

proof fn lemma_step_order(d: nat, p: nat, a: nat, b: nat)
    requires
        a <= b,
    ensures
        pow2(p) * (d * pow2(a)) <= pow2(p) * (d * pow2(b)),
{
    lemma_pow2_monotone(a, b);
    lemma_mul_inequality(pow2(a) as int, pow2(b) as int, d as int);
    lemma_mul_is_commutative(d as int, pow2(a) as int);
    lemma_mul_is_commutative(d as int, pow2(b) as int);
    lemma_mul_inequality((d * pow2(a)) as int, (d * pow2(b)) as int, pow2(p) as int);
    lemma_mul_is_commutative(pow2(p) as int, (d * pow2(a)) as int);
    lemma_mul_is_commutative(pow2(p) as int, (d * pow2(b)) as int);
}

/// Rounding `m + rem / g` to a multiple of `2^t` needs `m` and whether `rem` is zero, no more.
pub proof fn lemma_half_even_split(m: nat, g: nat, rem: nat, t: nat)
    requires
        rem < g,
        t >= 1,
    ensures
        half_even(m * g + rem, g * pow2(t)) == ({
            let q = m / pow2(t);
            let h = m % pow2(t);
            let half = pow2((t - 1) as nat);
            if h < half || (h == half && rem == 0 && q % 2 == 0) {
                q
            } else {
                (q + 1) as nat
            }
        }),
{
    let step: nat = pow2(t);
    let half: nat = pow2((t - 1) as nat);
    lemma_pow2_pos(t);
    lemma_pow2_pos((t - 1) as nat);
    lemma_pow2_unfold(t);
    let q: nat = m / step;
    let h: nat = m % step;
    lemma_fundamental_div_mod(m as int, step as int);
    let d: nat = g * step;
    let n: nat = m * g + rem;
    let r: nat = h * g + rem;
    assert(n == q * d + r) by (nonlinear_arith)
        requires
            m == step * q + h,
            d == g * step,
            n == m * g + rem,
            r == h * g + rem,
    ;
    assert(r < d) by (nonlinear_arith)
        requires
            h < step,
            rem < g,
            r == h * g + rem,
            d == g * step,
    ;
    lemma_fundamental_div_mod_converse(n as int, d as int, q as int, r as int);
    assert(d == 2 * (half * g)) by (nonlinear_arith)
        requires
            d == g * step,
            step == 2 * half,
    ;
    if h < half {
        assert(r < half * g) by (nonlinear_arith)
            requires
                h < half,
                rem < g,
                r == h * g + rem,
        ;
    } else if h > half {
        assert(r > half * g) by (nonlinear_arith)
            requires
                h > half,
                rem < g,
                r == h * g + rem,
        ;
    }
}

/// An exact multiple is rounded to itself.
pub proof fn lemma_half_even_exact(q: nat, d: nat)
    requires
        d > 0,
    ensures
        half_even(q * d, d) == q,
{
    lemma_fundamental_div_mod_converse((q * d) as int, d as int, q as int, 0);
}

/// The rounded quotient is within the bounds that the quotient itself respects.
pub proof fn lemma_half_even_bounds(n: nat, d: nat, lo: nat, hi: nat)
    requires
        d > 0,
        lo * d <= n <= hi * d,
    ensures
        lo <= half_even(n, d) <= hi,
{
    let q: nat = n / d;
    let r: nat = n % d;
    lemma_fundamental_div_mod(n as int, d as int);
    assert(lo <= q) by (nonlinear_arith)
        requires
            lo * d <= n,
            n == d * q + r,
            r < d,
    ;
    assert(q <= hi && (q == hi ==> r == 0)) by (nonlinear_arith)
        requires
            n <= hi * d,
            n == d * q + r,
            0 <= r < d,
    ;
}

/// A common factor makes no difference to the rounded quotient.
pub proof fn lemma_half_even_scaled(n: nat, d: nat, f: nat)
    requires
        d > 0,
        f > 0,
    ensures
        half_even(n * f, d * f) == half_even(n, d),
{
    let q: nat = n / d;
    let r: nat = n % d;
    lemma_fundamental_div_mod(n as int, d as int);
    lemma_mod_bound(n as int, d as int);
    assert(n * f == (d * f) * q + r * f && 0 <= r * f < d * f) by (nonlinear_arith)
        requires
            n == d * q + r,
            0 <= r < d,
            f > 0,
    ;
    assert(q * (d * f) + r * f == n * f) by (nonlinear_arith)
        requires
            n * f == (d * f) * q + r * f,
    ;
    lemma_fundamental_div_mod_converse(
        (n * f) as int,
        (d * f) as int,
        q as int,
        (r * f) as int,
    );
    assert(2 * (r * f) < d * f <==> 2 * r < d) by (nonlinear_arith)
        requires
            f > 0,
    ;
    assert(2 * (r * f) == d * f <==> 2 * r == d) by (nonlinear_arith)
        requires
            f > 0,
    ;
}

/// There is a step for every quotient.
pub proof fn lemma_quantum_exists(n: nat, d: nat, p: nat)
    requires
        d > 0,
    ensures
        is_quantum(n, d, p, quantum(n, d, p)),
{
    lemma_quantum_above(n, d, p, 0);
}

proof fn lemma_quantum_above(n: nat, d: nat, p: nat, k: nat)
    requires
        d > 0,
        k > 0 ==> n >= pow2(p) * (d * pow2((k - 1) as nat)),
    ensures
        exists|j: nat| is_quantum(n, d, p, j),
    decreases n - pow2(p) * (d * pow2(k)) + 1,
{
    let step: nat = pow2(p) * (d * pow2(k));
    if n < step {
        assert(is_quantum(n, d, p, k));
    } else {
        lemma_pow2_unfold(k + 1);
        lemma_pow2_pos(k);
        lemma_pow2_pos(p);
        let next: nat = pow2(p) * (d * pow2(k + 1));
        assert(next == 2 * step && step > 0) by (nonlinear_arith)
            requires
                next == pow2(p) * (d * pow2(k + 1)),
                step == pow2(p) * (d * pow2(k)),
                pow2(k + 1) == 2 * pow2(k),
                pow2(p) > 0,
                pow2(k) > 0,
                d > 0,
        ;
        if n < next {
            assert(is_quantum(n, d, p, k + 1));
        } else {
            lemma_quantum_above(n, d, p, k + 1);
        }
    }
}

/// Dividing by the same number keeps the order.
pub proof fn lemma_half_even_monotone(a: nat, b: nat, d: nat)
    requires
        d > 0,
        a <= b,
    ensures
        half_even(a, d) <= half_even(b, d),
{
    let q: nat = b / d;
    lemma_fundamental_div_mod(a as int, d as int);
    lemma_fundamental_div_mod(b as int, d as int);
    lemma_mod_bound(a as int, d as int);
    lemma_mod_bound(b as int, d as int);
    lemma_div_is_ordered(a as int, b as int, d as int);
    if a / d < q {
        assert(half_even(a, d) <= a / d + 1);
    } else {
        assert(a % d <= b % d);
    }
}

/// Rounding keeps the order.
pub proof fn lemma_nearest_monotone(a: nat, b: nat, d: nat, p: nat)
    requires
        d > 0,
        p >= 1,
        a <= b,
    ensures
        nearest(a, d, p) <= nearest(b, d, p),
{
    let j: nat = quantum(a, d, p);
    let k: nat = quantum(b, d, p);
    lemma_quantum_exists(a, d, p);
    lemma_quantum_exists(b, d, p);
    lemma_pow2_pos(j);
    lemma_pow2_pos(k);
    let sj: nat = d * pow2(j);
    let sk: nat = d * pow2(k);
    assert(sj > 0 && sk > 0) by (nonlinear_arith)
        requires
            sj == d * pow2(j),
            sk == d * pow2(k),
            d > 0,
            pow2(j) > 0,
            pow2(k) > 0,
    ;
    let hj: nat = half_even(a, sj);
    let hk: nat = half_even(b, sk);
    if j == k {
        lemma_half_even_monotone(a, b, sj);
        lemma_mul_inequality(hj as int, hk as int, pow2(j) as int);
    } else if j < k {
        lemma_half_even_bounds(a, sj, 0, pow2(p));
        lemma_pow2_unfold(p);
        lemma_pow2_unfold(k);
        let low: nat = pow2((p - 1) as nat);
        assert(low * sk <= b) by (nonlinear_arith)
            requires
                b >= pow2(p) * (d * pow2((k - 1) as nat)),
                pow2(p) == 2 * low,
                pow2(k) == 2 * pow2((k - 1) as nat),
                sk == d * pow2(k),
        ;
        assert(b <= pow2(p) * sk);
        lemma_half_even_bounds(b, sk, low, pow2(p));
        lemma_pow2_monotone(j + 1, k);
        lemma_pow2_unfold(j + 1);
        assert(hj * pow2(j) <= hk * pow2(k)) by (nonlinear_arith)
            requires
                hj <= pow2(p),
                hk >= low,
                pow2(p) == 2 * low,
                pow2(k) >= 2 * pow2(j),
                pow2(j) > 0,
        ;
    } else {
        // The step cannot shrink as the number grows.
        lemma_step_order(d, p, k, (j - 1) as nat);
        assert(false);
    }
}

/// The rounded quotient is off by half at most.
pub proof fn lemma_half_even_close(n: nat, d: nat)
    requires
        d > 0,
    ensures
        2 * (half_even(n, d) * d) <= 2 * n + d,
        2 * n <= 2 * (half_even(n, d) * d) + d,
{
    let q: nat = n / d;
    let r: nat = n % d;
    lemma_fundamental_div_mod(n as int, d as int);
    lemma_mod_bound(n as int, d as int);
    assert(q * d + r == n) by (nonlinear_arith)
        requires
            n == d * q + r,
    ;
    assert((q + 1) * d == q * d + d) by (nonlinear_arith);
}

/// Rounding to `p` bits is off by half a step at most, which is at most one part in `2^p` where the
/// value has more bits than are kept.
pub proof fn lemma_nearest_close(n: nat, d: nat, p: nat)
    requires
        d > 0,
    ensures
        pow2(p) * d <= n ==> pow2(p) * (nearest(n, d, p) * d) <= pow2(p) * n + n,
        pow2(p) * d <= n ==> pow2(p) * n <= pow2(p) * (nearest(n, d, p) * d) + n,
{
    let k: nat = quantum(n, d, p);
    lemma_quantum_exists(n, d, p);
    lemma_pow2_pos(k);
    lemma_pow2_pos(p);
    let q: nat = pow2(k);
    let step: nat = d * q;
    assert(step > 0) by (nonlinear_arith)
        requires
            step == d * q,
            d > 0,
            q > 0,
    ;
    let h: nat = half_even(n, step);
    lemma_half_even_close(n, step);
    let r: nat = nearest(n, d, p);
    assert(r * d == h * step) by (nonlinear_arith)
        requires
            r == h * q,
            step == d * q,
    ;
    if pow2(p) * d <= n {
        if k == 0 {
            lemma2_to64();
            assert(step == d) by (nonlinear_arith)
                requires
                    step == d * q,
                    q == 1,
            ;
            assert(false);
        }
        let j: nat = (k - 1) as nat;
        lemma_pow2_unfold(k);
        let half: nat = d * pow2(j);
        assert(step == 2 * half) by (nonlinear_arith)
            requires
                step == d * q,
                half == d * pow2(j),
                q == 2 * pow2(j),
        ;
        let m: nat = pow2(p);
        assert(n >= m * half);
        assert(m * (h * step) <= m * n + n) by (nonlinear_arith)
            requires
                2 * (h * step) <= 2 * n + step,
                step == 2 * half,
                n >= m * half,
        ;
        assert(m * n <= m * (h * step) + n) by (nonlinear_arith)
            requires
                2 * n <= 2 * (h * step) + step,
                step == 2 * half,
                n >= m * half,
        ;
    }
}

/// A number of `p` bits at most, times a power of two, is kept as it is.
pub proof fn lemma_nearest_keeps(a: nat, k: nat, d: nat, p: nat)
    requires
        d > 0,
        a < pow2(p),
    ensures
        nearest((a * pow2(k)) * d, d, p) == a * pow2(k),
{
    let n: nat = (a * pow2(k)) * d;
    let j: nat = quantum(n, d, p);
    lemma_quantum_exists(n, d, p);
    lemma_pow2_pos(k);
    lemma_pow2_pos(j);
    if j > k {
        let h: nat = (j - 1) as nat;
        lemma_pow2_monotone(k, h);
        lemma_pow2_pos(h);
        assert(n < pow2(p) * (d * pow2(h))) by (nonlinear_arith)
            requires
                n == (a * pow2(k)) * d,
                a < pow2(p),
                pow2(k) <= pow2(h),
                pow2(k) > 0,
                d > 0,
        ;
        assert(false);
    }
    let t: nat = (k - j) as nat;
    lemma_pow2_adds(t, j);
    lemma_pow2_pos(t);
    let step: nat = d * pow2(j);
    let c: nat = a * pow2(t);
    assert(step > 0) by (nonlinear_arith)
        requires
            step == d * pow2(j),
            d > 0,
            pow2(j) > 0,
    ;
    assert(n == c * step && c * pow2(j) == a * pow2(k)) by (nonlinear_arith)
        requires
            n == (a * pow2(k)) * d,
            pow2(k) == pow2(t) * pow2(j),
            c == a * pow2(t),
            step == d * pow2(j),
    ;
    lemma_half_even_exact(c, step);
}

} // verus!
