//! Arithmetic that loses nothing: what the operations give where the exact result is a number
//! that can be held.

use vstd::arithmetic::power2::*;
use vstd::prelude::*;

use crate::rounding;
use crate::single;
use crate::single::Single;

verus! {

/// An exact result that can be held is what comes out.
pub proof fn lemma_held(s: Single, d: nat)
    requires
        s.finite(),
        d > 0,
    ensures
        single::rounded(s.negative(), s.magnitude() * d, d) == s,
{
    single::lemma_multiple_rounds_back(s, d);
    single::lemma_rounded(s, s.negative(), s.magnitude() * d, d);
}

/// Zero is the whole number 0.
pub proof fn lemma_whole_zero()
    ensures
        single::whole(0) == single::zero(false),
        single::zero(false).finite(),
        single::zero(false).value() == 0,
        single::zero(true).finite(),
        single::zero(true).value() == 0,
{
    single::lemma_whole_exact(0);
    single::lemma_zero_magnitude(single::whole(0));
    single::lemma_zero_magnitude(single::zero(false));
    single::lemma_zero_magnitude(single::zero(true));
    assert(0 * pow2(149) == 0);
    single::lemma_same_magnitude(single::whole(0), single::zero(false));
}

/// The magnitude of a whole number.
pub proof fn lemma_whole_magnitude(i: int)
    requires
        -0x100_0000 < i < 0x100_0000,
    ensures
        i >= 0 ==> single::whole(i).magnitude() == i * pow2(149),
        i < 0 ==> single::whole(i).magnitude() == (-i) * pow2(149),
        single::whole(i).finite(),
        single::whole(i).negative() == (i < 0),
{
    single::lemma_whole_exact(i);
    assert((-i) * pow2(149) == -(i * pow2(149))) by (nonlinear_arith);
}

/// Whole numbers are added without loss.
pub proof fn lemma_whole_sum(a: int, b: int)
    requires
        -0x100_0000 < a < 0x100_0000,
        -0x100_0000 < b < 0x100_0000,
        -0x100_0000 < a + b < 0x100_0000,
    ensures
        single::sum(single::whole(a), single::whole(b)) == single::whole(a + b),
{
    single::lemma_whole_exact(a);
    single::lemma_whole_exact(b);
    lemma_whole_zero();
    let v: int = (a + b) * pow2(149);
    assert(v == a * pow2(149) + b * pow2(149)) by (nonlinear_arith)
        requires
            v == (a + b) * pow2(149),
    ;
    assert(-v == (-(a + b)) * pow2(149)) by (nonlinear_arith)
        requires
            v == (a + b) * pow2(149),
    ;
    if a + b > 0 {
        single::lemma_units_order(0, a + b);
    } else if a + b < 0 {
        single::lemma_units_order(a + b, 0);
    }
}

/// The other sign of a whole number.
pub proof fn lemma_whole_negated(a: int)
    requires
        -0x100_0000 < a < 0x100_0000,
        a != 0,
    ensures
        single::negated(single::whole(a)) == single::whole(-a),
{
    lemma_whole_magnitude(a);
    lemma_whole_magnitude(-a);
    single::lemma_same_magnitude(single::negated(single::whole(a)), single::whole(-a));
}

/// Whole numbers are subtracted without loss.
pub proof fn lemma_whole_difference(a: int, b: int)
    requires
        -0x100_0000 < a < 0x100_0000,
        -0x100_0000 < b < 0x100_0000,
        -0x100_0000 < a - b < 0x100_0000,
    ensures
        single::difference(single::whole(a), single::whole(b)) == single::whole(a - b),
{
    if b != 0 {
        lemma_whole_negated(b);
        lemma_whole_sum(a, -b);
        assert(a + (-b) == a - b);
    } else {
        lemma_whole_zero();
        single::lemma_whole_exact(a);
        let w: Single = single::whole(a);
        assert(single::negated(single::whole(0)) == single::zero(true));
        if a != 0 {
            if a > 0 {
                single::lemma_units_order(0, a);
            } else {
                single::lemma_units_order(a, 0);
            }
            assert(0 * pow2(149) == 0);
            lemma_plus_zero(w, single::zero(true));
        } else {
            assert(w == single::zero(false));
            assert(single::sum(w, single::zero(true)) == single::zero(false));
        }
        assert(a - b == a);
    }
}

/// Whole numbers are multiplied without loss.
pub proof fn lemma_whole_product(a: int, b: int)
    requires
        0 <= a < 0x100_0000,
        0 <= b < 0x100_0000,
        a * b < 0x100_0000,
    ensures
        single::product(single::whole(a), single::whole(b)) == single::whole(a * b),
{
    lemma_whole_magnitude(a);
    lemma_whole_magnitude(b);
    assert(0 <= a * b) by (nonlinear_arith)
        requires
            0 <= a,
            0 <= b,
    ;
    lemma_whole_magnitude(a * b);
    lemma_pow2_pos(149);
    let u: nat = pow2(149);
    let w: Single = single::whole(a * b);
    assert((a * u) * (b * u) == ((a * b) * u) * u) by (nonlinear_arith);
    lemma_held(w, u);
}

/// Multiplying by 1 changes nothing.
pub proof fn lemma_times_one(x: Single)
    requires
        x.finite(),
    ensures
        single::product(x, single::whole(1)) == x,
        single::product(single::whole(1), x) == x,
{
    lemma_whole_magnitude(1);
    lemma_pow2_pos(149);
    let u: nat = pow2(149);
    assert(1 * u == u);
    assert(u * x.magnitude() == x.magnitude() * u) by (nonlinear_arith);
    lemma_held(x, u);
}

/// Adding a zero keeps the value.
pub proof fn lemma_plus_zero(x: Single, z: Single)
    requires
        x.finite(),
        z.finite(),
        z.value() == 0,
    ensures
        single::sum(x, z).finite(),
        single::sum(x, z).value() == x.value(),
        single::sum(z, x).finite(),
        single::sum(z, x).value() == x.value(),
        x.value() != 0 ==> single::sum(x, z) == x && single::sum(z, x) == x,
{
    lemma_whole_zero();
    if x.value() != 0 {
        lemma_held(x, 1);
        assert(x.magnitude() * 1 == x.magnitude());
    }
}

/// Dividing by a power of two as small as needed, as multiplying by a whole number, is exact where
/// the result is a number that can be held.
pub proof fn lemma_quotient_held(a: Single, b: Single, q: Single)
    requires
        a.finite(),
        b.finite(),
        q.finite(),
        b.magnitude() > 0,
        a.magnitude() * pow2(149) == q.magnitude() * b.magnitude(),
        q.negative() == (a.negative() != b.negative()),
    ensures
        single::quotient(a, b) == q,
{
    lemma_held(q, b.magnitude());
}

// ---------------------------------------------------------------------------
// Results that are close
// ---------------------------------------------------------------------------

/// A rounded result that is neither tiny nor huge is off by one part in 2^24 at most.
pub proof fn lemma_rounded_close(neg: bool, n: nat, d: nat)
    requires
        d > 0,
        0x100_0000 * d <= n,
        n <= pow2(200) * d,
    ensures
        single::rounded(neg, n, d).finite(),
        single::rounded(neg, n, d).negative() == neg,
        0x100_0000 * (single::rounded(neg, n, d).magnitude() * d) <= 0x100_0000 * n + n,
        0x100_0000 * n <= 0x100_0000 * (single::rounded(neg, n, d).magnitude() * d) + n,
{
    assert(pow2(24) == 0x100_0000) by {
        lemma2_to64();
    }
    single::lemma_rounded_rounds(neg, n, d);
    rounding::lemma_nearest_close(n, d, 24);
    let m: nat = rounding::nearest(n, d, 24);
    assert(m * d <= 2 * n) by (nonlinear_arith)
        requires
            0x100_0000 * (m * d) <= 0x100_0000 * n + n,
            n >= 0,
    ;
    lemma_pow2_pos(200);
    assert(m <= 2 * pow2(200)) by (nonlinear_arith)
        requires
            m * d <= 2 * n,
            n <= pow2(200) * d,
            d > 0,
    ;
    lemma_pow2_unfold(201);
    lemma_pow2_strictly_increases(201, 277);
}

/// The unit is large.
pub proof fn lemma_unit_is_large()
    ensures
        pow2(149) >= 0x1_0000_0000_0000_0000_0000,
        pow2(200) >= 0x1_0000_0000_0000 * pow2(149),
        pow2(200) >= 0x10_0000_0000_0000,
{
    lemma2_to64();
    lemma2_to64_rest();
    lemma_pow2_adds(64, 16);
    rounding::lemma_pow2_monotone(80, 149);
    rounding::lemma_pow2_monotone(80, 200);
    lemma_pow2_adds(48, 149);
    rounding::lemma_pow2_monotone(197, 200);
}

/// The closest single to a fraction of whole numbers.
pub proof fn lemma_ratio_close(num: nat, den: nat)
    requires
        0 < num < 0x100_0000,
        0 < den < 0x100_0000,
    ensures
        single::ratio(num as int, den as int).finite(),
        !single::ratio(num as int, den as int).negative(),
        0x100_0000 * (single::ratio(num as int, den as int).magnitude() * den) <= 0x100_0000 * (num
            * pow2(149)) + num * pow2(149),
        0x100_0000 * (num * pow2(149)) <= 0x100_0000 * (single::ratio(
            num as int,
            den as int,
        ).magnitude() * den) + num * pow2(149),
{
    let u: nat = pow2(149);
    lemma_unit_is_large();
    lemma_whole_magnitude(num as int);
    lemma_whole_magnitude(den as int);
    single::lemma_zero_magnitude(single::whole(num as int));
    single::lemma_zero_magnitude(single::whole(den as int));
    let n: nat = num * u * u;
    let d: nat = den * u;
    assert(d > 0 && num * u > 0) by (nonlinear_arith)
        requires
            d == den * u,
            den > 0,
            num > 0,
            u > 0,
    ;
    assert(0x100_0000 * d <= n) by (nonlinear_arith)
        requires
            n == num * u * u,
            d == den * u,
            num >= 1,
            den < 0x100_0000,
            u >= 0x1_0000_0000_0000_0000_0000,
    ;
    assert(n <= pow2(200) * d) by (nonlinear_arith)
        requires
            n == num * u * u,
            d == den * u,
            num < 0x100_0000,
            den >= 1,
            pow2(200) >= 0x1_0000_0000_0000 * u,
    ;
    lemma_rounded_close(false, n, d);
    let m: nat = single::ratio(num as int, den as int).magnitude();
    let x: nat = m * den;
    let y: nat = num * u;
    assert(m * d == x * u && n == y * u) by (nonlinear_arith)
        requires
            d == den * u,
            x == m * den,
            y == num * u,
            n == num * u * u,
    ;
    assert(0x100_0000 * x <= 0x100_0000 * y + y && 0x100_0000 * y <= 0x100_0000 * x + y)
        by (nonlinear_arith)
        requires
            0x100_0000 * (x * u) <= 0x100_0000 * (y * u) + y * u,
            0x100_0000 * (y * u) <= 0x100_0000 * (x * u) + y * u,
            u > 0,
    ;
}

/// A whole number times a single that is neither tiny nor huge.
pub proof fn lemma_whole_times_close(n: nat, r: Single)
    requires
        0 < n < 0x100_0000,
        r.finite(),
        !r.negative(),
        0x100_0000 <= r.magnitude() <= 0x100_0000 * pow2(149),
    ensures
        ({
            let p = single::product(single::whole(n as int), r);
            let q = single::product(r, single::whole(n as int));
            &&& p == q
            &&& p.finite() && !p.negative()
            &&& 0x100_0000 * p.magnitude() <= 0x100_0000 * (n * r.magnitude()) + n * r.magnitude()
            &&& 0x100_0000 * (n * r.magnitude()) <= 0x100_0000 * p.magnitude() + n * r.magnitude()
        }),
{
    let u: nat = pow2(149);
    lemma_unit_is_large();
    lemma_whole_magnitude(n as int);
    let w: nat = single::whole(n as int).magnitude();
    let x: nat = n * r.magnitude();
    let e: nat = w * r.magnitude();
    assert(e == x * u && r.magnitude() * w == e) by (nonlinear_arith)
        requires
            e == w * r.magnitude(),
            w == n * u,
            x == n * r.magnitude(),
    ;
    assert(0x100_0000 <= x <= pow2(200)) by (nonlinear_arith)
        requires
            x == n * r.magnitude(),
            0 < n < 0x100_0000,
            0x100_0000 <= r.magnitude() <= 0x100_0000 * u,
            pow2(200) >= 0x1_0000_0000_0000 * u,
    ;
    assert(0x100_0000 * u <= e && e <= pow2(200) * u) by (nonlinear_arith)
        requires
            e == x * u,
            0x100_0000 <= x <= pow2(200),
    ;
    lemma_rounded_close(false, e, u);
    let m: nat = single::product(single::whole(n as int), r).magnitude();
    assert(0x100_0000 * m <= 0x100_0000 * x + x && 0x100_0000 * x <= 0x100_0000 * m + x)
        by (nonlinear_arith)
        requires
            0x100_0000 * (m * u) <= 0x100_0000 * (x * u) + x * u,
            0x100_0000 * (x * u) <= 0x100_0000 * (m * u) + x * u,
            u > 0,
    ;
}

/// The whole number closest to a magnitude is off by half at most.
pub proof fn lemma_units_close(x: Single)
    ensures
        2 * (single::units_of(x) * pow2(149)) <= 2 * x.magnitude() + pow2(149),
        2 * x.magnitude() < 2 * (single::units_of(x) * pow2(149)) + pow2(149),
{
    let u: nat = pow2(149);
    lemma_pow2_pos(149);
    let p: nat = single::units_of(x);
    let n: nat = 2 * x.magnitude() + u;
    vstd::arithmetic::div_mod::lemma_fundamental_div_mod(n as int, (2 * u) as int);
    vstd::arithmetic::div_mod::lemma_mod_bound(n as int, (2 * u) as int);
    assert((2 * u) * p == 2 * (p * u)) by (nonlinear_arith);
}

/// A share of a whole number, brought to the closest whole number: it is off by half at most, but
/// for the two roundings on the way.
#[verifier::spinoff_prover]
pub proof fn lemma_share(n: nat, num: nat, den: nat)
    requires
        0 < n < 0x100_0000,
        0 < num <= den < 0x100_0000,
    ensures
        ({
            let p = single::rounded_index(
                single::product(
                    single::whole(n as int),
                    single::ratio(num as int, den as int),
                ),
            );
            &&& 0x100_0000 * (2 * (den * p)) <= 0x100_0000 * (2 * (num * n) + den) + 5 * (num * n)
            &&& 0x100_0000 * (2 * (num * n)) <= 0x100_0000 * (2 * (den * p) + den) + 5 * (num * n)
        }),
{
    let u: nat = pow2(149);
    lemma_unit_is_large();
    lemma_ratio_close(num, den);
    let rs: Single = single::ratio(num as int, den as int);
    let r: nat = rs.magnitude();
    let rd: nat = r * den;
    let nu: nat = num * u;
    assert(rd <= 2 * nu && nu <= 2 * rd);
    assert(r <= 2 * u) by (nonlinear_arith)
        requires
            rd == r * den,
            nu == num * u,
            rd <= 2 * nu,
            num <= den,
            den > 0,
    ;
    assert(r >= 0x100_0000) by (nonlinear_arith)
        requires
            rd == r * den,
            nu == num * u,
            nu <= 2 * rd,
            num >= 1,
            den < 0x100_0000,
            u >= 0x1_0000_0000_0000_0000_0000,
    ;
    lemma_whole_times_close(n, rs);
    let x: Single = single::product(single::whole(n as int), rs);
    let m: nat = x.magnitude();
    lemma_units_close(x);
    let p: nat = single::units_of(x);
    let nr: nat = n * r;
    assert(m <= 2 * nr);
    assert(nr <= 0x200_0000 * u) by (nonlinear_arith)
        requires
            nr == n * r,
            n < 0x100_0000,
            r <= 2 * u,
    ;
    assert(p < 0x800_0000) by (nonlinear_arith)
        requires
            2 * (p * u) <= 2 * m + u,
            m <= 0x400_0000 * u,
            u > 0,
    ;
    assert(single::rounded_index(x) == p);
    let a: nat = den * m;
    let b: nat = n * rd;
    let c: nat = (num * n) * u;
    let dp: nat = (den * p) * u;
    let du: nat = den * u;
    assert(0x100_0000 * b <= 0x100_0000 * c + c && 0x100_0000 * c <= 0x100_0000 * b + c)
        by (nonlinear_arith)
        requires
            0x100_0000 * rd <= 0x100_0000 * nu + nu,
            0x100_0000 * nu <= 0x100_0000 * rd + nu,
            b == n * rd,
            c == (num * n) * u,
            nu == num * u,
    ;
    assert(0x100_0000 * a <= 0x100_0000 * b + b && 0x100_0000 * b <= 0x100_0000 * a + b)
        by (nonlinear_arith)
        requires
            0x100_0000 * m <= 0x100_0000 * nr + nr,
            0x100_0000 * nr <= 0x100_0000 * m + nr,
            a == den * m,
            b == n * rd,
            rd == r * den,
            nr == n * r,
    ;
    assert(2 * dp <= 2 * a + du && 2 * a <= 2 * dp + du) by (nonlinear_arith)
        requires
            2 * (p * u) <= 2 * m + u,
            2 * m <= 2 * (p * u) + u,
            a == den * m,
            dp == (den * p) * u,
            du == den * u,
    ;
    assert(0x100_0000 * (2 * dp) <= 0x100_0000 * (2 * c + du) + 5 * c);
    assert(0x100_0000 * (2 * c) <= 0x100_0000 * (2 * dp + du) + 5 * c);
    let k: nat = den * p;
    let l: nat = num * n;
    assert(0x100_0000 * (2 * k) <= 0x100_0000 * (2 * l + den) + 5 * l && 0x100_0000 * (2 * l)
        <= 0x100_0000 * (2 * k + den) + 5 * l) by (nonlinear_arith)
        requires
            0x100_0000 * (2 * dp) <= 0x100_0000 * (2 * c + du) + 5 * c,
            0x100_0000 * (2 * c) <= 0x100_0000 * (2 * dp + du) + 5 * c,
            dp == k * u,
            c == l * u,
            du == den * u,
            u > 0,
    ;
}

/// A number is 24 bits at most, times a power of two.
pub proof fn lemma_magnitude_is_scaled(x: Single)
    requires
        x.finite(),
    ensures
        exists|a: nat, k: nat| a < 0x100_0000 && x.magnitude() == #[trigger] scaled(a, k),
{
    let b: nat = x.mag_bits();
    let e: nat = b / 0x80_0000;
    let f: nat = b % 0x80_0000;
    if e == 0 {
        assert(pow2(0) == 1) by {
            lemma2_to64();
        }
        assert(scaled(f, 0) == f);
    } else {
        assert(x.magnitude() == scaled(0x80_0000 + f, (e - 1) as nat));
    }
}

/// `a` times `2^k`.
pub open spec fn scaled(a: nat, k: nat) -> nat {
    a * pow2(k)
}

/// Multiplying by a power of two is exact as long as the result can be held.
pub proof fn lemma_times_power(x: Single, j: nat)
    requires
        x.finite(),
        j < 24,
        x.magnitude() * pow2(j) < single::overflow_bound(),
    ensures
        ({
            let p = single::product(x, single::whole(pow2(j) as int));
            &&& p.finite()
            &&& p.magnitude() == x.magnitude() * pow2(j)
            &&& p.negative() == x.negative()
            &&& p.value() == x.value() * pow2(j)
        }),
{
    let u: nat = pow2(149);
    lemma_pow2_pos(149);
    lemma_pow2_pos(j);
    lemma_pow2_strictly_increases(j, 24);
    assert(pow2(24) == 0x100_0000) by {
        lemma2_to64();
    }
    let w: nat = pow2(j);
    lemma_whole_magnitude(w as int);
    lemma_magnitude_is_scaled(x);
    let (a, k) = choose|a: nat, k: nat| a < 0x100_0000 && x.magnitude() == #[trigger] scaled(a, k);
    lemma_pow2_adds(k, j);
    let m: nat = x.magnitude();
    let e: nat = m * (w * u);
    assert(e == (a * pow2(k + j)) * u && a * pow2(k + j) == m * w) by (nonlinear_arith)
        requires
            e == m * (w * u),
            m == a * pow2(k),
            pow2(k + j) == pow2(k) * w,
    ;
    rounding::lemma_nearest_keeps(a, k + j, u, 24);
    single::lemma_rounded_rounds(x.negative(), e, u);
    assert((-(m as int)) * w == -(m * w)) by (nonlinear_arith);
}

/// Dividing by a power of two is exact as long as nothing is cut off.
pub proof fn lemma_over_power(x: Single, j: nat, k: nat, a: nat)
    requires
        x.finite(),
        j < 128,
        a < 0x100_0000,
        x.magnitude() == scaled(a, k),
        j <= k,
        single::whole(pow2(j) as int).finite(),
        !single::whole(pow2(j) as int).negative(),
        single::whole(pow2(j) as int).magnitude() == pow2(j) * pow2(149),
    ensures
        ({
            let q = single::quotient(x, single::whole(pow2(j) as int));
            &&& q.finite()
            &&& q.magnitude() * pow2(j) == x.magnitude()
            &&& q.negative() == x.negative()
            &&& q.value() * pow2(j) == x.value()
        }),
{
    let u: nat = pow2(149);
    lemma_pow2_pos(149);
    lemma_pow2_pos(j);
    let w: nat = pow2(j);
    let d: nat = w * u;
    let t: nat = (k - j) as nat;
    lemma_pow2_adds(t, j);
    assert(pow2(24) == 0x100_0000) by {
        lemma2_to64();
    }
    assert(d > 0) by (nonlinear_arith)
        requires
            d == w * u,
            w > 0,
            u > 0,
    ;
    let m: nat = x.magnitude();
    let n: nat = m * u;
    let r: nat = a * pow2(t);
    assert(n == r * d && r * w == m) by (nonlinear_arith)
        requires
            n == m * u,
            m == a * pow2(k),
            pow2(k) == pow2(t) * w,
            r == a * pow2(t),
            d == w * u,
    ;
    rounding::lemma_nearest_keeps(a, t, d, 24);
    single::lemma_rounded_rounds(x.negative(), n, d);
    single::lemma_finite_magnitude(x);
    assert(r <= m) by (nonlinear_arith)
        requires
            r * w == m,
            w >= 1,
    ;
    single::lemma_zero_magnitude(single::whole(w as int));
    let q: Single = single::quotient(x, single::whole(w as int));
    assert(q.magnitude() == r);
    assert((-(r as int)) * w == -(r * w)) by (nonlinear_arith);
}

/// Powers of two are singles themselves.
pub proof fn lemma_whole_power(j: nat)
    requires
        j < 128,
    ensures
        single::whole(pow2(j) as int).finite(),
        !single::whole(pow2(j) as int).negative(),
        single::whole(pow2(j) as int).magnitude() == pow2(j) * pow2(149),
{
    lemma_pow2_pos(j);
    lemma_pow2_pos(149);
    lemma_pow2_adds(j, 149);
    assert(pow2(24) == 0x100_0000) by {
        lemma2_to64();
    }
    let n: nat = pow2(j) * pow2(149);
    rounding::lemma_nearest_keeps(1, j + 149, 1, 24);
    assert((1 * pow2(j + 149)) * 1 == n && 1 * pow2(j + 149) == n);
    single::lemma_rounded_rounds(false, n, 1);
    lemma_pow2_strictly_increases(j + 149, 277);
}

/// The closest single to a whole number of up to 32 bits.
pub proof fn lemma_whole_close(n: nat)
    requires
        0 < n < 0x1_0000_0000,
    ensures
        single::whole(n as int).finite(),
        !single::whole(n as int).negative(),
        single::whole(-(n as int)).finite(),
        single::whole(-(n as int)).negative(),
        single::whole(-(n as int)).magnitude() == single::whole(n as int).magnitude(),
        0x100_0000 * single::whole(n as int).magnitude() <= 0x100_0000 * (n * pow2(149)) + n * pow2(
            149,
        ),
        0x100_0000 * (n * pow2(149)) <= 0x100_0000 * single::whole(n as int).magnitude() + n * pow2(
            149,
        ),
{
    let u: nat = pow2(149);
    lemma_unit_is_large();
    let v: nat = n * u;
    assert(u <= v <= 0x1_0000_0000 * u) by (nonlinear_arith)
        requires
            v == n * u,
            1 <= n < 0x1_0000_0000,
            u > 0,
    ;
    assert(v * 1 == v && pow2(200) * 1 == pow2(200));
    lemma_rounded_close(false, v, 1);
    lemma_rounded_close(true, v, 1);
    single::lemma_rounded_rounds(false, v, 1);
    single::lemma_rounded_rounds(true, v, 1);
    let m: nat = single::whole(n as int).magnitude();
    assert(m * 1 == m);
    assert(-(-(n as int)) == n);
}

} // verus!
