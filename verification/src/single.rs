//! IEEE-754 single-precision numbers, carried by their bit pattern.
//!
//! A `Single` has the meaning of the 32-bit float with the same bits. Finite values are counted
//! in units of `2^-149`, the smallest positive single, so every finite value is an integer here
//! and the arithmetic can be stated exactly: each operation returns the exact result rounded to
//! 24 significant bits, ties to even.
use crate::rounding;
use vstd::arithmetic::div_mod::*;
use vstd::arithmetic::mul::*;
use vstd::arithmetic::power2::*;
use vstd::bits::*;
use vstd::prelude::*;

verus! {

/// Bits of the exponent's lowest digit, `2^23`.
pub const HIDDEN: u32 = 0x80_0000;

/// The sign bit.
pub const SIGN: u32 = 0x8000_0000;

/// The magnitude bits of infinity.
pub const INF_BITS: u32 = 0x7f80_0000;

/// A quiet NaN.
pub const NAN_BITS: u32 = 0x7fc0_0000;

/// A 32-bit float, by its bit pattern.
#[derive(Clone, Copy, PartialEq, Eq, Debug, Structural)]
pub struct Single {
    pub bits: u32,
}

/// The magnitude, in units of `2^-149`, that the low 31 bits `b` stand for.
pub open spec fn magnitude_of(b: nat) -> nat {
    let e = b / 0x80_0000;
    let f = b % 0x80_0000;
    if e == 0 {
        f
    } else {
        (0x80_0000 + f) * pow2((e - 1) as nat)
    }
}

/// One more than the largest finite magnitude can be rounded to: `2^128` in units of `2^-149`.
pub open spec fn overflow_bound() -> nat {
    pow2(277)
}

impl Single {
    /// The sign bit is set.
    pub open spec fn negative(self) -> bool {
        self.bits >= SIGN
    }

    /// The low 31 bits.
    pub open spec fn mag_bits(self) -> nat {
        (self.bits % SIGN) as nat
    }

    /// Neither infinite nor NaN.
    pub open spec fn finite(self) -> bool {
        self.mag_bits() < INF_BITS
    }

    /// One of the two infinities.
    pub open spec fn infinite(self) -> bool {
        self.mag_bits() == INF_BITS
    }

    /// Not a number.
    pub open spec fn nan(self) -> bool {
        self.mag_bits() > INF_BITS
    }

    /// The absolute value of a finite number, in units of `2^-149`.
    pub open spec fn magnitude(self) -> nat {
        magnitude_of(self.mag_bits())
    }

    /// The value of a finite number, in units of `2^-149`.
    pub open spec fn value(self) -> int {
        if self.negative() {
            -(self.magnitude() as int)
        } else {
            self.magnitude() as int
        }
    }

    /// This is what the exact magnitude `n / d`, with the given sign, is rounded to.
    pub open spec fn rounds(self, negative: bool, n: nat, d: nat) -> bool {
        let v = rounding::nearest(n, d, 24);
        &&& self.negative() == negative
        &&& if v >= overflow_bound() {
            self.infinite()
        } else {
            self.finite() && self.magnitude() == v
        }
    }
}

proof fn lemma_small_powers()
    ensures
        pow2(0) == 1,
        pow2(23) == 0x80_0000,
        pow2(24) == 0x100_0000,
        pow2(25) == 0x200_0000,
{
    lemma2_to64();
}

/// The magnitude that `k * 2^23 + q` stands for, `q` being a 24-bit significand scaled by `2^k`.
proof fn lemma_magnitude_of_parts(k: nat, q: nat)
    requires
        q <= 0x100_0000,
        k == 0 || q >= 0x80_0000,
    ensures
        magnitude_of(k * 0x80_0000 + q) == q * pow2(k),
        k * 0x80_0000 + q >= INF_BITS <==> q * pow2(k) >= overflow_bound(),
{
    let b: nat = k * 0x80_0000 + q;
    lemma2_to64();
    lemma_pow2_pos(k);
    if q < 0x80_0000 {
        assert(k == 0);
        assert(b / 0x80_0000 == 0 && b % 0x80_0000 == q);
        assert(q * pow2(k) == q) by (nonlinear_arith)
            requires
                pow2(k) == 1,
        ;
        rounding::lemma_pow2_monotone(23, 277);
    } else if q < 0x100_0000 {
        assert(b / 0x80_0000 == k + 1 && b % 0x80_0000 == q - 0x80_0000);
        lemma_scale_bound(k, q);
    } else {
        assert(b / 0x80_0000 == k + 2 && b % 0x80_0000 == 0);
        lemma_pow2_unfold(k + 1);
        assert(0x100_0000 * pow2(k) == 0x80_0000 * pow2(k + 1)) by (nonlinear_arith)
            requires
                pow2(k + 1) == 2 * pow2(k),
        ;
        lemma_scale_bound(k + 1, 0x80_0000);
    }
}

proof fn lemma_scale_bound(k: nat, q: nat)
    requires
        0x80_0000 <= q < 0x100_0000,
    ensures
        q * pow2(k) >= overflow_bound() <==> k >= 254,
{
    lemma2_to64();
    lemma_pow2_pos(k);
    lemma_pow2_adds(23, k);
    lemma_pow2_adds(24, k);
    lemma_mul_inequality(0x80_0000, q as int, pow2(k) as int);
    lemma_mul_strict_inequality(q as int, 0x100_0000, pow2(k) as int);
    if k >= 254 {
        rounding::lemma_pow2_monotone(277, 23 + k);
    } else {
        rounding::lemma_pow2_monotone(24 + k, 277);
    }
}

proof fn lemma_scale_bound_top(k: nat, q: nat)
    requires
        k >= 254,
        q >= 0x80_0000,
    ensures
        q * pow2(k) >= overflow_bound(),
{
    lemma_scale_bound(k, 0x80_0000);
    lemma_mul_inequality(0x80_0000, q as int, pow2(k) as int);
}

/// The number of binary digits of `m`.
pub(crate) fn bit_len(m: u128) -> (len: u32)
    requires
        m > 0,
    ensures
        1 <= len <= 128,
        pow2((len - 1) as nat) <= m < pow2(len as nat),
{
    let mut len: u32 = 0;
    let mut rest: u128 = m;
    proof {
        lemma2_to64();
        lemma_pow2_adds(64, 64);
        assert(0x1_0000_0000_0000_0000 * 0x1_0000_0000_0000_0000 == u128::MAX + 1)
            by (nonlinear_arith);
    }
    let steps: [u32; 7] = [64, 32, 16, 8, 4, 2, 1];
    let mut i: usize = 0;
    while i < 7
        invariant
            i <= 7,
            steps@ == seq![64u32, 32u32, 16u32, 8u32, 4u32, 2u32, 1u32],
            rest > 0,
            len as int + (if i == 0 { 128int } else { steps@[i - 1] as int }) <= 128,
            rest < pow2((if i == 0 { 128int } else { steps@[i - 1] as int }) as nat),
            rest as nat == m as nat / pow2(len as nat),
        decreases 7 - i,
    {
        let s: u32 = steps[i];
        proof {
            lemma_u128_shr_is_div(rest, s as u128);
            lemma_pow2_pos(s as nat);
            lemma_pow2_pos(len as nat);
            if rest >> (s as u128) != 0 {
                lemma_div_denominator(m as int, pow2(len as nat) as int, pow2(s as nat) as int);
                lemma_pow2_adds(len as nat, s as nat);
                lemma_pow2_adds(s as nat, s as nat);
                lemma_multiply_divide_lt(rest as int, pow2(s as nat) as int, pow2(s as nat) as int);
            } else {
                lemma_fundamental_div_mod(rest as int, pow2(s as nat) as int);
            }
        }
        let high: u128 = rest >> (s as u128);
        if high != 0 {
            rest = high;
            len = len + s;
        }
        i = i + 1;
    }
    proof {
        assert(rest == 1);
        lemma_pow2_pos(len as nat);
        lemma_fundamental_div_mod(m as int, pow2(len as nat) as int);
        lemma_pow2_unfold((len + 1) as nat);
    }
    len + 1
}

/// The quotient `n / d` read as `(m + rem / g) * 2^e` lies between two powers of two, which
/// fixes its rounding step.
proof fn lemma_pack_quantum(
    n: nat,
    d: nat,
    g: nat,
    rem: nat,
    m: nat,
    e: int,
    len: nat,
    k: nat,
)
    requires
        d > 0,
        rem < g,
        n == m * g + rem,
        e >= 0 ==> g == d * pow2(e as nat),
        e < 0 ==> d == g * pow2((-e) as nat),
        len >= 1,
        pow2((len - 1) as nat) <= m < pow2(len),
        k == if len + e - 24 > 0 {
            len + e - 24
        } else {
            0
        },
    ensures
        rounding::is_quantum(n, d, 24, k),
{
    let step: nat = d * pow2(k);
    let hi: nat = pow2(len) * g;
    assert(n < hi) by (nonlinear_arith)
        requires
            n == m * g + rem,
            rem < g,
            m + 1 <= pow2(len),
            hi == pow2(len) * g,
    ;
    let lo: nat = pow2((len - 1) as nat) * g;
    assert(n >= lo) by (nonlinear_arith)
        requires
            n == m * g + rem,
            m >= pow2((len - 1) as nat),
            lo == pow2((len - 1) as nat) * g,
    ;
    lemma_pack_scale(d, g, e, len, k);
    if k > 0 {
        lemma_pack_scale(d, g, e, (len - 1) as nat, (k - 1) as nat);
    }
}

proof fn lemma_pack_scale(d: nat, g: nat, e: int, len: nat, k: nat)
    requires
        e >= 0 ==> g == d * pow2(e as nat),
        e < 0 ==> d == g * pow2((-e) as nat),
        24 + k >= len + e,
    ensures
        pow2(len) * g <= pow2(24) * (d * pow2(k)),
        24 + k == len + e ==> pow2(len) * g == pow2(24) * (d * pow2(k)),
{
    if e >= 0 {
        lemma_pow2_adds(len, e as nat);
        lemma_pow2_adds(24, k);
        assert(pow2(len) * g == pow2((len + e) as nat) * d) by (nonlinear_arith)
            requires
                g == d * pow2(e as nat),
                pow2((len + e) as nat) == pow2(len) * pow2(e as nat),
        ;
        assert(pow2(24) * (d * pow2(k)) == pow2(24 + k) * d) by (nonlinear_arith)
            requires
                pow2(24 + k) == pow2(24) * pow2(k),
        ;
        rounding::lemma_pow2_monotone((len + e) as nat, 24 + k);
        lemma_mul_inequality(pow2((len + e) as nat) as int, pow2(24 + k) as int, d as int);
    } else {
        let f: nat = (-e) as nat;
        lemma_pow2_adds(24, k);
        lemma_pow2_adds(24 + k, f);
        assert(pow2(24) * (d * pow2(k)) == pow2(24 + k + f) * g) by (nonlinear_arith)
            requires
                d == g * pow2(f),
                pow2(24 + k) == pow2(24) * pow2(k),
                pow2(24 + k + f) == pow2(24 + k) * pow2(f),
        ;
        rounding::lemma_pow2_monotone(len, 24 + k + f);
        lemma_mul_inequality(pow2(len) as int, pow2(24 + k + f) as int, g as int);
    }
}

/// `d * 2^k` and `g * 2^t` are the same step when `t = k - e`.
proof fn lemma_pack_step(d: nat, g: nat, e: int, k: nat, t: nat)
    requires
        e >= 0 ==> g == d * pow2(e as nat),
        e < 0 ==> d == g * pow2((-e) as nat),
        t == k - e,
    ensures
        d * pow2(k) == g * pow2(t),
{
    if e >= 0 {
        lemma_pow2_adds(e as nat, t);
        assert(d * pow2(k) == g * pow2(t)) by (nonlinear_arith)
            requires
                g == d * pow2(e as nat),
                pow2(k) == pow2(e as nat) * pow2(t),
        ;
    } else {
        lemma_pow2_adds((-e) as nat, k);
        assert(d * pow2(k) == g * pow2(t)) by (nonlinear_arith)
            requires
                d == g * pow2((-e) as nat),
                pow2(t) == pow2((-e) as nat) * pow2(k),
        ;
    }
}

/// Shifting left multiplies by a power of two while nothing is shifted out.
#[verifier::rlimit(30)]
pub proof fn lemma_shl_is_mul(x: u128, s: u128)
    requires
        s < 128,
        x * pow2(s as nat) <= u128::MAX,
    ensures
        (x << s) == x * pow2(s as nat),
    decreases s,
{
    lemma2_to64();
    if s == 0 {
        assert(x << s == x) by (bit_vector)
            requires
                s == 0,
        ;
        assert(x * pow2(0) == x);
    } else {
        let p: u128 = (s - 1) as u128;
        lemma_pow2_unfold(s as nat);
        assert(x * pow2(s as nat) == 2 * (x * pow2(p as nat))) by (nonlinear_arith)
            requires
                pow2(s as nat) == 2 * pow2(p as nat),
        ;
        lemma_shl_is_mul(x, p);
        assert(x << s == (x << p) << 1u128) by (bit_vector)
            requires
                p == s - 1,
                0 < s < 128,
        ;
        let y: u128 = x << p;
        assert(y << 1u128 == 2 * y) by (bit_vector)
            requires
                y <= 0x7fff_ffff_ffff_ffff_ffff_ffff_ffff_ffff,
        ;
    }
}

/// `m / 2^t` rounded to even, where `sticky` tells that a little more than `m` was meant.
spec fn shifted(m: nat, t: nat, sticky: bool) -> nat {
    let lower = m / pow2(t);
    let h = m % pow2(t);
    let half = pow2((t - 1) as nat);
    if h < half || (h == half && !sticky && lower % 2 == 0) {
        lower
    } else {
        (lower + 1) as nat
    }
}

proof fn lemma_nearest_zero(d: nat)
    requires
        d > 0,
    ensures
        rounding::nearest(0, d, 24) == 0,
        overflow_bound() > 0,
{
    lemma_small_powers();
    assert(d * pow2(0) == d);
    assert(0 < pow2(24) * d) by (nonlinear_arith)
        requires
            d > 0,
            pow2(24) > 0,
    ;
    assert(rounding::is_quantum(0, d, 24, 0));
    rounding::lemma_quantum_unique(0, d, 24, 0);
    rounding::lemma_half_even_exact(0, d);
    lemma_pow2_pos(277);
}

/// `m / 2^t` rounded to even, `sticky` telling that a little more than `m` was meant.
fn round_shift(m: u128, t: u32, sticky: bool) -> (q: u128)
    requires
        1 <= t < 128,
    ensures
        q == shifted(m as nat, t as nat, sticky),
{
    proof {
        lemma_u128_shr_is_div(m, t as u128);
        lemma_pow2_pos(t as nat);
        lemma_pow2_pos((t - 1) as nat);
        lemma_fundamental_div_mod(m as int, pow2(t as nat) as int);
    }
    let lower: u128 = m >> (t as u128);
    proof {
        lemma_mul_is_commutative(pow2(t as nat) as int, lower as int);
        lemma_shl_is_mul(lower, t as u128);
        lemma2_to64();
        lemma_pow2_adds(64, 64);
        assert(0x1_0000_0000_0000_0000 * 0x1_0000_0000_0000_0000 == u128::MAX + 1)
            by (nonlinear_arith);
        lemma_pow2_strictly_increases((t - 1) as nat, 128);
        lemma_shl_is_mul(1, (t - 1) as u128);
    }
    let h: u128 = m - (lower << (t as u128));
    let half: u128 = 1u128 << ((t - 1) as u128);
    if h < half || (h == half && !sticky && lower % 2 == 0) {
        lower
    } else {
        proof {
            lemma_pow2_unfold(t as nat);
            assert(lower < u128::MAX) by (nonlinear_arith)
                requires
                    lower * pow2(t as nat) <= m,
                    pow2(t as nat) >= 2,
                    m <= u128::MAX,
            ;
        }
        lower + 1
    }
}

/// What rounding `(m + rem / g) * 2^e`, which is `n / d`, comes down to on `m` alone.
proof fn lemma_pack(n: nat, d: nat, g: nat, rem: nat, m: nat, e: int, len: nat, k: nat)
    requires
        d > 0,
        rem < g,
        n == m * g + rem,
        rem > 0 ==> len >= 26,
        e >= 0 ==> g == d * pow2(e as nat),
        e < 0 ==> d == g * pow2((-e) as nat),
        len >= 1,
        pow2((len - 1) as nat) <= m < pow2(len),
        k == if len + e - 24 > 0 {
            len + e - 24
        } else {
            0
        },
    ensures
        rounding::quantum(n, d, 24) == k,
        rounding::half_even(n, d * pow2(k)) <= 0x100_0000,
        k > 0 ==> rounding::half_even(n, d * pow2(k)) >= 0x80_0000,
        k - e <= 0 ==> rounding::half_even(n, d * pow2(k)) == m * pow2((e - k) as nat),
        k - e >= 1 ==> rounding::half_even(n, d * pow2(k)) == shifted(
            m,
            (k - e) as nat,
            rem > 0,
        ),
{
    let step: nat = d * pow2(k);
    lemma_pack_quantum(n, d, g, rem, m, e, len, k);
    rounding::lemma_quantum_unique(n, d, 24, k);
    lemma_pow2_pos(k);
    assert(step > 0) by (nonlinear_arith)
        requires
            d > 0,
            pow2(k) > 0,
            step == d * pow2(k),
    ;
    lemma_small_powers();
    if k > 0 {
        lemma_pow2_unfold(k);
        let below: nat = d * pow2((k - 1) as nat);
        assert(step == 2 * below) by (nonlinear_arith)
            requires
                step == d * pow2(k),
                below == d * pow2((k - 1) as nat),
                pow2(k) == 2 * pow2((k - 1) as nat),
        ;
        assert(n >= pow2(24) * below);
        assert(n < pow2(24) * step);
        assert(0x80_0000 * step <= n <= 0x100_0000 * step) by (nonlinear_arith)
            requires
                n >= pow2(24) * below,
                n < pow2(24) * step,
                pow2(24) == 0x100_0000,
                step == 2 * below,
        ;
        rounding::lemma_half_even_bounds(n, step, 0x80_0000, 0x100_0000);
    } else {
        assert(n <= 0x100_0000 * step) by (nonlinear_arith)
            requires
                n < pow2(24) * step,
                pow2(24) == 0x100_0000,
        ;
        rounding::lemma_half_even_bounds(n, step, 0, 0x100_0000);
    }
    if k - e <= 0 {
        let up: nat = (e - k) as nat;
        lemma_pow2_adds(up, k);
        let whole: nat = m * pow2(up);
        assert(n == whole * step) by (nonlinear_arith)
            requires
                n == m * g,
                g == d * pow2(e as nat),
                pow2(e as nat) == pow2(up) * pow2(k),
                step == d * pow2(k),
                whole == m * pow2(up),
        ;
        rounding::lemma_half_even_exact(whole, step);
    } else {
        lemma_pack_step(d, g, e, k, (k - e) as nat);
        rounding::lemma_half_even_split(m, g, rem, (k - e) as nat);
    }
}

/// Rounds `(m + rem / g) * 2^e`, which is `n / d`, to a single.
fn pack(
    neg: bool,
    m: u128,
    e: i32,
    sticky: bool,
    Ghost(n): Ghost<nat>,
    Ghost(d): Ghost<nat>,
    Ghost(g): Ghost<nat>,
    Ghost(rem): Ghost<nat>,
) -> (res: Single)
    requires
        -600 <= e <= 600,
        m < pow2(100),
        sticky ==> m >= 0x200_0000,
        d > 0,
        rem < g,
        n == m * g + rem,
        sticky == (rem > 0),
        e >= 0 ==> g == d * pow2(e as nat),
        e < 0 ==> d == g * pow2((-e) as nat),
    ensures
        res.rounds(neg, n, d),
{
    if m == 0 {
        proof {
            assert(n == 0) by (nonlinear_arith)
                requires
                    n == m * g + rem,
                    m == 0,
                    rem == 0,
            ;
            lemma_nearest_zero(d);
        }
        return Single { bits: if neg { SIGN } else { 0 } };
    }
    let len: u32 = bit_len(m);
    proof {
        lemma_small_powers();
        if len > 100 {
            rounding::lemma_pow2_monotone(100, (len - 1) as nat);
        }
        if sticky && len < 26 {
            rounding::lemma_pow2_monotone(len as nat, 25);
        }
    }
    let k: i32 = if len as i32 + e - 24 > 0 {
        len as i32 + e - 24
    } else {
        0
    };
    proof {
        lemma_pack(n, d, g, rem, m as nat, e as int, len as nat, k as nat);
    }
    let t: i32 = k - e;
    let q: u128 = if t <= 0 {
        proof {
            lemma_shl_is_mul(m, (-t) as u128);
        }
        m << ((-t) as u128)
    } else if t >= 128 {
        proof {
            rounding::lemma_pow2_monotone(100, (t - 1) as nat);
            lemma_pow2_strictly_increases((t - 1) as nat, t as nat);
            lemma_small_mod(m as nat, pow2(t as nat));
            lemma_basic_div(m as int, pow2(t as nat) as int);
        }
        0
    } else {
        round_shift(m, t as u32, sticky)
    };
    assemble(neg, k as u32, q as u32)
}

/// The single with significand `q` and step `2^k`.
fn assemble(neg: bool, k: u32, q: u32) -> (res: Single)
    requires
        q <= 0x100_0000,
        k == 0 || q >= 0x80_0000,
    ensures
        res.negative() == neg,
        q * pow2(k as nat) >= overflow_bound() ==> res.infinite(),
        q * pow2(k as nat) < overflow_bound() ==> res.finite() && res.magnitude() == q * pow2(
            k as nat,
        ),
{
    proof {
        lemma_magnitude_of_parts(k as nat, q as nat);
    }
    if k > 253 {
        proof {
            lemma_scale_bound_top(k as nat, q as nat);
        }
        return Single { bits: if neg { SIGN + INF_BITS } else { INF_BITS } };
    }
    let bits: u32 = k * HIDDEN + q;
    Single { bits: if neg { SIGN + bits } else { bits } }
}

/// More bits, more magnitude.
pub proof fn lemma_magnitude_increases(a: nat, b: nat)
    requires
        a < b <= INF_BITS,
    ensures
        magnitude_of(a) < magnitude_of(b) <= overflow_bound(),
        b < INF_BITS ==> magnitude_of(b) < overflow_bound(),
{
    lemma_magnitude_increases_weak(a, b);
    if b < INF_BITS {
        lemma_magnitude_increases_weak(b, INF_BITS as nat);
    }
    assert(magnitude_of(INF_BITS as nat) == overflow_bound()) by {
        lemma_small_powers();
        lemma_pow2_adds(23, 254);
        assert(INF_BITS as nat / 0x80_0000 == 255 && INF_BITS as nat % 0x80_0000 == 0);
    }
}

proof fn lemma_magnitude_increases_weak(a: nat, b: nat)
    requires
        a < b,
    ensures
        magnitude_of(a) < magnitude_of(b),
{
    let ea: nat = a / 0x80_0000;
    let eb: nat = b / 0x80_0000;
    let fa: nat = a % 0x80_0000;
    let fb: nat = b % 0x80_0000;
    lemma_small_powers();
    if eb == 0 {
    } else if ea == eb {
        lemma_pow2_pos((eb - 1) as nat);
        lemma_mul_strict_inequality(
            (0x80_0000 + fa) as int,
            (0x80_0000 + fb) as int,
            pow2((eb - 1) as nat) as int,
        );
    } else {
        lemma_pow2_pos((eb - 1) as nat);
        lemma_mul_inequality(
            0x80_0000,
            (0x80_0000 + fb) as int,
            pow2((eb - 1) as nat) as int,
        );
        if ea == 0 {
            rounding::lemma_pow2_monotone(0, (eb - 1) as nat);
            lemma_mul_inequality(1, pow2((eb - 1) as nat) as int, 0x80_0000);
        } else {
            rounding::lemma_pow2_monotone(ea, (eb - 1) as nat);
            lemma_pow2_unfold(ea);
            lemma_pow2_pos((ea - 1) as nat);
            lemma_mul_strict_inequality(
                (0x80_0000 + fa) as int,
                0x100_0000,
                pow2((ea - 1) as nat) as int,
            );
        }
    }
}

/// A sign and a magnitude belong to one bit pattern.
pub proof fn lemma_same_magnitude(a: Single, b: Single)
    requires
        !a.nan(),
        !b.nan(),
        a.negative() == b.negative(),
        a.magnitude() == b.magnitude(),
    ensures
        a == b,
{
    if a.mag_bits() < b.mag_bits() {
        lemma_magnitude_increases(a.mag_bits(), b.mag_bits());
    } else if b.mag_bits() < a.mag_bits() {
        lemma_magnitude_increases(b.mag_bits(), a.mag_bits());
    }
    assert(a.bits == b.bits);
}

/// The single that the exact magnitude `n / d`, with the given sign, is rounded to.
pub open spec fn rounded(negative: bool, n: nat, d: nat) -> Single {
    choose|s: Single| s.rounds(negative, n, d)
}

/// Rounding has one result.
pub proof fn lemma_rounded(s: Single, negative: bool, n: nat, d: nat)
    requires
        s.rounds(negative, n, d),
    ensures
        rounded(negative, n, d) == s,
{
    let r: Single = rounded(negative, n, d);
    assert(r.rounds(negative, n, d));
    if rounding::nearest(n, d, 24) < overflow_bound() {
        lemma_same_magnitude(r, s);
    }
}

/// The one NaN that the arithmetic here returns.
pub open spec fn not_a_number() -> Single {
    Single { bits: NAN_BITS }
}

/// Infinity with this sign.
pub open spec fn infinity(negative: bool) -> Single {
    Single { bits: if negative { (SIGN + INF_BITS) as u32 } else { INF_BITS } }
}

/// Zero with this sign.
pub open spec fn zero(negative: bool) -> Single {
    Single { bits: if negative { SIGN } else { 0 } }
}

/// The same number with the other sign.
pub open spec fn negated(a: Single) -> Single {
    Single { bits: if a.negative() { (a.bits - SIGN) as u32 } else { (a.bits + SIGN) as u32 } }
}

/// The number without its sign.
pub open spec fn absolute(a: Single) -> Single {
    if a.negative() {
        negated(a)
    } else {
        a
    }
}

/// `a + b`.
pub open spec fn sum(a: Single, b: Single) -> Single {
    if a.nan() || b.nan() {
        not_a_number()
    } else if a.infinite() {
        if b.infinite() && a.negative() != b.negative() {
            not_a_number()
        } else {
            a
        }
    } else if b.infinite() {
        b
    } else {
        let v = a.value() + b.value();
        if v == 0 {
            zero(a.negative() && b.negative())
        } else if v < 0 {
            rounded(true, (-v) as nat, 1)
        } else {
            rounded(false, v as nat, 1)
        }
    }
}

/// `a - b`.
pub open spec fn difference(a: Single, b: Single) -> Single {
    sum(a, negated(b))
}

/// `a * b`.
pub open spec fn product(a: Single, b: Single) -> Single {
    let neg = a.negative() != b.negative();
    if a.nan() || b.nan() {
        not_a_number()
    } else if a.infinite() || b.infinite() {
        if a.magnitude() == 0 || b.magnitude() == 0 {
            not_a_number()
        } else {
            infinity(neg)
        }
    } else {
        rounded(neg, a.magnitude() * b.magnitude(), pow2(149))
    }
}

/// `a / b`.
pub open spec fn quotient(a: Single, b: Single) -> Single {
    let neg = a.negative() != b.negative();
    if a.nan() || b.nan() || (a.infinite() && b.infinite()) || (a.magnitude() == 0
        && b.magnitude() == 0) {
        not_a_number()
    } else if a.infinite() || b.magnitude() == 0 {
        infinity(neg)
    } else if b.infinite() {
        zero(neg)
    } else {
        rounded(neg, a.magnitude() * pow2(149), b.magnitude())
    }
}

/// `a < b`, false where either is NaN; the two zeros are equal.
pub open spec fn less(a: Single, b: Single) -> bool {
    !a.nan() && !b.nan() && a.value() < b.value()
}

/// `a <= b`, false where either is NaN; the two zeros are equal.
pub open spec fn at_most(a: Single, b: Single) -> bool {
    !a.nan() && !b.nan() && a.value() <= b.value()
}

/// The bit pattern of `a` as a signed number; it orders numbers as their values do.
pub open spec fn key(a: Single) -> int {
    if a.negative() {
        -(a.mag_bits() as int)
    } else {
        a.mag_bits() as int
    }
}

/// The single closest to the whole number `i`.
pub open spec fn whole(i: int) -> Single {
    if i < 0 {
        rounded(true, (-i) as nat * pow2(149), 1)
    } else {
        rounded(false, i as nat * pow2(149), 1)
    }
}

/// The single closest to `n / d`, for whole numbers that are themselves singles.
pub open spec fn ratio(n: int, d: int) -> Single {
    quotient(whole(n), whole(d))
}

/// The larger of the two; the other one where one is NaN.
pub open spec fn maximum(a: Single, b: Single) -> Single {
    if b.nan() || less(b, a) {
        a
    } else {
        b
    }
}

/// `x` held between `lo` and `hi`; NaN stays NaN.
pub open spec fn clamped(x: Single, lo: Single, hi: Single) -> Single {
    if less(x, lo) {
        lo
    } else if less(hi, x) {
        hi
    } else {
        x
    }
}

/// `x` rounded to a whole number of units of `1`, halves away from zero, and brought into the
/// range of an index; NaN gives 0.
pub open spec fn rounded_index(x: Single) -> nat {
    if x.nan() || x.negative() {
        0
    } else if x.infinite() {
        usize::MAX as nat
    } else {
        let r = units_of(x);
        if r > usize::MAX {
            usize::MAX as nat
        } else {
            r
        }
    }
}

/// The whole number closest to a finite magnitude, halves going up.
pub open spec fn units_of(x: Single) -> nat {
    (2 * x.magnitude() + pow2(149)) / (2 * pow2(149))
}

/// `x` rounded to a whole number, halves away from zero; its sign stays.
pub open spec fn rounded_whole(x: Single) -> Single {
    if x.finite() {
        rounded(x.negative(), units_of(x) * pow2(149), 1)
    } else {
        x
    }
}

impl Single {
    /// The number with these bits.
    pub fn from_bits(bits: u32) -> (s: Single)
        ensures
            s.bits == bits,
    {
        Single { bits }
    }

    /// The bits of the number.
    pub fn to_bits(self) -> (bits: u32)
        ensures
            bits == self.bits,
    {
        self.bits
    }

    /// Whether it is not a number.
    pub fn is_nan(self) -> (b: bool)
        ensures
            b == self.nan(),
    {
        self.bits % SIGN > INF_BITS
    }

    /// Whether it is one of the two infinities.
    pub fn is_infinite(self) -> (b: bool)
        ensures
            b == self.infinite(),
    {
        self.bits % SIGN == INF_BITS
    }

    /// Neither infinite nor NaN.
    pub fn is_finite(self) -> (b: bool)
        ensures
            b == self.finite(),
    {
        self.bits % SIGN < INF_BITS
    }

    /// Whether the sign bit is set.
    pub fn is_negative(self) -> (b: bool)
        ensures
            b == self.negative(),
    {
        self.bits >= SIGN
    }

    /// The number with its sign turned.
    pub fn negate(self) -> (s: Single)
        ensures
            s == negated(self),
    {
        Single { bits: if self.bits >= SIGN { self.bits - SIGN } else { self.bits + SIGN } }
    }

    /// The number without its sign.
    pub fn abs(self) -> (s: Single)
        ensures
            s == absolute(self),
    {
        Single { bits: self.bits % SIGN }
    }

    /// Significand and step exponent of a finite number.
    pub(crate) fn parts(self) -> (p: (u32, u32))
        requires
            self.finite(),
        ensures
            p.0 < 0x100_0000,
            p.1 <= 253,
            p.1 == 0 || p.0 >= 0x80_0000,
            self.magnitude() == p.0 * pow2(p.1 as nat),
            p.0 == 0 <==> self.magnitude() == 0,
    {
        proof {
            lemma_small_powers();
        }
        let b: u32 = self.bits % SIGN;
        let e: u32 = b / HIDDEN;
        let f: u32 = b % HIDDEN;
        if e == 0 {
            assert(f * pow2(0) == f);
            (f, 0)
        } else {
            proof {
                lemma_pow2_pos((e - 1) as nat);
                lemma_mul_strictly_positive((0x80_0000 + f) as int, pow2((e - 1) as nat) as int);
            }
            (HIDDEN + f, e - 1)
        }
    }

    /// An integer that orders numbers as their values do.
    pub(crate) fn order_key(self) -> (k: i64)
        ensures
            k == key(self),
    {
        let m: i64 = (self.bits % SIGN) as i64;
        if self.bits >= SIGN {
            -m
        } else {
            m
        }
    }

    /// `self < other`.
    pub fn lt(self, other: Single) -> (b: bool)
        ensures
            b == less(self, other),
    {
        if self.is_nan() || other.is_nan() {
            return false;
        }
        proof {
            lemma_value_order(self, other);
        }
        self.order_key() < other.order_key()
    }

    /// `self <= other`.
    pub fn le(self, other: Single) -> (b: bool)
        ensures
            b == at_most(self, other),
    {
        if self.is_nan() || other.is_nan() {
            return false;
        }
        proof {
            lemma_value_order(self, other);
        }
        self.order_key() <= other.order_key()
    }
}

/// The signed bit patterns of two numbers are ordered as their values are.
pub proof fn lemma_value_order(a: Single, b: Single)
    requires
        !a.nan(),
        !b.nan(),
    ensures
        key(a) < key(b) <==> a.value() < b.value(),
        key(a) <= key(b) <==> a.value() <= b.value(),
{
    let x: nat = a.mag_bits();
    let y: nat = b.mag_bits();
    lemma_small_powers();
    assert(magnitude_of(0) == 0);
    if x > 0 {
        lemma_magnitude_increases(0, x);
    }
    if y > 0 {
        lemma_magnitude_increases(0, y);
    }
    if x < y {
        lemma_magnitude_increases(x, y);
    } else if y < x {
        lemma_magnitude_increases(y, x);
    }
}

/// Rounds the sum (or, for `minus`, the difference) of `s1 * 2^e1` and `s2 * 2^e2`.
fn combine(neg: bool, s1: u32, e1: u32, s2: u32, e2: u32, minus: bool) -> (res: Single)
    requires
        s1 < 0x100_0000,
        s2 < 0x100_0000,
        e2 <= e1 <= 253,
        e1 == 0 || s1 >= 0x80_0000,
        minus ==> s1 * pow2(e1 as nat) >= s2 * pow2(e2 as nat),
    ensures
        !minus ==> res.rounds(neg, s1 as nat * pow2(e1 as nat) + s2 as nat * pow2(e2 as nat), 1),
        minus ==> res.rounds(
            neg,
            (s1 as nat * pow2(e1 as nat) - s2 as nat * pow2(e2 as nat)) as nat,
            1,
        ),
{
    let gap: u32 = e1 - e2;
    let ghost a: nat = s1 as nat * pow2(e1 as nat);
    let ghost b: nat = s2 as nat * pow2(e2 as nat);
    let ghost n: nat = if minus {
        (a - b) as nat
    } else {
        a + b
    };
    proof {
        lemma_pow2_100();
    }
    if gap <= 64 {
        proof {
            lemma_scaled_bound(s1 as nat, gap as nat, 64);
            lemma_shl_is_mul(s1 as u128, gap as u128);
        }
        let up: u128 = (s1 as u128) << (gap as u128);
        let ghost g: nat = pow2(e2 as nat);
        proof {
            lemma_pow2_pos(e2 as nat);
            lemma_pow2_adds(gap as nat, e2 as nat);
            assert(a == up * g) by (nonlinear_arith)
                requires
                    a == s1 as nat * pow2(e1 as nat),
                    up == s1 * pow2(gap as nat),
                    pow2(e1 as nat) == pow2(gap as nat) * g,
            ;
            if minus {
                assert(up >= s2) by (nonlinear_arith)
                    requires
                        up * g >= s2 * g,
                        g > 0,
                ;
                assert((up - s2) * g == up * g - s2 * g) by (nonlinear_arith);
            } else {
                assert((up + s2) * g == up * g + s2 * g) by (nonlinear_arith);
            }
        }
        let m: u128 = if minus {
            up - s2 as u128
        } else {
            up + s2 as u128
        };
        pack(neg, m, e2 as i32, false, Ghost(n), Ghost(1), Ghost(g), Ghost(0))
    } else {
        proof {
            lemma_scaled_bound(s1 as nat, 40, 64);
            lemma_shl_is_mul(s1 as u128, 40);
            lemma2_to64();
            lemma_pow2_adds(32, 8);
        }
        let up: u128 = (s1 as u128) << 40u128;
        let e: u32 = e1 - 40;
        let ghost g: nat = pow2(e as nat);
        proof {
            lemma_pow2_pos(e as nat);
            lemma_pow2_pos(e2 as nat);
            lemma_pow2_adds(40, e as nat);
            assert(a == up * g) by (nonlinear_arith)
                requires
                    a == s1 as nat * pow2(e1 as nat),
                    up == s1 * pow2(40),
                    pow2(e1 as nat) == pow2(40) * g,
            ;
            lemma_pow2_adds(24, e2 as nat);
            rounding::lemma_pow2_monotone((24 + e2) as nat, e as nat);
            assert(b < g) by (nonlinear_arith)
                requires
                    b == s2 as nat * pow2(e2 as nat),
                    s2 < 0x100_0000,
                    pow2(24) == 0x100_0000,
                    pow2(24 + e2 as nat) == pow2(24) * pow2(e2 as nat),
                    pow2(24 + e2 as nat) <= g,
                    pow2(e2 as nat) > 0,
            ;
            assert(s2 == 0 <==> b == 0) by (nonlinear_arith)
                requires
                    b == s2 as nat * pow2(e2 as nat),
                    pow2(e2 as nat) > 0,
            ;
            assert(up >= 0x80_0000 * 0x100_0000_0000) by (nonlinear_arith)
                requires
                    up == s1 * pow2(40),
                    pow2(40) == 0x100_0000_0000,
                    s1 >= 0x80_0000,
            ;
            assert((up - 1) * g == up * g - g) by (nonlinear_arith);
        }
        if s2 == 0 {
            pack(neg, up, e as i32, false, Ghost(n), Ghost(1), Ghost(g), Ghost(0))
        } else if minus {
            pack(neg, up - 1, e as i32, true, Ghost(n), Ghost(1), Ghost(g), Ghost((g - b) as nat))
        } else {
            pack(neg, up, e as i32, true, Ghost(n), Ghost(1), Ghost(g), Ghost(b))
        }
    }
}

proof fn lemma_pow2_100()
    ensures
        pow2(100) == 0x10_0000_0000_0000_0000_0000_0000,
{
    lemma2_to64();
    lemma_pow2_adds(32, 4);
    lemma_pow2_adds(64, 36);
    assert(pow2(36) == 0x10_0000_0000);
}

/// A 24-bit number shifted by at most `cap <= 64` places stays below `2^88`.
proof fn lemma_scaled_bound(s: nat, by: nat, cap: nat)
    requires
        s < 0x100_0000,
        by <= cap <= 64,
    ensures
        s * pow2(by) < 0x100_0000_0000_0000_0000_0000,
{
    rounding::lemma_pow2_monotone(by, 64);
    lemma2_to64();
    assert(s * pow2(by) < 0x100_0000 * 0x1_0000_0000_0000_0000) by (nonlinear_arith)
        requires
            s < 0x100_0000,
            0 < pow2(by) <= 0x1_0000_0000_0000_0000,
    ;
}

impl Single {
    /// `self + other`.
    pub fn plus(self, other: Single) -> (res: Single)
        ensures
            res == sum(self, other),
    {
        if self.is_nan() || other.is_nan() {
            return Single { bits: NAN_BITS };
        }
        if self.is_infinite() {
            if other.is_infinite() && self.is_negative() != other.is_negative() {
                return Single { bits: NAN_BITS };
            }
            return self;
        }
        if other.is_infinite() {
            return other;
        }
        let (s1, e1): (u32, u32) = self.parts();
        let (s2, e2): (u32, u32) = other.parts();
        let n1: bool = self.is_negative();
        let n2: bool = other.is_negative();
        proof {
            lemma_value_order(self, other);
            lemma_value_order(self, negated(other));
            lemma_value_order(negated(self), other);
        }
        let m1: u32 = self.bits % SIGN;
        let m2: u32 = other.bits % SIGN;
        let first: bool = m1 >= m2;
        let minus: bool = n1 != n2;
        let neg: bool = if first {
            n1
        } else {
            n2
        };
        proof {
            if m1 < m2 {
                lemma_magnitude_increases(m1 as nat, m2 as nat);
            } else if m2 < m1 {
                lemma_magnitude_increases(m2 as nat, m1 as nat);
            }
        }
        if minus && m1 == m2 {
            return Single { bits: 0 };
        }
        if !minus && s1 == 0 && s2 == 0 {
            return Single { bits: if n1 { SIGN } else { 0 } };
        }
        proof {
            if first {
                lemma_step_of_larger(self, s1, e1, other, s2, e2);
            } else {
                lemma_step_of_larger(other, s2, e2, self, s1, e1);
            }
        }
        let res: Single = if first {
            combine(neg, s1, e1, s2, e2, minus)
        } else {
            combine(neg, s2, e2, s1, e1, minus)
        };
        proof {
            let v: int = self.value() + other.value();
            lemma_rounded(
                res,
                neg,
                (if v < 0 {
                    -v
                } else {
                    v
                }) as nat,
                1,
            );
        }
        res
    }

    /// `self - other`.
    pub fn minus(self, other: Single) -> (res: Single)
        ensures
            res == difference(self, other),
    {
        self.plus(other.negate())
    }
}

impl Single {
    /// `self * other`.
    pub fn times(self, other: Single) -> (res: Single)
        ensures
            res == product(self, other),
    {
        proof {
            lemma_zero_magnitude(self);
            lemma_zero_magnitude(other);
        }
        let neg: bool = self.is_negative() != other.is_negative();
        if self.is_nan() || other.is_nan() {
            return Single { bits: NAN_BITS };
        }
        if self.is_infinite() || other.is_infinite() {
            if self.bits % SIGN == 0 || other.bits % SIGN == 0 {
                return Single { bits: NAN_BITS };
            }
            return Single { bits: if neg { SIGN + INF_BITS } else { INF_BITS } };
        }
        let (s1, e1): (u32, u32) = self.parts();
        let (s2, e2): (u32, u32) = other.parts();
        assert(s1 * s2 < 0x1_0000_0000_0000) by (nonlinear_arith)
            requires
                s1 < 0x100_0000,
                s2 < 0x100_0000,
        ;
        let m: u128 = s1 as u128 * s2 as u128;
        let e: i32 = e1 as i32 + e2 as i32 - 149;
        let ghost g: nat = pow2((e1 + e2) as nat);
        let ghost n: nat = self.magnitude() * other.magnitude();
        proof {
            lemma_pow2_100();
            lemma_pow2_pos(149);
            lemma_pow2_pos((e1 + e2) as nat);
            lemma_pow2_adds(e1 as nat, e2 as nat);
            assert(n == m * g) by (nonlinear_arith)
                requires
                    n == (s1 * pow2(e1 as nat)) * (s2 * pow2(e2 as nat)),
                    g == pow2(e1 as nat) * pow2(e2 as nat),
                    m == s1 * s2,
            ;
            if e >= 0 {
                lemma_pow2_adds(149, e as nat);
            } else {
                lemma_pow2_adds((e1 + e2) as nat, (-e) as nat);
            }
        }
        let res: Single = pack(neg, m, e, false, Ghost(n), Ghost(pow2(149)), Ghost(g), Ghost(0));
        proof {
            lemma_rounded(res, neg, n, pow2(149));
        }
        res
    }

    /// `self / other`.
    pub fn over(self, other: Single) -> (res: Single)
        ensures
            res == quotient(self, other),
    {
        proof {
            lemma_zero_magnitude(self);
            lemma_zero_magnitude(other);
        }
        let neg: bool = self.is_negative() != other.is_negative();
        let b_zero: bool = other.bits % SIGN == 0;
        if self.is_nan() || other.is_nan() || (self.is_infinite() && other.is_infinite()) || (
        self.bits % SIGN == 0 && b_zero) {
            return Single { bits: NAN_BITS };
        }
        if self.is_infinite() || b_zero {
            return Single { bits: if neg { SIGN + INF_BITS } else { INF_BITS } };
        }
        if other.is_infinite() {
            return Single { bits: if neg { SIGN } else { 0 } };
        }
        let (s1, e1): (u32, u32) = self.parts();
        let (s2, e2): (u32, u32) = other.parts();
        proof {
            lemma_scaled_bound(s1 as nat, 64, 64);
            lemma_shl_is_mul(s1 as u128, 64);
            lemma2_to64();
        }
        let top: u128 = (s1 as u128) << 64u128;
        let m: u128 = top / s2 as u128;
        let r: u128 = top % s2 as u128;
        let e: i32 = e1 as i32 + 85 - e2 as i32;
        let ghost p: nat = pow2((e1 + 85) as nat);
        let ghost g: nat = s2 as nat * p;
        let ghost n: nat = self.magnitude() * pow2(149);
        let ghost d: nat = other.magnitude();
        let ghost rem: nat = r as nat * p;
        proof {
            lemma_pow2_100();
            lemma_pow2_pos((e1 + 85) as nat);
            lemma_pow2_pos(e2 as nat);
            lemma_fundamental_div_mod(top as int, s2 as int);
            assert(s2 * m + r == top);
            assert(m <= top) by (nonlinear_arith)
                requires
                    s2 * m + r == top,
                    s2 >= 1,
                    m >= 0,
                    r >= 0,
            ;
            assert(s1 > 0 ==> m >= 0x200_0000) by (nonlinear_arith)
                requires
                    s2 * m + r == top,
                    r < s2 < 0x100_0000,
                    top == s1 * 0x1_0000_0000_0000_0000,
            ;
            lemma_pow2_adds(64, (e1 + 85) as nat);
            lemma_pow2_adds(e1 as nat, 149);
            assert(n == top * p) by (nonlinear_arith)
                requires
                    n == (s1 * pow2(e1 as nat)) * pow2(149),
                    pow2(e1 as nat) * pow2(149) == pow2(64) * p,
                    top == s1 * pow2(64),
            ;
            assert(top * p == m * g + rem) by (nonlinear_arith)
                requires
                    s2 * m + r == top,
                    g == s2 as nat * p,
                    rem == r as nat * p,
            ;
            assert(rem < g && (rem > 0 <==> r > 0)) by (nonlinear_arith)
                requires
                    g == s2 as nat * p,
                    rem == r as nat * p,
                    r < s2,
                    p > 0,
            ;
            if e >= 0 {
                lemma_pow2_adds(e2 as nat, e as nat);
                assert(g == d * pow2(e as nat)) by (nonlinear_arith)
                    requires
                        g == s2 as nat * p,
                        p == pow2(e2 as nat) * pow2(e as nat),
                        d == s2 * pow2(e2 as nat),
                ;
            } else {
                lemma_pow2_adds((e1 + 85) as nat, (-e) as nat);
                assert(d == g * pow2((-e) as nat)) by (nonlinear_arith)
                    requires
                        g == s2 as nat * p,
                        pow2(e2 as nat) == p * pow2((-e) as nat),
                        d == s2 * pow2(e2 as nat),
                ;
            }
        }
        let res: Single = pack(neg, m, e, r > 0, Ghost(n), Ghost(d), Ghost(g), Ghost(rem));
        proof {
            lemma_rounded(res, neg, n, d);
        }
        res
    }

    /// The single closest to `v`.
    pub fn from_i32(v: i32) -> (res: Single)
        ensures
            res == whole(v as int),
    {
        proof {
            lemma_pow2_100();
            lemma_pow2_pos(149);
        }
        let m: u64 = if v < 0 {
            (-(v as i64)) as u64
        } else {
            v as u64
        };
        let ghost n: nat = m as nat * pow2(149);
        let res: Single = pack(
            v < 0,
            m as u128,
            149,
            false,
            Ghost(n),
            Ghost(1),
            Ghost(pow2(149)),
            Ghost(0),
        );
        proof {
            lemma_rounded(res, v < 0, n, 1);
        }
        res
    }

    /// The single closest to `n / d`.
    pub fn of_ratio(n: i32, d: i32) -> (res: Single)
        ensures
            res == ratio(n as int, d as int),
    {
        Single::from_i32(n).over(Single::from_i32(d))
    }

    /// The larger of the two.
    pub fn max(self, other: Single) -> (res: Single)
        ensures
            res == maximum(self, other),
    {
        if other.is_nan() || other.lt(self) {
            self
        } else {
            other
        }
    }

    /// `self` held between `lo` and `hi`.
    pub fn clamp(self, lo: Single, hi: Single) -> (res: Single)
        ensures
            res == clamped(self, lo, hi),
    {
        if self.lt(lo) {
            lo
        } else if hi.lt(self) {
            hi
        } else {
            self
        }
    }

    /// The whole number closest to a finite magnitude, halves going up.
    fn whole_units(self) -> (v: u128)
        requires
            self.finite(),
        ensures
            v == units_of(self),
            v <= 0xFF_FFFF || self.magnitude() == v * pow2(149),
    {
        let (sig, shift): (u32, u32) = self.parts();
        let ghost m: nat = self.magnitude();
        let ghost unit: nat = pow2(149);
        let mut v: u128 = 0;
        proof {
            lemma_pow2_pos(149);
            lemma_pow2_pos(shift as nat);
        }
        if shift >= 149 {
            let up: u32 = shift - 149;
            proof {
                lemma_up_bound(sig as nat, up as nat);
                lemma_shl_is_mul(sig as u128, up as u128);
            }
            v = (sig as u128) << (up as u128);
            proof {
                lemma_pow2_adds(149, up as nat);
                assert(m == v as nat * unit) by (nonlinear_arith)
                    requires
                        m == sig * pow2(shift as nat),
                        pow2(shift as nat) == unit * pow2(up as nat),
                        v == sig * pow2(up as nat),
                ;
                assert(v * (2 * unit) + unit == 2 * m + unit) by (nonlinear_arith)
                    requires
                        m == v as nat * unit,
                ;
                lemma_fundamental_div_mod_converse(
                    (2 * m + unit) as int,
                    (2 * unit) as int,
                    v as int,
                    unit as int,
                );
            }
        } else {
            let down: u32 = 149 - shift;
            let ghost f: nat = pow2(shift as nat);
            let ghost d: nat = pow2(down as nat);
            proof {
                lemma_pow2_adds(shift as nat, down as nat);
                lemma_pow2_pos(down as nat);
                assert(2 * m + unit == f * (2 * sig + d) && 2 * unit == f * (2 * d))
                    by (nonlinear_arith)
                    requires
                        m == sig * f,
                        unit == f * d,
                ;
                lemma_div_multiples_vanish_quotient(f as int, 2 * sig + d, (2 * d) as int);
            }
            if down <= 25 {
                proof {
                    rounding::lemma_pow2_monotone(down as nat, 25);
                    lemma2_to64();
                    lemma_shl_is_mul(1, down as u128);
                }
                let step: u128 = 1u128 << (down as u128);
                v = (2 * sig as u128 + step) / (2 * step);
                proof {
                    rounding::lemma_pow2_monotone(1, down as nat);
                    assert(v <= 0xFF_FFFF) by (nonlinear_arith)
                        requires
                            v == (2 * sig + step) / (2 * step),
                            step >= 2,
                            sig < 0x100_0000,
                    ;
                }
            } else {
                proof {
                    rounding::lemma_pow2_monotone(26, down as nat);
                    lemma2_to64();
                    lemma_basic_div(2 * sig + d, (2 * d) as int);
                }
            }
        }
        v
    }

    /// `self` rounded to a whole number and brought into the range of an index.
    pub fn round_to_index(self) -> (r: usize)
        ensures
            r == rounded_index(self),
    {
        if self.is_nan() || self.is_negative() {
            return 0;
        }
        if self.is_infinite() {
            return usize::MAX;
        }
        let v: u128 = self.whole_units();
        if v > usize::MAX as u128 {
            usize::MAX
        } else {
            v as usize
        }
    }

    /// `self` rounded to a whole number, halves away from zero.
    pub fn round(self) -> (r: Single)
        ensures
            r == rounded_whole(self),
    {
        if !self.is_finite() {
            return self;
        }
        let v: u128 = self.whole_units();
        let neg: bool = self.is_negative();
        let ghost n: nat = v as nat * pow2(149);
        proof {
            lemma_pow2_100();
            lemma_pow2_pos(149);
        }
        if v > 0xFF_FFFF {
            proof {
                lemma_multiple_rounds_back(self, 1);
                assert(self.magnitude() * 1 == self.magnitude());
                lemma_rounded(self, neg, n, 1);
            }
            return self;
        }
        let res: Single = pack(
            neg,
            v,
            149,
            false,
            Ghost(n),
            Ghost(1),
            Ghost(pow2(149)),
            Ghost(0),
        );
        proof {
            lemma_rounded(res, neg, n, 1);
        }
        res
    }

    /// The single closest to `v`.
    pub fn from_u64(v: u64) -> (res: Single)
        ensures
            res == whole(v as int),
    {
        proof {
            lemma_pow2_100();
            lemma_pow2_pos(149);
        }
        let ghost n: nat = v as nat * pow2(149);
        let res: Single = pack(
            false,
            v as u128,
            149,
            false,
            Ghost(n),
            Ghost(1),
            Ghost(pow2(149)),
            Ghost(0),
        );
        proof {
            lemma_rounded(res, false, n, 1);
        }
        res
    }
}

/// A finite number of step `2^149` or more fits in 128 bits.
pub proof fn lemma_up_bound(sig: nat, up: nat)
    requires
        sig < 0x100_0000,
        up <= 104,
    ensures
        sig * pow2(up) <= u128::MAX,
{
    rounding::lemma_pow2_monotone(up, 104);
    lemma2_to64();
    lemma_pow2_adds(32, 8);
    lemma_pow2_adds(64, 40);
    assert(sig * pow2(up) <= 0xFF_FFFF * 0x1_0000_0000_0000_0000_0000_0000_00) by (nonlinear_arith)
        requires
            sig <= 0xFF_FFFF,
            pow2(up) <= pow2(104),
            pow2(104) == pow2(64) * pow2(40),
            pow2(40) == pow2(32) * pow2(8),
            pow2(64) == 0x1_0000_0000_0000_0000,
            pow2(32) == 0x1_0000_0000,
            pow2(8) == 0x100,
    ;
}

/// What a single holds exactly is not changed by rounding.
proof fn lemma_nearest_exact(q: nat, k: nat)
    requires
        q < 0x100_0000,
        k == 0 || q >= 0x80_0000,
    ensures
        rounding::nearest(q * pow2(k), 1, 24) == q * pow2(k),
{
    let n: nat = q * pow2(k);
    lemma_small_powers();
    lemma_pow2_pos(k);
    assert(1 * pow2(k) == pow2(k));
    assert(n < pow2(24) * pow2(k)) by (nonlinear_arith)
        requires
            n == q * pow2(k),
            q < 0x100_0000,
            pow2(24) == 0x100_0000,
            pow2(k) > 0,
    ;
    if k > 0 {
        lemma_pow2_unfold(k);
        assert(1 * pow2((k - 1) as nat) == pow2((k - 1) as nat));
        assert(n >= pow2(24) * pow2((k - 1) as nat)) by (nonlinear_arith)
            requires
                n == q * pow2(k),
                q >= 0x80_0000,
                pow2(24) == 0x100_0000,
                pow2(k) == 2 * pow2((k - 1) as nat),
                pow2((k - 1) as nat) >= 0,
        ;
    }
    assert(rounding::is_quantum(n, 1, 24, k));
    rounding::lemma_quantum_unique(n, 1, 24, k);
    rounding::lemma_half_even_exact(q, pow2(k));
}

/// The place of the leading binary digit of a number of up to 24 bits.
proof fn lemma_leading_bit(a: nat) -> (t: nat)
    requires
        0 < a < 0x100_0000,
    ensures
        t <= 23,
        pow2(t) <= a < pow2(t + 1),
    decreases a,
{
    lemma_small_powers();
    if a == 1 {
        lemma_pow2_unfold(1);
        0
    } else {
        let u: nat = lemma_leading_bit(a / 2);
        lemma_pow2_unfold(u + 1);
        lemma_pow2_unfold(u + 2);
        if u >= 23 {
            rounding::lemma_pow2_monotone(24, u + 1);
        }
        u + 1
    }
}

/// Whole numbers keep their order when counted in smaller units.
pub proof fn lemma_units_order(i: int, j: int)
    requires
        i < j,
    ensures
        i * pow2(149) < j * pow2(149),
{
    lemma_pow2_pos(149);
    assert(i * pow2(149) < j * pow2(149)) by (nonlinear_arith)
        requires
            i < j,
            pow2(149) > 0,
    ;
}

/// Whole numbers of up to 24 bits are singles themselves.
pub proof fn lemma_whole_exact(i: int)
    requires
        -0x100_0000 < i < 0x100_0000,
    ensures
        whole(i).finite(),
        whole(i).value() == i * pow2(149),
        whole(i).negative() == (i < 0),
{
    let a: nat = if i < 0 {
        (-i) as nat
    } else {
        i as nat
    };
    let n: nat = a * pow2(149);
    lemma_pow2_pos(149);
    lemma_small_powers();
    if a == 0 {
        assert(n == 0) by (nonlinear_arith)
            requires
                n == 0 * pow2(149),
        ;
        lemma_nearest_zero(1);
        lemma_pow2_pos(277);
        let z: Single = zero(false);
        assert(z.rounds(false, 0, 1));
        lemma_rounded(z, false, 0, 1);
        assert(0 * pow2(149) == 0) by (nonlinear_arith);
    } else {
        let t: nat = lemma_leading_bit(a);
        let k: nat = (126 + t) as nat;
        let q: nat = a * pow2((23 - t) as nat);
        lemma_pow2_adds(t, (23 - t) as nat);
        lemma_pow2_adds((23 - t) as nat, k);
        lemma_pow2_adds(t + 1, (23 - t) as nat);
        assert(q * pow2(k) == n) by (nonlinear_arith)
            requires
                q == a * pow2((23 - t) as nat),
                n == a * pow2(149),
                pow2(149) == pow2((23 - t) as nat) * pow2(k),
        ;
        lemma_pow2_pos((23 - t) as nat);
        assert(0x80_0000 <= q < 0x100_0000) by (nonlinear_arith)
            requires
                q == a * pow2((23 - t) as nat),
                pow2(t) <= a < pow2(t + 1),
                pow2(t) * pow2((23 - t) as nat) == 0x80_0000,
                pow2(t + 1) * pow2((23 - t) as nat) == 0x100_0000,
                pow2((23 - t) as nat) > 0,
        ;
        let b: u32 = (k * 0x80_0000 + q) as u32;
        let s: Single = Single { bits: if i < 0 { (SIGN + b) as u32 } else { b } };
        lemma_magnitude_of_parts(k, q);
        lemma_nearest_exact(q, k);
        lemma_scale_bound(k, q);
        assert(s.rounds(i < 0, n, 1));
        lemma_rounded(s, i < 0, n, 1);
        assert((-i) * pow2(149) == -(i * pow2(149))) by (nonlinear_arith);
    }
}

/// Only the two zeros have the magnitude 0.
pub proof fn lemma_zero_magnitude(a: Single)
    ensures
        a.magnitude() == 0 <==> a.mag_bits() == 0,
{
    let e: nat = a.mag_bits() / 0x80_0000;
    if e > 0 {
        lemma_pow2_pos((e - 1) as nat);
        lemma_mul_strictly_positive(
            (0x80_0000 + a.mag_bits() % 0x80_0000) as int,
            pow2((e - 1) as nat) as int,
        );
    }
}

/// The larger magnitude has the larger step.
proof fn lemma_step_of_larger(a: Single, s1: u32, e1: u32, b: Single, s2: u32, e2: u32)
    requires
        a.magnitude() == s1 * pow2(e1 as nat),
        b.magnitude() == s2 * pow2(e2 as nat),
        a.magnitude() >= b.magnitude(),
        s1 < 0x100_0000,
        e2 == 0 || s2 >= 0x80_0000,
    ensures
        e1 >= e2,
{
    if e1 < e2 {
        rounding::lemma_pow2_monotone((e1 + 1) as nat, e2 as nat);
        lemma_pow2_unfold((e1 + 1) as nat);
        assert(s1 * pow2(e1 as nat) < s2 * pow2(e2 as nat)) by (nonlinear_arith)
            requires
                s1 < 0x100_0000,
                s2 >= 0x80_0000,
                pow2(e2 as nat) >= 2 * pow2(e1 as nat),
                pow2(e1 as nat) > 0,
        ;
    }
}

// ---------------------------------------------------------------------------
// Order and rounding
// ---------------------------------------------------------------------------

/// Everything rounds to some single.
pub proof fn lemma_rounded_rounds(negative: bool, n: nat, d: nat)
    requires
        d > 0,
    ensures
        rounded(negative, n, d).rounds(negative, n, d),
{
    let k: nat = rounding::quantum(n, d, 24);
    rounding::lemma_quantum_exists(n, d, 24);
    lemma_small_powers();
    lemma_pow2_pos(k);
    let step: nat = d * pow2(k);
    assert(step > 0) by (nonlinear_arith)
        requires
            step == d * pow2(k),
            d > 0,
            pow2(k) > 0,
    ;
    let h: nat = rounding::half_even(n, step);
    if k > 0 {
        lemma_pow2_unfold(k);
        let below: nat = d * pow2((k - 1) as nat);
        assert(0x80_0000 * step <= n) by (nonlinear_arith)
            requires
                n >= pow2(24) * below,
                pow2(24) == 0x100_0000,
                below == d * pow2((k - 1) as nat),
                step == d * pow2(k),
                pow2(k) == 2 * pow2((k - 1) as nat),
        ;
        rounding::lemma_half_even_bounds(n, step, 0x80_0000, 0x100_0000);
    } else {
        rounding::lemma_half_even_bounds(n, step, 0, 0x100_0000);
    }
    lemma_magnitude_of_parts(k, h);
    let s: Single = if h * pow2(k) >= overflow_bound() {
        infinity(negative)
    } else {
        let b: u32 = (k * 0x80_0000 + h) as u32;
        Single { bits: if negative { (SIGN + b) as u32 } else { b } }
    };
    assert(s.rounds(negative, n, d));
}

/// A finite number is what its exact multiple over the multiplier rounds to.
pub proof fn lemma_multiple_rounds_back(m: Single, d: nat)
    requires
        m.finite(),
        d > 0,
    ensures
        rounding::nearest(m.magnitude() * d, d, 24) == m.magnitude(),
        m.magnitude() < overflow_bound(),
{
    let b: nat = m.mag_bits();
    let e: nat = b / 0x80_0000;
    let f: nat = b % 0x80_0000;
    let k: nat = if e == 0 {
        0
    } else {
        (e - 1) as nat
    };
    let q: nat = if e == 0 {
        f
    } else {
        0x80_0000 + f
    };
    lemma_small_powers();
    lemma_pow2_pos(k);
    assert(m.magnitude() == q * pow2(k)) by {
        assert(q * pow2(0) == q) by (nonlinear_arith)
            requires
                pow2(0) == 1,
        ;
    }
    let n: nat = m.magnitude() * d;
    let step: nat = d * pow2(k);
    assert(n == q * step && step > 0) by (nonlinear_arith)
        requires
            n == (q * pow2(k)) * d,
            step == d * pow2(k),
            d > 0,
            pow2(k) > 0,
    ;
    assert(n < pow2(24) * step) by (nonlinear_arith)
        requires
            n == q * step,
            q < 0x100_0000,
            pow2(24) == 0x100_0000,
            step > 0,
    ;
    if k > 0 {
        lemma_pow2_unfold(k);
        let below: nat = d * pow2((k - 1) as nat);
        assert(n >= pow2(24) * below) by (nonlinear_arith)
            requires
                n == q * step,
                q >= 0x80_0000,
                pow2(24) == 0x100_0000,
                below == d * pow2((k - 1) as nat),
                step == d * pow2(k),
                pow2(k) == 2 * pow2((k - 1) as nat),
        ;
    }
    assert(rounding::is_quantum(n, d, 24, k));
    rounding::lemma_quantum_unique(n, d, 24, k);
    rounding::lemma_half_even_exact(q, step);
    if e > 0 {
        lemma_scale_bound(k, q);
    } else {
        rounding::lemma_pow2_monotone(24, 277);
    }
}

/// What lies between two singles rounds to one between them.
pub proof fn lemma_rounded_between(n: nat, d: nat, lo: Single, hi: Single)
    requires
        d > 0,
        lo.finite(),
        hi.finite(),
        lo.magnitude() * d <= n <= hi.magnitude() * d,
    ensures
        rounded(false, n, d).finite(),
        !rounded(false, n, d).negative(),
        lo.magnitude() <= rounded(false, n, d).magnitude() <= hi.magnitude(),
{
    lemma_rounded_rounds(false, n, d);
    rounding::lemma_nearest_monotone(lo.magnitude() * d, n, d, 24);
    rounding::lemma_nearest_monotone(n, hi.magnitude() * d, d, 24);
    lemma_multiple_rounds_back(lo, d);
    lemma_multiple_rounds_back(hi, d);
}

/// Rounding keeps the order of finite results.
pub proof fn lemma_rounded_monotone(a: nat, b: nat, d: nat)
    requires
        d > 0,
        a <= b,
        rounded(false, b, d).finite(),
    ensures
        rounded(false, a, d).finite(),
        rounded(false, a, d).magnitude() <= rounded(false, b, d).magnitude(),
        !rounded(false, a, d).negative(),
        !rounded(false, b, d).negative(),
{
    lemma_rounded_rounds(false, a, d);
    lemma_rounded_rounds(false, b, d);
    rounding::lemma_nearest_monotone(a, b, d, 24);
}

/// From 0 to 1.
pub open spec fn in_unit(a: Single) -> bool {
    a.finite() && 0 <= a.value() <= pow2(149)
}

/// What a number in the unit lacks to 1, rounded, is at most a quarter of a step of 1 too much.
proof fn lemma_complement(n: nat)
    requires
        n <= pow2(149),
    ensures
        rounding::nearest(n, 1, 24) <= n + pow2(124),
        rounding::nearest(n, 1, 24) <= pow2(149),
{
    let k: nat = rounding::quantum(n, 1, 24);
    rounding::lemma_quantum_exists(n, 1, 24);
    lemma_pow2_pos(k);
    lemma_pow2_pos(124);
    assert(1 * pow2(k) == pow2(k));
    rounding::lemma_half_even_close(n, pow2(k));
    lemma_small_powers();
    let one: Single = whole(1);
    lemma_whole_exact(1);
    lemma_multiple_rounds_back(one, 1);
    assert(pow2(149) * 1 == pow2(149));
    rounding::lemma_nearest_monotone(n, pow2(149), 1, 24);
    if k > 125 {
        assert(1 * pow2((k - 1) as nat) == pow2((k - 1) as nat));
        lemma_pow2_adds(24, (k - 1) as nat);
        rounding::lemma_pow2_monotone(149, (24 + k - 1) as nat);
        assert(n == pow2(149));
    } else {
        lemma_pow2_unfold(125);
        rounding::lemma_pow2_monotone(k, 125);
    }
}

/// A little more than 1 still rounds to 1.
proof fn lemma_just_above_one(n: nat)
    requires
        n <= pow2(149) + pow2(124),
    ensures
        rounding::nearest(n, 1, 24) <= pow2(149),
{
    let top: nat = pow2(149) + pow2(124);
    lemma_small_powers();
    lemma_pow2_pos(124);
    lemma_pow2_adds(24, 126);
    lemma_pow2_adds(24, 125);
    lemma_pow2_adds(23, 126);
    rounding::lemma_pow2_monotone(124, 149);
    lemma_pow2_unfold(150);
    lemma_pow2_unfold(126);
    lemma_pow2_unfold(125);
    assert(1 * pow2(126) == pow2(126));
    assert(1 * pow2(125) == pow2(125));
    assert(rounding::is_quantum(top, 1, 24, 126));
    rounding::lemma_quantum_unique(top, 1, 24, 126);
    lemma_fundamental_div_mod_converse(
        top as int,
        pow2(126) as int,
        pow2(23) as int,
        pow2(124) as int,
    );
    rounding::lemma_nearest_monotone(n, top, 1, 24);
}

/// A difference that is not below a number is not rounded to below it, and one that is not above
/// a number is not rounded to above it.
pub proof fn lemma_difference_keeps_bounds(a: Single, b: Single, c: Single)
    requires
        a.finite(),
        b.finite(),
        c.finite(),
    ensures
        !difference(a, b).nan(),
        a.value() - b.value() >= c.value() ==> at_most(c, difference(a, b)),
        a.value() - b.value() <= c.value() ==> at_most(difference(a, b), c),
{
    let v: int = a.value() - b.value();
    assert(negated(b).value() == -b.value());
    let n: nat = (if v < 0 {
        -v
    } else {
        v
    }) as nat;
    lemma_multiple_rounds_back(c, 1);
    assert(c.magnitude() * 1 == c.magnitude());
    lemma_zero_magnitude(zero(true));
    lemma_zero_magnitude(zero(false));
    lemma_rounded_rounds(v < 0, n, 1);
    if n <= c.magnitude() {
        rounding::lemma_nearest_monotone(n, c.magnitude(), 1, 24);
    }
    if n >= c.magnitude() {
        rounding::lemma_nearest_monotone(c.magnitude(), n, 1, 24);
    }
    let d: Single = difference(a, b);
    lemma_value_order(d, c);
    lemma_value_order(c, d);
}

/// A finite number is below the bound of overflow.
pub proof fn lemma_finite_magnitude(a: Single)
    requires
        a.finite(),
    ensures
        a.magnitude() < pow2(277),
        infinity(false).magnitude() == pow2(277),
        infinity(true).magnitude() == pow2(277),
{
    lemma_small_powers();
    lemma_pow2_adds(23, 254);
    lemma_magnitude_increases(a.mag_bits(), INF_BITS as nat);
}

/// A product with a number of magnitude 1 at most is no larger than the other factor.
pub proof fn lemma_product_bounded(a: Single, b: Single)
    requires
        a.finite(),
        b.finite(),
        b.magnitude() <= pow2(149),
    ensures
        product(a, b).finite(),
        product(a, b).magnitude() <= a.magnitude(),
{
    let unit: nat = pow2(149);
    lemma_pow2_pos(149);
    lemma_zero_magnitude(zero(false));
    let n: nat = a.magnitude() * b.magnitude();
    assert(n <= a.magnitude() * unit) by (nonlinear_arith)
        requires
            n == a.magnitude() * b.magnitude(),
            b.magnitude() <= unit,
    ;
    assert(0 * unit == 0);
    lemma_rounded_between(n, unit, zero(false), a);
    lemma_rounded_rounds(true, n, unit);
    lemma_rounded_rounds(false, n, unit);
}

/// A sum whose parts together do not pass a finite number does not pass it either.
pub proof fn lemma_sum_bounded(a: Single, b: Single, hi: Single)
    requires
        a.finite(),
        b.finite(),
        hi.finite(),
        a.magnitude() + b.magnitude() <= hi.magnitude(),
    ensures
        sum(a, b).finite(),
        sum(a, b).magnitude() <= hi.magnitude(),
{
    let v: int = a.value() + b.value();
    let n: nat = (if v < 0 {
        -v
    } else {
        v
    }) as nat;
    lemma_zero_magnitude(zero(false));
    lemma_zero_magnitude(zero(true));
    assert(hi.magnitude() * 1 == hi.magnitude());
    lemma_rounded_between(n, 1, zero(false), hi);
    lemma_rounded_rounds(true, n, 1);
    lemma_rounded_rounds(false, n, 1);
}

/// What is left of a larger number is not negative.
pub proof fn lemma_difference_not_negative(a: Single, b: Single)
    requires
        a.finite(),
        b.finite(),
        b.value() < a.value(),
    ensures
        !difference(a, b).nan(),
        !difference(a, b).negative(),
{
    assert(negated(b).value() == -b.value());
    lemma_rounded_rounds(false, (a.value() - b.value()) as nat, 1);
}

/// What is at most a finite number, and not negative, is finite too.
pub proof fn lemma_finite_below(a: Single, b: Single)
    requires
        !a.negative(),
        b.finite(),
        at_most(a, b),
    ensures
        a.finite(),
        a.magnitude() <= b.magnitude(),
{
    lemma_value_order(a, b);
}

/// A positive whole number times anything but a NaN is no NaN.
pub proof fn lemma_product_is_a_number(i: int, a: Single)
    requires
        0 < i < 0x100_0000,
        !a.nan(),
    ensures
        !product(whole(i), a).nan(),
{
    let w: Single = whole(i);
    lemma_whole_exact(i);
    lemma_pow2_pos(149);
    lemma_pow2_pos(277);
    lemma_zero_magnitude(a);
    assert(i * pow2(149) > 0) by (nonlinear_arith)
        requires
            i > 0,
            pow2(149) > 0,
    ;
    let n: nat = w.magnitude() * a.magnitude();
    lemma_rounded_rounds(true, n, pow2(149));
    lemma_rounded_rounds(false, n, pow2(149));
}

/// One of the two zeros.
pub open spec fn is_zero(a: Single) -> bool {
    a.mag_bits() == 0
}

/// A zero times a finite number is a zero.
pub proof fn lemma_zero_product(a: Single, b: Single)
    requires
        a.finite(),
        b.finite(),
        is_zero(a) || is_zero(b),
    ensures
        is_zero(product(a, b)),
{
    let unit: nat = pow2(149);
    lemma_pow2_pos(149);
    lemma_pow2_pos(277);
    lemma_zero_magnitude(a);
    lemma_zero_magnitude(b);
    let n: nat = a.magnitude() * b.magnitude();
    assert(n == 0) by (nonlinear_arith)
        requires
            n == a.magnitude() * b.magnitude(),
            a.magnitude() == 0 || b.magnitude() == 0,
    ;
    lemma_nearest_zero(unit);
    lemma_rounded_rounds(true, 0, unit);
    lemma_rounded_rounds(false, 0, unit);
    lemma_zero_magnitude(product(a, b));
}

/// The sum of two zeros is a zero.
pub proof fn lemma_zero_sum(a: Single, b: Single)
    requires
        is_zero(a),
        is_zero(b),
    ensures
        is_zero(sum(a, b)),
        is_zero(difference(a, b)),
{
    lemma_zero_magnitude(a);
    lemma_zero_magnitude(b);
    lemma_zero_magnitude(negated(b));
}

/// A zero over a positive number is a zero.
pub proof fn lemma_zero_quotient(a: Single, b: Single)
    requires
        is_zero(a),
        !b.nan(),
        b.value() > 0,
    ensures
        is_zero(quotient(a, b)),
{
    lemma_zero_magnitude(a);
    lemma_pow2_pos(277);
    let n: nat = a.magnitude() * pow2(149);
    assert(n == 0) by (nonlinear_arith)
        requires
            n == a.magnitude() * pow2(149),
            a.magnitude() == 0,
    ;
    lemma_nearest_zero(b.magnitude());
    lemma_rounded_rounds(true, 0, b.magnitude());
    lemma_rounded_rounds(false, 0, b.magnitude());
    lemma_zero_magnitude(quotient(a, b));
}

/// How far `from` is above `to`, without the sign.
spec fn gap(from: Single, to: Single) -> nat {
    let v = from.value() - to.value();
    (if v < 0 {
        -v
    } else {
        v
    }) as nat
}

/// The difference and the product in `to + coef * (from - to)`, for numbers in the unit.
proof fn lemma_step_parts(from: Single, to: Single, coef: Single)
    requires
        in_unit(from),
        in_unit(to),
        in_unit(coef),
    ensures
        ({
            let d = difference(from, to);
            let p = product(coef, d);
            let v = from.value() - to.value();
            &&& d.finite() && d.magnitude() == rounding::nearest(gap(from, to), 1, 24)
            &&& d.magnitude() <= pow2(149)
            &&& p.finite() && p.magnitude() == rounding::nearest(
                coef.magnitude() * d.magnitude(),
                pow2(149),
                24,
            )
            &&& p.magnitude() <= d.magnitude()
            &&& p.value() > 0 ==> v > 0
            &&& p.value() < 0 ==> v < 0
        }),
{
    let unit: nat = pow2(149);
    lemma_pow2_pos(149);
    lemma_whole_exact(0);
    assert(0 * unit == 0);
    lemma_zero_magnitude(from);
    lemma_zero_magnitude(to);
    lemma_zero_magnitude(coef);
    let d: Single = difference(from, to);
    let v: int = from.value() - to.value();
    assert(negated(to).value() == -to.value());
    let n: nat = gap(from, to);
    assert(d.finite() && d.magnitude() == rounding::nearest(n, 1, 24) && d.magnitude() <= unit
        && (d.value() > 0 ==> v > 0) && (d.value() < 0 ==> v < 0)) by {
        lemma_nearest_zero(1);
        lemma_zero_magnitude(zero(true));
        lemma_zero_magnitude(zero(false));
        lemma_complement(n);
        rounding::lemma_pow2_monotone(149, 277);
        lemma_pow2_strictly_increases(149, 277);
        lemma_rounded_rounds(v < 0, n, 1);
    }
    // The product is between 0 and the difference.
    let p: Single = product(coef, d);
    let n2: nat = coef.magnitude() * d.magnitude();
    assert(n2 <= d.magnitude() * unit) by (nonlinear_arith)
        requires
            n2 == coef.magnitude() * d.magnitude(),
            coef.magnitude() <= unit,
    ;
    lemma_rounded_between(n2, unit, whole(0), d);
    lemma_rounded_rounds(true, n2, unit);
    lemma_rounded_rounds(false, n2, unit);
    assert(coef.negative() ==> p.magnitude() == 0) by {
        if coef.negative() {
            assert(n2 == 0) by (nonlinear_arith)
                requires
                    n2 == coef.magnitude() * d.magnitude(),
                    coef.magnitude() == 0,
            ;
            lemma_rounded_between(0, unit, whole(0), whole(0));
        }
    }
}

/// A step from one number in the unit towards another, by a coefficient in the unit, stays in the
/// unit: `to + coef * (from - to)`.
pub proof fn lemma_step_in_unit(from: Single, to: Single, coef: Single)
    requires
        in_unit(from),
        in_unit(to),
        in_unit(coef),
    ensures
        in_unit(sum(to, product(coef, difference(from, to)))),
{
    let unit: nat = pow2(149);
    lemma_pow2_pos(149);
    lemma_step_parts(from, to, coef);
    lemma_zero_magnitude(to);
    let p: Single = product(coef, difference(from, to));
    let v: int = from.value() - to.value();
    let n: nat = gap(from, to);
    let w: int = to.value() + p.value();
    if v < 0 {
        // The difference is no larger than `to` itself.
        lemma_multiple_rounds_back(to, 1);
        assert(to.magnitude() * 1 == to.magnitude());
        rounding::lemma_nearest_monotone(n, to.magnitude(), 1, 24);
        assert(0 <= w <= unit);
    } else {
        lemma_complement((unit - to.value()) as nat);
        rounding::lemma_nearest_monotone(n, (unit - to.value()) as nat, 1, 24);
        assert(0 <= w <= unit + pow2(124));
    }
    lemma_just_above_one(w as nat);
    lemma_rounded_rounds(false, w as nat, 1);
    lemma_pow2_strictly_increases(149, 277);
    lemma_zero_magnitude(zero(true));
    lemma_zero_magnitude(zero(false));
}

/// Rounding adds half a unit at most, or else one part in `2^24`.
proof fn lemma_nearest_close(n: nat, d: nat)
    requires
        d > 0,
    ensures
        ({
            let v = rounding::nearest(n, d, 24) * d;
            2 * v <= 2 * n + d || 0x100_0000 * v <= 0x100_0001 * n
        }),
{
    let k: nat = rounding::quantum(n, d, 24);
    rounding::lemma_quantum_exists(n, d, 24);
    lemma_small_powers();
    lemma_pow2_pos(k);
    let step: nat = d * pow2(k);
    assert(step > 0) by (nonlinear_arith)
        requires
            step == d * pow2(k),
            d > 0,
            pow2(k) > 0,
    ;
    rounding::lemma_half_even_close(n, step);
    let h: nat = rounding::half_even(n, step);
    let v: nat = (h * pow2(k)) * d;
    assert(v == h * step) by (nonlinear_arith)
        requires
            v == (h * pow2(k)) * d,
            step == d * pow2(k),
    ;
    if k == 0 {
        assert(step == d) by (nonlinear_arith)
            requires
                step == d * pow2(k),
                pow2(k) == 1,
        ;
    } else {
        lemma_pow2_unfold(k);
        let below: nat = d * pow2((k - 1) as nat);
        assert(step == 2 * below) by (nonlinear_arith)
            requires
                below == d * pow2((k - 1) as nat),
                step == d * pow2(k),
                pow2(k) == 2 * pow2((k - 1) as nat),
        ;
        assert(n >= 0x100_0000 * below);
    }
}

/// A coefficient of at most `1 - 2^-22` takes at least the roundings of a step off again: the
/// product is no larger than the gap itself.
proof fn lemma_share_of_gap(n: nat, d: nat, c: nat, p: nat)
    requires
        d == rounding::nearest(n, 1, 24),
        c <= 0x3f_ffff * pow2(127),
        p == rounding::nearest(c * d, pow2(149), 24),
        p <= d,
    ensures
        p <= n,
{
    let unit: nat = pow2(149);
    let w: nat = pow2(127);
    lemma_pow2_pos(149);
    lemma_pow2_pos(127);
    lemma_small_powers();
    lemma_pow2_adds(22, 127);
    assert(pow2(22) == 0x40_0000) by {
        vstd::arithmetic::power2::lemma2_to64();
    }
    assert(unit == 0x40_0000 * w);
    lemma_nearest_close(n, 1);
    assert(d * 1 == d);
    assert(0x100_0000 * d <= 0x100_0001 * n);
    if n >= 0x100_0000 {
        let n2: nat = c * d;
        lemma_nearest_close(n2, unit);
        assert(n2 <= (0x3f_ffff * d) * w) by (nonlinear_arith)
            requires
                n2 == c * d,
                c <= 0x3f_ffff * w,
        ;
        assert(p * unit == (0x40_0000 * p) * w) by (nonlinear_arith)
            requires
                unit == 0x40_0000 * w,
        ;
        let x: nat = (0x40_0000 * p) as nat;
        let y: nat = (0x3f_ffff * d) as nat;
        if 2 * (p * unit) <= 2 * n2 + unit {
            assert(2 * x <= 2 * y + 0x40_0000) by (nonlinear_arith)
                requires
                    2 * (x * w) <= 2 * (y * w) + 0x40_0000 * w,
                    w > 0,
            ;
        } else {
            assert(0x100_0000 * x <= 0x100_0001 * y) by (nonlinear_arith)
                requires
                    0x100_0000 * (x * w) <= 0x100_0001 * (y * w),
                    w > 0,
            ;
        }
    }
}

/// A step between numbers that are not below `floor` does not go below it, for a coefficient in
/// the unit that is at most `1 - 2^-22` where the step goes up.
pub proof fn lemma_step_not_below(from: Single, to: Single, coef: Single, floor: Single)
    requires
        in_unit(from),
        in_unit(to),
        in_unit(coef),
        in_unit(floor),
        at_most(floor, from),
        at_most(floor, to),
        less(from, to) ==> coef.magnitude() <= 0x3f_ffff * pow2(127),
    ensures
        at_most(floor, sum(to, product(coef, difference(from, to)))),
{
    lemma_step_in_unit(from, to, coef);
    lemma_step_parts(from, to, coef);
    lemma_zero_magnitude(to);
    lemma_zero_magnitude(floor);
    let d: Single = difference(from, to);
    let p: Single = product(coef, d);
    let w: int = to.value() + p.value();
    if less(from, to) {
        lemma_share_of_gap(gap(from, to), d.magnitude(), coef.magnitude(), p.magnitude());
        assert(w >= from.value());
    }
    assert(w >= floor.value());
    lemma_multiple_rounds_back(floor, 1);
    assert(floor.magnitude() * 1 == floor.magnitude());
    rounding::lemma_nearest_monotone(floor.magnitude(), w as nat, 1, 24);
    lemma_rounded_rounds(false, w as nat, 1);
    lemma_zero_magnitude(zero(true));
    lemma_zero_magnitude(zero(false));
}

} // verus!
