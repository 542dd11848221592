//! Whole numbers at double precision.

use vstd::arithmetic::div_mod::*;
use vstd::arithmetic::power::*;
use vstd::arithmetic::power2::*;
use vstd::prelude::*;

use crate::fixed;
use crate::rounding;
use crate::single;
use crate::text;

verus! {

/// `n` rounded to 53 significant bits, ties to even.
pub open spec fn at_double(n: nat) -> nat {
    rounding::nearest(n, 1, 53)
}

/// `n` rounded to 53 significant bits.
pub fn to_double(n: u128) -> (r: u128)
    requires
        n < 0x10_0000_0000_0000_0000_0000_0000,
    ensures
        r == at_double(n as nat),
        r <= 0x10_0000_0000_0000_0000_0000_0000,
{
    proof {
        lemma_powers();
    }
    if n == 0 {
        proof {
            lemma_few_bits(0);
        }
        return 0;
    }
    let len: u32 = single::bit_len(n);
    proof {
        if len > 100 {
            rounding::lemma_pow2_monotone(100, (len - 1) as nat);
        }
    }
    if len <= 53 {
        proof {
            rounding::lemma_pow2_monotone(len as nat, 53);
            lemma_few_bits(n as nat);
        }
        return n;
    }
    let t: u32 = len - 53;
    proof {
        rounding::lemma_pow2_monotone(t as nat, 47);
        single::lemma_shl_is_mul(1, t as u128);
        lemma_pow2_adds(53, t as nat);
        lemma_pow2_adds(53, (t - 1) as nat);
        assert(1 * pow2(t as nat) == pow2(t as nat));
        assert(1 * pow2((t - 1) as nat) == pow2((t - 1) as nat));
        assert(rounding::is_quantum(n as nat, 1, 53, t as nat));
        rounding::lemma_quantum_unique(n as nat, 1, 53, t as nat);
    }
    let step: u128 = 1u128 << (t as u128);
    let mut q: u128 = n / step;
    let left: u128 = n % step;
    proof {
        lemma_fundamental_div_mod(n as int, step as int);
        lemma_div_is_ordered_by_denominator(n as int, 1, step as int);
    }
    if 2 * left > step || (2 * left == step && q % 2 == 1) {
        q = q + 1;
    }
    assert(q == rounding::half_even(n as nat, pow2(t as nat)));
    proof {
        lemma_pow2_adds((100 - t) as nat, t as nat);
        lemma_pow2_pos((100 - t) as nat);
        assert(n <= pow2((100 - t) as nat) * step);
        rounding::lemma_half_even_bounds(n as nat, step as nat, 0, pow2((100 - t) as nat));
        assert(q * step <= pow2((100 - t) as nat) * step) by (nonlinear_arith)
            requires
                q <= pow2((100 - t) as nat),
                step >= 0,
        ;
    }
    q * step
}

proof fn lemma_powers()
    ensures
        pow2(47) == 0x8000_0000_0000,
        pow2(53) == 0x20_0000_0000_0000,
        pow2(100) == 0x10_0000_0000_0000_0000_0000_0000,
{
    lemma2_to64();
    lemma_pow2_adds(32, 15);
    lemma_pow2_adds(32, 21);
    lemma_pow2_adds(47, 53);
    assert(pow2(47) == 0x8000_0000_0000);
    assert(pow2(53) == 0x20_0000_0000_0000);
    assert(0x8000_0000_0000 * 0x20_0000_0000_0000 == 0x10_0000_0000_0000_0000_0000_0000)
        by (nonlinear_arith);
}

/// A number of up to 53 bits stays as it is.
pub proof fn lemma_few_bits(n: nat)
    requires
        n < 0x20_0000_0000_0000,
    ensures
        at_double(n) == n,
{
    lemma_powers();
    lemma2_to64();
    assert(1 * pow2(0) == 1);
    assert(pow2(53) * 1 == pow2(53));
    assert(rounding::is_quantum(n, 1, 53, 0));
    rounding::lemma_quantum_unique(n, 1, 53, 0);
    assert(n * 1 == n);
    rounding::lemma_half_even_exact(n, 1);
}

/// The place of the leading binary digit.
proof fn lemma_leading_bit(a: nat) -> (t: nat)
    requires
        a > 0,
    ensures
        pow2(t) <= a < pow2(t + 1),
    decreases a,
{
    lemma2_to64();
    if a == 1 {
        0
    } else {
        let u: nat = lemma_leading_bit(a / 2);
        lemma_pow2_unfold(u + 1);
        lemma_pow2_unfold(u + 2);
        u + 1
    }
}

/// Rounding to a number of bits goes with scaling by a power of two.
pub proof fn lemma_scaled(m: nat, s: nat)
    ensures
        at_double(m * pow2(s)) == at_double(m) * pow2(s),
{
    lemma_powers();
    lemma2_to64();
    let n: nat = m * pow2(s);
    lemma_pow2_pos(s);
    if m == 0 {
        assert(0 * pow2(s) == 0);
        lemma_few_bits(0);
        return ;
    }
    let t: nat = lemma_leading_bit(m);
    lemma_pow2_adds(t, s);
    lemma_pow2_adds(t + 1, s);
    assert(pow2(t + s) <= n < pow2(t + 1 + s)) by (nonlinear_arith)
        requires
            n == m * pow2(s),
            pow2(t) <= m < pow2(t + 1),
            pow2(t + s) == pow2(t) * pow2(s),
            pow2(t + 1 + s) == pow2(t + 1) * pow2(s),
            pow2(s) > 0,
    ;
    let k: nat = if t + 1 + s > 53 {
        (t + 1 + s - 53) as nat
    } else {
        0
    };
    assert(1 * pow2(k) == pow2(k));
    if k == 0 {
        rounding::lemma_pow2_monotone(t + 1 + s, 53);
        rounding::lemma_pow2_monotone(t + 1, 53);
        lemma_few_bits(n);
        lemma_few_bits(m);
    } else {
        lemma_pow2_adds(53, k);
        lemma_pow2_adds(53, (k - 1) as nat);
        assert(1 * pow2((k - 1) as nat) == pow2((k - 1) as nat));
        assert(rounding::is_quantum(n, 1, 53, k));
        rounding::lemma_quantum_unique(n, 1, 53, k);
        if t + 1 <= 53 {
            rounding::lemma_pow2_monotone(t + 1, 53);
            lemma_few_bits(m);
            let q: nat = m * pow2((s - k) as nat);
            lemma_pow2_adds((s - k) as nat, k);
            assert(n == q * pow2(k)) by (nonlinear_arith)
                requires
                    n == m * pow2(s),
                    q == m * pow2((s - k) as nat),
                    pow2(s) == pow2((s - k) as nat) * pow2(k),
            ;
            lemma_pow2_pos(k);
            rounding::lemma_half_even_exact(q, pow2(k));
        } else {
            let j: nat = (t + 1 - 53) as nat;
            lemma_pow2_adds(53, j);
            lemma_pow2_adds(53, (j - 1) as nat);
            assert(1 * pow2(j) == pow2(j));
            assert(1 * pow2((j - 1) as nat) == pow2((j - 1) as nat));
            assert(rounding::is_quantum(m, 1, 53, j));
            rounding::lemma_quantum_unique(m, 1, 53, j);
            lemma_pow2_adds(j, s);
            lemma_pow2_pos(j);
            rounding::lemma_half_even_scaled(m, pow2(j), pow2(s));
            let h: nat = rounding::half_even(m, pow2(j));
            assert(h * pow2(k) == (h * pow2(j)) * pow2(s)) by (nonlinear_arith)
                requires
                    pow2(k) == pow2(j) * pow2(s),
            ;
        }
    }
}

/// Rounding does not take a number past a power of two.
pub proof fn lemma_rounded_bound(n: nat, b: nat)
    requires
        n <= pow2(b),
    ensures
        at_double(n) <= pow2(b),
{
    lemma_powers();
    lemma2_to64();
    if n < 0x20_0000_0000_0000 {
        lemma_few_bits(n);
        return ;
    }
    let t: nat = lemma_leading_bit(n);
    if t + 1 <= 53 {
        rounding::lemma_pow2_monotone(t + 1, 53);
    }
    if t > b {
        rounding::lemma_pow2_monotone(b + 1, t);
        lemma_pow2_unfold(b + 1);
        lemma_pow2_pos(b);
    }
    let k: nat = (t + 1 - 53) as nat;
    lemma_pow2_adds(53, k);
    lemma_pow2_adds(53, (k - 1) as nat);
    assert(1 * pow2(k) == pow2(k));
    assert(1 * pow2((k - 1) as nat) == pow2((k - 1) as nat));
    assert(rounding::is_quantum(n, 1, 53, k));
    rounding::lemma_quantum_unique(n, 1, 53, k);
    lemma_pow2_adds((b - k) as nat, k);
    lemma_pow2_pos(k);
    rounding::lemma_half_even_bounds(n, pow2(k), 0, pow2((b - k) as nat));
    let h: nat = rounding::half_even(n, pow2(k));
    assert(h * pow2(k) <= pow2((b - k) as nat) * pow2(k)) by (nonlinear_arith)
        requires
            h <= pow2((b - k) as nat),
            pow2(k) >= 0,
    ;
}

// ---------------------------------------------------------------------------
// Amounts of memory
// ---------------------------------------------------------------------------

/// `bytes` in units of 2^30, with `places` decimal places.
pub open spec fn gigabytes(bytes: nat, places: nat) -> Seq<char> {
    fixed::placed(
        rounding::half_even(at_double(bytes) * pow(10, places) as nat, 0x4000_0000),
        places,
    )
}

/// `bytes` in units of 2^30, with `places` decimal places.
pub fn gigabytes_text(bytes: u128, places: u8) -> (r: String)
    requires
        bytes < 0x10_0000_0000_0000_0000_0000_0000,
        1 <= places <= 2,
    ensures
        r@ == gigabytes(bytes as nat, places as nat),
{
    proof {
        reveal_with_fuel(pow, 3);
    }
    let unit: u128 = if places == 1 {
        10
    } else {
        100
    };
    let v: u128 = to_double(bytes);
    let n: u128 = v * unit;
    let mut q: u128 = n / 0x4000_0000;
    let left: u128 = n % 0x4000_0000;
    if 2 * left > 0x4000_0000 || (2 * left == 0x4000_0000 && q % 2 == 1) {
        q = q + 1;
    }
    let mut r: String = text::decimal_text(q / unit);
    r.append(".");
    let low: String = text::low_digits_text(q % unit, places);
    r.append(low.as_str());
    r
}

} // verus!
