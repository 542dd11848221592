//! Numbers written with a fixed number of decimal places.

use vstd::arithmetic::div_mod::*;
use vstd::arithmetic::power::*;
use vstd::arithmetic::power2::*;
use vstd::prelude::*;

use crate::rounding;
use crate::single;
use crate::single::Single;
use crate::text;

verus! {

/// `x` to `places` decimal places, counted in units of the last place; ties go to even.
pub open spec fn in_places(x: Single, places: nat) -> nat {
    rounding::half_even(x.magnitude() * pow(10, places) as nat, pow2(149))
}

/// `r` units of the last of `places` decimal places, written out.
pub open spec fn placed(r: nat, places: nat) -> Seq<char> {
    let unit = pow(10, places) as nat;
    if places == 0 {
        text::decimal(r)
    } else {
        text::decimal(r / unit) + "."@ + text::low_digits(r % unit, places)
    }
}

/// `x` with `places` digits behind the decimal point, rounded to nearest with ties to even. A
/// negative number keeps its sign even where all its digits are zeros.
pub open spec fn fixed(x: Single, places: nat) -> Seq<char> {
    let sign = if x.negative() && !x.nan() {
        "-"@
    } else {
        ""@
    };
    if x.nan() {
        "NaN"@
    } else if x.infinite() {
        sign + "inf"@
    } else {
        sign + placed(in_places(x, places), places)
    }
}

fn power_of_ten(places: u8) -> (u: u128)
    requires
        places <= 4,
    ensures
        u == pow(10, places as nat),
        1 <= u <= 10000,
{
    proof {
        reveal_with_fuel(pow, 5);
    }
    if places == 0 {
        1
    } else if places == 1 {
        10
    } else if places == 2 {
        100
    } else if places == 3 {
        1000
    } else {
        10000
    }
}

/// `x` with `places` digits behind the decimal point.
pub fn fixed_text(x: Single, places: u8) -> (s: String)
    requires
        places <= 4,
    ensures
        s@ == fixed(x, places as nat),
{
    proof {
        reveal_strlit("");
    }
    if x.is_nan() {
        return "NaN".to_owned();
    }
    let sign: &str = if x.is_negative() {
        "-"
    } else {
        ""
    };
    let mut s: String = sign.to_owned();
    if x.is_infinite() {
        s.append("inf");
        return s;
    }
    let (sig, shift): (u32, u32) = x.parts();
    let unit: u128 = power_of_ten(places);
    let ghost m: nat = x.magnitude();
    let ghost r: nat = in_places(x, places as nat);
    let mut whole: u128 = 0;
    let mut rest: u128 = 0;
    if shift >= 149 {
        let up: u32 = shift - 149;
        proof {
            single::lemma_up_bound(sig as nat, up as nat);
            single::lemma_shl_is_mul(sig as u128, up as u128);
        }
        whole = (sig as u128) << (up as u128);
        proof {
            lemma_pow2_pos(149);
            lemma_pow2_adds(149, up as nat);
            let q: nat = whole as nat * unit as nat;
            assert(m * unit as nat == q * pow2(149)) by (nonlinear_arith)
                requires
                    m == sig * pow2(shift as nat),
                    pow2(shift as nat) == pow2(149) * pow2(up as nat),
                    whole == sig * pow2(up as nat),
                    q == whole as nat * unit as nat,
            ;
            rounding::lemma_half_even_exact(q, pow2(149));
            lemma_fundamental_div_mod_converse(q as int, unit as int, whole as int, 0);
            assert(r == q);
        }
    } else {
        let down: u32 = 149 - shift;
        assert(sig * unit < 0x100_0000 * 10001) by (nonlinear_arith)
            requires
                sig < 0x100_0000,
                1 <= unit <= 10000,
        ;
        let n: u128 = sig as u128 * unit;
        let ghost d: nat = pow2(149);
        proof {
            lemma_pow2_pos(149);
            lemma_pow2_pos(shift as nat);
            lemma_pow2_pos(down as nat);
            lemma_pow2_adds(shift as nat, down as nat);
            assert(m * unit as nat == n as nat * pow2(shift as nat)) by (nonlinear_arith)
                requires
                    m == sig * pow2(shift as nat),
                    n == sig as nat * unit as nat,
            ;
            rounding::lemma_half_even_scaled(n as nat, pow2(down as nat), pow2(shift as nat));
            assert(pow2(149) == pow2(down as nat) * pow2(shift as nat)) by (nonlinear_arith)
                requires
                    pow2(149) == pow2(shift as nat) * pow2(down as nat),
            ;
            assert(r == rounding::half_even(n as nat, pow2(down as nat)));
        }
        let mut q: u128 = 0;
        if down <= 64 {
            proof {
                rounding::lemma_pow2_monotone(down as nat, 64);
                lemma2_to64();
                single::lemma_shl_is_mul(1, down as u128);
            }
            let step: u128 = 1u128 << (down as u128);
            q = n / step;
            let left: u128 = n % step;
            if 2 * left > step || (2 * left == step && q % 2 == 1) {
                q = q + 1;
            }
            assert(r == q);
        } else {
            proof {
                rounding::lemma_pow2_monotone(64, down as nat);
                lemma2_to64();
                lemma_small_mod(n as nat, pow2(down as nat));
                lemma_basic_div(n as int, pow2(down as nat) as int);
            }
            assert(r == 0);
        }
        whole = q / unit;
        rest = q % unit;
    }
    assert(whole as nat == r / unit as nat);
    assert(rest as nat == r % unit as nat);
    let digits: String = text::decimal_text(whole);
    s.append(digits.as_str());
    if places > 0 {
        s.append(".");
        let low: String = text::low_digits_text(rest, places);
        s.append(low.as_str());
        assert(s@ == sign@ + (text::decimal(whole as nat) + "."@ + text::low_digits(
            rest as nat,
            places as nat,
        )));
    } else {
        proof {
            lemma_pow0(10);
        }
        assert(s@ == sign@ + text::decimal(r));
    }
    s
}

// ---------------------------------------------------------------------------
// What written numbers look like
// ---------------------------------------------------------------------------

/// The characters that a written number can hold.
pub open spec fn numeric(c: char) -> bool {
    text::is_digit(c) || c == '.' || c == '-' || c == 'N' || c == 'a' || c == 'i' || c == 'n' || c
        == 'f'
}

proof fn lemma_decimal_is_digits(n: nat)
    ensures
        forall|i: int| 0 <= i < text::decimal(n).len() ==> text::is_digit(text::decimal(n)[i]),
    decreases n,
{
    let s: Seq<char> = text::decimal(n);
    if n < 10 {
        assert(s == seq![text::digit(n)]);
    } else {
        let h: Seq<char> = text::decimal(n / 10);
        lemma_decimal_is_digits(n / 10);
        assert forall|i: int| 0 <= i < s.len() implies text::is_digit(s[i]) by {
            if i < h.len() {
                assert(s[i] == h[i]);
            }
        }
    }
}

proof fn lemma_low_digits_are_digits(n: nat, places: nat)
    ensures
        forall|i: int|
            0 <= i < text::low_digits(n, places).len() ==> text::is_digit(
                text::low_digits(n, places)[i],
            ),
    decreases places,
{
    if places > 0 {
        let s: Seq<char> = text::low_digits(n, places);
        let h: Seq<char> = text::low_digits(n / 10, (places - 1) as nat);
        lemma_low_digits_are_digits(n / 10, (places - 1) as nat);
        assert forall|i: int| 0 <= i < s.len() implies text::is_digit(s[i]) by {
            if i < h.len() {
                assert(s[i] == h[i]);
            }
        }
    }
}

/// A written number holds digits, a point, a sign, or the letters of `NaN` and `inf`; nothing else.
pub proof fn lemma_fixed_is_numeric(x: Single, places: nat)
    ensures
        forall|i: int| 0 <= i < fixed(x, places).len() ==> numeric(#[trigger] fixed(x, places)[i]),
{
    let r: nat = in_places(x, places);
    let unit: nat = pow(10, places) as nat;
    lemma_decimal_is_digits(r);
    lemma_decimal_is_digits(r / unit);
    lemma_low_digits_are_digits(r % unit, places);
    reveal_strlit("");
    reveal_strlit("-");
    reveal_strlit(".");
    reveal_strlit("NaN");
    reveal_strlit("inf");
}

/// Whole numbers of up to 24 bits are written without decimal places as they are.
pub proof fn lemma_fixed_whole(i: int)
    requires
        -0x100_0000 < i < 0x100_0000,
    ensures
        fixed(single::whole(i), 0) == if i < 0 {
            "-"@ + text::decimal((-i) as nat)
        } else {
            text::decimal(i as nat)
        },
{
    let x: Single = single::whole(i);
    let a: nat = if i < 0 {
        (-i) as nat
    } else {
        i as nat
    };
    single::lemma_whole_exact(i);
    lemma_pow0(10);
    lemma_pow2_pos(149);
    assert(x.magnitude() == a * pow2(149)) by {
        assert((-i) * pow2(149) == -(i * pow2(149))) by (nonlinear_arith);
        assert(i >= 0 ==> i * pow2(149) >= 0) by (nonlinear_arith);
        assert(i < 0 ==> i * pow2(149) <= 0) by (nonlinear_arith);
    }
    assert(x.magnitude() * 1 == x.magnitude());
    rounding::lemma_half_even_exact(a, pow2(149));
    reveal_strlit("");
    assert(""@ + text::decimal(a) == text::decimal(a));
}

} // verus!
