//! Laws of the text handling: how what is written is read back, and how text is cut up.

use vstd::arithmetic::power::*;
use vstd::arithmetic::power2::*;
use vstd::prelude::*;

use crate::double;
use crate::fixed;
use crate::rounding;
use crate::single::Single;
use crate::text;

verus! {

// ---------------------------------------------------------------------------
// Whole numbers
// ---------------------------------------------------------------------------

/// A whole number in decimal reads back as that number, in digits only, without a leading zero.
pub proof fn a_decimal_reads_back(n: nat)
    ensures
        text::digits_value(text::decimal(n)) == Some(n),
        text::decimal(n).len() > 0,
        forall|i: int| 0 <= i < text::decimal(n).len() ==> text::is_digit(text::decimal(n)[i]),
        n > 0 ==> text::decimal(n)[0] != '0',
    decreases n,
{
    let s: Seq<char> = text::decimal(n);
    if n < 10 {
        assert(s == seq![text::digit(n)]);
        assert(s.drop_last() =~= Seq::<char>::empty());
        assert(text::digits_value(s.drop_last()) == Some(0nat));
    } else {
        let h: Seq<char> = text::decimal(n / 10);
        a_decimal_reads_back(n / 10);
        assert(s.drop_last() =~= h);
        assert(s[0] == h[0]);
        assert forall|i: int| 0 <= i < s.len() implies text::is_digit(s[i]) by {
            if i < h.len() {
                assert(s[i] == h[i]);
            }
        }
    }
}

/// Different numbers are written differently.
pub proof fn different_numbers_are_written_differently(a: nat, b: nat)
    requires
        a != b,
    ensures
        text::decimal(a) != text::decimal(b),
{
    a_decimal_reads_back(a);
    a_decimal_reads_back(b);
}

/// A number in decimal, with or without a plus sign, is read as that number wherever it is within
/// the bound.
pub proof fn a_decimal_is_an_unsigned_number(n: nat, max: nat)
    ensures
        text::unsigned_value(text::decimal(n), max) == if n <= max {
            Some(n)
        } else {
            None
        },
        text::unsigned_value("+"@ + text::decimal(n), max) == if n <= max {
            Some(n)
        } else {
            None
        },
{
    a_decimal_reads_back(n);
    reveal_strlit("+");
    assert(("+"@ + text::decimal(n)).skip(1) =~= text::decimal(n));
    assert(text::is_digit(text::decimal(n)[0]));
}

/// Text with a character in it that is no digit, other than a plus sign in front, is no unsigned
/// number, and neither is an empty one.
pub proof fn other_text_is_no_unsigned_number(s: Seq<char>, k: int, max: nat)
    requires
        0 <= k < s.len(),
        !text::is_digit(s[k]),
        k > 0 || s[k] != '+' || s.len() == 1,
    ensures
        text::unsigned_value(s, max) is None,
        text::unsigned_value(Seq::empty(), max) is None,
{
    if s[0] == '+' {
        if k > 0 {
            let b: Seq<char> = s.skip(1);
            assert(b[k - 1] == s[k]);
            lemma_no_digits_value(b, k - 1);
        }
    } else {
        lemma_no_digits_value(s, k);
    }
}

proof fn lemma_no_digits_value(s: Seq<char>, k: int)
    requires
        0 <= k < s.len(),
        !text::is_digit(s[k]),
    ensures
        text::digits_value(s) is None,
    decreases s.len(),
{
    if k < s.len() - 1 {
        assert(s.drop_last()[k] == s[k]);
        lemma_no_digits_value(s.drop_last(), k);
    }
}

/// The last digits of a number read back as what it leaves over a power of ten.
pub proof fn the_last_digits_read_back(n: nat, places: nat)
    ensures
        text::low_digits(n, places).len() == places,
        text::digits_value(text::low_digits(n, places)) == Some(n % (pow(10, places) as nat)),
    decreases places,
{
    lemma_pow_positive(10, places);
    let s: Seq<char> = text::low_digits(n, places);
    if places == 0 {
        lemma_pow0(10);
        assert(s =~= Seq::<char>::empty());
    } else {
        let p: nat = (places - 1) as nat;
        the_last_digits_read_back(n / 10, p);
        lemma_pow_positive(10, p);
        reveal(pow);
        let u: nat = pow(10, p) as nat;
        assert(pow(10, places) == 10 * u);
        assert(s.drop_last() =~= text::low_digits(n / 10, p));
        assert(10 * ((n / 10) % u) + n % 10 == n % (10 * u)) by {
            vstd::arithmetic::div_mod::lemma_mod_breakdown(n as int, 10, u as int);
        }
    }
}

/// Where two runs of digits stand together, their numbers do.
proof fn lemma_digits_join(a: Seq<char>, b: Seq<char>)
    requires
        text::digits_value(a) is Some,
        text::digits_value(b) is Some,
    ensures
        text::digits_value(a + b) == Some(
            (text::digits_value(a)->0 * (pow(10, b.len()) as nat) + text::digits_value(b)->0) as nat,
        ),
    decreases b.len(),
{
    lemma_pow_positive(10, b.len());
    if b.len() == 0 {
        lemma_pow0(10);
        assert(a + b =~= a);
        let x: nat = text::digits_value(a)->0;
        let u: nat = pow(10, 0) as nat;
        assert(x * u == x) by (nonlinear_arith)
            requires
                u == 1,
        ;
    } else {
        let c: Seq<char> = b.drop_last();
        assert((a + b).drop_last() =~= a + c);
        assert((a + b).last() == b.last());
        lemma_digits_join(a, c);
        lemma_pow_positive(10, c.len());
        reveal(pow);
        let u: nat = pow(10, c.len()) as nat;
        let x: nat = text::digits_value(a)->0;
        let w: nat = pow(10, b.len()) as nat;
        assert(w == 10 * u);
        assert(x * w == 10 * (x * u)) by (nonlinear_arith)
            requires
                w == 10 * u,
        ;
    }
}

/// `r` units of the last decimal place, written out, read back as `r` once the point is taken out,
/// and the point stands `places` digits from the end.
pub proof fn placed_digits_read_back(r: nat, places: nat)
    requires
        places > 0,
    ensures
        ({
            let t = fixed::placed(r, places);
            let at = t.len() - places - 1;
            &&& at > 0
            &&& t[at] == '.'
            &&& text::digits_value(t.take(at) + t.skip(at + 1)) == Some(r)
        }),
{
    let u: nat = pow(10, places) as nat;
    lemma_pow_positive(10, places);
    let t: Seq<char> = fixed::placed(r, places);
    let head: Seq<char> = text::decimal(r / u);
    let tail: Seq<char> = text::low_digits(r % u, places);
    a_decimal_reads_back(r / u);
    the_last_digits_read_back(r % u, places);
    reveal_strlit(".");
    let at: int = t.len() - places - 1;
    assert(t.take(at) =~= head);
    assert(t.skip(at + 1) =~= tail);
    lemma_digits_join(head, tail);
    assert((r % u) % u == r % u) by {
        vstd::arithmetic::div_mod::lemma_mod_twice(r as int, u as int);
    }
    assert((r / u) * u + r % u == r) by {
        vstd::arithmetic::div_mod::lemma_fundamental_div_mod(r as int, u as int);
        assert((r / u) * u == u * (r / u)) by (nonlinear_arith);
    }
}

/// A number written with decimal places is off by half a unit of the last place at most, and by just
/// half only where the digits are even; its minus sign stays.
pub proof fn a_written_number_is_close(x: Single, places: nat)
    requires
        x.finite(),
    ensures
        2 * (fixed::in_places(x, places) * pow2(149)) <= 2 * (x.magnitude() * pow(10, places))
            + pow2(149),
        2 * (x.magnitude() * pow(10, places)) <= 2 * (fixed::in_places(x, places) * pow2(149))
            + pow2(149),
        x.negative() ==> fixed::fixed(x, places) == "-"@ + fixed::placed(
            fixed::in_places(x, places),
            places,
        ),
        !x.negative() ==> fixed::fixed(x, places) == fixed::placed(
            fixed::in_places(x, places),
            places,
        ),
        2 * (x.magnitude() * pow(10, places)) == 2 * (fixed::in_places(x, places) * pow2(149))
            + pow2(149) || 2 * (x.magnitude() * pow(10, places)) + pow2(149) == 2
            * (fixed::in_places(x, places) * pow2(149)) ==> fixed::in_places(x, places) % 2 == 0,
{
    lemma_pow_positive(10, places);
    lemma_pow2_pos(149);
    let m: nat = x.magnitude();
    let u: nat = pow(10, places) as nat;
    rounding::lemma_half_even_close(m * u, pow2(149));
    lemma_tie_is_even(m * u, pow2(149));
    reveal_strlit("");
    assert(""@ + fixed::placed(fixed::in_places(x, places), places) =~= fixed::placed(
        fixed::in_places(x, places),
        places,
    ));
}

/// A tie goes to the even neighbour.
proof fn lemma_tie_is_even(n: nat, d: nat)
    requires
        d > 0,
    ensures
        2 * n == 2 * (rounding::half_even(n, d) * d) + d || 2 * n + d == 2 * (rounding::half_even(
            n,
            d,
        ) * d) ==> rounding::half_even(n, d) % 2 == 0,
{
    let q: nat = n / d;
    let r: nat = n % d;
    vstd::arithmetic::div_mod::lemma_fundamental_div_mod(n as int, d as int);
    vstd::arithmetic::div_mod::lemma_mod_bound(n as int, d as int);
    assert(q * d + r == n) by (nonlinear_arith)
        requires
            n == d * q + r,
    ;
    assert((q + 1) * d == q * d + d) by (nonlinear_arith);
}

/// An amount of memory is told to half a unit of the last place, as long as it is counted exactly.
pub proof fn told_memory_is_close(bytes: nat, places: nat)
    requires
        bytes < 0x20_0000_0000_0000,
    ensures
        exists|r: nat| #[trigger]
            fixed::placed(r, places) == double::gigabytes(bytes, places) && 2 * (r * 0x4000_0000)
                <= 2 * (bytes * pow(10, places)) + 0x4000_0000 && 2 * (bytes * pow(10, places)) <= 2
                * (r * 0x4000_0000) + 0x4000_0000,
{
    lemma_pow_positive(10, places);
    lemma_pow2_pos(0);
    lemma_exact_double(bytes);
    let u: nat = pow(10, places) as nat;
    let r: nat = rounding::half_even(bytes * u, 0x4000_0000);
    rounding::lemma_half_even_close(bytes * u, 0x4000_0000);
    assert(fixed::placed(r, places) == double::gigabytes(bytes, places));
}

/// Numbers of up to 53 bits are doubles themselves.
pub proof fn lemma_exact_double(n: nat)
    requires
        n < 0x20_0000_0000_0000,
    ensures
        double::at_double(n) == n,
{
    lemma2_to64();
    assert(pow2(53) == 0x20_0000_0000_0000) by {
        lemma2_to64_rest();
    }
    assert(1 * pow2(0) == 1);
    assert(rounding::is_quantum(n, 1, 53, 0));
    rounding::lemma_quantum_unique(n, 1, 53, 0);
    assert(n * 1 == n);
    rounding::lemma_half_even_exact(n, 1);
}

// ---------------------------------------------------------------------------
// Words and pieces
// ---------------------------------------------------------------------------

/// No white space in it.
pub open spec fn solid(s: Seq<char>) -> bool {
    forall|i: int| 0 <= i < s.len() ==> !text::is_space(#[trigger] s[i])
}

proof fn lemma_scan_solid(s: Seq<char>)
    requires
        solid(s),
    ensures
        text::word_scan(s) == (Seq::<Seq<char>>::empty(), s),
    decreases s.len(),
{
    if s.len() > 0 {
        let t: Seq<char> = s.drop_last();
        assert forall|i: int| 0 <= i < t.len() implies !text::is_space(#[trigger] t[i]) by {
            assert(t[i] == s[i]);
        }
        lemma_scan_solid(t);
        assert(!text::is_space(s[s.len() - 1]));
        assert(t.push(s.last()) =~= s);
    }
}

/// Text without white space is one word; no text is none.
pub proof fn solid_text_is_one_word(s: Seq<char>)
    requires
        solid(s),
    ensures
        s.len() > 0 ==> text::words(s) == seq![s],
        s.len() == 0 ==> text::words(s) == Seq::<Seq<char>>::empty(),
{
    lemma_scan_solid(s);
}

proof fn lemma_scan_joins(a: Seq<char>, c: char, b: Seq<char>)
    requires
        text::is_space(c),
    ensures
        text::word_scan(a.push(c) + b).0 == text::words(a) + text::word_scan(b).0,
        text::word_scan(a.push(c) + b).1 == text::word_scan(b).1,
    decreases b.len(),
{
    let s: Seq<char> = a.push(c) + b;
    if b.len() == 0 {
        assert(s =~= a.push(c));
        assert(s.drop_last() =~= a);
        assert(text::words(a) + text::word_scan(b).0 =~= text::words(a));
    } else {
        let t: Seq<char> = b.drop_last();
        assert(s.drop_last() =~= a.push(c) + t);
        assert(s.last() == b.last());
        lemma_scan_joins(a, c, t);
        let (done, open) = text::word_scan(t);
        assert(text::words(a) + done.push(open) =~= (text::words(a) + done).push(open));
    }
}

/// White space parts words: what stands before it and what stands behind it are cut up each by
/// itself.
pub proof fn white_space_parts_words(a: Seq<char>, c: char, b: Seq<char>)
    requires
        text::is_space(c),
    ensures
        text::words(a.push(c) + b) == text::words(a) + text::words(b),
{
    lemma_scan_joins(a, c, b);
    let (done, open) = text::word_scan(b);
    assert(text::words(a) + done.push(open) =~= (text::words(a) + done).push(open));
}

/// Blanks, tabs and line ends are white space, and so are the spaces of other scripts; letters,
/// digits and the punctuation of diagnostics are not.
pub proof fn what_white_space_is(c: char)
    ensures
        text::is_space(c) <==> c == ' ' || c == '\t' || c == '\n' || c == '\u{b}' || c == '\u{c}'
            || c == '\r' || c == '\u{85}' || c == '\u{a0}' || c == '\u{1680}' || '\u{2000}' <= c
            <= '\u{200a}' || c == '\u{2028}' || c == '\u{2029}' || c == '\u{202f}' || c
            == '\u{205f}' || c == '\u{3000}',
        c == ' ' || c == '\t' || c == '\n' || c == '\r' ==> text::is_space(c),
        '!' <= c <= '~' ==> !text::is_space(c),
{
}

proof fn lemma_piece_scan_plain(s: Seq<char>, sep: char)
    requires
        !s.contains(sep),
    ensures
        text::piece_scan(s, sep) == (Seq::<Seq<char>>::empty(), s),
    decreases s.len(),
{
    if s.len() > 0 {
        let t: Seq<char> = s.drop_last();
        assert(!t.contains(sep)) by {
            if t.contains(sep) {
                let i: int = choose|i: int| 0 <= i < t.len() && t[i] == sep;
                assert(s[i] == sep);
            }
        }
        lemma_piece_scan_plain(t, sep);
        assert(s[s.len() - 1] != sep);
        assert(t.push(s.last()) =~= s);
    }
}

/// Text without the separator is one piece.
pub proof fn text_without_a_separator_is_one_piece(s: Seq<char>, sep: char)
    requires
        !s.contains(sep),
    ensures
        text::pieces(s, sep) == seq![s],
{
    lemma_piece_scan_plain(s, sep);
}

proof fn lemma_piece_scan_joins(a: Seq<char>, sep: char, b: Seq<char>)
    ensures
        text::piece_scan(a.push(sep) + b, sep).0 == text::pieces(a, sep) + text::piece_scan(
            b,
            sep,
        ).0,
        text::piece_scan(a.push(sep) + b, sep).1 == text::piece_scan(b, sep).1,
    decreases b.len(),
{
    let s: Seq<char> = a.push(sep) + b;
    if b.len() == 0 {
        assert(s =~= a.push(sep));
        assert(s.drop_last() =~= a);
        assert(text::pieces(a, sep) + text::piece_scan(b, sep).0 =~= text::pieces(a, sep));
    } else {
        let t: Seq<char> = b.drop_last();
        assert(s.drop_last() =~= a.push(sep) + t);
        assert(s.last() == b.last());
        lemma_piece_scan_joins(a, sep, t);
        let (done, open) = text::piece_scan(t, sep);
        assert(text::pieces(a, sep) + done.push(open) =~= (text::pieces(a, sep) + done).push(open));
    }
}

/// A separator parts pieces: what stands before it and what stands behind it are cut up each by
/// itself.
pub proof fn a_separator_parts_pieces(a: Seq<char>, sep: char, b: Seq<char>)
    ensures
        text::pieces(a.push(sep) + b, sep) == text::pieces(a, sep) + text::pieces(b, sep),
{
    lemma_piece_scan_joins(a, sep, b);
    let (done, open) = text::piece_scan(b, sep);
    assert(text::pieces(a, sep) + done.push(open) =~= (text::pieces(a, sep) + done).push(open));
}

// ---------------------------------------------------------------------------
// Ends and places
// ---------------------------------------------------------------------------

/// What is cut off the end is all of the one character, and nothing of it is left there.
pub proof fn only_the_trailing_character_is_cut_off(s: Seq<char>, c: char)
    ensures
        ({
            let r = text::without_trailing(s, c);
            &&& r.len() <= s.len()
            &&& r == s.take(r.len() as int)
            &&& forall|i: int| r.len() <= i < s.len() ==> s[i] == c
            &&& r.len() > 0 ==> r.last() != c
        }),
    decreases s.len(),
{
    if s.len() > 0 && s.last() == c {
        let t: Seq<char> = s.drop_last();
        only_the_trailing_character_is_cut_off(t, c);
        let r: Seq<char> = text::without_trailing(t, c);
        assert(s.take(r.len() as int) =~= t.take(r.len() as int));
        assert forall|i: int| r.len() <= i < s.len() implies s[i] == c by {
            if i < t.len() {
                assert(t[i] == c);
                assert(t[i] == s[i]);
            }
        }
    } else {
        assert(s.take(s.len() as int) =~= s);
    }
}

/// What is cut off the end is all white space, and none of it is left there.
pub proof fn only_trailing_white_space_is_cut_off(s: Seq<char>)
    ensures
        ({
            let r = text::trimmed_end(s);
            &&& r.len() <= s.len()
            &&& r == s.take(r.len() as int)
            &&& forall|i: int| r.len() <= i < s.len() ==> text::is_space(#[trigger] s[i])
            &&& r.len() > 0 ==> !text::is_space(r.last())
        }),
    decreases s.len(),
{
    if s.len() > 0 && text::is_space(s.last()) {
        let t: Seq<char> = s.drop_last();
        only_trailing_white_space_is_cut_off(t);
        let r: Seq<char> = text::trimmed_end(t);
        assert(s.take(r.len() as int) =~= t.take(r.len() as int));
        assert forall|i: int| r.len() <= i < s.len() implies text::is_space(#[trigger] s[i]) by {
            if i < t.len() {
                assert(text::is_space(t[i]));
                assert(t[i] == s[i]);
            }
        }
    } else {
        assert(s.take(s.len() as int) =~= s);
    }
}

/// The last place of a character holds it, and no later one does; without such a place it is not
/// there at all.
pub proof fn the_last_place_is_the_last(s: Seq<char>, c: char)
    ensures
        text::last_at(s, c) matches Some(i) ==> i < s.len() && s[i as int] == c && forall|k: int|
            i < k < s.len() ==> s[k] != c,
        text::last_at(s, c) is None ==> !s.contains(c),
    decreases s.len(),
{
    if s.len() > 0 {
        let t: Seq<char> = s.drop_last();
        the_last_place_is_the_last(t, c);
        if s.last() != c {
            match text::last_at(t, c) {
                Some(i) => {
                    assert(t[i as int] == s[i as int]);
                    assert forall|k: int| i < k < s.len() implies s[k] != c by {
                        if k < t.len() {
                            assert(t[k] == s[k]);
                        }
                    }
                },
                None => {
                    if s.contains(c) {
                        let k: int = choose|k: int| 0 <= k < s.len() && s[k] == c;
                        assert(t[k] == c);
                    }
                },
            }
        }
    }
}

/// Lower case changes the capital letters and nothing else, and changes them once.
pub proof fn lower_case_changes_capitals_only(c: char)
    ensures
        !('A' <= c <= 'Z') ==> text::ascii_lower(c) == c,
        'A' <= c <= 'Z' ==> 'a' <= text::ascii_lower(c) <= 'z' && text::ascii_lower(c) as int - 'a'
            as int == c as int - 'A' as int,
        text::ascii_lower(text::ascii_lower(c)) == text::ascii_lower(c),
{
}

/// What stands between two texts is found there.
pub proof fn lemma_found_between(a: Seq<char>, b: Seq<char>, c: Seq<char>)
    ensures
        text::contains(a + b + c, b),
{
    assert((a + b + c).subrange(a.len() as int, a.len() as int + b.len()) =~= b);
    assert(text::found_at(a + b + c, b, a.len() as int));
}

} // verus!
