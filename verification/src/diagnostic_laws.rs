//! Laws of reading FFmpeg's diagnostics.

use vstd::prelude::*;

use crate::exact;
use crate::ffmpeg;
use crate::ffmpeg::FfmpegPlace;
use crate::single;
use crate::single::Single;
use crate::text;
use crate::text_laws;
use crate::types::LoudnormStats;

verus! {

// ---------------------------------------------------------------------------
// Sample rate
// ---------------------------------------------------------------------------

/// The words at `i` and behind it give the plausible sample rate `v`, commas behind them aside.
pub open spec fn gives_rate(w: Seq<Seq<char>>, i: int, v: nat) -> bool {
    &&& 0 <= i && i + 1 < w.len()
    &&& text::without_trailing(w[i + 1], ',') == "Hz"@
    &&& text::unsigned_value(text::without_trailing(w[i], ','), u32::MAX as nat) == Some(v)
    &&& 8_000 <= v <= 192_000
}

/// No two words before `k` give a plausible sample rate.
pub open spec fn no_rate_before(w: Seq<Seq<char>>, k: int) -> bool {
    forall|i: int, v: nat| i < k ==> !gives_rate(w, i, v)
}

proof fn lemma_first_rate(w: Seq<Seq<char>>, i: int)
    requires
        0 <= i,
        no_rate_before(w, i),
    ensures
        ffmpeg::first_rate(w, i) matches Some(v) ==> exists|k: int|
            gives_rate(w, k, v) && #[trigger] no_rate_before(w, k),
        ffmpeg::first_rate(w, i) is None ==> no_rate_before(w, w.len() as int),
    decreases w.len() - i,
{
    if i + 1 < w.len() {
        if ffmpeg::rate_at(w, i) is Some {
            assert(gives_rate(w, i, ffmpeg::rate_at(w, i)->0) && no_rate_before(w, i));
        } else {
            assert(no_rate_before(w, i + 1));
            lemma_first_rate(w, i + 1);
        }
    } else {
        assert(no_rate_before(w, w.len() as int));
    }
}

/// The sample rate is the first plausible one that stands before `Hz`; there is none exactly where
/// none stands there.
pub proof fn the_rate_is_the_first_plausible_one(stderr: Seq<char>)
    ensures
        ({
            let w = text::words(stderr);
            match ffmpeg::sample_rate_in(stderr) {
                Some(v) => exists|k: int|
                    gives_rate(w, k, v) && #[trigger] no_rate_before(w, k),
                None => no_rate_before(w, w.len() as int),
            }
        }),
{
    lemma_first_rate(text::words(stderr), 0);
}

/// A rate in the middle of a line of diagnostics is found, as long as no other stands before it.
pub proof fn a_rate_in_a_line_is_found(before: Seq<char>, rate: nat, rest: Seq<char>)
    requires
        8_000 <= rate <= 192_000,
        no_rate_before(
            text::words(before.push(' ') + (text::decimal(rate).push(' ') + "Hz,"@.push(' ') + rest)),
            text::words(before).len() as int,
        ),
    ensures
        ffmpeg::sample_rate_in(
            before.push(' ') + (text::decimal(rate).push(' ') + "Hz,"@.push(' ') + rest),
        ) == Some(rate),
{
    let d: Seq<char> = text::decimal(rate);
    let tail: Seq<char> = d.push(' ') + "Hz,"@.push(' ') + rest;
    let all: Seq<char> = before.push(' ') + tail;
    let w: Seq<Seq<char>> = text::words(all);
    let n: int = text::words(before).len() as int;
    reveal_strlit("Hz,");
    reveal_strlit("Hz");
    text_laws::a_decimal_reads_back(rate);
    text_laws::a_decimal_is_an_unsigned_number(rate, u32::MAX as nat);
    text_laws::white_space_parts_words(before, ' ', tail);
    assert(tail =~= d.push(' ') + ("Hz,"@.push(' ') + rest));
    text_laws::white_space_parts_words(d, ' ', "Hz,"@.push(' ') + rest);
    text_laws::white_space_parts_words("Hz,"@, ' ', rest);
    assert forall|i: int| 0 <= i < d.len() implies !text::is_space(#[trigger] d[i]) by {
        assert(text::is_digit(d[i]));
    }
    text_laws::solid_text_is_one_word(d);
    text_laws::solid_text_is_one_word("Hz,"@);
    assert(w[n] == d && w[n + 1] == "Hz,"@);
    text_laws::only_the_trailing_character_is_cut_off("Hz,"@, ',');
    text_laws::only_the_trailing_character_is_cut_off(d, ',');
    let h: Seq<char> = text::without_trailing("Hz,"@, ',');
    assert(h.len() == 2) by {
        if h.len() == 3 {
            assert(h.last() == "Hz,"@[2]);
        }
        if h.len() < 2 {
            assert("Hz,"@[1] == ',');
        }
    }
    assert(h =~= "Hz"@);
    let e: Seq<char> = text::without_trailing(d, ',');
    assert(e =~= d) by {
        if e.len() < d.len() {
            assert(text::is_digit(d[d.len() - 1]));
        }
    }
    assert(gives_rate(w, n, rate));
    the_rate_is_the_first_plausible_one(all);
    match ffmpeg::sample_rate_in(all) {
        Some(v) => {
            let k: int = choose|k: int| gives_rate(w, k, v) && #[trigger] no_rate_before(w, k);
            assert(!(n < k));
            assert(!(k < n));
        },
        None => {},
    }
}

// ---------------------------------------------------------------------------
// Duration
// ---------------------------------------------------------------------------

/// No word before `k` is a time.
pub open spec fn no_clock_before(w: Seq<Seq<char>>, k: int) -> bool {
    forall|i: int| 0 <= i < k && i < w.len() ==> ffmpeg::clock_in(#[trigger] w[i]) is None
}

proof fn lemma_first_clock(w: Seq<Seq<char>>, i: int)
    requires
        0 <= i,
        no_clock_before(w, i),
    ensures
        ffmpeg::first_clock(w, i) matches Some(c) ==> exists|k: int|
            0 <= k < w.len() && ffmpeg::clock_in(w[k]) == Some(c) && #[trigger] no_clock_before(
                w,
                k,
            ),
        ffmpeg::first_clock(w, i) is None ==> no_clock_before(w, w.len() as int),
    decreases w.len() - i,
{
    if i < w.len() {
        if ffmpeg::clock_in(w[i]) is Some {
            assert(ffmpeg::clock_in(w[i]) is Some && no_clock_before(w, i));
        } else {
            assert(no_clock_before(w, i + 1));
            lemma_first_clock(w, i + 1);
        }
    }
}

/// The line is about the duration, and the first time in it is `c`.
pub open spec fn tells_duration(line: Seq<char>, c: (Seq<char>, Seq<char>, Seq<char>)) -> bool {
    let w = text::words(line);
    &&& text::contains(line, "Duration:"@)
    &&& exists|k: int|
        0 <= k < w.len() && ffmpeg::clock_in(w[k]) == Some(c) && #[trigger] no_clock_before(w, k)
}

/// No line before `k` tells a duration.
pub open spec fn no_duration_before(lines: Seq<Seq<char>>, k: int) -> bool {
    forall|i: int, c: (Seq<char>, Seq<char>, Seq<char>)|
        0 <= i < k && i < lines.len() ==> !tells_duration(lines[i], c)
}

proof fn lemma_line(line: Seq<char>, c: (Seq<char>, Seq<char>, Seq<char>))
    ensures
        tells_duration(line, c) <==> text::contains(line, "Duration:"@) && ffmpeg::first_clock(
            text::words(line),
            0,
        ) == Some(c),
{
    let w: Seq<Seq<char>> = text::words(line);
    lemma_first_clock(w, 0);
    if tells_duration(line, c) {
        let k: int = choose|k: int|
            0 <= k < w.len() && ffmpeg::clock_in(w[k]) == Some(c) && #[trigger] no_clock_before(
                w,
                k,
            );
        match ffmpeg::first_clock(w, 0) {
            Some(d) => {
                let m: int = choose|m: int|
                    0 <= m < w.len() && ffmpeg::clock_in(w[m]) == Some(d)
                        && #[trigger] no_clock_before(w, m);
                assert(!(k < m) && !(m < k));
            },
            None => {
                assert(ffmpeg::clock_in(w[k]) is None);
            },
        }
    }
}

proof fn lemma_clock_from_line(lines: Seq<Seq<char>>, i: int)
    requires
        0 <= i,
        no_duration_before(lines, i),
    ensures
        ffmpeg::clock_from_line(lines, i) matches Some(c) ==> exists|k: int|
            0 <= k < lines.len() && tells_duration(lines[k], c) && #[trigger] no_duration_before(
                lines,
                k,
            ),
        ffmpeg::clock_from_line(lines, i) is None ==> no_duration_before(lines, lines.len() as int),
    decreases lines.len() - i,
{
    if i < lines.len() {
        let f: Option<(Seq<char>, Seq<char>, Seq<char>)> = ffmpeg::first_clock(
            text::words(lines[i]),
            0,
        );
        if text::contains(lines[i], "Duration:"@) && f is Some {
            lemma_line(lines[i], f->0);
            assert(tells_duration(lines[i], f->0) && no_duration_before(lines, i));
        } else {
            assert forall|k: int, c: (Seq<char>, Seq<char>, Seq<char>)|
                0 <= k < i + 1 && k < lines.len() implies !tells_duration(lines[k], c) by {
                if k == i {
                    lemma_line(lines[i], c);
                }
            }
            lemma_clock_from_line(lines, i + 1);
        }
    }
}

/// The duration is the first time in the first line about it that holds one; there is none exactly
/// where no line does.
pub proof fn the_duration_is_the_first_one_told(stderr: Seq<char>)
    ensures
        ({
            let lines = text::pieces(stderr, '\n');
            match ffmpeg::duration_in(stderr) {
                Some(c) => exists|k: int|
                    0 <= k < lines.len() && tells_duration(lines[k], c)
                        && #[trigger] no_duration_before(lines, k),
                None => no_duration_before(lines, lines.len() as int),
            }
        }),
{
    lemma_clock_from_line(text::pieces(stderr, '\n'), 0);
}

/// Hours, minutes and seconds between colons are a time, with commas behind them or without;
/// anything but three numbers between colons is none.
pub proof fn a_time_is_three_numbers_between_colons(
    h: Seq<char>,
    m: Seq<char>,
    s: Seq<char>,
)
    requires
        !h.contains(':'),
        !m.contains(':'),
        !s.contains(':'),
        s.len() > 0,
        s.last() != ',',
    ensures
        ffmpeg::clock_in(h.push(':') + (m.push(':') + s)) == if text::is_float_text(h)
            && text::is_float_text(m) && text::is_float_text(s) {
            Some((h, m, s))
        } else {
            None
        },
        ffmpeg::clock_in((h.push(':') + (m.push(':') + s)).push(',')) == ffmpeg::clock_in(
            h.push(':') + (m.push(':') + s),
        ),
        ffmpeg::clock_in(s) is None,
        ffmpeg::clock_in(m.push(':') + s) is None,
{
    let t: Seq<char> = h.push(':') + (m.push(':') + s);
    assert(t.last() == s.last());
    assert(text::without_trailing(t, ',') == t);
    text_laws::a_separator_parts_pieces(h, ':', m.push(':') + s);
    text_laws::a_separator_parts_pieces(m, ':', s);
    text_laws::text_without_a_separator_is_one_piece(h, ':');
    text_laws::text_without_a_separator_is_one_piece(m, ':');
    text_laws::text_without_a_separator_is_one_piece(s, ':');
    let p: Seq<Seq<char>> = text::pieces(t, ':');
    assert(p.len() == 3 && p[0] == h && p[1] == m && p[2] == s);
    assert(t.push(',').drop_last() =~= t);
    assert(text::without_trailing(t.push(','), ',') == t);
    assert(text::without_trailing(s, ',') == s);
    assert((m.push(':') + s).last() == s.last());
    assert(text::without_trailing(m.push(':') + s, ',') == m.push(':') + s);
}

/// A number in decimal digits is the text of a number.
pub proof fn a_decimal_is_the_text_of_a_number(n: nat)
    ensures
        text::is_float_text(text::decimal(n)),
{
    text_laws::a_decimal_reads_back(n);
    let s: Seq<char> = text::decimal(n);
    lemma_digits_to_the_end(s, 0);
    assert(text::is_digit(s[0]));
}

/// Decimal digits with a sign before them, and with a point and more digits behind them, are the
/// text of a number; nothing at all is not.
pub proof fn a_signed_decimal_fraction_is_the_text_of_a_number(n: nat, f: nat, places: nat)
    ensures
        text::is_float_text("-"@ + text::decimal(n)),
        text::is_float_text("+"@ + text::decimal(n)),
        text::is_float_text("-"@ + text::decimal(n) + "."@ + text::low_digits(f, places)),
        text::is_float_text(text::decimal(n) + "."@ + text::low_digits(f, places)),
        !text::is_float_text(Seq::empty()),
{
    text_laws::a_decimal_reads_back(n);
    lemma_low_digits(f, places);
    let d: Seq<char> = text::decimal(n);
    let l: Seq<char> = text::low_digits(f, places);
    reveal_strlit("-");
    reveal_strlit("+");
    reveal_strlit(".");
    reveal_strlit("inf");
    reveal_strlit("infinity");
    reveal_strlit("nan");
    let e: Seq<char> = Seq::empty();
    assert(text::lowered(e.skip(0)).len() == 0);
    lemma_number("-"@, d, l);
    lemma_number("+"@, d, l);
    lemma_number(e, d, l);
    assert(e + d + "."@ + l =~= d + "."@ + l);
    assert(text::is_digit(d[0]));
}

proof fn lemma_low_digits(n: nat, places: nat)
    ensures
        forall|i: int|
            0 <= i < text::low_digits(n, places).len() ==> text::is_digit(
                text::low_digits(n, places)[i],
            ),
    decreases places,
{
    if places > 0 {
        lemma_low_digits(n / 10, (places - 1) as nat);
        let h: Seq<char> = text::low_digits(n / 10, (places - 1) as nat);
        let s: Seq<char> = text::low_digits(n, places);
        assert forall|i: int| 0 <= i < s.len() implies text::is_digit(s[i]) by {
            if i < h.len() {
                assert(s[i] == h[i]);
            }
        }
    }
}

proof fn lemma_digits_up_to(s: Seq<char>, i: nat, j: nat)
    requires
        i <= j <= s.len(),
        forall|k: int| i <= k < j ==> text::is_digit(s[k]),
        j < s.len() ==> !text::is_digit(s[j as int]),
    ensures
        text::digits_end(s, i) == j,
    decreases j - i,
{
    if i < j {
        lemma_digits_up_to(s, i + 1, j);
    }
}

proof fn lemma_number(sign: Seq<char>, d: Seq<char>, l: Seq<char>)
    requires
        d.len() > 0,
        forall|i: int| 0 <= i < d.len() ==> text::is_digit(d[i]),
        forall|i: int| 0 <= i < l.len() ==> text::is_digit(l[i]),
    ensures
        text::number_from(sign + d, sign.len()),
        text::number_from(sign + d + "."@ + l, sign.len()),
{
    reveal_strlit(".");
    let s: Seq<char> = sign + d;
    lemma_digits_up_to(s, sign.len(), s.len());
    let t: Seq<char> = sign + d + "."@ + l;
    let a: nat = s.len();
    assert(t[a as int] == '.');
    lemma_digits_up_to(t, sign.len(), a);
    lemma_digits_up_to(t, a + 1, t.len());
}

proof fn lemma_digits_to_the_end(s: Seq<char>, i: nat)
    requires
        i <= s.len(),
        forall|k: int| i <= k < s.len() ==> text::is_digit(s[k]),
    ensures
        text::digits_end(s, i) == s.len(),
    decreases s.len() - i,
{
    if i < s.len() {
        lemma_digits_to_the_end(s, i + 1);
    }
}

/// An hour has 3600 seconds and a minute has 60.
pub proof fn an_hour_has_3600_seconds(h: int, m: int, s: int)
    requires
        0 <= h,
        0 <= m,
        0 <= s,
        3600 * h + 60 * m + s < 0x100_0000,
    ensures
        ffmpeg::seconds_in(single::whole(h), single::whole(m), single::whole(s)) == single::whole(
            3600 * h + 60 * m + s,
        ),
{
    assert(h * 3600 == 3600 * h && m * 60 == 60 * m);
    exact::lemma_whole_product(h, 3600);
    exact::lemma_whole_product(m, 60);
    exact::lemma_whole_sum(3600 * h, 60 * m);
    exact::lemma_whole_sum(3600 * h + 60 * m, s);
}

/// Seconds need not be whole: they are added to those of the hours and minutes.
pub proof fn fractions_of_seconds_are_added(h: int, m: int, s: Single)
    requires
        0 <= h,
        0 <= m,
        3600 * h + 60 * m < 0x100_0000,
        s.finite(),
    ensures
        ffmpeg::seconds_in(single::whole(h), single::whole(m), s) == single::sum(
            single::whole(3600 * h + 60 * m),
            s,
        ),
        h == 0 && m == 0 ==> ffmpeg::seconds_in(single::whole(h), single::whole(m), s).value()
            == s.value(),
{
    assert(h * 3600 == 3600 * h && m * 60 == 60 * m);
    exact::lemma_whole_product(h, 3600);
    exact::lemma_whole_product(m, 60);
    exact::lemma_whole_sum(3600 * h, 60 * m);
    exact::lemma_whole_zero();
    exact::lemma_plus_zero(s, single::whole(0));
}

/// The characters that the text of a number can hold.
pub open spec fn of_a_number(c: char) -> bool {
    text::is_digit(c) || c == '.' || c == '+' || c == '-' || c == 'e' || c == 'E' || of_a_word(c)
}

/// The letters of `inf`, `infinity` and `nan`, in either case.
pub open spec fn of_a_word(c: char) -> bool {
    let l = text::ascii_lower(c);
    l == 'i' || l == 'n' || l == 'f' || l == 't' || l == 'y' || l == 'a'
}

proof fn lemma_digits_end(s: Seq<char>, i: nat)
    requires
        i <= s.len(),
    ensures
        i <= text::digits_end(s, i) <= s.len(),
        forall|k: int| i <= k < text::digits_end(s, i) ==> text::is_digit(#[trigger] s[k]),
    decreases s.len() - i,
{
    if i < s.len() && text::is_digit(s[i as int]) {
        lemma_digits_end(s, i + 1);
    }
}

proof fn lemma_word(s: Seq<char>, i: int, w: Seq<char>, k: int)
    requires
        0 <= i <= k < s.len(),
        text::lowered(s.skip(i)) == w,
        forall|j: int| 0 <= j < w.len() ==> of_a_word(#[trigger] w[j]) && !('A' <= w[j] <= 'Z'),
    ensures
        of_a_word(s[k]),
{
    let t: Seq<char> = s.skip(i);
    assert(t[k - i] == s[k]);
    assert(text::lowered(t)[k - i] == text::ascii_lower(s[k]));
    assert(of_a_word(w[k - i]));
}

/// The text of a number holds nothing but digits, points, signs, the mark of an exponent, and the
/// letters of infinity and of what is no number: no colon, no comma, no white space.
pub proof fn the_text_of_a_number_holds_nothing_else(s: Seq<char>, k: int)
    requires
        text::is_float_text(s),
        0 <= k < s.len(),
    ensures
        of_a_number(s[k]),
        s[k] != ':' && s[k] != ',' && !text::is_space(s[k]),
{
    let i: nat = if s[0] == '+' || s[0] == '-' {
        1
    } else {
        0
    };
    if k >= i {
        let body: Seq<char> = text::lowered(s.skip(i as int));
        reveal_strlit("inf");
        reveal_strlit("infinity");
        reveal_strlit("nan");
        if body == "inf"@ {
            lemma_word(s, i as int, "inf"@, k);
        } else if body == "infinity"@ {
            lemma_word(s, i as int, "infinity"@, k);
        } else if body == "nan"@ {
            lemma_word(s, i as int, "nan"@, k);
        } else {
            lemma_number_characters(s, i, k);
        }
    }
}

proof fn lemma_number_characters(s: Seq<char>, i: nat, k: int)
    requires
        text::number_from(s, i),
        i <= k < s.len(),
    ensures
        of_a_number(s[k]),
{
    let a: nat = text::digits_end(s, i);
    lemma_digits_end(s, i);
    let dotted: bool = a < s.len() && s[a as int] == '.';
    if dotted {
        lemma_digits_end(s, a + 1);
    }
    let b: nat = if dotted {
        text::digits_end(s, a + 1)
    } else {
        a
    };
    if k >= b {
        let j: nat = if b + 1 < s.len() && (s[b as int + 1] == '+' || s[b as int + 1] == '-') {
            b + 2
        } else {
            b + 1
        };
        lemma_digits_end(s, j);
    }
}

// ---------------------------------------------------------------------------
// Failures and reports
// ---------------------------------------------------------------------------

/// A failure names the stage, and keeps the end of the diagnostics: the last 600 characters but for
/// white space at the very end, all of them where they are fewer.
pub proof fn a_failure_keeps_the_end_of_the_diagnostics(stage: Seq<char>, stderr: Seq<char>)
    ensures
        ({
            let t = ffmpeg::failure_text(stage, stderr);
            let d = text::trimmed_end(stderr);
            let n: int = if d.len() < 600 {
                d.len() as int
            } else {
                600
            };
            &&& text::contains(t, stage)
            &&& d.len() > 0 ==> t.len() >= n && t.skip(t.len() - n) == d.skip(d.len() - n)
            &&& t.len() <= 700 + stage.len()
            &&& 0 < d.len() < 600 ==> t == "FFmpeg failed during "@ + stage + ": "@ + d
            &&& d.len() >= 600 ==> t == "FFmpeg failed during "@ + stage + ": ..."@ + d.skip(
                d.len() - 600,
            )
        }),
{
    let a: Seq<char> = "FFmpeg failed during "@;
    let t: Seq<char> = ffmpeg::failure_text(stage, stderr);
    let d: Seq<char> = text::trimmed_end(stderr);
    reveal_strlit("FFmpeg failed during ");
    reveal_strlit(" without reporting a reason");
    reveal_strlit(": ");
    reveal_strlit("...");
    reveal_strlit(": ...");
    if d.len() == 0 {
        text_laws::lemma_found_between(a, stage, " without reporting a reason"@);
    } else {
        text_laws::lemma_found_between(a, stage, ": "@ + ffmpeg::diagnostic_tail(stderr));
        assert(a + stage + (": "@ + ffmpeg::diagnostic_tail(stderr)) =~= t);
        if d.len() >= 600 {
            assert(t =~= a + stage + ": ..."@ + d.skip(d.len() - 600));
            assert(t.skip(t.len() - 600) =~= d.skip(d.len() - 600));
        } else {
            assert(t.skip(t.len() - d.len()) =~= d.skip(0));
        }
    }
}

/// `t` stands in `s` at `a`, from the last opening brace to the last closing one.
pub open spec fn between_braces(s: Seq<char>, a: int, t: Seq<char>) -> bool {
    &&& 0 <= a && 2 <= t.len() && a + t.len() <= s.len()
    &&& s.subrange(a, a + t.len()) == t
    &&& t[0] == '{' && t.last() == '}'
    &&& forall|k: int| a < k < s.len() ==> s[k] != '{'
    &&& forall|k: int| a + t.len() <= k < s.len() ==> s[k] != '}'
}

/// An opening brace stands behind the last closing one, which is at `b`.
pub open spec fn torn(s: Seq<char>, b: int) -> bool {
    &&& 0 <= b < s.len() && s[b] == '}'
    &&& forall|k: int| b < k < s.len() ==> s[k] != '}'
    &&& exists|a: int| b < a < s.len() && s[a] == '{'
}

/// The report starts with the last opening brace and ends with the last closing one; there is one
/// exactly where both are there in this order, and none is told apart from one that is torn.
pub proof fn the_report_stands_between_the_last_braces(stderr: Seq<char>)
    ensures
        ffmpeg::report_in(stderr) matches Ok(t) ==> exists|a: int| between_braces(stderr, a, t),
        ffmpeg::report_in(stderr) is Err && stderr.contains('{') && stderr.contains('}')
            ==> ffmpeg::report_in(stderr)->Err_0 is Malformed && exists|b: int| torn(stderr, b),
        !stderr.contains('{') || !stderr.contains('}') ==> ffmpeg::report_in(stderr) is Err
            && ffmpeg::report_in(stderr)->Err_0 is Missing,
{
    text_laws::the_last_place_is_the_last(stderr, '{');
    text_laws::the_last_place_is_the_last(stderr, '}');
    match (text::last_at(stderr, '{'), text::last_at(stderr, '}')) {
        (Some(i), Some(j)) => {
            let a: int = i as int;
            let b: int = j as int;
            assert(stderr[a] == '{' && stderr[b] == '}');
            assert(stderr.contains('{') && stderr.contains('}'));
            if a < b {
                let t: Seq<char> = stderr.subrange(a, b + 1);
                assert(stderr.subrange(a, a + t.len()) == t);
                assert(ffmpeg::report_in(stderr) == Ok::<Seq<char>, ffmpeg::ReportError>(t));
                assert(between_braces(stderr, a, t));
                assert(ffmpeg::report_in(stderr)->Ok_0 == t);
                assert(between_braces(stderr, a, ffmpeg::report_in(stderr)->Ok_0));
                assert(exists|a: int| between_braces(stderr, a, ffmpeg::report_in(stderr)->Ok_0));
            } else {
                assert(b < a);
                assert(torn(stderr, b));
                assert(ffmpeg::report_in(stderr) is Err);
            }
        },
        _ => {
            assert(ffmpeg::report_in(stderr) is Err);
            assert(!stderr.contains('{') || !stderr.contains('}'));
        },
    }
}

/// A loudness in whole LUFS is usable from -99 on; an infinite one or none at all is not.
pub proof fn loudness_is_usable_from_minus_99_on(i: int)
    requires
        -0x100_0000 < i < 0x100_0000,
    ensures
        ffmpeg::usable(single::whole(i)) <==> i >= -99,
        !ffmpeg::usable(single::infinity(true)),
        !ffmpeg::usable(single::infinity(false)),
        !ffmpeg::usable(single::not_a_number()),
{
    single::lemma_whole_exact(i);
    single::lemma_whole_exact(-99);
    if i > -99 {
        single::lemma_units_order(-99, i);
    } else if i < -99 {
        single::lemma_units_order(i, -99);
    }
}

/// Statistics are used exactly where the loudness in them is a number that can be used, and then
/// as they are.
pub proof fn statistics_are_used_where_their_loudness_is(
    stats: LoudnormStats,
    input_i: Option<Single>,
    r: Option<LoudnormStats>,
    l: Option<Single>,
)
    requires
        call_ensures(ffmpeg::usable_stats, (stats, input_i), r),
        call_ensures(ffmpeg::usable_loudness, (input_i,), l),
    ensures
        r is Some <==> input_i is Some && input_i->0.finite() && single::at_most(
            single::whole(-99),
            input_i->0,
        ),
        r matches Some(s) ==> s == stats,
        l is Some <==> r is Some,
        l matches Some(v) ==> input_i == Some(v),
{
}

/// A probe that could not be run tells nothing, and one that was tells what its diagnostics do.
pub proof fn a_probe_tells_what_its_diagnostics_tell(
    stderr: &str,
    told: (Option<u32>, Option<ffmpeg::Clock>),
    nothing: (Option<u32>, Option<ffmpeg::Clock>),
)
    requires
        call_ensures(ffmpeg::probe_input, (Some(stderr),), told),
        call_ensures(ffmpeg::probe_input, (None::<&str>,), nothing),
    ensures
        nothing.0 is None && nothing.1 is None,
        told.0 is Some <==> ffmpeg::sample_rate_in(stderr@) is Some,
        told.0 matches Some(v) ==> ffmpeg::sample_rate_in(stderr@) == Some(v as nat),
        told.1 is Some <==> ffmpeg::duration_in(stderr@) is Some,
        told.1 matches Some(c) ==> ffmpeg::duration_in(stderr@) == Some(
            (c.hours@, c.minutes@, c.seconds@),
        ),
{
}

/// FFmpeg is taken from the path where it is there, else from beside the application; only where it
/// is at neither place is it missing.
pub proof fn ffmpeg_is_taken_from_the_path_first(
    on_path: bool,
    beside: bool,
    r: Result<FfmpegPlace, &'static str>,
)
    requires
        call_ensures(ffmpeg::choose_ffmpeg, (on_path, beside), r),
    ensures
        r is Ok <==> on_path || beside,
        r matches Ok(p) ==> (p == FfmpegPlace::OnPath <==> on_path),
{
}

/// A report is cut out where the measurement succeeded and gave one; otherwise its failure is worded,
/// by the stage where it did not succeed.
pub proof fn a_report_is_cut_out_where_there_is_one(
    stage: &str,
    success: bool,
    stderr: &str,
    r: Result<String, String>,
)
    requires
        call_ensures(ffmpeg::measured_report, (stage, success, stderr), r),
    ensures
        r is Ok <==> success && ffmpeg::report_in(stderr@) is Ok,
        r matches Ok(t) ==> exists|a: int| between_braces(stderr@, a, t@),
        !success ==> r->Err_0@ == ffmpeg::failure_text(stage@, stderr@),
{
    the_report_stands_between_the_last_braces(stderr@);
}

/// A measured peak is read where the measurement succeeded and told one; otherwise the failure is
/// worded.
pub proof fn a_peak_is_read_where_one_was_told(success: bool, stderr: &str, r: Result<String, String>)
    requires
        call_ensures(ffmpeg::measured_peak, (success, stderr), r),
    ensures
        r is Ok <==> success && ffmpeg::max_volume_in(stderr@) is Some,
        r matches Ok(t) ==> ffmpeg::max_volume_in(stderr@) == Some(t@),
        !success ==> r->Err_0@ == ffmpeg::failure_text("peak measurement"@, stderr@),
{
}

// ---------------------------------------------------------------------------
// The peak
// ---------------------------------------------------------------------------

/// The word at `k` is `max_volume:`, and a number stands behind it.
pub open spec fn gives_volume(w: Seq<Seq<char>>, k: int) -> bool {
    0 <= k && k + 1 < w.len() && w[k] == "max_volume:"@ && text::is_float_text(w[k + 1])
}

proof fn lemma_volume_from_word(w: Seq<Seq<char>>, i: int)
    requires
        0 <= i,
        forall|k: int| k < i ==> !gives_volume(w, k),
    ensures
        ffmpeg::volume_from_word(w, i) matches Some(t) ==> exists|k: int| #[trigger]
            gives_volume(w, k) && t == w[k + 1] && forall|m: int| m < k ==> !gives_volume(w, m),
        ffmpeg::volume_from_word(w, i) is None ==> forall|k: int| !gives_volume(w, k),
    decreases w.len() - i,
{
    if i + 1 < w.len() {
        if gives_volume(w, i) {
        } else {
            lemma_volume_from_word(w, i + 1);
        }
    }
}

/// The line is about the volume, and `t` is the first number behind its name.
pub open spec fn tells_volume(line: Seq<char>, t: Seq<char>) -> bool {
    let w = text::words(line);
    &&& text::contains(line, "max_volume:"@)
    &&& exists|k: int| #[trigger]
        gives_volume(w, k) && t == w[k + 1] && forall|m: int| m < k ==> !gives_volume(w, m)
}

proof fn lemma_volume_line(line: Seq<char>, t: Seq<char>)
    ensures
        tells_volume(line, t) <==> text::contains(line, "max_volume:"@) && ffmpeg::volume_from_word(
            text::words(line),
            0,
        ) == Some(t),
{
    let w: Seq<Seq<char>> = text::words(line);
    lemma_volume_from_word(w, 0);
    if tells_volume(line, t) {
        let k: int = choose|k: int| #[trigger]
            gives_volume(w, k) && t == w[k + 1] && forall|m: int| m < k ==> !gives_volume(w, m);
        match ffmpeg::volume_from_word(w, 0) {
            Some(d) => {
                let j: int = choose|j: int| #[trigger]
                    gives_volume(w, j) && d == w[j + 1] && forall|m: int|
                        m < j ==> !gives_volume(w, m);
                assert(!(k < j) && !(j < k));
            },
            None => {},
        }
    }
}

/// No line before `k` tells the volume.
pub open spec fn no_volume_before(lines: Seq<Seq<char>>, k: int) -> bool {
    forall|i: int, t: Seq<char>| 0 <= i < k && i < lines.len() ==> !tells_volume(lines[i], t)
}

proof fn lemma_volume_from_line(lines: Seq<Seq<char>>, i: int)
    requires
        0 <= i,
        no_volume_before(lines, i),
    ensures
        ffmpeg::volume_from_line(lines, i) matches Some(t) ==> exists|k: int|
            0 <= k < lines.len() && tells_volume(lines[k], t) && #[trigger] no_volume_before(
                lines,
                k,
            ),
        ffmpeg::volume_from_line(lines, i) is None ==> no_volume_before(lines, lines.len() as int),
    decreases lines.len() - i,
{
    if i < lines.len() {
        let f: Option<Seq<char>> = ffmpeg::volume_from_word(text::words(lines[i]), 0);
        if text::contains(lines[i], "max_volume:"@) && f is Some {
            lemma_volume_line(lines[i], f->0);
            assert(tells_volume(lines[i], f->0) && no_volume_before(lines, i));
        } else {
            assert forall|k: int, t: Seq<char>| 0 <= k < i + 1 && k < lines.len() implies
                !tells_volume(lines[k], t) by {
                if k == i {
                    lemma_volume_line(lines[i], t);
                }
            }
            lemma_volume_from_line(lines, i + 1);
        }
    }
}

/// The peak is the first number behind its name in the first line that holds one.
pub proof fn the_peak_is_the_first_one_told(stderr: Seq<char>)
    ensures
        ({
            let lines = text::pieces(stderr, '\n');
            match ffmpeg::max_volume_in(stderr) {
                Some(t) => exists|k: int|
                    0 <= k < lines.len() && tells_volume(lines[k], t)
                        && #[trigger] no_volume_before(lines, k),
                None => no_volume_before(lines, lines.len() as int),
            }
        }),
{
    lemma_volume_from_line(text::pieces(stderr, '\n'), 0);
}

} // verus!
