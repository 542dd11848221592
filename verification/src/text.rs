//! Text: building strings, and cutting them into words, pieces and lines.
//!
//! The view of a string is the sequence of its characters; every function here is stated over
//! such sequences.

use vstd::prelude::*;

verus! {

/// `String::push`: appends the character to the end of the string.
pub assume_specification[ String::push ](s: &mut String, ch: char)
    ensures
        final(s)@ == old(s)@.push(ch),
;

/// The characters of `s`.
pub fn chars_of(s: &str) -> (v: Vec<char>)
    ensures
        v@ == s@,
{
    let mut v: Vec<char> = Vec::new();
    for c in it: s.chars()
        invariant
            it.seq() == s@,
            v@ == s@.take(it.index() as int),
    {
        v.push(c);
        assert(s@.take(it.index() as int + 1) == s@.take(it.index() as int).push(c));
    }
    assert(s@.take(s@.len() as int) == s@);
    v
}

/// The string made of these characters.
pub fn text_of(v: &[char]) -> (s: String)
    ensures
        s@ == v@,
{
    let mut s: String = String::new();
    for i in 0..v.len()
        invariant
            s@ == v@.take(i as int),
    {
        s.push(v[i]);
        assert(v@.take(i as int + 1) == v@.take(i as int).push(v[i as int]));
    }
    assert(v@.take(v@.len() as int) == v@);
    s
}

/// The string made of the characters from `from` up to `to`.
pub fn text_between(v: &[char], from: usize, to: usize) -> (s: String)
    requires
        from <= to <= v@.len(),
    ensures
        s@ == v@.subrange(from as int, to as int),
{
    let mut s: String = String::new();
    for i in from..to
        invariant
            from <= to <= v@.len(),
            s@ == v@.subrange(from as int, i as int),
    {
        s.push(v[i]);
        assert(v@.subrange(from as int, i as int + 1) == v@.subrange(from as int, i as int).push(
            v[i as int],
        ));
    }
    s
}

/// Whether the two texts are the same.
pub fn same(a: &str, b: &str) -> (r: bool)
    ensures
        r == (a@ == b@),
{
    a.to_owned() == b.to_owned()
}

/// Whether the two sequences of characters are the same.
pub fn same_chars(a: &[char], b: &[char]) -> (r: bool)
    ensures
        r == (a@ == b@),
{
    if a.len() != b.len() {
        return false;
    }
    for i in 0..a.len()
        invariant
            a@.len() == b@.len(),
            forall|j: int| 0 <= j < i ==> a@[j] == b@[j],
    {
        if a[i] != b[i] {
            return false;
        }
    }
    assert(a@ == b@);
    true
}

/// `a` followed by `b`.
pub fn joined(a: &str, b: &str) -> (r: String)
    ensures
        r@ == a@ + b@,
{
    let mut r: String = a.to_owned();
    r.append(b);
    r
}

/// Filters put one behind the other: `a`, a comma, `b`.
pub fn comma(a: &str, b: &str) -> (r: String)
    ensures
        r@ == a@ + ","@ + b@,
{
    let mut r: String = a.to_owned();
    r.append(",");
    r.append(b);
    r
}

// ---------------------------------------------------------------------------
// Whole numbers
// ---------------------------------------------------------------------------

/// The character for the digit `d`.
pub open spec fn digit(d: nat) -> char {
    if d == 0 {
        '0'
    } else if d == 1 {
        '1'
    } else if d == 2 {
        '2'
    } else if d == 3 {
        '3'
    } else if d == 4 {
        '4'
    } else if d == 5 {
        '5'
    } else if d == 6 {
        '6'
    } else if d == 7 {
        '7'
    } else if d == 8 {
        '8'
    } else {
        '9'
    }
}

/// `n` in decimal, without leading zeros.
pub open spec fn decimal(n: nat) -> Seq<char>
    decreases n,
{
    if n < 10 {
        seq![digit(n)]
    } else {
        decimal(n / 10).push(digit(n % 10))
    }
}

/// The last `places` decimal digits of `n`.
pub open spec fn low_digits(n: nat, places: nat) -> Seq<char>
    decreases places,
{
    if places == 0 {
        Seq::empty()
    } else {
        low_digits(n / 10, (places - 1) as nat).push(digit(n % 10))
    }
}

fn digit_char(d: u8) -> (c: char)
    requires
        d < 10,
    ensures
        c == digit(d as nat),
{
    match d {
        0 => '0',
        1 => '1',
        2 => '2',
        3 => '3',
        4 => '4',
        5 => '5',
        6 => '6',
        7 => '7',
        8 => '8',
        _ => '9',
    }
}

/// `n` in decimal.
pub fn decimal_text(n: u128) -> (s: String)
    ensures
        s@ == decimal(n as nat),
    decreases n,
{
    if n < 10 {
        let mut s: String = String::new();
        s.push(digit_char(n as u8));
        assert(s@ == seq![digit(n as nat)]);
        s
    } else {
        let mut s: String = decimal_text(n / 10);
        s.push(digit_char((n % 10) as u8));
        s
    }
}

/// The last `places` decimal digits of `n`, zeros included.
pub fn low_digits_text(n: u128, places: u8) -> (s: String)
    ensures
        s@ == low_digits(n as nat, places as nat),
    decreases places,
{
    if places == 0 {
        String::new()
    } else {
        let mut s: String = low_digits_text(n / 10, places - 1);
        s.push(digit_char((n % 10) as u8));
        s
    }
}

/// The value of a decimal digit.
pub open spec fn digit_value(c: char) -> Option<nat> {
    if '0' <= c <= '9' {
        Some((c as nat - '0' as nat) as nat)
    } else {
        None
    }
}

/// An ASCII digit.
pub open spec fn is_digit(c: char) -> bool {
    '0' <= c <= '9'
}

/// The number that a run of decimal digits denotes; `None` if anything else is in it.
pub open spec fn digits_value(s: Seq<char>) -> Option<nat>
    decreases s.len(),
{
    if s.len() == 0 {
        Some(0)
    } else {
        match (digits_value(s.drop_last()), digit_value(s.last())) {
            (Some(v), Some(d)) => Some((10 * v + d) as nat),
            _ => None,
        }
    }
}

/// The number that `s` denotes as an unsigned integer of at most `max`: an optional `+`, then at
/// least one digit and nothing else.
pub open spec fn unsigned_value(s: Seq<char>, max: nat) -> Option<nat> {
    let body = if s.len() > 0 && s[0] == '+' {
        s.skip(1)
    } else {
        s
    };
    match digits_value(body) {
        Some(v) => if body.len() > 0 && v <= max {
            Some(v)
        } else {
            None
        },
        None => None,
    }
}

/// The first digits of a number are a number no larger than it.
pub proof fn lemma_digits_value_prefix(s: Seq<char>, k: int)
    requires
        0 <= k <= s.len(),
        digits_value(s) is Some,
    ensures
        digits_value(s.take(k)) is Some,
        digits_value(s.take(k))->0 <= digits_value(s)->0,
    decreases s.len(),
{
    if k < s.len() {
        lemma_digits_value_prefix(s.drop_last(), k);
        assert(s.drop_last().take(k) == s.take(k));
    } else {
        assert(s.take(k) == s);
    }
}

/// Reads `s` as a `u32`.
pub fn parse_u32(s: &[char]) -> (r: Option<u32>)
    ensures
        match r {
            Some(v) => unsigned_value(s@, u32::MAX as nat) == Some(v as nat),
            None => unsigned_value(s@, u32::MAX as nat) is None,
        },
{
    let start: usize = if s.len() > 0 && s[0] == '+' {
        1
    } else {
        0
    };
    let ghost body: Seq<char> = if s@.len() > 0 && s@[0] == '+' {
        s@.skip(1)
    } else {
        s@
    };
    if start == s.len() {
        assert(body.len() == 0);
        return None;
    }
    let mut v: u64 = 0;
    assert(body.take(0) == Seq::<char>::empty());
    for i in start..s.len()
        invariant
            start == if s@.len() > 0 && s@[0] == '+' {
                1int
            } else {
                0int
            },
            body == if s@.len() > 0 && s@[0] == '+' {
                s@.skip(1)
            } else {
                s@
            },
            start <= i <= s@.len(),
            v <= u32::MAX,
            digits_value(body.take(i - start)) == Some(v as nat),
    {
        let c: char = s[i];
        let ghost k: int = i - start;
        proof {
            assert(body[k] == c);
            assert(body.take(k + 1).drop_last() == body.take(k));
            assert(body.take(k + 1).last() == c);
        }
        if c < '0' || c > '9' {
            proof {
                if digits_value(body) is Some {
                    lemma_digits_value_prefix(body, k + 1);
                }
            }
            return None;
        }
        v = 10 * v + (c as u32 - '0' as u32) as u64;
        if v > u32::MAX as u64 {
            proof {
                if digits_value(body) is Some {
                    lemma_digits_value_prefix(body, k + 1);
                }
            }
            return None;
        }
    }
    assert(body.take(body.len() as int) == body);
    Some(v as u32)
}

// ---------------------------------------------------------------------------
// Cutting text up
// ---------------------------------------------------------------------------

/// The characters with Unicode's `White_Space` property.
pub open spec fn is_space(c: char) -> bool {
    ||| '\u{9}' <= c <= '\u{D}'
    ||| c == ' '
    ||| c == '\u{85}'
    ||| c == '\u{A0}'
    ||| c == '\u{1680}'
    ||| '\u{2000}' <= c <= '\u{200A}'
    ||| c == '\u{2028}'
    ||| c == '\u{2029}'
    ||| c == '\u{202F}'
    ||| c == '\u{205F}'
    ||| c == '\u{3000}'
}

/// Whether the character is white space.
pub fn space(c: char) -> (r: bool)
    ensures
        r == is_space(c),
{
    ('\u{9}' <= c && c <= '\u{D}') || c == ' ' || c == '\u{85}' || c == '\u{A0}' || c == '\u{1680}'
        || ('\u{2000}' <= c && c <= '\u{200A}') || c == '\u{2028}' || c == '\u{2029}' || c
        == '\u{202F}' || c == '\u{205F}' || c == '\u{3000}'
}

/// The words that are complete when all of `s` has been read, and the one still open.
pub open spec fn word_scan(s: Seq<char>) -> (Seq<Seq<char>>, Seq<char>)
    decreases s.len(),
{
    if s.len() == 0 {
        (Seq::empty(), Seq::empty())
    } else {
        let (done, open) = word_scan(s.drop_last());
        if !is_space(s.last()) {
            (done, open.push(s.last()))
        } else if open.len() > 0 {
            (done.push(open), Seq::empty())
        } else {
            (done, open)
        }
    }
}

/// The words of `s`: its longest runs without white space, in order.
pub open spec fn words(s: Seq<char>) -> Seq<Seq<char>> {
    let (done, open) = word_scan(s);
    if open.len() > 0 {
        done.push(open)
    } else {
        done
    }
}

/// The pieces that are complete when all of `s` has been read, and the one still open.
pub open spec fn piece_scan(s: Seq<char>, sep: char) -> (Seq<Seq<char>>, Seq<char>)
    decreases s.len(),
{
    if s.len() == 0 {
        (Seq::empty(), Seq::empty())
    } else {
        let (done, open) = piece_scan(s.drop_last(), sep);
        if s.last() == sep {
            (done.push(open), Seq::empty())
        } else {
            (done, open.push(s.last()))
        }
    }
}

/// The pieces of `s` between separators, in order; always at least one, possibly empty.
pub open spec fn pieces(s: Seq<char>, sep: char) -> Seq<Seq<char>> {
    let (done, open) = piece_scan(s, sep);
    done.push(open)
}

/// The character sequences that these vectors hold.
pub open spec fn char_seqs(v: Seq<Vec<char>>) -> Seq<Seq<char>> {
    v.map_values(|w: Vec<char>| w@)
}

/// The texts that these strings hold.
pub open spec fn texts(v: Seq<String>) -> Seq<Seq<char>> {
    v.map_values(|w: String| w@)
}

/// Cuts `s` into its words.
pub fn words_of(s: &[char]) -> (r: Vec<Vec<char>>)
    ensures
        char_seqs(r@) == words(s@),
{
    let mut done: Vec<Vec<char>> = Vec::new();
    let mut open: Vec<char> = Vec::new();
    for i in 0..s.len()
        invariant
            char_seqs(done@) == word_scan(s@.take(i as int)).0,
            open@ == word_scan(s@.take(i as int)).1,
    {
        let c: char = s[i];
        assert(s@.take(i as int + 1).drop_last() == s@.take(i as int));
        if !space(c) {
            open.push(c);
        } else if open.len() > 0 {
            let ghost before: Seq<Vec<char>> = done@;
            done.push(open);
            open = Vec::new();
            assert(char_seqs(done@) == char_seqs(before).push(done@.last()@));
        }
    }
    assert(s@.take(s@.len() as int) == s@);
    if open.len() > 0 {
        let ghost before: Seq<Vec<char>> = done@;
        done.push(open);
        assert(char_seqs(done@) == char_seqs(before).push(done@.last()@));
    }
    done
}

/// Cuts `s` into its pieces.
pub fn pieces_of(s: &[char], sep: char) -> (r: Vec<Vec<char>>)
    ensures
        char_seqs(r@) == pieces(s@, sep),
{
    let mut done: Vec<Vec<char>> = Vec::new();
    let mut open: Vec<char> = Vec::new();
    for i in 0..s.len()
        invariant
            char_seqs(done@) == piece_scan(s@.take(i as int), sep).0,
            open@ == piece_scan(s@.take(i as int), sep).1,
    {
        let c: char = s[i];
        assert(s@.take(i as int + 1).drop_last() == s@.take(i as int));
        if c == sep {
            let ghost before: Seq<Vec<char>> = done@;
            done.push(open);
            open = Vec::new();
            assert(char_seqs(done@) == char_seqs(before).push(done@.last()@));
        } else {
            open.push(c);
        }
    }
    assert(s@.take(s@.len() as int) == s@);
    let ghost before: Seq<Vec<char>> = done@;
    done.push(open);
    assert(char_seqs(done@) == char_seqs(before).push(done@.last()@));
    done
}

/// `needle` stands in `s` at `at`.
pub open spec fn found_at(s: Seq<char>, needle: Seq<char>, at: int) -> bool {
    0 <= at && at + needle.len() <= s.len() && s.subrange(at, at + needle.len()) == needle
}

/// `needle` stands somewhere in `s`.
pub open spec fn contains(s: Seq<char>, needle: Seq<char>) -> bool {
    exists|at: int| found_at(s, needle, at)
}

/// Whether `needle` stands somewhere in `s`.
pub fn holds(s: &[char], needle: &[char]) -> (r: bool)
    ensures
        r == contains(s@, needle@),
{
    if needle.len() > s.len() {
        return false;
    }
    let last: usize = s.len() - needle.len();
    let mut at: usize = 0;
    while at <= last
        invariant
            last == s@.len() - needle@.len(),
            at <= last + 1,
            s@.len() <= usize::MAX,
            forall|k: int| 0 <= k < at ==> !found_at(s@, needle@, k),
        decreases last + 1 - at,
    {
        let mut i: usize = 0;
        while i < needle.len() && s[at + i] == needle[i]
            invariant
                last == s@.len() - needle@.len(),
                s@.len() <= usize::MAX,
                at <= last,
                i <= needle@.len(),
                forall|k: int| 0 <= k < i ==> s@[at + k] == needle@[k],
            decreases needle@.len() - i,
        {
            i = i + 1;
        }
        if i == needle.len() {
            assert(s@.subrange(at as int, at + needle@.len()) == needle@);
            assert(found_at(s@, needle@, at as int));
            return true;
        }
        proof {
            if found_at(s@, needle@, at as int) {
                assert(s@.subrange(at as int, at + needle@.len())[i as int] == s@[at + i]);
            }
        }
        if at == last {
            assert forall|k: int| !found_at(s@, needle@, k) by {}
            return false;
        }
        at = at + 1;
    }
    false
}

/// `s` without the `c`s at its end.
pub open spec fn without_trailing(s: Seq<char>, c: char) -> Seq<char>
    decreases s.len(),
{
    if s.len() > 0 && s.last() == c {
        without_trailing(s.drop_last(), c)
    } else {
        s
    }
}

/// `s` without the white space at its end.
pub open spec fn trimmed_end(s: Seq<char>) -> Seq<char>
    decreases s.len(),
{
    if s.len() > 0 && is_space(s.last()) {
        trimmed_end(s.drop_last())
    } else {
        s
    }
}

/// The number of characters before the `c`s at the end of `s`.
pub fn end_without(s: &[char], c: char) -> (n: usize)
    ensures
        n <= s@.len(),
        s@.take(n as int) == without_trailing(s@, c),
{
    let mut n: usize = s.len();
    assert(s@.take(n as int) == s@);
    while n > 0 && s[n - 1] == c
        invariant
            n <= s@.len(),
            without_trailing(s@.take(n as int), c) == without_trailing(s@, c),
        decreases n,
    {
        assert(s@.take(n as int).drop_last() == s@.take(n - 1));
        n = n - 1;
    }
    n
}

/// The number of characters before the white space at the end of `s`.
pub fn end_trimmed(s: &[char]) -> (n: usize)
    ensures
        n <= s@.len(),
        s@.take(n as int) == trimmed_end(s@),
{
    let mut n: usize = s.len();
    assert(s@.take(n as int) == s@);
    while n > 0 && space(s[n - 1])
        invariant
            n <= s@.len(),
            trimmed_end(s@.take(n as int)) == trimmed_end(s@),
        decreases n,
    {
        assert(s@.take(n as int).drop_last() == s@.take(n - 1));
        n = n - 1;
    }
    n
}

/// Where `c` occurs for the last time in `s`.
pub open spec fn last_at(s: Seq<char>, c: char) -> Option<nat>
    decreases s.len(),
{
    if s.len() == 0 {
        None
    } else if s.last() == c {
        Some((s.len() - 1) as nat)
    } else {
        last_at(s.drop_last(), c)
    }
}

/// Where `c` occurs for the last time in `s`.
pub fn find_last(s: &[char], c: char) -> (r: Option<usize>)
    ensures
        match r {
            Some(i) => i < s@.len() && last_at(s@, c) == Some(i as nat),
            None => last_at(s@, c) is None,
        },
{
    let mut n: usize = s.len();
    assert(s@.take(n as int) == s@);
    while n > 0
        invariant
            n <= s@.len(),
            last_at(s@.take(n as int), c) == last_at(s@, c),
        decreases n,
    {
        if s[n - 1] == c {
            return Some(n - 1);
        }
        assert(s@.take(n as int).drop_last() == s@.take(n - 1));
        n = n - 1;
    }
    None
}

/// A copy of `s[from..to]`.
pub fn part(s: &[char], from: usize, to: usize) -> (r: Vec<char>)
    requires
        from <= to <= s@.len(),
    ensures
        r@ == s@.subrange(from as int, to as int),
{
    let mut r: Vec<char> = Vec::new();
    for i in from..to
        invariant
            from <= to <= s@.len(),
            r@ == s@.subrange(from as int, i as int),
    {
        r.push(s[i]);
        assert(s@.subrange(from as int, i as int + 1) == s@.subrange(from as int, i as int).push(
            s[i as int],
        ));
    }
    r
}

/// `c` in lower case if it is an ASCII letter.
pub open spec fn ascii_lower(c: char) -> char {
    if 'A' <= c <= 'Z' {
        (c as u32 + 32) as char
    } else {
        c
    }
}

/// `s` with its ASCII letters in lower case.
pub open spec fn lowered(s: Seq<char>) -> Seq<char> {
    s.map_values(|c: char| ascii_lower(c))
}

// ---------------------------------------------------------------------------
// Decimal numbers
// ---------------------------------------------------------------------------

/// Where the run of digits that starts at `i` ends.
pub open spec fn digits_end(s: Seq<char>, i: nat) -> nat
    decreases s.len() - i,
{
    if i < s.len() && is_digit(s[i as int]) {
        digits_end(s, i + 1)
    } else {
        i
    }
}

/// `s[i..]` is nothing, or an exponent: `e` or `E`, an optional sign, at least one digit.
pub open spec fn exponent_from(s: Seq<char>, i: nat) -> bool {
    i == s.len() || {
        let j = if i + 1 < s.len() && (s[i as int + 1] == '+' || s[i as int + 1] == '-') {
            i + 2
        } else {
            i + 1
        };
        &&& i < s.len()
        &&& s[i as int] == 'e' || s[i as int] == 'E'
        &&& j < s.len()
        &&& digits_end(s, j as nat) == s.len()
    }
}

/// `s[i..]` is digits with an optional point among or around them, then an optional exponent.
pub open spec fn number_from(s: Seq<char>, i: nat) -> bool {
    let a = digits_end(s, i);
    let dotted = a < s.len() && s[a as int] == '.';
    let b = if dotted {
        digits_end(s, a + 1)
    } else {
        a
    };
    &&& a > i || (dotted && b > a + 1)
    &&& exponent_from(s, b)
}

/// `s` is the text of a floating-point number: an optional sign, then a number, `inf`,
/// `infinity` or `nan`; letters in either case.
pub open spec fn is_float_text(s: Seq<char>) -> bool {
    let i: nat = if s.len() > 0 && (s[0] == '+' || s[0] == '-') {
        1
    } else {
        0
    };
    let body = lowered(s.skip(i as int));
    ||| body == "inf"@
    ||| body == "infinity"@
    ||| body == "nan"@
    ||| number_from(s, i)
}

fn skip_digits(s: &[char], i: usize) -> (j: usize)
    requires
        i <= s@.len(),
    ensures
        j == digits_end(s@, i as nat),
        i <= j <= s@.len(),
{
    let mut j: usize = i;
    while j < s.len() && s[j] >= '0' && s[j] <= '9'
        invariant
            i <= j <= s@.len(),
            digits_end(s@, j as nat) == digits_end(s@, i as nat),
        decreases s@.len() - j,
    {
        j = j + 1;
    }
    j
}

fn lower(c: char) -> (r: char)
    ensures
        r == ascii_lower(c),
{
    match c {
        'A' => 'a',
        'B' => 'b',
        'C' => 'c',
        'D' => 'd',
        'E' => 'e',
        'F' => 'f',
        'G' => 'g',
        'H' => 'h',
        'I' => 'i',
        'J' => 'j',
        'K' => 'k',
        'L' => 'l',
        'M' => 'm',
        'N' => 'n',
        'O' => 'o',
        'P' => 'p',
        'Q' => 'q',
        'R' => 'r',
        'S' => 's',
        'T' => 't',
        'U' => 'u',
        'V' => 'v',
        'W' => 'w',
        'X' => 'x',
        'Y' => 'y',
        'Z' => 'z',
        _ => c,
    }
}

/// `s[from..]` with its ASCII letters in lower case.
pub fn lowered_from(s: &[char], from: usize) -> (r: String)
    requires
        from <= s@.len(),
    ensures
        r@ == lowered(s@.skip(from as int)),
{
    let mut r: String = String::new();
    for i in from..s.len()
        invariant
            from <= i <= s@.len(),
            r@ == lowered(s@.subrange(from as int, i as int)),
    {
        let ghost before: Seq<char> = s@.subrange(from as int, i as int);
        r.push(lower(s[i]));
        assert(s@.subrange(from as int, i as int + 1) == before.push(s[i as int]));
        assert(lowered(before.push(s[i as int])) == lowered(before).push(ascii_lower(s[i as int])));
    }
    assert(s@.subrange(from as int, s@.len() as int) == s@.skip(from as int));
    r
}

/// Whether `s` is the text of a floating-point number.
pub fn float_text(s: &[char]) -> (r: bool)
    ensures
        r == is_float_text(s@),
{
    let i: usize = if s.len() > 0 && (s[0] == '+' || s[0] == '-') {
        1
    } else {
        0
    };
    let body: String = lowered_from(s, i);
    if same(body.as_str(), "inf") || same(body.as_str(), "infinity") || same(body.as_str(), "nan") {
        return true;
    }
    let a: usize = skip_digits(s, i);
    let dotted: bool = a < s.len() && s[a] == '.';
    let b: usize = if dotted {
        skip_digits(s, a + 1)
    } else {
        a
    };
    if !(a > i || (dotted && b > a + 1)) {
        return false;
    }
    if b == s.len() {
        return true;
    }
    if s[b] != 'e' && s[b] != 'E' {
        return false;
    }
    let j: usize = if b + 1 < s.len() && (s[b + 1] == '+' || s[b + 1] == '-') {
        b + 2
    } else {
        b + 1
    };
    j < s.len() && skip_digits(s, j) == s.len()
}

} // verus!
