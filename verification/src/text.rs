//! Text helpers: decimal numbers, trimming, cutting at a byte budget, prefixes
//! and lines.
//!
//! Everything here works on the characters of a string (its view), so that the
//! modules that build names and messages can say exactly which characters come
//! out.

use vstd::arithmetic::power::pow;
use vstd::prelude::*;
use vstd::string::StrSliceExecFns;
use vstd::utf8::{encode_scalar, encode_utf8};

verus! {

/// `String::push` appends the given character at the end of the string.
pub assume_specification[ String::push ](s: &mut String, c: char)
    ensures
        final(s)@ == old(s)@.push(c),
;

/// `String::push_str` appends the given characters at the end of the string.
pub assume_specification[ String::push_str ](s: &mut String, text: &str)
    ensures
        final(s)@ == old(s)@ + text@,
;

// ─── Decimal numbers ────────────────────────────────────────────────────────

/// The decimal digit `d`, as a character.
pub open spec fn digit(d: int) -> char {
    (48 + d) as char
}

/// `n` in decimal, most significant digit first, without leading zeros.
pub open spec fn decimal(n: nat) -> Seq<char>
    decreases n,
{
    if n < 10 {
        seq![digit(n as int)]
    } else {
        decimal(n / 10).push(digit((n % 10) as int))
    }
}

/// `i` in decimal, with a leading minus sign when it is negative.
pub open spec fn signed_decimal(i: int) -> Seq<char> {
    if i < 0 {
        seq!['-'] + decimal((-i) as nat)
    } else {
        decimal(i as nat)
    }
}

/// A decimal number is made of digits.
pub proof fn lemma_decimal_chars(n: nat)
    ensures
        decimal(n).len() >= 1,
        forall|i: int| 0 <= i < decimal(n).len() ==> '0' <= #[trigger] decimal(n)[i] <= '9',
    decreases n,
{
    if n >= 10 {
        lemma_decimal_chars(n / 10);
    }
}

/// Append `n` in decimal.
pub fn push_decimal(out: &mut String, n: u64)
    ensures
        final(out)@ == old(out)@ + decimal(n as nat),
    decreases n,
{
    if n >= 10 {
        push_decimal(out, n / 10);
    }
    let d: u8 = (n % 10) as u8;
    out.push((48u8 + d) as char);
}

/// Append `i` in decimal, with a minus sign when it is negative.
pub fn push_signed_decimal(out: &mut String, i: i32)
    ensures
        final(out)@ == old(out)@ + signed_decimal(i as int),
{
    if i < 0 {
        out.push('-');
        push_decimal(out, (-(i as i64)) as u64);
    } else {
        push_decimal(out, i as u64);
    }
}

// ─── Characters of a string ─────────────────────────────────────────────────

/// The characters of `s`, one by one.
pub fn chars_of(s: &str) -> (chars: Vec<char>)
    ensures
        chars@ == s@,
{
    let mut chars: Vec<char> = Vec::new();
    for c in it: s.chars()
        invariant
            it.seq() == s@,
            chars@ == s@.take(it.index() as int),
    {
        chars.push(c);
    }
    chars
}

// ─── White space ────────────────────────────────────────────────────────────

/// Unicode's `White_Space` property.
pub open spec fn is_whitespace(c: char) -> bool {
    ||| '\u{9}' <= c <= '\u{d}'
    ||| c == '\u{20}'
    ||| c == '\u{85}'
    ||| c == '\u{a0}'
    ||| c == '\u{1680}'
    ||| '\u{2000}' <= c <= '\u{200a}'
    ||| c == '\u{2028}'
    ||| c == '\u{2029}'
    ||| c == '\u{202f}'
    ||| c == '\u{205f}'
    ||| c == '\u{3000}'
}

/// Whether `c` has Unicode's `White_Space` property.
pub fn whitespace(c: char) -> (r: bool)
    ensures
        r == is_whitespace(c),
{
    ('\u{9}' <= c && c <= '\u{d}') || c == '\u{20}' || c == '\u{85}' || c == '\u{a0}' || c
        == '\u{1680}' || ('\u{2000}' <= c && c <= '\u{200a}') || c == '\u{2028}' || c == '\u{2029}'
        || c == '\u{202f}' || c == '\u{205f}' || c == '\u{3000}'
}

/// `s` without its leading white space.
pub open spec fn trimmed_start(s: Seq<char>) -> Seq<char>
    decreases s.len(),
{
    if s.len() > 0 && is_whitespace(s[0]) {
        trimmed_start(s.drop_first())
    } else {
        s
    }
}

/// `s` without its trailing white space.
pub open spec fn trimmed_end(s: Seq<char>) -> Seq<char>
    decreases s.len(),
{
    if s.len() > 0 && is_whitespace(s.last()) {
        trimmed_end(s.drop_last())
    } else {
        s
    }
}

/// `s` without its leading and trailing white space.
pub open spec fn trimmed(s: Seq<char>) -> Seq<char> {
    trimmed_end(trimmed_start(s))
}

/// `s` without its leading and trailing white space.
pub fn trim(s: &str) -> (r: &str)
    ensures
        r@ == trimmed(s@),
{
    let chars: Vec<char> = chars_of(s);
    let n: usize = chars.len();
    let mut from: usize = 0;
    assert(s@.skip(0) == s@);
    while from < n && whitespace(chars[from])
        invariant
            n == chars.len(),
            chars@ == s@,
            from <= n,
            trimmed_start(s@.skip(from as int)) == trimmed_start(s@),
        decreases n - from,
    {
        assert(s@.skip(from as int).drop_first() == s@.skip(from + 1));
        from = from + 1;
    }
    assert(trimmed_start(s@) == s@.skip(from as int));
    let mut to: usize = n;
    assert(s@.subrange(from as int, n as int) == s@.skip(from as int));
    while to > from && whitespace(chars[to - 1])
        invariant
            n == chars.len(),
            chars@ == s@,
            from <= to <= n,
            trimmed_end(s@.subrange(from as int, to as int)) == trimmed(s@),
        decreases to,
    {
        assert(s@.subrange(from as int, to as int).drop_last() == s@.subrange(
            from as int,
            to - 1,
        ));
        to = to - 1;
    }
    s.substring_char(from, to)
}

/// Whether `s` holds nothing but white space.
pub fn is_blank(s: &str) -> (r: bool)
    ensures
        r == (trimmed(s@).len() == 0),
{
    trim(s).is_empty()
}

// ─── Cutting at a byte budget ───────────────────────────────────────────────

/// How many bytes the UTF-8 encoding of `s` takes.
pub open spec fn byte_len(s: Seq<char>) -> nat {
    encode_utf8(s).len()
}

/// The longest prefix of `s` whose UTF-8 encoding fits in `max` bytes.
pub open spec fn fitting_prefix(s: Seq<char>, max: nat) -> Seq<char>
    decreases s.len(),
{
    if byte_len(s) <= max || s.len() == 0 {
        s
    } else {
        fitting_prefix(s.drop_last(), max)
    }
}

/// `s` itself where it fits in `max` bytes; otherwise its longest fitting
/// prefix, with an ellipsis after it.
pub open spec fn truncated(s: Seq<char>, max: nat) -> Seq<char> {
    if byte_len(s) <= max {
        s
    } else {
        fitting_prefix(s, max).push('\u{2026}')
    }
}

/// How many bytes the UTF-8 encoding of `c` takes.
fn char_width(c: char) -> (w: usize)
    ensures
        w == encode_scalar(c as u32).len(),
        1 <= w <= 4,
{
    let v: u32 = c as u32;
    if v <= 0x7f {
        1
    } else if v <= 0x7ff {
        2
    } else if v <= 0xffff {
        3
    } else {
        4
    }
}

/// The encoding of a concatenation is the concatenation of the encodings.
pub proof fn lemma_encode_concat(a: Seq<char>, b: Seq<char>)
    ensures
        encode_utf8(a + b) == encode_utf8(a) + encode_utf8(b),
    decreases a.len(),
{
    if a.len() == 0 {
        assert(a + b == b);
    } else {
        assert((a + b).drop_first() == a.drop_first() + b);
        lemma_encode_concat(a.drop_first(), b);
        assert(encode_utf8(a + b) == encode_utf8(a) + encode_utf8(b));
    }
}

/// One more character adds the bytes of its own encoding.
proof fn lemma_byte_len_step(s: Seq<char>, k: int)
    requires
        0 <= k < s.len(),
    ensures
        byte_len(s.take(k + 1)) == byte_len(s.take(k)) + encode_scalar(s[k] as u32).len(),
{
    let one = seq![s[k]];
    assert(s.take(k + 1) == s.take(k) + one);
    lemma_encode_concat(s.take(k), one);
    reveal_with_fuel(encode_utf8, 2);
    assert(one.drop_first() == Seq::<char>::empty());
    assert(encode_utf8(one) == encode_scalar(s[k] as u32));
}

/// A prefix takes no more bytes than the whole.
pub proof fn lemma_byte_len_monotonic(s: Seq<char>, j: int, k: int)
    requires
        0 <= j <= k <= s.len(),
    ensures
        byte_len(s.take(j)) <= byte_len(s.take(k)),
    decreases k - j,
{
    if j < k {
        lemma_byte_len_monotonic(s, j, k - 1);
        lemma_byte_len_step(s, k - 1);
    }
}

/// Every character takes at least one byte.
pub proof fn lemma_byte_len_covers_chars(s: Seq<char>)
    ensures
        s.len() <= byte_len(s),
    decreases s.len(),
{
    if s.len() > 0 {
        lemma_byte_len_covers_chars(s.drop_first());
    }
}

/// A prefix that fits, and that no longer prefix does, is the longest one.
proof fn lemma_fitting_prefix(s: Seq<char>, k: int, max: nat)
    requires
        0 <= k <= s.len(),
        byte_len(s.take(k)) <= max,
        k < s.len() ==> byte_len(s.take(k + 1)) > max,
    ensures
        fitting_prefix(s, max) == s.take(k),
    decreases s.len(),
{
    assert(s.take(s.len() as int) == s);
    if k < s.len() {
        lemma_byte_len_monotonic(s, k + 1, s.len() as int);
        let shorter = s.drop_last();
        assert(shorter.take(k) == s.take(k));
        if k < shorter.len() {
            assert(shorter.take(k + 1) == s.take(k + 1));
        }
        lemma_fitting_prefix(shorter, k, max);
    }
}

/// Cut `s` to at most `max` bytes, at a character boundary, marking a cut with
/// an ellipsis.
pub fn truncate(s: &str, max: usize) -> (r: String)
    ensures
        r@ == truncated(s@, max as nat),
{
    let chars: Vec<char> = chars_of(s);
    let n: usize = chars.len();
    let mut out: String = String::new();
    let mut k: usize = 0;
    let mut used: usize = 0;
    proof {
        assert(s@.take(0) == Seq::<char>::empty());
        assert(s@.take(n as int) == s@);
    }
    while k < n
        invariant
            n == chars.len(),
            chars@ == s@,
            k <= n,
            used <= max,
            used == byte_len(s@.take(k as int)),
            out@ == s@.take(k as int),
            s@.take(n as int) == s@,
        decreases n - k,
    {
        let c: char = chars[k];
        let w: usize = char_width(c);
        proof {
            lemma_byte_len_step(s@, k as int);
        }
        if w > max - used {
            proof {
                lemma_fitting_prefix(s@, k as int, max as nat);
                lemma_byte_len_monotonic(s@, k + 1, n as int);
            }
            out.push('\u{2026}');
            return out;
        }
        out.push(c);
        used = used + w;
        k = k + 1;
        assert(s@.take(k as int) == s@.take(k - 1).push(c));
    }
    out
}

/// The longest prefix that fits does fit.
pub proof fn lemma_fitting_prefix_fits(s: Seq<char>, max: nat)
    ensures
        byte_len(fitting_prefix(s, max)) <= max,
    decreases s.len(),
{
    if byte_len(s) > max && s.len() > 0 {
        lemma_fitting_prefix_fits(s.drop_last(), max);
    }
}

/// A truncated text takes at most `max` characters, plus the ellipsis.
pub proof fn truncated_text_is_short(s: Seq<char>, max: nat)
    ensures
        truncated(s, max).len() <= max + 1,
{
    lemma_fitting_prefix_fits(s, max);
    lemma_byte_len_covers_chars(fitting_prefix(s, max));
    lemma_byte_len_covers_chars(s);
}

// ─── Prefixes, suffixes, lines ──────────────────────────────────────────────

/// Whether `s` begins with `prefix`.
pub fn starts_with(s: &str, prefix: &str) -> (r: bool)
    ensures
        r == prefix@.is_prefix_of(s@),
{
    let chars: Vec<char> = chars_of(s);
    let wanted: Vec<char> = chars_of(prefix);
    if wanted.len() > chars.len() {
        return false;
    }
    let mut i: usize = 0;
    while i < wanted.len()
        invariant
            i <= wanted.len() <= chars.len(),
            chars@ == s@,
            wanted@ == prefix@,
            forall|j: int| 0 <= j < i ==> wanted@[j] == chars@[j],
        decreases wanted.len() - i,
    {
        if wanted[i] != chars[i] {
            assert(prefix@[i as int] != s@.subrange(0, prefix@.len() as int)[i as int]);
            return false;
        }
        i = i + 1;
    }
    assert(prefix@ =~= s@.subrange(0, prefix@.len() as int));
    true
}

/// `s` without any `c` at its end.
pub open spec fn without_trailing(s: Seq<char>, c: char) -> Seq<char>
    decreases s.len(),
{
    if s.len() > 0 && s.last() == c {
        without_trailing(s.drop_last(), c)
    } else {
        s
    }
}

/// `s` without any `c` at its end.
pub fn trim_trailing(s: &str, c: char) -> (r: String)
    ensures
        r@ == without_trailing(s@, c),
{
    let mut chars: Vec<char> = chars_of(s);
    while chars.len() > 0 && chars[chars.len() - 1] == c
        invariant
            without_trailing(chars@, c) == without_trailing(s@, c),
        decreases chars.len(),
    {
        chars.pop();
    }
    string_of(&chars)
}

/// The characters, as a string.
pub fn string_of(chars: &Vec<char>) -> (r: String)
    ensures
        r@ == chars@,
{
    let mut out: String = String::new();
    let mut i: usize = 0;
    while i < chars.len()
        invariant
            i <= chars.len(),
            out@ == chars@.take(i as int),
        decreases chars.len() - i,
    {
        out.push(chars[i]);
        i = i + 1;
        assert(chars@.take(i as int) == chars@.take(i - 1).push(chars@[i - 1]));
    }
    assert(chars@.take(i as int) == chars@);
    out
}

/// What stands before the first line feed, all of it where there is none.
pub open spec fn first_line_of(s: Seq<char>) -> Seq<char>
    decreases s.len(),
{
    if s.len() == 0 || s[0] == '\n' {
        Seq::empty()
    } else {
        seq![s[0]] + first_line_of(s.skip(1))
    }
}

/// What stands before the first line feed, all of it where there is none.
pub fn head_line(s: &str) -> (r: String)
    ensures
        r@ == first_line_of(s@),
{
    let chars: Vec<char> = chars_of(s);
    let mut out: String = String::new();
    let mut i: usize = 0;
    assert(s@.skip(0) == s@);
    assert(out@ + first_line_of(s@) == first_line_of(s@));
    while i < chars.len()
        invariant
            i <= chars.len(),
            chars@ == s@,
            out@ + first_line_of(s@.skip(i as int)) == first_line_of(s@),
        decreases chars.len() - i,
    {
        let c: char = chars[i];
        let ghost rest = s@.skip(i as int);
        assert(rest[0] == c);
        if c == '\n' {
            assert(out@ + first_line_of(rest) == out@);
            return out;
        }
        let ghost before = out@;
        out.push(c);
        i = i + 1;
        proof {
            assert(rest.skip(1) == s@.skip(i as int));
            assert(out@ + first_line_of(s@.skip(i as int)) == before + first_line_of(rest));
        }
    }
    assert(out@ + first_line_of(s@.skip(i as int)) == out@);
    out
}

// ─── Laws ───────────────────────────────────────────────────────────────────

/// The number that decimal digits denote by their places, the first of them
/// counting most.
pub open spec fn place_value(digits: Seq<char>) -> int
    decreases digits.len(),
{
    if digits.len() == 0 {
        0
    } else {
        (digits[0] as int - '0' as int) * pow(10, (digits.len() - 1) as nat) + place_value(
            digits.skip(1),
        )
    }
}

/// Whether a text is made of decimal digits, one at least.
pub open spec fn is_numeral(text: Seq<char>) -> bool {
    text.len() > 0 && forall|i: int| 0 <= i < text.len() ==> '0' <= #[trigger] text[i] <= '9'
}

proof fn lemma_one_digit(text: Seq<char>)
    requires
        text.len() == 1,
    ensures
        place_value(text) == text[0] as int - '0' as int,
{
    reveal(pow);
    assert(text.skip(1) == Seq::<char>::empty());
    assert(place_value(text.skip(1)) == 0);
    assert(pow(10, (text.len() - 1) as nat) == 1);
}

/// One more digit at the end makes ten times as much, and the digit.
pub proof fn lemma_place_value_push(digits: Seq<char>, c: char)
    ensures
        place_value(digits.push(c)) == place_value(digits) * 10 + (c as int - '0' as int),
    decreases digits.len(),
{
    let longer = digits.push(c);
    reveal(pow);
    if digits.len() == 0 {
        lemma_one_digit(longer);
    } else {
        lemma_place_value_push(digits.skip(1), c);
        assert(longer.skip(1) == digits.skip(1).push(c));
        let d = digits[0] as int - '0' as int;
        let p = pow(10, (digits.len() - 1) as nat);
        assert(pow(10, digits.len()) == 10 * p);
        assert(longer.len() - 1 == digits.len());
        assert(longer[0] == digits[0]);
        assert(d * (10 * p) == (d * p) * 10) by (nonlinear_arith);
    }
}

/// A number in decimal reads back as that number, and in no other way: it is
/// made of digits, their places add up to it, and no zero stands ahead.
pub proof fn a_decimal_number_reads_back(n: nat)
    ensures
        is_numeral(decimal(n)),
        place_value(decimal(n)) == n,
        decimal(n).len() > 1 ==> decimal(n)[0] != '0',
    decreases n,
{
    lemma_decimal_chars(n);
    if n < 10 {
        lemma_one_digit(decimal(n));
    } else {
        a_decimal_number_reads_back(n / 10);
        lemma_place_value_push(decimal(n / 10), digit((n % 10) as int));
        assert(decimal(n)[0] == decimal(n / 10)[0]);
        if decimal(n / 10).len() == 1 {
            lemma_one_digit(decimal(n / 10));
        }
    }
}

/// A signed number in decimal reads back as that number: a minus sign stands
/// ahead where it is below zero, and nothing but its digits otherwise.
pub proof fn a_signed_decimal_number_reads_back(i: int)
    ensures
        i >= 0 ==> is_numeral(signed_decimal(i)) && place_value(signed_decimal(i)) == i,
        i < 0 ==> signed_decimal(i)[0] == '-' && is_numeral(signed_decimal(i).skip(1))
            && place_value(signed_decimal(i).skip(1)) == -i,
        i < 0 ==> signed_decimal(i)[1] != '0',
        i >= 0 && signed_decimal(i).len() > 1 ==> signed_decimal(i)[0] != '0',
{
    let size = if i < 0 {
        -i
    } else {
        i
    };
    a_decimal_number_reads_back(size as nat);
    if i < 0 {
        assert(signed_decimal(i).skip(1) == decimal(size as nat));
        if decimal(size as nat).len() == 1 {
            lemma_one_digit(decimal(size as nat));
        }
    }
}

/// White space is Unicode's: of the printable characters of ASCII none but the
/// space, of its control characters the five from the tab to the carriage
/// return, and beyond ASCII nineteen more.
pub proof fn white_space_is_what_unicode_says(c: char)
    ensures
        (c as int) < 9 ==> !is_whitespace(c),
        9 <= c as int <= 13 ==> is_whitespace(c),
        14 <= c as int <= 31 ==> !is_whitespace(c),
        c as int == 32 ==> is_whitespace(c),
        33 <= c as int <= 127 ==> !is_whitespace(c),
        c as int >= 128 ==> (is_whitespace(c) <==> set![
            0x85int,
            0xa0,
            0x1680,
            0x2000,
            0x2001,
            0x2002,
            0x2003,
            0x2004,
            0x2005,
            0x2006,
            0x2007,
            0x2008,
            0x2009,
            0x200a,
            0x2028,
            0x2029,
            0x202f,
            0x205f,
            0x3000,
        ].contains(c as int)),
{
}

/// Whether all characters are white space.
pub open spec fn all_white(s: Seq<char>) -> bool {
    forall|i: int| 0 <= i < s.len() ==> is_whitespace(#[trigger] s[i])
}

/// Trimming takes off white space on both sides and nothing else, and all of
/// it: the text is what is trimmed off, what is left, and what is trimmed off
/// behind, and what is left neither begins nor ends with white space.
pub proof fn trimming_takes_off_white_space_only(s: Seq<char>) -> (cut: (Seq<char>, Seq<char>))
    ensures
        s == cut.0 + trimmed(s) + cut.1,
        all_white(cut.0),
        all_white(cut.1),
        trimmed(s).len() > 0 ==> !is_whitespace(trimmed(s)[0]) && !is_whitespace(
            trimmed(s).last(),
        ),
{
    let ahead = lemma_trimmed_start(s);
    let behind = lemma_trimmed_end(trimmed_start(s));
    assert(s =~= ahead + trimmed(s) + behind);
    if trimmed(s).len() > 0 {
        assert(trimmed(s)[0] == trimmed_start(s)[0]);
    }
    (ahead, behind)
}

proof fn lemma_trimmed_start(s: Seq<char>) -> (ahead: Seq<char>)
    ensures
        s == ahead + trimmed_start(s),
        all_white(ahead),
        trimmed_start(s).len() > 0 ==> !is_whitespace(trimmed_start(s)[0]),
    decreases s.len(),
{
    if s.len() > 0 && is_whitespace(s[0]) {
        let rest = lemma_trimmed_start(s.drop_first());
        let ahead = seq![s[0]] + rest;
        assert(s =~= seq![s[0]] + s.drop_first());
        assert(seq![s[0]] + (rest + trimmed_start(s)) =~= ahead + trimmed_start(s));
        ahead
    } else {
        assert(s =~= Seq::<char>::empty() + s);
        Seq::empty()
    }
}

proof fn lemma_trimmed_end(s: Seq<char>) -> (behind: Seq<char>)
    ensures
        s == trimmed_end(s) + behind,
        all_white(behind),
        trimmed_end(s).len() > 0 ==> !is_whitespace(trimmed_end(s).last()),
    decreases s.len(),
{
    if s.len() > 0 && is_whitespace(s.last()) {
        let rest = lemma_trimmed_end(s.drop_last());
        let behind = rest.push(s.last());
        assert(s =~= s.drop_last().push(s.last()));
        assert((trimmed_end(s) + rest).push(s.last()) =~= trimmed_end(s) + behind);
        behind
    } else {
        assert(s =~= s + Seq::<char>::empty());
        Seq::empty()
    }
}

/// A text is blank exactly where all of it is white space.
pub proof fn a_blank_text_is_white_space(s: Seq<char>)
    ensures
        trimmed(s).len() == 0 <==> all_white(s),
{
    let cut = trimming_takes_off_white_space_only(s);
    if trimmed(s).len() == 0 {
        assert(s =~= cut.0 + cut.1);
    } else {
        assert(s[cut.0.len() as int] == trimmed(s)[0]);
    }
}

/// Cutting keeps as much as fits: a text of at most `max` bytes is left alone,
/// and of a longer one as many characters are kept as fit into `max` bytes, with
/// an ellipsis after them.
pub proof fn a_cut_keeps_as_much_as_fits(s: Seq<char>, max: nat) -> (k: int)
    ensures
        0 <= k <= s.len(),
        encode_utf8(s).len() <= max ==> truncated(s, max) == s,
        encode_utf8(s).len() > max ==> {
            &&& k < s.len()
            &&& truncated(s, max) == s.take(k) + seq!['…']
            &&& encode_utf8(s.take(k)).len() <= max
            &&& encode_utf8(s.take(k + 1)).len() > max
        },
{
    if byte_len(s) <= max {
        0
    } else {
        assert(s.take(s.len() as int) == s);
        let k = lemma_where_to_cut(s, max, s.len() as int);
        lemma_fitting_prefix(s, k, max);
        assert(truncated(s, max) =~= s.take(k) + seq!['…']);
        k
    }
}

proof fn lemma_where_to_cut(s: Seq<char>, max: nat, n: int) -> (k: int)
    requires
        0 <= n <= s.len(),
        byte_len(s.take(n)) > max,
    ensures
        0 <= k < n,
        byte_len(s.take(k)) <= max,
        byte_len(s.take(k + 1)) > max,
    decreases n,
{
    if n == 0 {
        assert(s.take(0) == Seq::<char>::empty());
        0
    } else if byte_len(s.take(n - 1)) <= max {
        n - 1
    } else {
        lemma_where_to_cut(s, max, n - 1)
    }
}

/// What is taken off the end is the given character and nothing else, and all
/// of it.
pub proof fn trailing_characters_are_taken_off(s: Seq<char>, c: char) -> (n: nat)
    ensures
        s == without_trailing(s, c) + Seq::new(n, |i: int| c),
        without_trailing(s, c).len() > 0 ==> without_trailing(s, c).last() != c,
    decreases s.len(),
{
    if s.len() > 0 && s.last() == c {
        let n = trailing_characters_are_taken_off(s.drop_last(), c);
        let off = Seq::new(n, |i: int| c);
        assert(s =~= s.drop_last().push(c));
        assert(off.push(c) =~= Seq::new((n + 1) as nat, |i: int| c));
        assert((without_trailing(s, c) + off).push(c) =~= without_trailing(s, c) + off.push(c));
        (n + 1) as nat
    } else {
        assert(s =~= s + Seq::new(0, |i: int| c));
        0
    }
}

/// The first line holds no line feed, and is followed by one or is all there is.
pub proof fn the_first_line_ends_at_the_first_line_feed(s: Seq<char>)
    ensures
        !first_line_of(s).contains('\n'),
        first_line_of(s) == s || (first_line_of(s) + seq!['\n']).is_prefix_of(s),
    decreases s.len(),
{
    if s.len() == 0 {
    } else if s[0] == '\n' {
        assert(seq!['\n'] =~= s.subrange(0, 1));
        assert(first_line_of(s) + seq!['\n'] =~= seq!['\n']);
    } else {
        let rest = s.skip(1);
        the_first_line_ends_at_the_first_line_feed(rest);
        let line = first_line_of(rest);
        assert(first_line_of(s) =~= seq![s[0]] + line);
        assert forall|i: int| 0 <= i < first_line_of(s).len() implies first_line_of(s)[i] != '\n' by {
            if i > 0 {
                assert(line[i - 1] == first_line_of(s)[i]);
                assert(line.contains(line[i - 1]));
            }
        }
        if line == rest {
            assert(first_line_of(s) =~= s);
        } else {
            let whole = line + seq!['\n'];
            let longer = first_line_of(s) + seq!['\n'];
            assert(whole =~= rest.subrange(0, whole.len() as int));
            assert forall|i: int| 0 <= i < longer.len() implies longer[i] == s[i] by {
                if i > 0 {
                    assert(whole[i - 1] == rest[i - 1]);
                }
            }
            assert(longer =~= s.subrange(0, longer.len() as int));
        }
    }
}

} // verus!
