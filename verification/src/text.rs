//! Text as a sequence of characters: case folding, trimming, searching and decimal numbers.
use vstd::prelude::*;
use vstd::string::*;

verus! {

/// `String::push` appends one character and leaves the characters before it as they were.
pub assume_specification[ std::string::String::push ](buffer: &mut std::string::String, c: char)
    ensures
        final(buffer)@ == old(buffer)@.push(c),
;

/// The number of bytes that a text occupies in UTF-8.
pub open spec fn byte_len(text: Seq<char>) -> nat {
    vstd::utf8::encode_utf8(text).len()
}

pub open spec fn is_digit(c: char) -> bool {
    '0' <= c <= '9'
}

pub open spec fn is_ascii_letter(c: char) -> bool {
    ('a' <= c <= 'z') || ('A' <= c <= 'Z')
}

/// The lower-case form of an ASCII letter; any other character is kept.
pub open spec fn lower_char(c: char) -> char {
    if 'A' <= c <= 'Z' {
        ((c as u32) + 32) as char
    } else {
        c
    }
}

/// A text with its ASCII letters in lower case.
pub open spec fn lowered(text: Seq<char>) -> Seq<char> {
    text.map_values(|c: char| lower_char(c))
}

/// The characters with the Unicode property `White_Space`.
pub open spec fn is_space(c: char) -> bool {
    ||| '\u{9}' <= c <= '\u{d}'
    ||| c == '\u{20}'
    ||| c == '\u{85}'
    ||| c == '\u{a0}'
    ||| c == '\u{1680}'
    ||| '\u{2000}' <= c <= '\u{200a}'
    ||| c == '\u{2028}'
    ||| c == '\u{2029}'
    ||| c == '\u{202f}'
    ||| c == '\u{205f}'
    ||| c == '\u{3000}'
}

/// A text without its leading white space.
pub open spec fn trimmed_start(text: Seq<char>) -> Seq<char>
    decreases text.len(),
{
    if text.len() > 0 && is_space(text[0]) {
        trimmed_start(text.drop_first())
    } else {
        text
    }
}

/// A text without its trailing white space.
pub open spec fn trimmed_end(text: Seq<char>) -> Seq<char>
    decreases text.len(),
{
    if text.len() > 0 && is_space(text.last()) {
        trimmed_end(text.drop_last())
    } else {
        text
    }
}

/// A text without white space at either end.
pub open spec fn trimmed(text: Seq<char>) -> Seq<char> {
    trimmed_end(trimmed_start(text))
}

/// The pattern stands in the text at the given place.
pub open spec fn occurs_at(text: Seq<char>, pattern: Seq<char>, at: int) -> bool {
    &&& 0 <= at
    &&& at + pattern.len() <= text.len()
    &&& text.subrange(at, at + pattern.len()) == pattern
}

/// The text begins with the pattern.
pub open spec fn begins_with(text: Seq<char>, pattern: Seq<char>) -> bool {
    occurs_at(text, pattern, 0)
}

/// The text ends with the pattern.
pub open spec fn ends_with(text: Seq<char>, pattern: Seq<char>) -> bool {
    occurs_at(text, pattern, text.len() - pattern.len())
}

/// The pattern stands somewhere in the text.
pub open spec fn has_within(text: Seq<char>, pattern: Seq<char>) -> bool {
    exists|at: int| occurs_at(text, pattern, at)
}

/// Every character is a decimal digit.
pub open spec fn all_digits(text: Seq<char>) -> bool {
    forall|i: int| 0 <= i < text.len() ==> is_digit(#[trigger] text[i])
}

/// The number that a row of decimal digits denotes.
pub open spec fn decimal_value(digits: Seq<char>) -> nat
    decreases digits.len(),
{
    if digits.len() == 0 {
        0
    } else {
        decimal_value(digits.drop_last()) * 10 + ((digits.last() as u32 - '0' as u32) as nat)
    }
}

/// What a text denotes as an unsigned 64-bit number: one or more digits, after at most one plus
/// sign, whose value fits.
pub open spec fn u64_value(text: Seq<char>) -> Option<u64> {
    let digits = if text.len() > 0 && text[0] == '+' {
        text.drop_first()
    } else {
        text
    };
    if digits.len() > 0 && all_digits(digits) && decimal_value(digits) <= u64::MAX {
        Some(decimal_value(digits) as u64)
    } else {
        None
    }
}

/// The pieces of a text between the occurrences of a separator; there is always at least one.
pub open spec fn pieces(text: Seq<char>, separator: char) -> Seq<Seq<char>>
    decreases text.len(),
{
    if text.len() == 0 {
        seq![Seq::empty()]
    } else {
        let before = pieces(text.drop_last(), separator);
        if text.last() == separator {
            before.push(Seq::empty())
        } else {
            before.drop_last().push(before.last().push(text.last()))
        }
    }
}

/// What the texts of a row are.
pub open spec fn text_views(texts: Seq<String>) -> Seq<Seq<char>> {
    texts.map_values(|text: String| text@)
}

/// The characters of a text, in order.
pub fn chars_of(text: &str) -> (chars: Vec<char>)
    ensures
        chars@ == text@,
{
    broadcast use group_string_axioms;

    let mut chars: Vec<char> = Vec::new();
    for c in iter: text.chars()
        invariant
            iter.seq() == text@,
            chars@ == text@.take(iter.index() as int),
    {
        chars.push(c);
        assert(text@.take(iter.index() + 1) =~= text@.take(iter.index() as int).push(c));
    }
    assert(text@.take(text@.len() as int) =~= text@);
    chars
}

/// The number of bytes that a text occupies in UTF-8.
pub fn byte_length(text: &str) -> (n: usize)
    ensures
        n == byte_len(text@),
        n == 0 <==> text@.len() == 0,
{
    broadcast use group_string_axioms;

    assert(text@.len() > 0 ==> vstd::utf8::encode_scalar(text@[0] as u32).len() > 0);
    text.as_bytes().len()
}

/// The text that a row of characters spells.
pub fn text_of(chars: &[char]) -> (text: String)
    ensures
        text@ == chars@,
{
    let mut text = String::new();
    let mut i: usize = 0;
    while i < chars.len()
        invariant
            i <= chars.len(),
            text@ == chars@.take(i as int),
        decreases chars.len() - i,
    {
        text.push(chars[i]);
        assert(chars@.take(i + 1) =~= chars@.take(i as int).push(chars@[i as int]));
        i += 1;
    }
    assert(chars@.take(chars@.len() as int) =~= chars@);
    text
}

/// Tells whether two rows of characters are the same.
pub fn same_chars(left: &[char], right: &[char]) -> (same: bool)
    ensures
        same == (left@ == right@),
{
    if left.len() != right.len() {
        return false;
    }
    let mut i: usize = 0;
    while i < left.len()
        invariant
            i <= left.len(),
            left.len() == right.len(),
            forall|j: int| 0 <= j < i ==> left@[j] == right@[j],
        decreases left.len() - i,
    {
        if left[i] != right[i] {
            assert(left@[i as int] != right@[i as int]);
            return false;
        }
        i += 1;
    }
    assert(left@ =~= right@);
    true
}

/// Tells whether two texts are the same.
pub fn same_text(left: &str, right: &str) -> (same: bool)
    ensures
        same == (left@ == right@),
{
    let a = left.as_bytes();
    let b = right.as_bytes();
    if a.len() != b.len() {
        return false;
    }
    let mut i: usize = 0;
    while i < a.len()
        invariant
            i <= a@.len(),
            a@.len() == b@.len(),
            a@ == left.spec_bytes(),
            b@ == right.spec_bytes(),
            forall|j: int| 0 <= j < i ==> a@[j] == b@[j],
        decreases a@.len() - i,
    {
        if a[i] != b[i] {
            assert(a@[i as int] != b@[i as int]);
            return false;
        }
        i += 1;
    }
    proof {
        assert(a@ =~= b@);
        vstd::utf8::encode_utf8_decode_utf8(left@);
        vstd::utf8::encode_utf8_decode_utf8(right@);
    }
    true
}

/// Tells whether a character is one of the decimal digits of ASCII.
pub fn is_ascii_digit(c: char) -> (yes: bool)
    ensures
        yes == is_digit(c),
{
    '0' <= c && c <= '9'
}

/// Tells whether a character has the Unicode property `White_Space`.
pub fn is_whitespace(c: char) -> (yes: bool)
    ensures
        yes == is_space(c),
{
    ('\u{9}' <= c && c <= '\u{d}') || c == '\u{20}' || c == '\u{85}' || c == '\u{a0}' || c
        == '\u{1680}' || ('\u{2000}' <= c && c <= '\u{200a}') || c == '\u{2028}' || c == '\u{2029}'
        || c == '\u{202f}' || c == '\u{205f}' || c == '\u{3000}'
}

/// The lower-case form of an ASCII letter; any other character is kept.
pub fn ascii_lower_char(c: char) -> (lower: char)
    ensures
        lower == lower_char(c),
{
    match c {
        'A' => 'a',
        'B' => 'b',
        'C' => 'c',
        'D' => 'd',
        'E' => 'e',
        'F' => 'f',
        'G' => 'g',
        'H' => 'h',
        'I' => 'i',
        'J' => 'j',
        'K' => 'k',
        'L' => 'l',
        'M' => 'm',
        'N' => 'n',
        'O' => 'o',
        'P' => 'p',
        'Q' => 'q',
        'R' => 'r',
        'S' => 's',
        'T' => 't',
        'U' => 'u',
        'V' => 'v',
        'W' => 'w',
        'X' => 'x',
        'Y' => 'y',
        'Z' => 'z',
        _ => c,
    }
}

/// The characters with the ASCII letters among them in lower case.
pub fn lower_chars(chars: &[char]) -> (lower: Vec<char>)
    ensures
        lower@ == lowered(chars@),
{
    let mut lower: Vec<char> = Vec::new();
    let mut i: usize = 0;
    while i < chars.len()
        invariant
            i <= chars.len(),
            lower@ == lowered(chars@.take(i as int)),
        decreases chars.len() - i,
    {
        lower.push(ascii_lower_char(chars[i]));
        assert(lowered(chars@.take(i + 1)) =~= lowered(chars@.take(i as int)).push(
            lower_char(chars@[i as int]),
        ));
        i += 1;
    }
    assert(chars@.take(chars@.len() as int) =~= chars@);
    lower
}

/// The text with its ASCII letters in lower case.
pub fn to_ascii_lowercase(text: &str) -> (lower: String)
    ensures
        lower@ == lowered(text@),
{
    text_of(lower_chars(chars_of(text).as_slice()).as_slice())
}

/// The characters without white space at either end.
pub fn trim_chars(chars: &[char]) -> (inner: &[char])
    ensures
        inner@ == trimmed(chars@),
{
    let mut start: usize = 0;
    assert(chars@.skip(0) =~= chars@);
    while start < chars.len() && is_whitespace(chars[start])
        invariant
            start <= chars.len(),
            trimmed_start(chars@) == trimmed_start(chars@.skip(start as int)),
        decreases chars.len() - start,
    {
        assert(chars@.skip(start as int).drop_first() =~= chars@.skip(start + 1));
        start += 1;
    }
    let ghost rest = chars@.skip(start as int);
    assert(trimmed_start(chars@) == rest);
    let mut end: usize = chars.len();
    assert(rest.take(end - start) =~= rest);
    while end > start && is_whitespace(chars[end - 1])
        invariant
            start <= end <= chars.len(),
            rest == chars@.skip(start as int),
            trimmed_end(rest) == trimmed_end(rest.take(end - start)),
        decreases end,
    {
        assert(rest.take(end - start).drop_last() =~= rest.take(end - start - 1));
        end -= 1;
    }
    assert(chars@.subrange(start as int, end as int) =~= rest.take(end - start));
    vstd::slice::slice_subrange(chars, start, end)
}

/// Tells whether a pattern stands in the characters at a given place.
pub fn stands_at(chars: &[char], pattern: &[char], at: usize) -> (yes: bool)
    requires
        at <= chars@.len(),
    ensures
        yes == occurs_at(chars@, pattern@, at as int),
{
    if chars.len() - at < pattern.len() {
        return false;
    }
    same_chars(vstd::slice::slice_subrange(chars, at, at + pattern.len()), pattern)
}

/// Tells whether the characters begin with a pattern.
pub fn starts_with(chars: &[char], pattern: &[char]) -> (yes: bool)
    ensures
        yes == begins_with(chars@, pattern@),
{
    stands_at(chars, pattern, 0)
}

/// Tells whether a pattern stands somewhere in the characters.
pub fn contains(chars: &[char], pattern: &[char]) -> (yes: bool)
    ensures
        yes == has_within(chars@, pattern@),
{
    let mut at: usize = 0;
    loop
        invariant
            at <= chars@.len(),
            forall|before: int| 0 <= before < at ==> !occurs_at(chars@, pattern@, before),
        decreases chars@.len() - at,
    {
        if stands_at(chars, pattern, at) {
            return true;
        }
        if at == chars.len() {
            return false;
        }
        at += 1;
    }
}

/// The pieces of the characters between the occurrences of a separator.
pub fn split_chars(chars: &[char], separator: char) -> (split: Vec<Vec<char>>)
    ensures
        split@.len() == pieces(chars@, separator).len(),
        forall|i: int| 0 <= i < split@.len() ==> (#[trigger] split@[i])@ == pieces(chars@, separator)[i],
{
    let mut done: Vec<Vec<char>> = Vec::new();
    let mut piece: Vec<char> = Vec::new();
    let mut i: usize = 0;
    while i < chars.len()
        invariant
            i <= chars.len(),
            done@.len() + 1 == pieces(chars@.take(i as int), separator).len(),
            piece@ == pieces(chars@.take(i as int), separator).last(),
            forall|j: int|
                0 <= j < done@.len() ==> (#[trigger] done@[j])@ == pieces(
                    chars@.take(i as int),
                    separator,
                )[j],
        decreases chars.len() - i,
    {
        assert(chars@.take(i + 1).drop_last() =~= chars@.take(i as int));
        if chars[i] == separator {
            done.push(piece);
            piece = Vec::new();
        } else {
            piece.push(chars[i]);
        }
        i += 1;
    }
    done.push(piece);
    assert(chars@.take(chars@.len() as int) =~= chars@);
    done
}

/// Reads an unsigned 64-bit number in decimal notation.
pub fn parse_u64(chars: &[char]) -> (value: Option<u64>)
    ensures
        value == u64_value(chars@),
{
    let mut start: usize = 0;
    if chars.len() > 0 && chars[0] == '+' {
        start = 1;
    }
    let ghost digits = chars@.skip(start as int);
    assert(start == 1 ==> digits =~= chars@.drop_first());
    assert(start == 0 ==> digits =~= chars@);
    if start == chars.len() {
        return None;
    }
    let mut value: u64 = 0;
    let mut i: usize = start;
    while i < chars.len()
        invariant
            start <= i <= chars.len(),
            digits == chars@.skip(start as int),
            digits == (if chars@.len() > 0 && chars@[0] == '+' {
                chars@.drop_first()
            } else {
                chars@
            }),
            all_digits(digits.take(i - start)),
            value == decimal_value(digits.take(i - start)),
        decreases chars.len() - i,
    {
        let c = chars[i];
        assert(digits[i - start] == c);
        if !is_ascii_digit(c) {
            return None;
        }
        let digit: u64 = (c as u32 - '0' as u32) as u64;
        proof {
            assert(digits.take(i + 1 - start).drop_last() =~= digits.take(i - start));
            lemma_decimal_value_grows(digits, i + 1 - start);
        }
        match value.checked_mul(10) {
            None => {
                return None;
            },
            Some(tens) => match tens.checked_add(digit) {
                None => {
                    return None;
                },
                Some(sum) => {
                    value = sum;
                },
            },
        }
        i += 1;
    }
    assert(digits.take(chars.len() - start) =~= digits);
    Some(value)
}

/// A longer row of digits never denotes a smaller number.
proof fn lemma_decimal_value_grows(digits: Seq<char>, n: int)
    requires
        0 <= n <= digits.len(),
    ensures
        decimal_value(digits.take(n)) <= decimal_value(digits),
    decreases digits.len() - n,
{
    if n < digits.len() {
        lemma_decimal_value_grows(digits, n + 1);
        assert(digits.take(n + 1).drop_last() =~= digits.take(n));
    } else {
        assert(digits.take(n) =~= digits);
    }
}

/// No white space is left at the ends of a trimmed text.
pub proof fn lemma_trimmed_ends(text: Seq<char>)
    ensures
        trimmed(text).len() > 0 ==> !is_space(trimmed(text)[0]) && !is_space(trimmed(text).last()),
{
    lemma_trimmed_start(text);
    lemma_trimmed_end(trimmed_start(text));
}

proof fn lemma_trimmed_start(text: Seq<char>)
    ensures
        trimmed_start(text).len() > 0 ==> !is_space(trimmed_start(text)[0]),
    decreases text.len(),
{
    if text.len() > 0 && is_space(text[0]) {
        lemma_trimmed_start(text.drop_first());
    }
}

proof fn lemma_trimmed_end(text: Seq<char>)
    ensures
        trimmed_end(text).len() > 0 ==> trimmed_end(text)[0] == text[0] && !is_space(
            trimmed_end(text).last(),
        ),
    decreases text.len(),
{
    if text.len() > 0 && is_space(text.last()) {
        lemma_trimmed_end(text.drop_last());
    }
}

/// A text without white space at its ends is its own trimmed form.
pub proof fn lemma_trimmed_of_plain(text: Seq<char>)
    requires
        text.len() > 0 ==> !is_space(text[0]) && !is_space(text.last()),
    ensures
        trimmed(text) == text,
{
}

/// A text in lower case is its own lower-case form.
pub proof fn lemma_lowered_twice(text: Seq<char>)
    ensures
        lowered(lowered(text)) == lowered(text),
{
    assert(lowered(lowered(text)) =~= lowered(text));
}

/// The decimal notation of a number, without leading zeros.
pub open spec fn decimal_text(n: nat) -> Seq<char>
    decreases n,
{
    let digit = ('0' as u32 + n % 10) as char;
    if n < 10 {
        seq![digit]
    } else {
        decimal_text(n / 10).push(digit)
    }
}

/// The decimal notation of a number consists of digits, and they denote the number.
pub proof fn lemma_decimal_text(n: nat)
    ensures
        decimal_text(n).len() > 0,
        all_digits(decimal_text(n)),
        decimal_value(decimal_text(n)) == n,
    decreases n,
{
    let digits = decimal_text(n);
    reveal_with_fuel(decimal_value, 2);
    if n >= 10 {
        lemma_decimal_text(n / 10);
        assert(digits.drop_last() =~= decimal_text(n / 10));
    } else {
        assert(digits.drop_last() =~= Seq::empty());
    }
}

/// A number is read as it is written, with or without a plus sign before it. What is empty, or has
/// any other character in it, is not read as a number.
pub proof fn law_number_is_read_as_written(n: u64, other: Seq<char>)
    ensures
        u64_value(decimal_text(n as nat)) == Some(n),
        u64_value(seq!['+'] + decimal_text(n as nat)) == Some(n),
        u64_value(Seq::empty()) is None,
        (exists|i: int| 0 < i < other.len() && !('0' <= #[trigger] other[i] <= '9')) ==> u64_value(
            other,
        ) is None,
        other.len() > 0 && other[0] != '+' && !('0' <= other[0] <= '9') ==> u64_value(other) is None,
{
    let digits = decimal_text(n as nat);
    lemma_decimal_text(n as nat);
    assert(is_digit(digits[0]));
    let signed = seq!['+'] + digits;
    assert(signed.drop_first() =~= digits);
    if exists|i: int| 0 < i < other.len() && !('0' <= #[trigger] other[i] <= '9') {
        let i = choose|i: int| 0 < i < other.len() && !('0' <= #[trigger] other[i] <= '9');
        assert(!is_digit(other[i]));
        assert(other.drop_first()[i - 1] == other[i]);
    }
    if other.len() > 0 {
        assert(!is_digit(other[0]) && other[0] != '+' ==> !all_digits(other));
    }
}

/// A text without the separator is its own only piece, and behind a separator a new piece begins.
pub proof fn law_pieces_stand_between_separators(left: Seq<char>, right: Seq<char>, separator: char)
    requires
        !right.contains(separator),
    ensures
        pieces(right, separator) == seq![right],
        pieces(left.push(separator) + right, separator) == pieces(left, separator).push(right),
    decreases right.len(),
{
    let all = left.push(separator) + right;
    if right.len() == 0 {
        assert(right =~= Seq::empty());
        assert(all =~= left.push(separator));
        assert(all.drop_last() =~= left);
    } else {
        let front = right.drop_last();
        let end = right.len() - 1;
        assert(right[end] != separator) by {
            assert(right.contains(right[end]));
        }
        assert(!front.contains(separator)) by {
            if front.contains(separator) {
                let i = choose|i: int| 0 <= i < front.len() && front[i] == separator;
                assert(right[i] == separator);
            }
        }
        law_pieces_stand_between_separators(left, front, separator);
        assert(all.drop_last() =~= left.push(separator) + front);
        assert(front.push(right.last()) =~= right);
        assert(pieces(right, separator) =~= seq![right]);
        assert(pieces(all, separator) =~= pieces(left, separator).push(right));
    }
}

/// Where the trimmed form of a text stands in it: there is nothing but white space around it.
pub proof fn lemma_trimmed_is_inner(text: Seq<char>) -> (start: int)
    ensures
        0 <= start,
        start + trimmed(text).len() <= text.len(),
        trimmed(text) == text.subrange(start, start + trimmed(text).len()),
        forall|i: int|
            0 <= i < text.len() && !(start <= i < start + trimmed(text).len()) ==> is_space(
                #[trigger] text[i],
            ),
    decreases text.len(),
{
    if text.len() > 0 && is_space(text[0]) {
        let rest = text.drop_first();
        let from = lemma_trimmed_is_inner(rest);
        assert(trimmed(text) == trimmed(rest));
        assert(text.subrange(from + 1, from + 1 + trimmed(text).len()) =~= rest.subrange(
            from,
            from + trimmed(rest).len(),
        ));
        assert forall|i: int|
            0 <= i < text.len() && !(from + 1 <= i < from + 1 + trimmed(
                text,
            ).len()) implies is_space(#[trigger] text[i]) by {
            if i > 0 {
                assert(rest[i - 1] == text[i]);
            }
        }
        from + 1
    } else {
        lemma_trimmed_end_is_first(text);
        0
    }
}

proof fn lemma_trimmed_end_is_first(text: Seq<char>)
    ensures
        trimmed_end(text).len() <= text.len(),
        trimmed_end(text) == text.subrange(0, trimmed_end(text).len() as int),
        forall|i: int| trimmed_end(text).len() <= i < text.len() ==> is_space(#[trigger] text[i]),
    decreases text.len(),
{
    if text.len() > 0 && is_space(text.last()) {
        let front = text.drop_last();
        lemma_trimmed_end_is_first(front);
        assert(text.subrange(0, trimmed_end(text).len() as int) =~= front.subrange(
            0,
            trimmed_end(front).len() as int,
        ));
        assert forall|i: int| trimmed_end(text).len() <= i < text.len() implies is_space(
            #[trigger] text[i],
        ) by {
            if i < front.len() {
                assert(front[i] == text[i]);
            }
        }
    } else {
        assert(text.subrange(0, text.len() as int) =~= text);
    }
}

/// White space around a text is left out, and nothing else: what is left begins and ends with
/// characters that are none. Blanks, tabs and line breaks are white space; letters, digits and the
/// marks of ASCII are not.
pub proof fn law_only_outer_white_space_is_left_out(
    before: Seq<char>,
    inner: Seq<char>,
    after: Seq<char>,
)
    requires
        forall|i: int| 0 <= i < before.len() ==> is_space(#[trigger] before[i]),
        forall|i: int| 0 <= i < after.len() ==> is_space(#[trigger] after[i]),
        inner.len() > 0 ==> !is_space(inner[0]) && !is_space(inner.last()),
    ensures
        trimmed(before + inner + after) == inner,
        is_space(' ') && is_space('\t') && is_space('\n') && is_space('\r') && is_space('\u{a0}'),
        forall|c: char| '!' <= c <= '~' ==> !(#[trigger] is_space(c)),
{
    let all = before + inner + after;
    let start = lemma_trimmed_is_inner(all);
    let n = trimmed(all).len();
    lemma_trimmed_ends(all);
    assert forall|i: int| 0 <= i < all.len() && !(before.len() <= i < before.len()
        + inner.len()) implies is_space(#[trigger] all[i]) by {
        if i < before.len() {
            assert(all[i] == before[i]);
        } else {
            assert(all[i] == after[i - before.len() - inner.len()]);
        }
    }
    if n > 0 {
        assert(trimmed(all)[0] == all[start]);
        assert(trimmed(all).last() == all[start + n - 1]);
    }
    if inner.len() > 0 {
        assert(all[before.len() as int] == inner[0]);
        assert(all[before.len() + inner.len() - 1] == inner.last());
    }
    assert(trimmed(all) =~= inner);
}

/// A text keeps its length in lower case. Its letters without a mark lose their capitals, so that two
/// spellings of a word become the same, and every other character stays what it is.
pub proof fn law_lower_case_drops_capitals(text: Seq<char>, i: int)
    requires
        0 <= i < text.len(),
    ensures
        lowered(text).len() == text.len(),
        'A' <= text[i] <= 'Z' ==> 'a' <= lowered(text)[i] <= 'z' && lowered(text)[i] as int
            - 'a' as int == text[i] as int - 'A' as int,
        !('A' <= text[i] <= 'Z') ==> lowered(text)[i] == text[i],
{
}

/// White space is what has that property in Unicode: from a tab to a carriage return, the blanks of
/// every width, and the separators of lines and paragraphs.
pub proof fn law_white_space_is_that_of_unicode(c: char)
    ensures
        is_space(c) <==> {
            let code = c as u32;
            ||| 9 <= code <= 13
            ||| code == 32
            ||| code == 133
            ||| code == 160
            ||| code == 5760
            ||| 8192 <= code <= 8202
            ||| 8232 <= code <= 8233
            ||| code == 8239
            ||| code == 8287
            ||| code == 12288
        },
{
}

/// To leave out the white space around a text and to put it in lower case can be done in either order.
pub proof fn lemma_trimmed_in_lower_case(text: Seq<char>)
    ensures
        trimmed(lowered(text)) == lowered(trimmed(text)),
{
    let start = lemma_trimmed_is_inner(text);
    let inner = trimmed(text);
    let end = start + inner.len();
    let before = lowered(text.take(start));
    let after = lowered(text.skip(end));
    lemma_trimmed_ends(text);
    assert forall|i: int| 0 <= i < before.len() implies is_space(#[trigger] before[i]) by {
        assert(is_space(text[i]));
    }
    assert forall|i: int| 0 <= i < after.len() implies is_space(#[trigger] after[i]) by {
        assert(is_space(text[end + i]));
    }
    assert(before + lowered(inner) + after =~= lowered(text));
    law_only_outer_white_space_is_left_out(before, lowered(inner), after);
}

/// A number that does not fit is not read, and leading zeros do not count.
pub proof fn law_numbers_are_read_as_far_as_they_fit(n: nat, digits: Seq<char>)
    requires
        n > u64::MAX,
        digits.len() > 0,
        all_digits(digits),
    ensures
        u64_value(decimal_text(n)) is None,
        u64_value(seq!['0'] + digits) == u64_value(digits),
{
    lemma_decimal_text(n);
    assert(is_digit(decimal_text(n)[0]));
    let padded = seq!['0'] + digits;
    lemma_leading_zero(digits);
    assert(is_digit(digits[0]));
    assert forall|i: int| 0 <= i < padded.len() implies is_digit(#[trigger] padded[i]) by {
        if i > 0 {
            assert(padded[i] == digits[i - 1]);
        }
    }
}

proof fn lemma_leading_zero(digits: Seq<char>)
    ensures
        decimal_value(seq!['0'] + digits) == decimal_value(digits),
    decreases digits.len(),
{
    let padded = seq!['0'] + digits;
    reveal_with_fuel(decimal_value, 2);
    if digits.len() == 0 {
        assert(padded.drop_last() =~= Seq::empty());
    } else {
        assert(padded.drop_last() =~= seq!['0'] + digits.drop_last());
        lemma_leading_zero(digits.drop_last());
    }
}

} // verus!
