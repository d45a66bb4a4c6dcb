//! Release versions: how they are shown, which of them are stable, and how they are ordered.
use crate::text;
use crate::text::{
    chars_of, contains, is_ascii_digit, lower_chars, parse_u64, same_chars, split_chars,
    starts_with, text_of, trim_chars,
};
use std::cmp::Ordering;
use vstd::prelude::*;

verus! {

/// How a version is shown: without white space around it, and with a `v` before a leading digit.
pub open spec fn label_of(version: Seq<char>) -> Seq<char> {
    let inner = text::trimmed(version);
    if inner.len() > 0 && text::is_digit(inner[0]) {
        seq!['v'] + inner
    } else {
        inner
    }
}

/// A version without white space around it and without one leading `v`.
pub open spec fn normalized(version: Seq<char>) -> Seq<char> {
    let inner = text::trimmed(version);
    if inner.len() > 0 && inner[0] == 'v' {
        inner.drop_first()
    } else {
        inner
    }
}

/// The lower-case version carries the given marker of a prerelease.
pub open spec fn carries_marker(lower: Seq<char>, marker: Seq<char>) -> bool {
    ||| lower == marker
    ||| text::begins_with(lower, marker.push('-'))
    ||| text::has_within(lower, seq!['.'] + marker)
    ||| text::has_within(lower, seq!['-'] + marker)
    ||| text::has_within(lower, seq!['_'] + marker)
}

/// The lower-case version is a development version, an alpha, a beta or a release candidate.
pub open spec fn is_prerelease(lower: Seq<char>) -> bool {
    ||| carries_marker(lower, "dev"@)
    ||| carries_marker(lower, "alpha"@)
    ||| carries_marker(lower, "beta"@)
    ||| carries_marker(lower, "rc"@)
}

pub open spec fn is_numeric_char(c: char) -> bool {
    text::is_digit(c) || c == '.'
}

/// How many digits and dots a version begins with.
pub open spec fn numeric_len(version: Seq<char>) -> nat
    decreases version.len(),
{
    if version.len() > 0 && is_numeric_char(version[0]) {
        1 + numeric_len(version.drop_first())
    } else {
        0
    }
}

/// The number of leading components that count.
pub open spec fn counted(components: Seq<Seq<char>>) -> int {
    if components.len() < 4 {
        components.len() as int
    } else {
        4
    }
}

/// The patch level that the lower-case rest of a version states; 0 where it states none.
pub open spec fn patch_level(suffix: Seq<char>) -> Option<u64> {
    if text::begins_with(suffix, "-patch"@) {
        text::u64_value(suffix.skip("-patch"@.len() as int))
    } else if text::begins_with(suffix, ".patch"@) {
        text::u64_value(suffix.skip(".patch"@.len() as int))
    } else if text::begins_with(suffix, "-p"@) {
        text::u64_value(suffix.skip("-p"@.len() as int))
    } else if text::begins_with(suffix, ".p"@) {
        text::u64_value(suffix.skip(".p"@.len() as int))
    } else {
        Some(0)
    }
}

/// The five numbers by which a stable version is ordered: up to four components, with 0 for a
/// missing one, and the patch level. A version that is not stable has none.
pub open spec fn version_parts(version: Seq<char>) -> Option<Seq<u64>> {
    let plain = normalized(version);
    let n = numeric_len(plain) as int;
    let components = text::pieces(plain.take(n), '.');
    let patch = patch_level(text::lowered(plain.skip(n)));
    if is_prerelease(text::lowered(plain)) || n == 0 {
        None
    } else if exists|i: int| 0 <= i < counted(components) && text::u64_value(#[trigger] components[i]) is None {
        None
    } else if patch is None {
        None
    } else {
        Some(
            Seq::new(
                5,
                |i: int|
                    if i == 4 {
                        patch->0
                    } else if i < counted(components) {
                        text::u64_value(components[i])->0
                    } else {
                        0
                    },
            ),
        )
    }
}

/// The first number in which two rows of five differ is smaller on the left.
pub open spec fn parts_less(left: Seq<u64>, right: Seq<u64>) -> bool {
    exists|i: int|
        0 <= i < 5 && #[trigger] left[i] < right[i] && (forall|j: int|
            0 <= j < i ==> left[j] == right[j])
}

/// How a version is shown next to its constraint.
pub fn version_label(version: &str) -> (label: String)
    ensures
        label@ == label_of(version@),
{
    let chars = chars_of(version);
    let inner = trim_chars(chars.as_slice());
    if inner.len() > 0 && is_ascii_digit(inner[0]) {
        let mut label = String::new();
        label.push('v');
        label.append(text_of(inner).as_str());
        assert(label@ =~= seq!['v'] + inner@);
        label
    } else {
        text_of(inner)
    }
}

/// Tells whether a lower-case version carries a marker of a prerelease.
fn has_marker(lower: &[char], marker: &str) -> (yes: bool)
    ensures
        yes == carries_marker(lower@, marker@),
{
    let name = chars_of(marker);
    if same_chars(lower, name.as_slice()) {
        return true;
    }
    let mut led = chars_of(marker);
    led.push('-');
    if starts_with(lower, led.as_slice()) {
        return true;
    }
    has_separated(lower, &name, '.') || has_separated(lower, &name, '-') || has_separated(
        lower,
        &name,
        '_',
    )
}

/// Tells whether a name stands in the characters right behind a separator.
fn has_separated(chars: &[char], name: &Vec<char>, separator: char) -> (yes: bool)
    ensures
        yes == text::has_within(chars@, seq![separator] + name@),
{
    let mut pattern: Vec<char> = Vec::new();
    pattern.push(separator);
    pattern.extend_from_slice(name.as_slice());
    assert(pattern@ =~= seq![separator] + name@);
    contains(chars, pattern.as_slice())
}

/// The number of digits and dots that the characters begin with.
fn numeric_prefix_len(chars: &[char]) -> (n: usize)
    ensures
        n == numeric_len(chars@),
        n <= chars@.len(),
{
    let mut n: usize = 0;
    assert(chars@.skip(0) =~= chars@);
    while n < chars.len() && (is_ascii_digit(chars[n]) || chars[n] == '.')
        invariant
            n <= chars.len(),
            numeric_len(chars@) == n + numeric_len(chars@.skip(n as int)),
        decreases chars.len() - n,
    {
        assert(chars@.skip(n as int).drop_first() =~= chars@.skip(n + 1));
        n += 1;
    }
    n
}

/// Reads the patch level behind the given prefix, if the characters begin with it.
fn patch_behind(suffix: &[char], prefix: &str) -> (patch: Option<Option<u64>>)
    ensures
        patch is Some == text::begins_with(suffix@, prefix@),
        patch matches Some(level) ==> level == text::u64_value(suffix@.skip(prefix@.len() as int)),
{
    let pattern = chars_of(prefix);
    if starts_with(suffix, pattern.as_slice()) {
        let rest = vstd::slice::slice_subrange(suffix, pattern.len(), suffix.len());
        assert(rest@ =~= suffix@.skip(pattern@.len() as int));
        Some(parse_u64(rest))
    } else {
        None
    }
}

/// Reads the patch level that the lower-case rest of a version states.
fn read_patch_level(suffix: &[char]) -> (patch: Option<u64>)
    ensures
        patch == patch_level(suffix@),
{
    if let Some(level) = patch_behind(suffix, "-patch") {
        return level;
    }
    if let Some(level) = patch_behind(suffix, ".patch") {
        return level;
    }
    if let Some(level) = patch_behind(suffix, "-p") {
        return level;
    }
    if let Some(level) = patch_behind(suffix, ".p") {
        return level;
    }
    Some(0)
}

/// The numbers by which a stable version is ordered, or `None` for any other version.
pub fn stable_version_parts(version: &str) -> (parts: Option<[u64; 5]>)
    ensures
        match parts {
            Some(numbers) => version_parts(version@) == Some(numbers@),
            None => version_parts(version@) is None,
        },
{
    let chars = chars_of(version);
    let inner = trim_chars(chars.as_slice());
    let mut from: usize = 0;
    if inner.len() > 0 && inner[0] == 'v' {
        from = 1;
    }
    let plain = vstd::slice::slice_subrange(inner, from, inner.len());
    assert(plain@ =~= normalized(version@));
    let lower = lower_chars(plain);
    if has_marker(lower.as_slice(), "dev") || has_marker(lower.as_slice(), "alpha") || has_marker(
        lower.as_slice(),
        "beta",
    ) || has_marker(lower.as_slice(), "rc") {
        return None;
    }
    let n = numeric_prefix_len(plain);
    if n == 0 {
        return None;
    }
    let numeric = vstd::slice::slice_subrange(plain, 0, n);
    let rest = vstd::slice::slice_subrange(plain, n, plain.len());
    assert(numeric@ =~= plain@.take(n as int));
    assert(rest@ =~= plain@.skip(n as int));
    let components = split_chars(numeric, '.');
    let ghost split = text::pieces(plain@.take(n as int), '.');
    let mut parts: [u64; 5] = [0, 0, 0, 0, 0];
    let mut i: usize = 0;
    while i < components.len() && i < 4
        invariant
            i <= components.len(),
            i <= 4,
            components@.len() == split.len(),
            forall|j: int| 0 <= j < split.len() ==> (#[trigger] components@[j])@ == split[j],
            split == text::pieces(normalized(version@).take(n as int), '.'),
            n == numeric_len(normalized(version@)),
            forall|j: int|
                0 <= j < i ==> text::u64_value(#[trigger] split[j]) == Some(parts@[j]),
            forall|j: int| i <= j < 5 ==> parts@[j] == 0,
        decreases components.len() - i,
    {
        match parse_u64(components[i].as_slice()) {
            None => {
                assert(text::u64_value(split[i as int]) is None);
                return None;
            },
            Some(value) => {
                parts[i] = value;
            },
        }
        i += 1;
    }
    match read_patch_level(lower_chars(rest).as_slice()) {
        None => None,
        Some(level) => {
            parts[4] = level;
            assert(parts@ =~= version_parts(version@)->0);
            Some(parts)
        },
    }
}

/// The first place at which two rows of numbers differ, or 5.
fn first_difference(left: &[u64; 5], right: &[u64; 5]) -> (at: usize)
    ensures
        at <= 5,
        at < 5 ==> left@[at as int] != right@[at as int],
        forall|i: int| 0 <= i < at ==> left@[i] == right@[i],
{
    let mut i: usize = 0;
    while i < 5
        invariant
            i <= 5,
            forall|j: int| 0 <= j < i ==> left@[j] == right@[j],
        decreases 5 - i,
    {
        if left[i] != right[i] {
            return i;
        }
        i += 1;
    }
    5
}

/// Tells whether the left row of numbers stands before the right one.
pub fn is_less(left: &[u64; 5], right: &[u64; 5]) -> (less: bool)
    ensures
        less == parts_less(left@, right@),
{
    let at = first_difference(left, right);
    at < 5 && left[at] < right[at]
}

/// How the left version stands to the right one, if both are stable.
pub open spec fn order_of(left: Seq<char>, right: Seq<char>) -> Option<Ordering> {
    match (version_parts(left), version_parts(right)) {
        (Some(a), Some(b)) => Some(
            if parts_less(a, b) {
                Ordering::Less
            } else if parts_less(b, a) {
                Ordering::Greater
            } else {
                Ordering::Equal
            },
        ),
        _ => None,
    }
}

/// Orders two stable versions; there is no order where one of them is not stable.
pub fn compare_versions(left: &str, right: &str) -> (order: Option<Ordering>)
    ensures
        match (version_parts(left@), version_parts(right@)) {
            (Some(a), Some(b)) => order == Some(
                if parts_less(a, b) {
                    Ordering::Less
                } else if parts_less(b, a) {
                    Ordering::Greater
                } else {
                    Ordering::Equal
                },
            ),
            _ => order is None,
        },
        order == order_of(left@, right@),
{
    match (stable_version_parts(left), stable_version_parts(right)) {
        (Some(a), Some(b)) => {
            if is_less(&a, &b) {
                Some(Ordering::Less)
            } else if is_less(&b, &a) {
                Some(Ordering::Greater)
            } else {
                Some(Ordering::Equal)
            }
        },
        _ => None,
    }
}

/// Versions are ordered strictly: no row of numbers stands before itself, of two different rows
/// exactly one stands before the other, and a row that stands before a second one stands before
/// all that the second one stands before.
pub proof fn law_version_order_is_strict(a: Seq<u64>, b: Seq<u64>, c: Seq<u64>)
    requires
        a.len() == 5,
        b.len() == 5,
        c.len() == 5,
    ensures
        !parts_less(a, a),
        parts_less(a, b) ==> !parts_less(b, a),
        a != b ==> parts_less(a, b) || parts_less(b, a),
        parts_less(a, b) && parts_less(b, c) ==> parts_less(a, c),
        !parts_less(a, b) && !parts_less(b, c) ==> !parts_less(a, c),
{
    lemma_order_is_total(a, b);
    lemma_order_is_total(b, c);
    if parts_less(a, b) {
        lemma_order_is_asymmetric(a, b);
        if parts_less(b, c) {
            lemma_order_is_transitive(a, b, c);
        }
    }
    if parts_less(a, c) && parts_less(c, b) {
        lemma_order_is_transitive(a, c, b);
    }
}

proof fn lemma_order_is_asymmetric(a: Seq<u64>, b: Seq<u64>)
    requires
        parts_less(a, b),
    ensures
        !parts_less(b, a),
{
    let i = choose|i: int|
        0 <= i < 5 && #[trigger] a[i] < b[i] && (forall|j: int| 0 <= j < i ==> a[j] == b[j]);
    assert forall|k: int|
        !(0 <= k < 5 && #[trigger] b[k] < a[k] && (forall|j: int| 0 <= j < k ==> b[j] == a[j])) by {
        if k < i {
            assert(0 <= k ==> a[k] == b[k]);
        } else if k > i {
            assert(b[i] != a[i]);
        }
    }
}

proof fn lemma_order_is_transitive(a: Seq<u64>, b: Seq<u64>, c: Seq<u64>)
    requires
        parts_less(a, b),
        parts_less(b, c),
    ensures
        parts_less(a, c),
{
    let i = choose|i: int|
        0 <= i < 5 && #[trigger] a[i] < b[i] && (forall|j: int| 0 <= j < i ==> a[j] == b[j]);
    let k = choose|i: int|
        0 <= i < 5 && #[trigger] b[i] < c[i] && (forall|j: int| 0 <= j < i ==> b[j] == c[j]);
    let first = if i < k {
        i
    } else {
        k
    };
    assert(a[first] < c[first]);
}

proof fn lemma_order_is_total(a: Seq<u64>, b: Seq<u64>)
    requires
        a.len() == 5,
        b.len() == 5,
    ensures
        a != b ==> parts_less(a, b) || parts_less(b, a),
{
    if a[0] == b[0] && a[1] == b[1] && a[2] == b[2] && a[3] == b[3] && a[4] == b[4] {
        assert(a =~= b);
    } else if a[0] != b[0] {
        assert(a[0] < b[0] || b[0] < a[0]);
    } else if a[1] != b[1] {
        assert(a[1] < b[1] || b[1] < a[1]);
    } else if a[2] != b[2] {
        assert(a[2] < b[2] || b[2] < a[2]);
    } else if a[3] != b[3] {
        assert(a[3] < b[3] || b[3] < a[3]);
    } else {
        assert(a[4] < b[4] || b[4] < a[4]);
    }
}

/// The label of a version is ordered as the version itself: the white space that it leaves out and
/// the `v` that it adds do not count.
pub proof fn law_label_keeps_order(version: Seq<char>)
    ensures
        version_parts(label_of(version)) == version_parts(version),
{
    let inner = text::trimmed(version);
    text::lemma_trimmed_ends(version);
    if inner.len() > 0 && text::is_digit(inner[0]) {
        let label = seq!['v'] + inner;
        text::lemma_trimmed_of_plain(label);
        assert(label.drop_first() =~= inner);
    } else {
        text::lemma_trimmed_of_plain(inner);
    }
    assert(normalized(label_of(version)) == normalized(version));
}

/// The order ascends in every place: where two rows of numbers agree up to a place, the one with the
/// smaller number in that place stands before the other, whatever follows.
pub proof fn law_version_order_ascends(a: Seq<u64>, b: Seq<u64>, at: int)
    requires
        a.len() == 5,
        b.len() == 5,
        0 <= at < 5,
        forall|i: int| 0 <= i < at ==> a[i] == b[i],
        a[at] < b[at],
    ensures
        parts_less(a, b),
        !parts_less(b, a),
{
    lemma_order_is_asymmetric(a, b);
}

/// Numbers in decimal notation with a dot between each two.
pub open spec fn dotted(numbers: Seq<u64>) -> Seq<char>
    decreases numbers.len(),
{
    if numbers.len() == 0 {
        Seq::empty()
    } else if numbers.len() == 1 {
        text::decimal_text(numbers[0] as nat)
    } else {
        dotted(numbers.drop_last()).push('.') + text::decimal_text(numbers.last() as nat)
    }
}

/// Numbers with dots between them consist of digits and dots, with a digit at either end, and the
/// numbers stand between the dots.
pub proof fn lemma_dotted(numbers: Seq<u64>)
    requires
        numbers.len() > 0,
    ensures
        dotted(numbers).len() > 0,
        forall|i: int| 0 <= i < dotted(numbers).len() ==> is_numeric_char(#[trigger] dotted(numbers)[i]),
        text::is_digit(dotted(numbers)[0]),
        text::is_digit(dotted(numbers).last()),
        text::pieces(dotted(numbers), '.') == numbers.map_values(
            |number: u64| text::decimal_text(number as nat),
        ),
    decreases numbers.len(),
{
    let last = text::decimal_text(numbers.last() as nat);
    let all = dotted(numbers);
    text::lemma_decimal_text(numbers.last() as nat);
    assert(text::is_digit(last[0]) && text::is_digit(last[last.len() - 1]));
    assert(!last.contains('.')) by {
        if last.contains('.') {
            let i = choose|i: int| 0 <= i < last.len() && last[i] == '.';
            assert(text::is_digit(last[i]));
        }
    }
    if numbers.len() == 1 {
        text::law_pieces_stand_between_separators(Seq::empty(), last, '.');
        assert(text::pieces(all, '.') =~= numbers.map_values(
            |number: u64| text::decimal_text(number as nat),
        ));
    } else {
        let front = dotted(numbers.drop_last());
        lemma_dotted(numbers.drop_last());
        text::law_pieces_stand_between_separators(front, last, '.');
        assert(text::pieces(all, '.') =~= numbers.map_values(
            |number: u64| text::decimal_text(number as nat),
        ));
        assert forall|i: int| 0 <= i < all.len() implies is_numeric_char(#[trigger] all[i]) by {
            if i < front.len() {
                assert(all[i] == front[i]);
            } else if i > front.len() {
                assert(all[i] == last[i - front.len() - 1]);
            }
        }
        assert(all[0] == front[0]);
        assert(all.last() == last.last());
    }
}

/// Where digits and dots end, the part of a version that is made of them ends.
proof fn lemma_numeric_len(numeric: Seq<char>, rest: Seq<char>)
    requires
        forall|i: int| 0 <= i < numeric.len() ==> is_numeric_char(#[trigger] numeric[i]),
        rest.len() > 0 ==> !is_numeric_char(rest[0]),
    ensures
        numeric_len(numeric + rest) == numeric.len(),
    decreases numeric.len(),
{
    let all = numeric + rest;
    if numeric.len() == 0 {
        assert(all =~= rest);
    } else {
        assert(all[0] == numeric[0]);
        assert(all.drop_first() =~= numeric.drop_first() + rest);
        lemma_numeric_len(numeric.drop_first(), rest);
    }
}

/// The row of numbers by which a version is ordered that states the given components and patch level.
pub open spec fn row_of(numbers: Seq<u64>, patch: u64) -> Seq<u64> {
    seq![
        if numbers.len() > 0 { numbers[0] } else { 0 },
        if numbers.len() > 1 { numbers[1] } else { 0 },
        if numbers.len() > 2 { numbers[2] } else { 0 },
        if numbers.len() > 3 { numbers[3] } else { 0 },
        patch,
    ]
}

/// A version that begins with numbers, and goes on with something else, is read number by number.
proof fn lemma_version_is_read(numbers: Seq<u64>, rest: Seq<char>)
    requires
        numbers.len() > 0,
        rest.len() > 0 ==> !is_numeric_char(rest[0]) && !text::is_space(rest.last()),
        !is_prerelease(text::lowered(dotted(numbers) + rest)),
    ensures
        version_parts(dotted(numbers) + rest) == (match patch_level(text::lowered(rest)) {
            Some(patch) => Some(row_of(numbers, patch)),
            None => None,
        }),
{
    let numeric = dotted(numbers);
    let all = numeric + rest;
    lemma_dotted(numbers);
    lemma_numeric_len(numeric, rest);
    assert(all[0] == numeric[0]);
    assert(all.last() == (if rest.len() > 0 {
        rest.last()
    } else {
        numeric.last()
    }));
    text::lemma_trimmed_of_plain(all);
    assert(normalized(all) == all);
    let n = numeric_len(all) as int;
    assert(all.take(n) =~= numeric);
    assert(all.skip(n) =~= rest);
    let components = text::pieces(numeric, '.');
    assert forall|i: int| 0 <= i < numbers.len() implies text::u64_value(#[trigger] components[i])
        == Some(numbers[i]) by {
        text::law_number_is_read_as_written(numbers[i], Seq::empty());
    }
    if let Some(patch) = patch_level(text::lowered(rest)) {
        assert(version_parts(all)->0 =~= row_of(numbers, patch));
    }
}

/// A marker of a prerelease stands in no text in which no letter begins it.
proof fn lemma_no_marker(lower: Seq<char>, marker: Seq<char>)
    requires
        marker.len() > 0,
        lower.len() > 0,
        lower[0] != marker[0],
        forall|i: int|
            0 < i < lower.len() && #[trigger] lower[i] == marker[0] ==> lower[i - 1] != '.' && lower[i
                - 1] != '-' && lower[i - 1] != '_',
    ensures
        !carries_marker(lower, marker),
{
    if text::begins_with(lower, marker.push('-')) {
        assert(lower.subrange(0, marker.len() + 1int)[0] == marker.push('-')[0]);
    }
    assert forall|separator: char|
        separator == '.' || separator == '-' || separator == '_' implies !text::has_within(
        lower,
        #[trigger] (seq![separator] + marker),
    ) by {
        let pattern = seq![separator] + marker;
        if text::has_within(lower, pattern) {
            let at = choose|at: int| text::occurs_at(lower, pattern, at);
            let found = lower.subrange(at, at + pattern.len());
            assert(found[0] == pattern[0] && found[1] == pattern[1]);
            assert(lower[at + 1] == marker[0]);
        }
    }
}

/// Digits and dots, and a patch level behind them, carry no marker of a prerelease.
proof fn lemma_released(lower: Seq<char>)
    requires
        lower.len() > 0,
        text::is_digit(lower[0]),
        forall|i: int|
            #![trigger lower[i]]
            0 < i < lower.len() ==> lower[i] == 'p' || (lower[i - 1] != '.' && lower[i - 1] != '-'
                && lower[i - 1] != '_') || is_numeric_char(lower[i]) || lower[i] == '-',
    ensures
        !is_prerelease(lower),
{
    reveal_strlit("dev");
    reveal_strlit("alpha");
    reveal_strlit("beta");
    reveal_strlit("rc");
    lemma_no_marker(lower, "dev"@);
    lemma_no_marker(lower, "alpha"@);
    lemma_no_marker(lower, "beta"@);
    lemma_no_marker(lower, "rc"@);
}

/// A version that is written as numbers with dots between them is stable, and it is read number by
/// number: the first four count, and those that are missing are 0. A patch level behind them counts
/// as a fifth number, whether it is marked with `-p` or `-patch`.
pub proof fn law_version_is_read_number_by_number(numbers: Seq<u64>, patch: u64)
    requires
        numbers.len() > 0,
    ensures
        version_parts(dotted(numbers)) == Some(row_of(numbers, 0)),
        version_parts(dotted(numbers) + "-p"@ + text::decimal_text(patch as nat)) == Some(
            row_of(numbers, patch),
        ),
        version_parts(dotted(numbers) + "-patch"@ + text::decimal_text(patch as nat)) == Some(
            row_of(numbers, patch),
        ),
{
    reveal_strlit("-p");
    reveal_strlit(".p");
    reveal_strlit("-patch");
    reveal_strlit(".patch");
    let numeric = dotted(numbers);
    let digits = text::decimal_text(patch as nat);
    lemma_dotted(numbers);
    text::lemma_decimal_text(patch as nat);
    text::law_number_is_read_as_written(patch, Seq::empty());
    assert(text::is_digit(digits[0]));
    assert(text::is_digit(digits[digits.len() - 1]));
    let lower = text::lowered(numeric);
    assert(numeric + Seq::<char>::empty() =~= numeric);
    assert(lower =~= numeric);
    lemma_released(lower);
    assert(text::lowered(Seq::<char>::empty()) =~= Seq::<char>::empty());
    lemma_version_is_read(numbers, Seq::empty());
    lemma_patched(numbers, "-p"@, patch);
    lemma_patched(numbers, "-patch"@, patch);
    let short = text::lowered("-p"@ + digits);
    let long = text::lowered("-patch"@ + digits);
    assert(short =~= "-p"@ + digits);
    assert(long =~= "-patch"@ + digits);
    assert(short.subrange(0, 2) =~= "-p"@);
    assert(long.subrange(0, 6) =~= "-patch"@);
    assert(short.skip(2) =~= digits);
    assert(long.skip(6) =~= digits);
    assert(!text::begins_with(short, "-patch"@)) by {
        if text::begins_with(short, "-patch"@) {
            assert(short.subrange(0, 6)[2] == short[2]);
        }
    }
    assert(!text::begins_with(short, ".patch"@)) by {
        if text::begins_with(short, ".patch"@) {
            assert(short.subrange(0, 6)[0] == short[0]);
        }
    }
}

/// Numbers with a patch level behind them are read.
proof fn lemma_patched(numbers: Seq<u64>, marker: Seq<char>, patch: u64)
    requires
        numbers.len() > 0,
        marker == "-p"@ || marker == "-patch"@,
    ensures
        version_parts(dotted(numbers) + marker + text::decimal_text(patch as nat)) == (
        match patch_level(text::lowered(marker + text::decimal_text(patch as nat))) {
            Some(level) => Some(row_of(numbers, level)),
            None => None,
        }),
{
    reveal_strlit("-p");
    reveal_strlit("-patch");
    let numeric = dotted(numbers);
    let digits = text::decimal_text(patch as nat);
    lemma_dotted(numbers);
    text::lemma_decimal_text(patch as nat);
    let rest = marker + digits;
    let all = numeric + rest;
    assert(text::is_digit(digits[digits.len() - 1]));
    assert(rest.last() == digits.last());
    let lower = text::lowered(all);
    assert(lower[0] == numeric[0]);
    assert forall|i: int|
        #![trigger lower[i]]
        0 < i < lower.len() implies lower[i] == 'p' || (lower[i - 1] != '.' && lower[i - 1] != '-'
        && lower[i - 1] != '_') || is_numeric_char(lower[i]) || lower[i] == '-' by {
        if i < numeric.len() {
            assert(is_numeric_char(numeric[i]));
        } else if i >= numeric.len() + marker.len() {
            assert(text::is_digit(digits[i - numeric.len() - marker.len()]));
        }
    }
    lemma_released(lower);
    lemma_version_is_read(numbers, rest);
    assert(numeric + marker + digits =~= all);
}

/// The left version is stable and stands before the right one, which is stable too.
pub open spec fn stands_before(left: Seq<char>, right: Seq<char>) -> bool {
    match (version_parts(left), version_parts(right)) {
        (Some(a), Some(b)) => parts_less(a, b) && !parts_less(b, a),
        _ => false,
    }
}

/// Of two versions that are written as numbers with dots between them, the one with the greater
/// number in the first place in which they differ is ahead, and a number that is missing counts as
/// 0.
pub proof fn law_greater_number_is_ahead(older: Seq<u64>, newer: Seq<u64>, at: int)
    requires
        older.len() > 0,
        newer.len() > 0,
        0 <= at < 4,
        at < newer.len(),
        at <= older.len(),
        forall|i: int| 0 <= i < at ==> older[i] == newer[i],
        if at < older.len() {
            older[at] < newer[at]
        } else {
            0 < newer[at]
        },
    ensures
        stands_before(dotted(older), dotted(newer)),
{
    law_version_is_read_number_by_number(older, 0);
    law_version_is_read_number_by_number(newer, 0);
    lemma_row_is_ahead(older, newer, at);
    lemma_stands_before(dotted(older), dotted(newer), row_of(older, 0), row_of(newer, 0));
}

/// Of two versions with the same numbers the one with the greater patch level is ahead.
pub proof fn law_greater_patch_level_is_ahead(numbers: Seq<u64>, patch: u64, later: u64)
    requires
        numbers.len() > 0,
        patch < later,
    ensures
        stands_before(
            dotted(numbers) + "-p"@ + text::decimal_text(patch as nat),
            dotted(numbers) + "-p"@ + text::decimal_text(later as nat),
        ),
{
    law_version_is_read_number_by_number(numbers, patch);
    law_version_is_read_number_by_number(numbers, later);
    lemma_patch_is_ahead(numbers, patch, later);
    lemma_stands_before(
        dotted(numbers) + "-p"@ + text::decimal_text(patch as nat),
        dotted(numbers) + "-p"@ + text::decimal_text(later as nat),
        row_of(numbers, patch),
        row_of(numbers, later),
    );
}

proof fn lemma_stands_before(left: Seq<char>, right: Seq<char>, a: Seq<u64>, b: Seq<u64>)
    requires
        version_parts(left) == Some(a),
        version_parts(right) == Some(b),
        parts_less(a, b),
        !parts_less(b, a),
    ensures
        stands_before(left, right),
{
}

proof fn lemma_row_is_ahead(older: Seq<u64>, newer: Seq<u64>, at: int)
    requires
        0 <= at < 4,
        at < newer.len(),
        at <= older.len(),
        forall|i: int| 0 <= i < at ==> older[i] == newer[i],
        if at < older.len() {
            older[at] < newer[at]
        } else {
            0 < newer[at]
        },
    ensures
        parts_less(row_of(older, 0), row_of(newer, 0)),
        !parts_less(row_of(newer, 0), row_of(older, 0)),
{
    let left = row_of(older, 0);
    let right = row_of(newer, 0);
    assert forall|i: int| 0 <= i < at implies left[i] == right[i] by {
        assert(older[i] == newer[i]);
    }
    law_version_order_ascends(left, right, at);
}

proof fn lemma_patch_is_ahead(numbers: Seq<u64>, patch: u64, later: u64)
    requires
        patch < later,
    ensures
        parts_less(row_of(numbers, patch), row_of(numbers, later)),
        !parts_less(row_of(numbers, later), row_of(numbers, patch)),
{
    law_version_order_ascends(row_of(numbers, patch), row_of(numbers, later), 4);
}

/// The word marks a prerelease, however it is spelled in capitals.
pub open spec fn is_prerelease_word(word: Seq<char>) -> bool {
    ||| text::lowered(word) == "dev"@
    ||| text::lowered(word) == "alpha"@
    ||| text::lowered(word) == "beta"@
    ||| text::lowered(word) == "rc"@
}

/// A version in which such a word stands behind a hyphen, a dot or an underscore is not stable,
/// whatever stands before and behind it. Neither is a version that is such a word, or begins with one
/// and goes on with a hyphen, as the names of development branches do.
pub proof fn law_prereleases_have_no_order(
    before: Seq<char>,
    separator: char,
    word: Seq<char>,
    behind: Seq<char>,
)
    requires
        is_prerelease_word(word),
        separator == '-' || separator == '.' || separator == '_',
    ensures
        version_parts(before.push(separator) + word + behind) is None,
        version_parts(word) is None,
        version_parts(word.push('-') + behind) is None,
{
    reveal_strlit("dev");
    reveal_strlit("alpha");
    reveal_strlit("beta");
    reveal_strlit("rc");
    let marker = text::lowered(word);
    assert(word.len() == marker.len());
    assert forall|i: int| 0 <= i < word.len() implies !text::is_space(#[trigger] word[i]) && word[i]
        != 'v' || i == 2 by {
        assert(text::lower_char(word[i]) == marker[i]);
    }
    assert(!text::is_space(word[word.len() - 1])) by {
        assert(text::lower_char(word[word.len() - 1]) == marker[marker.len() - 1]);
    }
    let version = before.push(separator) + word + behind;
    let at = before.len() as int;
    lemma_marked(version, at, separator, word);
    text::lemma_trimmed_of_plain(word);
    assert(normalized(word) == word);
    let branch = word.push('-') + behind;
    let start = text::lemma_trimmed_is_inner(branch);
    let inner = text::trimmed(branch);
    assert(branch[0] == word[0]);
    assert(branch[word.len() as int] == '-');
    assert(start == 0);
    assert(inner.len() > word.len());
    assert(inner[0] == word[0]);
    assert(normalized(branch) == inner);
    assert(text::lowered(inner).subrange(0, marker.len() + 1int) =~= marker.push('-')) by {
        assert forall|i: int| 0 <= i < marker.len() implies text::lowered(inner)[i] == marker[i] by {
            assert(inner[i] == branch[i]);
            assert(branch[i] == word[i]);
        }
        assert(inner[marker.len() as int] == branch[marker.len() as int]);
    }
}

/// A word that marks a prerelease is not left out with the white space around a version.
proof fn lemma_marked(version: Seq<char>, at: int, separator: char, word: Seq<char>)
    requires
        is_prerelease_word(word),
        separator == '-' || separator == '.' || separator == '_',
        0 <= at,
        at + 1 + word.len() <= version.len(),
        version[at] == separator,
        forall|i: int| 0 <= i < word.len() ==> version[at + 1 + i] == #[trigger] word[i],
    ensures
        version_parts(version) is None,
{
    reveal_strlit("dev");
    reveal_strlit("alpha");
    reveal_strlit("beta");
    reveal_strlit("rc");
    let marker = text::lowered(word);
    let last = word.len() - 1;
    assert(word.len() == marker.len());
    assert(!text::is_space(word[last])) by {
        assert(text::lower_char(word[last]) == marker[last]);
    }
    let start = text::lemma_trimmed_is_inner(version);
    let inner = text::trimmed(version);
    assert(version[at + 1 + last] == word[last]);
    assert(start <= at && at + 1 + last < start + inner.len());
    let plain = normalized(version);
    let dropped: int = if inner[0] == 'v' {
        1
    } else {
        0
    };
    assert(inner[at - start] == separator);
    let place = at - start - dropped;
    let lower = text::lowered(plain);
    let pattern = seq![separator] + marker;
    assert(lower.subrange(place, place + pattern.len()) =~= pattern) by {
        assert forall|i: int| 0 <= i < pattern.len() implies lower[place + i] == pattern[i] by {
            assert(plain[place + i] == inner[place + dropped + i]);
            assert(inner[at - start + i] == version[at + i]);
            if i > 0 {
                assert(version[at + 1 + (i - 1)] == word[i - 1]);
                assert(text::lower_char(word[i - 1]) == marker[i - 1]);
            }
        }
    }
    assert(text::occurs_at(lower, pattern, place));
}

/// A leading `v` and white space around a version do not count, and a version that begins with
/// neither a digit nor a dot behind them is not stable.
pub proof fn law_prefix_of_version_does_not_count(
    before: Seq<char>,
    version: Seq<char>,
    after: Seq<char>,
)
    requires
        forall|i: int| 0 <= i < before.len() ==> text::is_space(#[trigger] before[i]),
        forall|i: int| 0 <= i < after.len() ==> text::is_space(#[trigger] after[i]),
        version.len() > 0,
        version[0] != 'v',
        !text::is_space(version[0]),
        !text::is_space(version.last()),
    ensures
        version_parts(before + version + after) == version_parts(version),
        version_parts(before + (seq!['v'] + version) + after) == version_parts(version),
        !('0' <= version[0] <= '9') && version[0] != '.' ==> version_parts(version) is None,
{
    let led = seq!['v'] + version;
    text::law_only_outer_white_space_is_left_out(before, version, after);
    text::law_only_outer_white_space_is_left_out(before, led, after);
    text::lemma_trimmed_of_plain(version);
    assert(led.last() == version.last());
    assert(led.drop_first() =~= version);
}

/// A version is shown as it is written, without the white space around it. Where it begins with a
/// digit, a `v` is put before it, and nothing else is ever added.
pub proof fn law_label_shows_version(before: Seq<char>, version: Seq<char>, after: Seq<char>)
    requires
        forall|i: int| 0 <= i < before.len() ==> text::is_space(#[trigger] before[i]),
        forall|i: int| 0 <= i < after.len() ==> text::is_space(#[trigger] after[i]),
        version.len() > 0 ==> !text::is_space(version[0]) && !text::is_space(version.last()),
    ensures
        version.len() > 0 && '0' <= version[0] <= '9' ==> label_of(before + version + after) == seq!['v']
            + version,
        version.len() == 0 || !('0' <= version[0] <= '9') ==> label_of(before + version + after)
            == version,
{
    text::law_only_outer_white_space_is_left_out(before, version, after);
}

/// Capitals do not count in a version, but for a leading `V`, which is not left out as a `v` is.
pub proof fn law_capitals_of_version_do_not_count(version: Seq<char>)
    requires
        text::trimmed(version).len() > 0 ==> text::trimmed(version)[0] != 'V',
    ensures
        version_parts(text::lowered(version)) == version_parts(version),
{
    let plain = normalized(version);
    let lower = text::lowered(plain);
    text::lemma_trimmed_in_lower_case(version);
    text::lemma_lowered_twice(plain);
    assert(normalized(text::lowered(version)) =~= lower);
    lemma_numeric_len_in_lower_case(plain);
    let n = numeric_len(plain) as int;
    assert(lower.take(n) =~= plain.take(n));
    assert(lower.skip(n) =~= text::lowered(plain.skip(n)));
    text::lemma_lowered_twice(plain.skip(n));
}

proof fn lemma_numeric_len_in_lower_case(version: Seq<char>)
    ensures
        numeric_len(text::lowered(version)) == numeric_len(version),
        numeric_len(version) <= version.len(),
        forall|i: int| 0 <= i < numeric_len(version) ==> is_numeric_char(#[trigger] version[i]),
    decreases version.len(),
{
    let lower = text::lowered(version);
    if version.len() > 0 && is_numeric_char(version[0]) {
        let rest = version.drop_first();
        lemma_numeric_len_in_lower_case(rest);
        assert(lower.drop_first() =~= text::lowered(rest));
        assert forall|i: int| 0 <= i < numeric_len(version) implies is_numeric_char(
            #[trigger] version[i],
        ) by {
            if i > 0 {
                assert(rest[i - 1] == version[i]);
            }
        }
    }
}

/// The word stands nowhere in what follows the numbers, so no marker that is made of it does.
proof fn lemma_word_is_absent(numeric: Seq<char>, rest: Seq<char>, marker: Seq<char>)
    requires
        marker.len() > 0,
        'a' <= marker[0] <= 'z',
        numeric.len() > 0,
        forall|i: int| 0 <= i < numeric.len() ==> is_numeric_char(#[trigger] numeric[i]),
        !text::has_within(text::lowered(rest), marker),
    ensures
        !carries_marker(text::lowered(numeric + rest), marker),
{
    let lower = text::lowered(numeric + rest);
    let n = numeric.len() as int;
    assert forall|at: int| 0 <= at implies !(#[trigger] text::occurs_at(lower, marker, at)) by {
        if text::occurs_at(lower, marker, at) {
            assert(lower.subrange(at, at + marker.len())[0] == lower[at]);
            if at < n {
                assert(is_numeric_char(numeric[at]));
            } else {
                assert(text::lowered(rest).subrange(at - n, at - n + marker.len())
                    =~= lower.subrange(at, at + marker.len()));
                assert(text::occurs_at(text::lowered(rest), marker, at - n));
            }
        }
    }
    if lower == marker {
        assert(lower.subrange(0, marker.len() as int) =~= marker);
        assert(text::occurs_at(lower, marker, 0));
    }
    if text::begins_with(lower, marker.push('-')) {
        assert(lower.subrange(0, marker.len() as int) =~= lower.subrange(
            0,
            marker.len() + 1int,
        ).take(marker.len() as int));
        assert(marker.push('-').take(marker.len() as int) =~= marker);
        assert(text::occurs_at(lower, marker, 0));
    }
    assert forall|separator: char| !text::has_within(
        lower,
        #[trigger] (seq![separator] + marker),
    ) by {
        let pattern = seq![separator] + marker;
        if text::has_within(lower, pattern) {
            let at = choose|at: int| text::occurs_at(lower, pattern, at);
            assert(lower.subrange(at + 1, at + 1 + marker.len()) =~= lower.subrange(
                at,
                at + pattern.len(),
            ).skip(1));
            assert(pattern.skip(1) =~= marker);
            assert(text::occurs_at(lower, marker, at + 1));
        }
    }
}

/// What follows the numbers of a version does not count, where none of the words stands in it that mark
/// a prerelease and it is not a patch level.
pub proof fn law_other_endings_of_versions_do_not_count(numbers: Seq<u64>, rest: Seq<char>)
    requires
        numbers.len() > 0,
        rest.len() > 0,
        !('0' <= rest[0] <= '9') && rest[0] != '.',
        rest[0] == '-' ==> rest.len() > 1 && rest[1] != 'p' && rest[1] != 'P',
        !text::is_space(rest.last()),
        !text::has_within(text::lowered(rest), "dev"@),
        !text::has_within(text::lowered(rest), "alpha"@),
        !text::has_within(text::lowered(rest), "beta"@),
        !text::has_within(text::lowered(rest), "rc"@),
    ensures
        version_parts(dotted(numbers) + rest) == Some(row_of(numbers, 0)),
{
    reveal_strlit("dev");
    reveal_strlit("alpha");
    reveal_strlit("beta");
    reveal_strlit("rc");
    lemma_dotted(numbers);
    lemma_word_is_absent(dotted(numbers), rest, "dev"@);
    lemma_word_is_absent(dotted(numbers), rest, "alpha"@);
    lemma_word_is_absent(dotted(numbers), rest, "beta"@);
    lemma_word_is_absent(dotted(numbers), rest, "rc"@);
    lemma_no_patch_level(rest);
    lemma_version_is_read(numbers, rest);
}

proof fn lemma_no_patch_level(rest: Seq<char>)
    requires
        rest.len() > 0,
        rest[0] != '.',
        rest[0] == '-' ==> rest.len() > 1 && rest[1] != 'p' && rest[1] != 'P',
    ensures
        patch_level(text::lowered(rest)) == Some(0u64),
{
    reveal_strlit("-p");
    reveal_strlit(".p");
    reveal_strlit("-patch");
    reveal_strlit(".patch");
    let lower = text::lowered(rest);
    assert(lower[0] == text::lower_char(rest[0]));
    assert forall|pattern: Seq<char>|
        pattern.len() > 1 && #[trigger] text::begins_with(lower, pattern) implies lower[0]
        == pattern[0] && lower[1] == pattern[1] by {
        assert(lower.subrange(0, pattern.len() as int)[0] == pattern[0]);
        assert(lower.subrange(0, pattern.len() as int)[1] == pattern[1]);
    }
    if rest[0] == '-' {
        assert(lower[1] == text::lower_char(rest[1]));
    }
}

/// A version whose patch level is not a number has no order.
pub proof fn law_patch_level_has_to_be_a_number(numbers: Seq<u64>, other: Seq<char>)
    requires
        numbers.len() > 0,
        other.len() > 0,
        'b' <= text::lower_char(other[0]) <= 'z',
        !text::is_space(other.last()),
    ensures
        version_parts(dotted(numbers) + ("-p"@ + other)) is None,
{
    reveal_strlit("-p");
    reveal_strlit("-patch");
    reveal_strlit(".patch");
    let rest = "-p"@ + other;
    let lower = text::lowered(rest);
    let all = dotted(numbers) + rest;
    lemma_dotted(numbers);
    assert(rest.last() == other.last());
    assert(lower[0] == '-' && lower[1] == 'p' && lower[2] == text::lower_char(other[0]));
    assert(lower.subrange(0, 2) =~= "-p"@);
    assert(!text::begins_with(lower, "-patch"@)) by {
        if text::begins_with(lower, "-patch"@) {
            assert(lower.subrange(0, 6)[2] == lower[2]);
        }
    }
    assert(!text::begins_with(lower, ".patch"@)) by {
        if text::begins_with(lower, ".patch"@) {
            assert(lower.subrange(0, 6)[0] == lower[0]);
        }
    }
    let level = lower.skip(2);
    assert(level[0] == lower[2]);
    text::law_number_is_read_as_written(0, level);
    lemma_unread_version(numbers, rest);
}

proof fn lemma_unread_version(numbers: Seq<u64>, rest: Seq<char>)
    requires
        numbers.len() > 0,
        rest.len() > 0,
        !is_numeric_char(rest[0]),
        !text::is_space(rest.last()),
        patch_level(text::lowered(rest)) is None,
    ensures
        version_parts(dotted(numbers) + rest) is None,
{
    let all = dotted(numbers) + rest;
    if is_prerelease(text::lowered(all)) {
        lemma_dotted(numbers);
        assert(all[0] == dotted(numbers)[0]);
        assert(all.last() == rest.last());
        text::lemma_trimmed_of_plain(all);
        assert(normalized(all) == all);
    } else {
        lemma_version_is_read(numbers, rest);
    }
}

/// A version with an empty component among the first four has no order.
pub proof fn law_empty_component_has_no_order(numbers: Seq<u64>)
    requires
        0 < numbers.len() < 4,
    ensures
        version_parts(dotted(numbers).push('.')) is None,
{
    let numeric = dotted(numbers);
    let all = numeric.push('.');
    lemma_dotted(numbers);
    text::law_pieces_stand_between_separators(numeric, Seq::empty(), '.');
    assert(all + Seq::<char>::empty() =~= all);
    assert(all[0] == numeric[0]);
    text::lemma_trimmed_of_plain(all);
    assert(normalized(all) == all);
    assert forall|i: int| 0 <= i < all.len() implies is_numeric_char(#[trigger] all[i]) by {
        if i < numeric.len() {
            assert(all[i] == numeric[i]);
        }
    }
    lemma_numeric_len(all, Seq::empty());
    let n = numeric_len(all) as int;
    assert(all.take(n) =~= all);
    let components = text::pieces(all, '.');
    assert(components[numbers.len() as int] =~= Seq::empty());
    assert(text::u64_value(components[numbers.len() as int]) is None);
}

/// Of two stable versions the one with the smaller number in the first place in which they differ is
/// less, and the other one is greater. Versions with the same numbers are equal. There is no order
/// exactly where one of two versions is not stable.
pub proof fn law_versions_are_compared_number_by_number(
    left: Seq<char>,
    right: Seq<char>,
    a: Seq<u64>,
    b: Seq<u64>,
    at: int,
)
    ensures
        version_parts(left) == Some(a) && version_parts(right) == Some(b) && 0 <= at < 5 && (forall|
            i: int,
        |
            0 <= i < at ==> a[i] == b[i]) && a[at] < b[at] ==> order_of(left, right) == Some(
            Ordering::Less,
        ) && order_of(right, left) == Some(Ordering::Greater),
        version_parts(left) == Some(a) && version_parts(right) == Some(a) ==> order_of(left, right)
            == Some(Ordering::Equal),
        version_parts(left) is None || version_parts(right) is None <==> order_of(left, right) is None,
{
    if version_parts(left) == Some(a) && version_parts(right) == Some(b) && 0 <= at < 5 && (forall|
        i: int,
    |
        0 <= i < at ==> a[i] == b[i]) && a[at] < b[at] {
        law_version_order_ascends(a, b, at);
    }
    if version_parts(left) == Some(a) {
        law_version_order_is_strict(a, a, a);
    }
}

} // verus!
