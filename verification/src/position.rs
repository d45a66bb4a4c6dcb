//! Positions in a text as editors count them: lines, and UTF-16 code units within a line.
use crate::scanner;
use crate::text;
use vstd::prelude::*;
use vstd::string::*;

verus! {

/// A place in a text, as a line and a number of UTF-16 code units within it, both counted from 0.
#[derive(Clone, Copy, Debug, Default, Eq, PartialEq, Structural)]
pub struct Position {
    pub line: u32,
    pub character: u32,
}

/// A stretch of a text from one position to another.
#[derive(Clone, Copy, Debug, Default, Eq, PartialEq, Structural)]
pub struct Range {
    pub start: Position,
    pub end: Position,
}

impl Position {
    /// The position with the given line and character.
    pub fn new(line: u32, character: u32) -> (position: Self)
        ensures
            position == (Position { line, character }),
    {
        Position { line, character }
    }

    /// The position stands at or behind another one.
    pub open spec fn reaches(self, other: Position) -> bool {
        self.line > other.line || (self.line == other.line && self.character >= other.character)
    }

    /// Tells whether the position stands at or behind another one.
    fn is_at_or_behind(self, other: Position) -> (yes: bool)
        ensures
            yes == self.reaches(other),
    {
        self.line > other.line || (self.line == other.line && self.character >= other.character)
    }
}

impl Range {
    /// The range with the given ends.
    pub fn new(start: Position, end: Position) -> (range: Self)
        ensures
            range == (Range { start, end }),
    {
        Range { start, end }
    }
}

/// The position lies in the range, its ends included.
pub open spec fn lies_in(position: Position, range: Range) -> bool {
    position.reaches(range.start) && range.end.reaches(position)
}

/// The number of UTF-16 code units of a character.
pub open spec fn utf16_width(c: char) -> nat {
    if c as u32 >= 0x10000 {
        2
    } else {
        1
    }
}

/// The number of line breaks in a text.
pub open spec fn line_breaks(chars: Seq<char>) -> nat
    decreases chars.len(),
{
    if chars.len() == 0 {
        0
    } else if chars.last() == '\n' {
        line_breaks(chars.drop_last()) + 1
    } else {
        line_breaks(chars.drop_last())
    }
}

/// The number of UTF-16 code units behind the last line break of a text.
pub open spec fn column(chars: Seq<char>) -> nat
    decreases chars.len(),
{
    if chars.len() == 0 || chars.last() == '\n' {
        0
    } else {
        column(chars.drop_last()) + utf16_width(chars.last())
    }
}

/// The offset, or the end of the text where the offset lies behind it.
pub open spec fn clamped(source: Seq<char>, offset: int) -> int {
    if offset < text::byte_len(source) {
        offset
    } else {
        text::byte_len(source) as int
    }
}

/// The characters of a text that stand before a byte offset.
pub open spec fn chars_before(source: Seq<char>, offset: int) -> Seq<char> {
    vstd::utf8::decode_utf8(vstd::utf8::encode_utf8(source).take(clamped(source, offset)))
}

/// The position of a byte offset in a text.
pub open spec fn position_at(source: Seq<char>, offset: int) -> Position {
    Position {
        line: line_breaks(chars_before(source, offset)) as u32,
        character: column(chars_before(source, offset)) as u32,
    }
}

/// The encoding of two texts in a row is the encodings in a row.
pub proof fn lemma_encode_concat(left: Seq<char>, right: Seq<char>)
    ensures
        vstd::utf8::encode_utf8(left + right) == vstd::utf8::encode_utf8(left)
            + vstd::utf8::encode_utf8(right),
    decreases left.len(),
{
    if left.len() == 0 {
        assert(left + right =~= right);
        assert(vstd::utf8::encode_utf8(left) + vstd::utf8::encode_utf8(right)
            =~= vstd::utf8::encode_utf8(right));
    } else {
        lemma_encode_concat(left.drop_first(), right);
        assert((left + right).drop_first() =~= left.drop_first() + right);
        assert(vstd::utf8::encode_utf8(left + right) =~= vstd::utf8::encode_utf8(left)
            + vstd::utf8::encode_utf8(right));
    }
}

/// Counting in lines and code units never counts further than counting in bytes.
pub proof fn lemma_counts_within_bytes(chars: Seq<char>)
    ensures
        line_breaks(chars) + column(chars) <= text::byte_len(chars),
    decreases chars.len(),
{
    if chars.len() > 0 {
        let init = chars.drop_last();
        let last = seq![chars.last()];
        lemma_counts_within_bytes(init);
        assert(chars =~= init + last);
        lemma_encode_concat(init, last);
        assert(last.drop_first() =~= Seq::empty());
        assert(vstd::utf8::encode_utf8(last) =~= vstd::utf8::encode_scalar(
            chars.last() as u32,
        ) + vstd::utf8::encode_utf8(last.drop_first()));
    }
}

/// The position of a byte offset in a text. An offset behind the end stands for the end.
pub fn offset_to_position(source: &str, offset: usize) -> (position: Position)
    requires
        text::byte_len(source@) <= u32::MAX,
        scanner::is_boundary(source@, clamped(source@, offset as int)),
    ensures
        position == position_at(source@, offset as int),
        position.line == line_breaks(chars_before(source@, offset as int)),
        position.character == column(chars_before(source@, offset as int)),
{
    broadcast use group_string_axioms;

    let length = source.as_bytes().len();
    let middle = if offset < length {
        offset
    } else {
        length
    };
    let (head, _) = source.split_at(middle);
    proof {
        vstd::utf8::encode_utf8_decode_utf8(head@);
        assert(source.spec_bytes().take(middle as int) =~= source.spec_bytes().subrange(
            0,
            middle as int,
        ));
        assert(head@ == chars_before(source@, offset as int));
        lemma_counts_within_bytes(head@);
    }
    let mut line: u32 = 0;
    let mut character: u32 = 0;
    for c in iter: head.chars()
        invariant
            iter.seq() == head@,
            text::byte_len(head@) <= u32::MAX,
            line == line_breaks(head@.take(iter.index() as int)),
            character == column(head@.take(iter.index() as int)),
    {
        let ghost n = iter.index() as int;
        proof {
            let shown = head@.take(n + 1);
            assert(shown.drop_last() =~= head@.take(n));
            assert(shown.last() == c);
            lemma_counts_within_bytes(shown);
            lemma_encode_concat(shown, head@.skip(n + 1));
            assert(head@ =~= shown + head@.skip(n + 1));
        }
        if c == '\n' {
            line += 1;
            character = 0;
        } else {
            character += if c as u32 >= 0x10000 {
                2
            } else {
                1
            };
        }
    }
    assert(head@.take(head@.len() as int) =~= head@);
    Position { line, character }
}

/// Tells whether a position lies in a range, its ends included.
pub fn position_in_range(position: Position, range: Range) -> (yes: bool)
    ensures
        yes == lies_in(position, range),
{
    position.is_at_or_behind(range.start) && range.end.is_at_or_behind(position)
}

/// A text that goes on ends on a later line, or further on in the same line.
proof fn lemma_counts_grow(head: Seq<char>, tail: Seq<char>)
    requires
        tail.len() > 0,
    ensures
        line_breaks(head) < line_breaks(head + tail) || (line_breaks(head) == line_breaks(
            head + tail,
        ) && column(head) < column(head + tail)),
    decreases tail.len(),
{
    let all = head + tail;
    let front = tail.drop_last();
    assert(all.drop_last() =~= head + front);
    assert(all.last() == tail.last());
    if front.len() > 0 {
        lemma_counts_grow(head, front);
    } else {
        assert(head + front =~= head);
    }
}

/// The characters before a place in a text take as many bytes as the place counts, and what stands
/// between two places follows them.
proof fn lemma_chars_before(source: Seq<char>, start: int, end: int) -> (between: Seq<char>)
    requires
        0 <= start < end <= text::byte_len(source),
        scanner::is_boundary(source, start),
        scanner::is_boundary(source, end),
    ensures
        text::byte_len(chars_before(source, end)) == end,
        between.len() > 0,
        chars_before(source, end) == chars_before(source, start) + between,
{
    let bytes = vstd::utf8::encode_utf8(source);
    let upper = bytes.subrange(0, end);
    vstd::utf8::encode_utf8_valid_utf8(source);
    vstd::utf8::valid_utf8_split(bytes, end);
    assert(bytes.take(end) =~= upper);
    assert(bytes.take(start) =~= upper.subrange(0, start));
    vstd::utf8::decode_utf8_encode_utf8(upper);
    vstd::utf8::is_char_boundary_iff_not_is_continuation_byte(bytes, start);
    vstd::utf8::is_char_boundary_iff_not_is_continuation_byte(upper, start);
    vstd::utf8::valid_utf8_split(upper, start);
    vstd::utf8::decode_utf8_split(upper, start);
    let rest = upper.subrange(start, upper.len() as int);
    let between = vstd::utf8::decode_utf8(rest);
    assert(clamped(source, end) == end);
    assert(clamped(source, start) == start);
    between
}

/// A place further on in a text has a position further on: two places never have the same one.
pub proof fn law_positions_follow_offsets(source: Seq<char>, start: int, end: int)
    requires
        text::byte_len(source) <= u32::MAX,
        0 <= start < end <= text::byte_len(source),
        scanner::is_boundary(source, start),
        scanner::is_boundary(source, end),
    ensures
        position_at(source, end).reaches(position_at(source, start)),
        position_at(source, end) != position_at(source, start),
{
    let between = lemma_chars_before(source, start, end);
    lemma_counts_grow(chars_before(source, start), between);
    lemma_counts_within_bytes(chars_before(source, end));
    lemma_counts_within_bytes(chars_before(source, start));
    lemma_encode_concat(chars_before(source, start), between);
}

/// The number of UTF-16 code units of a row of characters: one for each, and one more for each that
/// does not fit in one.
pub open spec fn utf16_len(chars: Seq<char>) -> nat {
    chars.len() + chars.filter(|c: char| c as u32 > 0xffff).len()
}

/// A place in a text has the line that as many line breaks stand before as its number says, and in that
/// line it stands behind as many UTF-16 code units as its other number says.
pub proof fn law_position_counts_lines_and_code_units(
    lines: Seq<char>,
    line: Seq<char>,
    rest: Seq<char>,
)
    requires
        lines.len() > 0 ==> lines.last() == '\n',
        !line.contains('\n'),
        text::byte_len(lines + line + rest) <= u32::MAX,
    ensures
        position_at(lines + line + rest, text::byte_len(lines + line) as int).line
            == lines.filter(|c: char| c == '\n').len(),
        position_at(lines + line + rest, text::byte_len(lines + line) as int).character
            == utf16_len(line),
{
    let head = lines + line;
    let source = head + rest;
    let offset = text::byte_len(head) as int;
    lemma_encode_concat(head, rest);
    let bytes = vstd::utf8::encode_utf8(source);
    assert(bytes.take(clamped(source, offset)) =~= vstd::utf8::encode_utf8(head));
    vstd::utf8::encode_utf8_decode_utf8(head);
    assert(chars_before(source, offset) == head);
    lemma_counts(lines, line);
    lemma_counts_within_bytes(head);
}

proof fn lemma_counts(lines: Seq<char>, line: Seq<char>)
    requires
        lines.len() > 0 ==> lines.last() == '\n',
        !line.contains('\n'),
    ensures
        line_breaks(lines + line) == lines.filter(|c: char| c == '\n').len(),
        column(lines + line) == utf16_len(line),
    decreases line.len(),
{
    reveal(Seq::filter);
    let head = lines + line;
    if line.len() == 0 {
        assert(head =~= lines);
        lemma_line_breaks(lines);
    } else {
        let front = line.drop_last();
        let end = line.len() - 1;
        assert(line[end] != '\n') by {
            assert(line.contains(line[end]));
        }
        assert(!front.contains('\n')) by {
            if front.contains('\n') {
                let i = choose|i: int| 0 <= i < front.len() && front[i] == '\n';
                assert(line[i] == '\n');
            }
        }
        lemma_counts(lines, front);
        assert(head.drop_last() =~= lines + front);
        assert(head.last() == line.last());
    }
}

proof fn lemma_line_breaks(chars: Seq<char>)
    ensures
        line_breaks(chars) == chars.filter(|c: char| c == '\n').len(),
    decreases chars.len(),
{
    reveal(Seq::filter);
    if chars.len() > 0 {
        lemma_line_breaks(chars.drop_last());
    }
}

/// A position lies in a range where it comes neither before its start nor behind its end: lines count
/// first, and then what stands in them.
pub proof fn law_range_holds_its_ends(position: Position, range: Range)
    ensures
        lies_in(position, range) <==> {
            let start = range.start.line * 0x1_0000_0000 + range.start.character;
            let place = position.line * 0x1_0000_0000 + position.character;
            let end = range.end.line * 0x1_0000_0000 + range.end.character;
            start <= place <= end
        },
{
}

} // verus!
