//! The tokens of a JSON document with comments, and where in the text they stand.
use crate::text;
use jsonc_parser::tokens::Token as JsonToken;
use vstd::prelude::*;
use vstd::string::*;

verus! {

/// What the scanner finds, with its text where it has one.
pub enum Lexeme<S> {
    OpenBrace,
    CloseBrace,
    OpenBracket,
    CloseBracket,
    Comma,
    Colon,
    String(S),
    Word(S),
    Boolean(bool),
    Number(S),
    Null,
    CommentLine(S),
    CommentBlock(S),
}

impl Lexeme<String> {
    /// The lexeme with its text as a sequence of characters.
    pub open spec fn view(self) -> Lexeme<Seq<char>> {
        match self {
            Lexeme::OpenBrace => Lexeme::OpenBrace,
            Lexeme::CloseBrace => Lexeme::CloseBrace,
            Lexeme::OpenBracket => Lexeme::OpenBracket,
            Lexeme::CloseBracket => Lexeme::CloseBracket,
            Lexeme::Comma => Lexeme::Comma,
            Lexeme::Colon => Lexeme::Colon,
            Lexeme::String(value) => Lexeme::String(value@),
            Lexeme::Word(value) => Lexeme::Word(value@),
            Lexeme::Boolean(value) => Lexeme::Boolean(value),
            Lexeme::Number(value) => Lexeme::Number(value@),
            Lexeme::Null => Lexeme::Null,
            Lexeme::CommentLine(value) => Lexeme::CommentLine(value@),
            Lexeme::CommentBlock(value) => Lexeme::CommentBlock(value@),
        }
    }
}

/// A lexeme and the bytes of the text that it occupies.
pub struct Scan {
    pub lexeme: Lexeme<Seq<char>>,
    pub start: int,
    pub end: int,
}

/// The offset lies between two characters of the text, or at one of its ends.
pub open spec fn is_boundary(text: Seq<char>, offset: int) -> bool {
    vstd::utf8::is_char_boundary(vstd::utf8::encode_utf8(text), offset)
}

/// The bytes from `start` to `end` are a piece of the text that is not empty.
pub open spec fn is_span(text: Seq<char>, start: int, end: int) -> bool {
    &&& 0 <= start < end <= text::byte_len(text)
    &&& is_boundary(text, start)
    &&& is_boundary(text, end)
}

/// The bytes from `start` to `end` are a piece of the text whose first and last characters, the
/// quotes, take one byte each.
pub open spec fn is_quoted_span(text: Seq<char>, start: int, end: int) -> bool {
    &&& is_span(text, start, end)
    &&& start + 1 <= end - 1
    &&& is_boundary(text, start + 1)
    &&& is_boundary(text, end - 1)
}

/// The scans are pieces of the text, one behind the other.
pub open spec fn are_scans_of(text: Seq<char>, scans: Seq<Scan>) -> bool {
    &&& forall|i: int|
        0 <= i < scans.len() ==> is_span(text, (#[trigger] scans[i]).start, scans[i].end)
    &&& forall|i: int|
        0 <= i < scans.len() && (#[trigger] scans[i]).lexeme is String ==> is_quoted_span(
            text,
            scans[i].start,
            scans[i].end,
        )
    &&& forall|i: int, j: int|
        0 <= i < j < scans.len() ==> (#[trigger] scans[i]).end <= (#[trigger] scans[j]).start
}

/// The scanner of `jsonc_parser`, which goes through a text token by token.
#[verifier::external_type_specification]
#[verifier::external_body]
pub struct ExScanner<'a>(jsonc_parser::Scanner<'a>);

/// What a scanner still holds: all that its next calls of `scan` give, up to the end of the text or
/// the first error.
pub uninterp spec fn pending(scanner: jsonc_parser::Scanner<'_>) -> Seq<Scan>;

/// The bytes of the token that a scanner gave last, as start and end.
pub uninterp spec fn last_span(scanner: jsonc_parser::Scanner<'_>) -> (int, int);

/// All that a new scanner gives for a text, up to the end of the text or the first error.
pub uninterp spec fn scans_of(
    text: Seq<char>,
    single_quotes: bool,
    hexadecimal: bool,
    unary_plus: bool,
) -> Seq<Scan>;

/// `jsonc_parser::Scanner::new` sets a scanner at the start of a text. What it will give depends on
/// the text and the three options alone. Every token takes at least one byte and starts behind the
/// one before it, token borders lie between characters, and a string token has a quote of one byte
/// at either end.
#[verifier::external_body]
fn new_scanner<'a>(
    source: &'a str,
    single_quotes: bool,
    hexadecimal: bool,
    unary_plus: bool,
) -> (scanner: jsonc_parser::Scanner<'a>)
    ensures
        pending(scanner) == scans_of(source@, single_quotes, hexadecimal, unary_plus),
        are_scans_of(source@, pending(scanner)),
{
    jsonc_parser::Scanner::new(
        source,
        &jsonc_parser::ScannerOptions {
            allow_single_quoted_strings: single_quotes,
            allow_hexadecimal_numbers: hexadecimal,
            allow_unary_plus_numbers: unary_plus,
        },
    )
}

/// `jsonc_parser::Scanner::scan` gives the next token and moves behind it. At the end of the text,
/// and where the text cannot be read on, there is none.
#[verifier::external_body]
fn scan(scanner: &mut jsonc_parser::Scanner<'_>) -> (found: Option<Lexeme<String>>)
    ensures
        match found {
            Some(lexeme) => {
                &&& pending(*old(scanner)).len() > 0
                &&& lexeme@ == pending(*old(scanner))[0].lexeme
                &&& last_span(*final(scanner)) == (
                    pending(*old(scanner))[0].start,
                    pending(*old(scanner))[0].end,
                )
                &&& pending(*final(scanner)) == pending(*old(scanner)).drop_first()
            },
            None => pending(*old(scanner)).len() == 0,
        },
{
    Some(match scanner.scan().ok()?? {
        JsonToken::OpenBrace => Lexeme::OpenBrace,
        JsonToken::CloseBrace => Lexeme::CloseBrace,
        JsonToken::OpenBracket => Lexeme::OpenBracket,
        JsonToken::CloseBracket => Lexeme::CloseBracket,
        JsonToken::Comma => Lexeme::Comma,
        JsonToken::Colon => Lexeme::Colon,
        JsonToken::String(value) => Lexeme::String(value.into_owned()),
        JsonToken::Word(value) => Lexeme::Word(value.to_owned()),
        JsonToken::Boolean(value) => Lexeme::Boolean(value),
        JsonToken::Number(value) => Lexeme::Number(value.to_owned()),
        JsonToken::Null => Lexeme::Null,
        JsonToken::CommentLine(value) => Lexeme::CommentLine(value.to_owned()),
        JsonToken::CommentBlock(value) => Lexeme::CommentBlock(value.to_owned()),
    })
}

/// `jsonc_parser::Scanner::token_start` gives the offset at which the last token starts.
#[verifier::external_body]
fn token_start(scanner: &jsonc_parser::Scanner<'_>) -> (start: usize)
    ensures
        start == last_span(*scanner).0,
{
    scanner.token_start()
}

/// `jsonc_parser::Scanner::token_end` gives the offset behind the last token.
#[verifier::external_body]
fn token_end(scanner: &jsonc_parser::Scanner<'_>) -> (end: usize)
    ensures
        end == last_span(*scanner).1,
{
    scanner.token_end()
}

/// What a token is, as far as the shape of a document goes.
#[derive(Clone, Copy, Debug, Eq, PartialEq, Structural)]
pub enum TokenKind {
    ObjectStart,
    ObjectEnd,
    ArrayStart,
    ArrayEnd,
    Colon,
    Comma,
    String,
    Literal,
}

/// A token, the bytes that it occupies, and its text.
#[derive(Debug)]
pub struct Token {
    pub kind: TokenKind,
    pub start: usize,
    pub end: usize,
    pub value: String,
}

/// The model of a token.
pub struct TokenView {
    pub kind: TokenKind,
    pub start: int,
    pub end: int,
    pub value: Seq<char>,
}

impl View for Token {
    type V = TokenView;

    open spec fn view(&self) -> TokenView {
        TokenView {
            kind: self.kind,
            start: self.start as int,
            end: self.end as int,
            value: self.value@,
        }
    }
}

impl Clone for Token {
    fn clone(&self) -> (copy: Self)
        ensures
            copy@ == self@,
    {
        Token { kind: self.kind, start: self.start, end: self.end, value: self.value.clone() }
    }
}

/// The tokens of a row, each by its model.
pub open spec fn token_views(tokens: Seq<Token>) -> Seq<TokenView> {
    tokens.map_values(|token: Token| token@)
}

/// The kind and the text of the token that a lexeme is; a comment is none.
pub open spec fn token_content(lexeme: Lexeme<Seq<char>>) -> Option<(TokenKind, Seq<char>)> {
    match lexeme {
        Lexeme::OpenBrace => Some((TokenKind::ObjectStart, Seq::empty())),
        Lexeme::CloseBrace => Some((TokenKind::ObjectEnd, Seq::empty())),
        Lexeme::OpenBracket => Some((TokenKind::ArrayStart, Seq::empty())),
        Lexeme::CloseBracket => Some((TokenKind::ArrayEnd, Seq::empty())),
        Lexeme::Colon => Some((TokenKind::Colon, Seq::empty())),
        Lexeme::Comma => Some((TokenKind::Comma, Seq::empty())),
        Lexeme::String(value) => Some((TokenKind::String, value)),
        Lexeme::Word(value) => Some((TokenKind::Literal, value)),
        Lexeme::Number(value) => Some((TokenKind::Literal, value)),
        Lexeme::Boolean(value) => Some(
            (
                TokenKind::Literal,
                if value {
                    "true"@
                } else {
                    "false"@
                },
            ),
        ),
        Lexeme::Null => Some((TokenKind::Literal, "null"@)),
        Lexeme::CommentLine(_) | Lexeme::CommentBlock(_) => None,
    }
}

/// The tokens among the scans, in order: all but the comments.
pub open spec fn tokens_among(scans: Seq<Scan>) -> Seq<TokenView>
    decreases scans.len(),
{
    if scans.len() == 0 {
        Seq::empty()
    } else {
        let before = tokens_among(scans.drop_last());
        match token_content(scans.last().lexeme) {
            Some((kind, value)) => before.push(
                TokenView { kind, start: scans.last().start, end: scans.last().end, value },
            ),
            None => before,
        }
    }
}

/// The tokens of a document, up to the first place at which it cannot be read on.
pub open spec fn tokens_of(source: Seq<char>) -> Seq<TokenView> {
    tokens_among(scans_of(source, false, false, false))
}

/// The tokens are pieces of the text, one behind the other.
pub open spec fn are_tokens_of(source: Seq<char>, tokens: Seq<TokenView>) -> bool {
    &&& forall|i: int|
        0 <= i < tokens.len() ==> is_span(source, (#[trigger] tokens[i]).start, tokens[i].end)
    &&& forall|i: int|
        0 <= i < tokens.len() && (#[trigger] tokens[i]).kind == TokenKind::String
            ==> is_quoted_span(source, tokens[i].start, tokens[i].end)
    &&& forall|i: int, j: int|
        0 <= i < j < tokens.len() ==> (#[trigger] tokens[i]).end <= (#[trigger] tokens[j]).start
}

/// The kind and the text of the token that a lexeme is; a comment is none.
fn content_of(lexeme: Lexeme<String>) -> (content: Option<(TokenKind, String)>)
    ensures
        match content {
            Some((kind, value)) => token_content(lexeme@) == Some((kind, value@)),
            None => token_content(lexeme@) is None,
        },
{
    match lexeme {
        Lexeme::OpenBrace => Some((TokenKind::ObjectStart, String::new())),
        Lexeme::CloseBrace => Some((TokenKind::ObjectEnd, String::new())),
        Lexeme::OpenBracket => Some((TokenKind::ArrayStart, String::new())),
        Lexeme::CloseBracket => Some((TokenKind::ArrayEnd, String::new())),
        Lexeme::Colon => Some((TokenKind::Colon, String::new())),
        Lexeme::Comma => Some((TokenKind::Comma, String::new())),
        Lexeme::String(value) => Some((TokenKind::String, value)),
        Lexeme::Word(value) => Some((TokenKind::Literal, value)),
        Lexeme::Number(value) => Some((TokenKind::Literal, value)),
        Lexeme::Boolean(value) => {
            if value {
                Some((TokenKind::Literal, "true".to_owned()))
            } else {
                Some((TokenKind::Literal, "false".to_owned()))
            }
        },
        Lexeme::Null => Some((TokenKind::Literal, "null".to_owned())),
        Lexeme::CommentLine(_) => None,
        Lexeme::CommentBlock(_) => None,
    }
}

/// The tokens of a document, up to the first place at which it cannot be read on. Comments are
/// left out, and neither strings in single quotes nor hexadecimal numbers nor numbers with a plus
/// sign are read.
pub fn tokenize(source: &str) -> (tokens: Vec<Token>)
    ensures
        token_views(tokens@) == tokens_of(source@),
        are_tokens_of(source@, token_views(tokens@)),
{
    let mut tokens: Vec<Token> = Vec::new();
    let mut scanner = new_scanner(source, false, false, false);
    let ghost scans = pending(scanner);
    let ghost mut done: int = 0;
    assert(scans.skip(0) =~= scans);
    assert(token_views(tokens@) =~= tokens_among(scans.take(0)));
    loop
        invariant_except_break
            0 <= done <= scans.len(),
            pending(scanner) == scans.skip(done),
            token_views(tokens@) == tokens_among(scans.take(done)),
        ensures
            token_views(tokens@) == tokens_among(scans),
        decreases pending(scanner).len(),
    {
        let lexeme = match scan(&mut scanner) {
            Some(lexeme) => lexeme,
            None => {
                assert(scans.take(done) =~= scans);
                break;
            },
        };
        proof {
            assert(scans.take(done + 1).drop_last() =~= scans.take(done));
            assert(scans.take(done + 1).last() == scans[done]);
            assert(scans.skip(done).drop_first() =~= scans.skip(done + 1));
        }
        let start = token_start(&scanner);
        let end = token_end(&scanner);
        if let Some((kind, value)) = content_of(lexeme) {
            let ghost before = tokens@;
            tokens.push(Token { kind, start, end, value });
            assert(token_views(tokens@) =~= token_views(before).push(tokens@.last()@));
        }
        proof {
            done = done + 1;
        }
    }
    proof {
        lemma_tokens_keep_order(source@, scans);
    }
    tokens
}

/// Leaving the comments out keeps the tokens one behind the other.
proof fn lemma_tokens_keep_order(source: Seq<char>, scans: Seq<Scan>)
    requires
        are_scans_of(source, scans),
    ensures
        are_tokens_of(source, tokens_among(scans)),
        tokens_among(scans).len() > 0 ==> scans.len() > 0 && tokens_among(scans).last().end
            <= scans.last().end,
    decreases scans.len(),
{
    if scans.len() > 0 {
        let before = scans.drop_last();
        assert forall|i: int| 0 <= i < before.len() implies before[i] == scans[i] by {}
        lemma_tokens_keep_order(source, before);
        let tokens = tokens_among(scans);
        let earlier = tokens_among(before);
        assert forall|i: int, j: int| 0 <= i < j < tokens.len() implies (#[trigger] tokens[i]).end <= (
        #[trigger] tokens[j]).start by {
            if j == earlier.len() {
                assert(tokens[i] == earlier[i]);
                if i < earlier.len() - 1 {
                    assert(earlier[i].end <= earlier[earlier.len() - 1].start);
                }
                assert(scans[before.len() - 1].end <= scans[before.len() as int].start);
            }
        }
    }
}

/// The kind of token for which a lexeme counts; a comment counts for none.
pub open spec fn counts_as(lexeme: Lexeme<Seq<char>>, kind: TokenKind) -> bool {
    match kind {
        TokenKind::ObjectStart => lexeme is OpenBrace,
        TokenKind::ObjectEnd => lexeme is CloseBrace,
        TokenKind::ArrayStart => lexeme is OpenBracket,
        TokenKind::ArrayEnd => lexeme is CloseBracket,
        TokenKind::Colon => lexeme is Colon,
        TokenKind::Comma => lexeme is Comma,
        TokenKind::String => lexeme is String,
        TokenKind::Literal => lexeme is Word || lexeme is Number || lexeme is Boolean
            || lexeme is Null,
    }
}

/// The token is made of the lexeme, at the same place. A string keeps its text.
pub open spec fn is_made_of(token: TokenView, scan: Scan) -> bool {
    &&& counts_as(scan.lexeme, token.kind)
    &&& token.start == scan.start
    &&& token.end == scan.end
    &&& scan.lexeme matches Lexeme::String(value) ==> token.value == value
}

/// Every lexeme but a comment is a token of the document, and every token is made of one. Neither
/// strings in single quotes nor hexadecimal numbers nor numbers with a plus sign are read.
pub proof fn law_tokens_are_lexemes_without_comments(source: Seq<char>)
    ensures
        ({
            let scans = scans_of(source, false, false, false);
            let tokens = tokens_of(source);
            &&& forall|i: int|
                0 <= i < scans.len() && !((#[trigger] scans[i]).lexeme is CommentLine)
                    && !(scans[i].lexeme is CommentBlock) ==> exists|n: int|
                    0 <= n < tokens.len() && is_made_of(#[trigger] tokens[n], scans[i])
            &&& forall|n: int|
                0 <= n < tokens.len() ==> exists|i: int|
                    0 <= i < scans.len() && is_made_of(#[trigger] tokens[n], #[trigger] scans[i])
        }),
{
    lemma_tokens_among(scans_of(source, false, false, false));
}

proof fn lemma_tokens_among(scans: Seq<Scan>)
    ensures
        forall|i: int|
            0 <= i < scans.len() && !((#[trigger] scans[i]).lexeme is CommentLine)
                && !(scans[i].lexeme is CommentBlock) ==> exists|n: int|
                0 <= n < tokens_among(scans).len() && is_made_of(
                    #[trigger] tokens_among(scans)[n],
                    scans[i],
                ),
        forall|n: int|
            0 <= n < tokens_among(scans).len() ==> exists|i: int|
                0 <= i < scans.len() && is_made_of(
                    #[trigger] tokens_among(scans)[n],
                    #[trigger] scans[i],
                ),
    decreases scans.len(),
{
    if scans.len() > 0 {
        let front = scans.drop_last();
        let end = scans.len() - 1;
        let before = tokens_among(front);
        let after = tokens_among(scans);
        lemma_tokens_among(front);
        assert forall|i: int|
            0 <= i < scans.len() && !((#[trigger] scans[i]).lexeme is CommentLine)
                && !(scans[i].lexeme is CommentBlock) implies exists|n: int|
            0 <= n < after.len() && is_made_of(#[trigger] after[n], scans[i]) by {
            if i < end {
                assert(front[i] == scans[i]);
                let n = choose|n: int|
                    0 <= n < before.len() && is_made_of(#[trigger] before[n], front[i]);
                assert(after[n] == before[n]);
            } else {
                assert(is_made_of(after[before.len() as int], scans[i]));
            }
        }
        assert forall|n: int| 0 <= n < after.len() implies exists|i: int|
            0 <= i < scans.len() && is_made_of(#[trigger] after[n], #[trigger] scans[i]) by {
            if n < before.len() {
                assert(after[n] == before[n]);
                let i = choose|i: int|
                    0 <= i < front.len() && is_made_of(before[n], #[trigger] front[i]);
                assert(scans[i] == front[i]);
            } else {
                assert(is_made_of(after[n], scans[end]));
            }
        }
    }
}

/// The tokens stand in the order of the lexemes.
pub proof fn law_tokens_keep_the_order_of_lexemes(some: Seq<Scan>, more: Seq<Scan>)
    ensures
        tokens_among(some + more) == tokens_among(some) + tokens_among(more),
    decreases more.len(),
{
    let all = some + more;
    if more.len() == 0 {
        assert(all =~= some);
    } else {
        law_tokens_keep_the_order_of_lexemes(some, more.drop_last());
        assert(all.drop_last() =~= some + more.drop_last());
        assert(all.last() == more.last());
    }
    assert(tokens_among(all) =~= tokens_among(some) + tokens_among(more));
}

} // verus!
