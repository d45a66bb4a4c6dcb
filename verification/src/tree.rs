//! What holds of every manifest that is complete: it is read as it was written.
use crate::composer;
use crate::composer::{NodeKindView, NodeView, PropertyView};
use crate::scanner::{TokenKind, TokenView};
use vstd::prelude::*;

verus! {

/// A complete value, with the tokens of which it is made.
pub enum Tree {
    Scalar { token: TokenView },
    Array { open: TokenView, elements: Seq<Element>, close: TokenView },
    Object { open: TokenView, members: Seq<Member>, close: TokenView },
}

/// An element of an array, and the comma behind it if there is one.
pub struct Element {
    pub value: Tree,
    pub comma: Option<TokenView>,
}

/// A property of an object, and the comma behind it if there is one.
pub struct Member {
    pub key: TokenView,
    pub colon: TokenView,
    pub value: Tree,
    pub comma: Option<TokenView>,
}

/// The comma, if there is one, is a comma.
pub open spec fn is_comma(comma: Option<TokenView>) -> bool {
    comma matches Some(token) ==> token.kind == TokenKind::Comma
}

/// Every token of the value is of the kind that its place asks for.
pub open spec fn is_tree(tree: Tree) -> bool
    decreases tree, 0nat,
{
    match tree {
        Tree::Scalar { token } => token.kind == TokenKind::String || token.kind
            == TokenKind::Literal,
        Tree::Array { open, elements, close } => {
            &&& open.kind == TokenKind::ArrayStart
            &&& close.kind == TokenKind::ArrayEnd
            &&& are_elements(elements)
        },
        Tree::Object { open, members, close } => {
            &&& open.kind == TokenKind::ObjectStart
            &&& close.kind == TokenKind::ObjectEnd
            &&& are_members(members)
        },
    }
}

/// Every token of the elements is of the kind that its place asks for.
pub open spec fn are_elements(elements: Seq<Element>) -> bool
    decreases elements, 1nat,
{
    forall|i: int|
        0 <= i < elements.len() ==> is_tree((#[trigger] elements[i]).value) && is_comma(
            elements[i].comma,
        )
}

/// Every token of the properties is of the kind that its place asks for.
pub open spec fn are_members(members: Seq<Member>) -> bool
    decreases members, 1nat,
{
    forall|i: int|
        0 <= i < members.len() ==> {
            &&& (#[trigger] members[i]).key.kind == TokenKind::String
            &&& members[i].colon.kind == TokenKind::Colon
            &&& is_tree(members[i].value)
            &&& is_comma(members[i].comma)
        }
}

/// The comma as a row of tokens.
pub open spec fn written_comma(comma: Option<TokenView>) -> Seq<TokenView> {
    match comma {
        Some(token) => seq![token],
        None => Seq::empty(),
    }
}

/// The tokens of a value, in order.
pub open spec fn written(tree: Tree) -> Seq<TokenView>
    decreases tree, 0nat,
{
    match tree {
        Tree::Scalar { token } => seq![token],
        Tree::Array { open, elements, close } => seq![open] + written_elements(elements) + seq![
            close,
        ],
        Tree::Object { open, members, close } => seq![open] + written_members(members) + seq![
            close,
        ],
    }
}

/// The tokens of the elements of an array, in order.
pub open spec fn written_elements(elements: Seq<Element>) -> Seq<TokenView>
    decreases elements, 1nat,
{
    if elements.len() == 0 {
        Seq::empty()
    } else {
        written(elements[0].value) + written_comma(elements[0].comma) + written_elements(
            elements.subrange(1, elements.len() as int),
        )
    }
}

/// The tokens of the properties of an object, in order.
pub open spec fn written_members(members: Seq<Member>) -> Seq<TokenView>
    decreases members, 1nat,
{
    if members.len() == 0 {
        Seq::empty()
    } else {
        seq![members[0].key, members[0].colon] + written(members[0].value) + written_comma(
            members[0].comma,
        ) + written_members(members.subrange(1, members.len() as int))
    }
}

/// The value as the library shows it.
pub open spec fn shape(tree: Tree) -> NodeView
    decreases tree, 0nat,
{
    match tree {
        Tree::Scalar { token } => NodeView { kind: NodeKindView::Scalar, end: token.end },
        Tree::Array { close, .. } => NodeView { kind: NodeKindView::Array, end: close.end },
        Tree::Object { members, close, .. } => NodeView {
            kind: NodeKindView::Object(shapes(members)),
            end: close.end,
        },
    }
}

/// The properties as the library shows them.
pub open spec fn shapes(members: Seq<Member>) -> Seq<PropertyView>
    decreases members, 1nat,
{
    Seq::new(
        members.len(),
        |i: int|
            if 0 <= i < members.len() {
                PropertyView {
                    key: members[i].key.value,
                    key_token: members[i].key,
                    value: shape(members[i].value),
                }
            } else {
                arbitrary()
            },
    )
}

/// A row of tokens stands among the tokens at a place.
spec fn stands(tokens: Seq<TokenView>, row: Seq<TokenView>, at: int) -> bool {
    &&& 0 <= at
    &&& at + row.len() <= tokens.len()
    &&& forall|i: int| 0 <= i < row.len() ==> tokens[at + i] == #[trigger] row[i]
}

/// Where two rows stand one behind the other, each of them stands.
proof fn lemma_stands_split(
    tokens: Seq<TokenView>,
    left: Seq<TokenView>,
    right: Seq<TokenView>,
    at: int,
)
    requires
        stands(tokens, left + right, at),
    ensures
        stands(tokens, left, at),
        stands(tokens, right, at + left.len()),
{
    assert forall|i: int| 0 <= i < left.len() implies tokens[at + i] == #[trigger] left[i] by {
        assert((left + right)[i] == left[i]);
    }
    assert forall|i: int| 0 <= i < right.len() implies tokens[at + left.len() + i]
        == #[trigger] right[i] by {
        assert((left + right)[left.len() + i] == right[i]);
    }
}

/// A complete value is read as it was written.
proof fn lemma_tree_read(tokens: Seq<TokenView>, tree: Tree, at: int)
    requires
        is_tree(tree),
        stands(tokens, written(tree), at),
    ensures
        composer::value_at(tokens, at) == Some((shape(tree), at + written(tree).len())),
    decreases tree, 0nat,
{
    match tree {
        Tree::Scalar { token } => {
            assert(written(tree)[0] == token);
            assert(tokens[at + 0] == token);
        },
        Tree::Array { open, elements, close } => {
            let inner = written_elements(elements);
            lemma_stands_split(tokens, seq![open] + inner, seq![close], at);
            lemma_stands_split(tokens, seq![open], inner, at);
            assert(seq![open][0] == open);
            assert(tokens[at + 0] == open);
            assert(seq![close][0] == close);
            assert(tokens[at + 1 + inner.len() + 0] == close);
            lemma_elements_read(tokens, elements, at + 1, open.end);
        },
        Tree::Object { open, members, close } => {
            let inner = written_members(members);
            lemma_stands_split(tokens, seq![open] + inner, seq![close], at);
            lemma_stands_split(tokens, seq![open], inner, at);
            assert(seq![open][0] == open);
            assert(tokens[at + 0] == open);
            assert(seq![close][0] == close);
            assert(tokens[at + 1 + inner.len() + 0] == close);
            lemma_members_read(tokens, members, at + 1, open.end);
            assert(composer::members_from(tokens, at + 1, open.end).0 =~= shapes(members));
        },
    }
}

/// The elements of an array are passed over up to its end.
proof fn lemma_elements_read(
    tokens: Seq<TokenView>,
    elements: Seq<Element>,
    at: int,
    open_end: int,
)
    requires
        are_elements(elements),
        stands(tokens, written_elements(elements), at),
    ensures
        composer::elements_from(tokens, at, open_end) == composer::elements_from(
            tokens,
            at + written_elements(elements).len(),
            open_end,
        ),
    decreases elements, 1nat,
{
    if elements.len() > 0 {
        let first = elements[0];
        let rest = elements.subrange(1, elements.len() as int);
        let comma = written_comma(first.comma);
        let behind = at + written(first.value).len();
        assert forall|i: int| 0 <= i < rest.len() implies rest[i] == elements[i + 1] by {}
        lemma_stands_split(
            tokens,
            written(first.value) + comma,
            written_elements(rest),
            at,
        );
        lemma_stands_split(tokens, written(first.value), comma, at);
        lemma_tree_read(tokens, first.value, at);
        lemma_first_token(first.value);
        assert(tokens[at + 0] == written(first.value)[0]);
        if let Some(token) = first.comma {
            assert(comma[0] == token);
            assert(tokens[behind + 0] == token);
        }
        assert(composer::elements_from(tokens, at, open_end) == composer::elements_from(
            tokens,
            behind,
            open_end,
        ));
        assert(composer::elements_from(tokens, behind, open_end) == composer::elements_from(
            tokens,
            behind + comma.len(),
            open_end,
        ));
        lemma_elements_read(tokens, rest, behind + comma.len(), open_end);
    }
}

/// The first token of a value is neither a closing bracket nor a comma.
proof fn lemma_first_token(tree: Tree)
    requires
        is_tree(tree),
    ensures
        written(tree).len() > 0,
        written(tree)[0].kind != TokenKind::ArrayEnd,
        written(tree)[0].kind != TokenKind::Comma,
{
}

/// The properties of an object are read as they were written.
proof fn lemma_members_read(
    tokens: Seq<TokenView>,
    members: Seq<Member>,
    at: int,
    open_end: int,
)
    requires
        are_members(members),
        stands(tokens, written_members(members), at),
    ensures
        ({
            let rest = composer::members_from(
                tokens,
                at + written_members(members).len(),
                open_end,
            );
            composer::members_from(tokens, at, open_end) == (
                shapes(members) + rest.0,
                rest.1,
                rest.2,
            )
        }),
    decreases members, 1nat,
{
    let end = at + written_members(members).len();
    let behind_all = composer::members_from(tokens, end, open_end);
    if members.len() == 0 {
        assert(shapes(members) + behind_all.0 =~= behind_all.0);
    } else {
        let first = members[0];
        let rest = members.subrange(1, members.len() as int);
        let head = seq![first.key, first.colon];
        let comma = written_comma(first.comma);
        let behind = at + 2 + written(first.value).len();
        assert forall|i: int| 0 <= i < rest.len() implies rest[i] == members[i + 1] by {}
        lemma_stands_split(
            tokens,
            head + written(first.value) + comma,
            written_members(rest),
            at,
        );
        lemma_stands_split(tokens, head + written(first.value), comma, at);
        lemma_stands_split(tokens, head, written(first.value), at);
        assert(head[0] == first.key && head[1] == first.colon);
        assert(tokens[at + 0] == first.key && tokens[at + 1] == first.colon);
        lemma_tree_read(tokens, first.value, at + 2);
        if let Some(token) = first.comma {
            assert(comma[0] == token);
            assert(tokens[behind + 0] == token);
        }
        assert(composer::members_from(tokens, behind, open_end) == composer::members_from(
            tokens,
            behind + comma.len(),
            open_end,
        ));
        lemma_members_read(tokens, rest, behind + comma.len(), open_end);
        assert(composer::value_place(tokens, at) == at + 2);
        let shown = PropertyView {
            key: first.key.value,
            key_token: first.key,
            value: shape(first.value),
        };
        assert(seq![shown] + (shapes(rest) + behind_all.0) =~= shapes(members) + behind_all.0);
    }
}

/// A complete manifest is read as it was written: the dependencies that the library finds in its
/// tokens are the packages of its sections, all of them, in order.
pub proof fn law_complete_manifest_is_read(
    open: TokenView,
    members: Seq<Member>,
    close: TokenView,
)
    requires
        is_tree(Tree::Object { open, members, close }),
    ensures
        composer::dependencies_of(written(Tree::Object { open, members, close }))
            == composer::packages_among(shapes(members)),
{
    let tree = Tree::Object { open, members, close };
    let tokens = written(tree);
    assert forall|i: int| 0 <= i < tokens.len() implies tokens[0 + i] == #[trigger] tokens[i] by {}
    lemma_tree_read(tokens, tree, 0);
}

/// The offset behind the last token of a complete value.
pub open spec fn end_of(tree: Tree) -> int {
    match tree {
        Tree::Scalar { token } => token.end,
        Tree::Array { close, .. } => close.end,
        Tree::Object { close, .. } => close.end,
    }
}

/// In a complete manifest, every property of an object under one of the six sections whose key is the
/// name of a package is a dependency: with that section, that name, the token of the name, and the end
/// of the value.
pub proof fn law_complete_manifest_gives_each_package(
    open: TokenView,
    members: Seq<Member>,
    close: TokenView,
    i: int,
    packages: Seq<Member>,
    j: int,
)
    requires
        is_tree(Tree::Object { open, members, close }),
        0 <= i < members.len(),
        composer::is_one_of_six(members[i].key.value),
        members[i].value matches Tree::Object { members: inner, .. } && inner == packages,
        0 <= j < packages.len(),
        composer::is_package_name(packages[j].key.value),
    ensures
        composer::dependencies_of(written(Tree::Object { open, members, close })).contains(
            composer::EntryView {
                section: members[i].key.value,
                name: packages[j].key.value,
                key_token: packages[j].key,
                value_end: end_of(packages[j].value),
            },
        ),
{
    let tree = Tree::Object { open, members, close };
    let tokens = written(tree);
    let sections = shapes(members);
    assert forall|n: int| 0 <= n < tokens.len() implies tokens[0 + n] == #[trigger] tokens[n] by {}
    lemma_tree_read(tokens, tree, 0);
    composer::law_dependencies_are_all_packages_of_sections(tokens, sections);
    let entry = composer::EntryView {
        section: members[i].key.value,
        name: packages[j].key.value,
        key_token: packages[j].key,
        value_end: end_of(packages[j].value),
    };
    assert(sections[i].value == shape(members[i].value));
    assert(shapes(packages)[j].value == shape(packages[j].value));
    assert(composer::is_dependency_at(sections, i, j, entry));
    assert(composer::is_dependency_of(sections, entry));
}

} // verus!
