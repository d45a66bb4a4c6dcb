//! What holds of every manifest that is still being written: how the reading of a whole manifest
//! and the reading of its beginning agree.
use crate::composer;
use crate::composer::{EntryView, NodeKindView, NodeView, PropertyView};
use crate::scanner;
use crate::scanner::{TokenKind, TokenView};
use vstd::prelude::*;

verus! {

/// The left value is what is left of the right one where the text ends at the offset `cut`: values
/// that end before it are the same.
pub open spec fn is_node_cut(left: NodeView, right: NodeView, source: Seq<char>, cut: int) -> bool
    decreases right, 0nat,
{
    &&& right.end <= cut ==> left.end == right.end
    &&& match (left.kind, right.kind) {
        (NodeKindView::Object(some), NodeKindView::Object(all)) => are_properties_cut(
            some,
            all,
            source,
            cut,
        ),
        (NodeKindView::Array, NodeKindView::Array) => true,
        (NodeKindView::Scalar, NodeKindView::Scalar) => true,
        _ => false,
    }
}

/// The left properties are what is left of the right ones where the text ends at the offset `cut`:
/// some of the first ones, all of them the same but perhaps the last one.
pub open spec fn are_properties_cut(
    some: Seq<PropertyView>,
    all: Seq<PropertyView>,
    source: Seq<char>,
    cut: int,
) -> bool
    decreases all, 1nat,
{
    &&& some.len() <= all.len()
    &&& forall|i: int| 0 <= i < some.len() - 1 ==> #[trigger] some[i] == all[i]
    &&& forall|i: int|
        0 <= i < some.len() && i < all.len() ==> {
            &&& some[i].key == all[i].key
            &&& some[i].key_token == all[i].key_token
            &&& is_node_cut((#[trigger] some[i]).value, (#[trigger] all[i]).value, source, cut)
        }
    &&& forall|i: int|
        some.len() <= i < all.len() ==> exists|to: int|
            composer::is_node_placed(source, (#[trigger] all[i]).value, cut, to)
}

/// The left dependencies are what is left of the right ones where the text ends at the offset
/// `cut`: some of the first ones, among them all whose constraint ends before the cut, and these are
/// the same.
pub open spec fn are_entries_cut(some: Seq<EntryView>, all: Seq<EntryView>, cut: int) -> bool {
    &&& some.len() <= all.len()
    &&& forall|i: int|
        0 <= i < some.len() ==> {
            &&& (#[trigger] some[i]).section == all[i].section
            &&& some[i].name == all[i].name
            &&& some[i].key_token == all[i].key_token
            &&& all[i].value_end <= cut ==> some[i] == all[i]
        }
    &&& forall|i: int| some.len() <= i < all.len() ==> (#[trigger] all[i]).value_end > cut
}

/// A value that ends before the cut is left as it is.
proof fn lemma_node_uncut(node: NodeView, source: Seq<char>, cut: int)
    ensures
        is_node_cut(node, node, source, cut),
    decreases node, 0nat,
{
    match node.kind {
        NodeKindView::Object(properties) => {
            lemma_properties_uncut(properties, source, cut);
        },
        _ => {},
    }
}

/// Properties that end before the cut are left as they are.
proof fn lemma_properties_uncut(properties: Seq<PropertyView>, source: Seq<char>, cut: int)
    ensures
        are_properties_cut(properties, properties, source, cut),
    decreases properties, 1nat,
{
    assert forall|i: int| 0 <= i < properties.len() implies is_node_cut(
        (#[trigger] properties[i]).value,
        properties[i].value,
        source,
        cut,
    ) by {
        lemma_node_uncut(properties[i].value, source, cut);
    }
}

/// Reading a value from the first `n` tokens gives the same as reading it from all of them, as far
/// as it goes.
proof fn lemma_value_cut(source: Seq<char>, tokens: Seq<TokenView>, n: int, at: int)
    requires
        scanner::are_tokens_of(source, tokens),
        0 <= at < n <= tokens.len(),
    ensures
        ({
            let (node, next) = composer::value_at(tokens, at)->0;
            let (short, short_next) = composer::value_at(tokens.take(n), at)->0;
            &&& next <= n ==> short == node && short_next == next
            &&& next > n ==> short_next >= n
            &&& is_node_cut(short, node, source, tokens[n - 1].end)
        }),
    decreases composer::tokens_left(tokens, at), 0nat,
{
    let (node, next) = composer::value_at(tokens, at)->0;
    let cut = tokens[n - 1].end;
    let beginning = tokens.take(n);
    assert(beginning[at] == tokens[at]);
    composer::lemma_value_ends_later(tokens, at);
    if at < n - 1 {
        assert(tokens[at].end <= tokens[n - 1].start);
    }
    if tokens[at].kind == TokenKind::ObjectStart {
        lemma_members_cut(source, tokens, n, at + 1, tokens[at].end);
    } else if tokens[at].kind == TokenKind::ArrayStart {
        lemma_elements_cut(source, tokens, n, at + 1, tokens[at].end);
    }
    if next <= n {
        lemma_node_uncut(node, source, cut);
    }
}

/// Reading the properties of an object from the first `n` tokens gives the same as reading them
/// from all of them, as far as it goes.
proof fn lemma_members_cut(
    source: Seq<char>,
    tokens: Seq<TokenView>,
    n: int,
    at: int,
    open_end: int,
)
    requires
        scanner::are_tokens_of(source, tokens),
        1 <= at <= tokens.len() + 1,
        0 < n <= tokens.len(),
        scanner::is_boundary(source, open_end),
        open_end <= composer::offset_before(tokens, at),
        open_end <= tokens[n - 1].end,
    ensures
        ({
            let (all, end, last) = composer::members_from(tokens, at, open_end);
            let (some, short_end, short_last) = composer::members_from(
                tokens.take(n),
                at,
                open_end,
            );
            let cut = tokens[n - 1].end;
            &&& last <= n ==> some == all && short_end == end && short_last == last
            &&& last > n ==> short_last >= n
            &&& end <= cut ==> short_end == end
            &&& are_properties_cut(some, all, source, cut)
        }),
    decreases composer::tokens_left(tokens, at), 1nat,
{
    let cut = tokens[n - 1].end;
    let beginning = tokens.take(n);
    let (all, end, last) = composer::members_from(tokens, at, open_end);
    let (some, short_end, short_last) = composer::members_from(beginning, at, open_end);
    composer::lemma_members_end_later(tokens, at, open_end);
    composer::lemma_members_placed(source, tokens, at, open_end);
    if at >= n {
        lemma_offset_beyond(source, tokens, n, at);
        assert forall|i: int| 0 <= i < all.len() implies exists|to: int|
            composer::is_node_placed(source, (#[trigger] all[i]).value, cut, to) by {
            let to = composer::offset_before(tokens, last);
            let from = all[i].key_token.end;
            composer::lemma_node_placed_wider(source, all[i].value, from, to, cut, to);
        }
    } else {
        assert(beginning[at] == tokens[at]);
        if tokens[at].kind == TokenKind::ObjectEnd {
        } else if tokens[at].kind == TokenKind::String {
            lemma_member_cut(source, tokens, n, at, open_end);
        } else {
            lemma_members_cut(source, tokens, n, at + 1, open_end);
        }
    }
}

/// Tokens behind the cut start behind the cut.
proof fn lemma_offset_beyond(source: Seq<char>, tokens: Seq<TokenView>, n: int, at: int)
    requires
        scanner::are_tokens_of(source, tokens),
        0 < n <= tokens.len(),
        n <= at <= tokens.len() + 1,
    ensures
        tokens[n - 1].end <= composer::offset_before(tokens, at),
        at < tokens.len() ==> tokens[n - 1].end <= tokens[at].start,
{
    if n < at && at <= tokens.len() {
        assert(tokens[n - 1].end <= tokens[at - 1].start);
    } else if n < tokens.len() {
        assert(tokens[n - 1].end <= tokens[tokens.len() - 1].start);
    }
}

/// The step of `lemma_members_cut` for a token that starts a property.
proof fn lemma_member_cut(
    source: Seq<char>,
    tokens: Seq<TokenView>,
    n: int,
    at: int,
    open_end: int,
)
    requires
        scanner::are_tokens_of(source, tokens),
        1 <= at < n <= tokens.len(),
        tokens[at].kind == TokenKind::String,
        scanner::is_boundary(source, open_end),
        open_end <= composer::offset_before(tokens, at),
        open_end <= tokens[n - 1].end,
    ensures
        ({
            let (all, end, last) = composer::members_from(tokens, at, open_end);
            let (some, short_end, short_last) = composer::members_from(
                tokens.take(n),
                at,
                open_end,
            );
            let cut = tokens[n - 1].end;
            &&& last <= n ==> some == all && short_end == end && short_last == last
            &&& last > n ==> short_last >= n
            &&& end <= cut ==> short_end == end
            &&& are_properties_cut(some, all, source, cut)
        }),
    decreases composer::tokens_left(tokens, at), 0nat,
{
    let cut = tokens[n - 1].end;
    let beginning = tokens.take(n);
    let (all, end, last) = composer::members_from(tokens, at, open_end);
    let (some, short_end, short_last) = composer::members_from(beginning, at, open_end);
    let place = composer::value_place(tokens, at);
    let short_place = composer::value_place(beginning, at);
    assert(beginning[at] == tokens[at]);
    composer::lemma_value_ends_later(tokens, place);
    composer::lemma_value_ends_later(beginning, short_place);
    if place >= tokens.len() {
        // Neither has a value for the key.
        assert(short_place == n);
        assert(composer::members_from(tokens, place + 1, open_end).0 =~= Seq::empty());
        assert(composer::members_from(beginning, n + 1, open_end).0 =~= Seq::empty());
    } else {
        let (value, next) = composer::value_at(tokens, place)->0;
        let (rest, _, _) = composer::members_from(tokens, next, open_end);
        let first = PropertyView { key: tokens[at].value, key_token: tokens[at], value };
        assert(tokens[at].end <= tokens[place].start);
        assert(open_end <= composer::offset_before(tokens, next)) by {
            assert(next <= tokens.len() ==> tokens[at].end <= tokens[next - 1].end);
            assert(tokens[at - 1].end <= tokens[at].start);
            assert(tokens[at].end <= tokens[tokens.len() - 1].end);
        }
        lemma_members_cut(source, tokens, n, next, open_end);
        composer::lemma_members_end_later(tokens, next, open_end);
        assert(all == seq![first] + rest);
        let short_rest = composer::members_from(beginning, next, open_end).0;
        if place >= n {
            // The value stands behind the cut.
            assert(short_place == n);
            assert(composer::members_from(beginning, n + 1, open_end).0 =~= Seq::empty());
            assert(some =~= Seq::empty());
            lemma_offset_beyond(source, tokens, n, place);
            composer::lemma_value_placed(source, tokens, place);
            let to = composer::offset_before(tokens, next);
            let from = tokens[place].start;
            composer::lemma_node_placed_wider(source, value, from, to, cut, to);
            assert(short_rest =~= Seq::empty());
            assert forall|i: int| 0 <= i < all.len() implies exists|to: int|
                composer::is_node_placed(source, (#[trigger] all[i]).value, cut, to) by {
                if i > 0 {
                    assert(all[i] == rest[i - 1]);
                }
            }
        } else {
            assert(place == short_place);
            lemma_value_cut(source, tokens, n, place);
            let (short, short_next) = composer::value_at(beginning, place)->0;
            let short_first = PropertyView {
                key: tokens[at].value,
                key_token: tokens[at],
                value: short,
            };
            assert(some == seq![short_first] + composer::members_from(
                beginning,
                short_next,
                open_end,
            ).0);
            assert(some =~= seq![short_first] + short_rest);
            assert forall|i: int| 0 <= i < some.len() - 1 implies #[trigger] some[i] == all[i] by {
                if i > 0 {
                    assert(some[i] == short_rest[i - 1]);
                    assert(all[i] == rest[i - 1]);
                }
            }
            assert forall|i: int| 0 <= i < some.len() && i < all.len() implies {
                &&& some[i].key == all[i].key
                &&& some[i].key_token == all[i].key_token
                &&& is_node_cut((#[trigger] some[i]).value, (#[trigger] all[i]).value, source, cut)
            } by {
                if i > 0 {
                    assert(all[i] == rest[i - 1]);
                    assert(some[i] == short_rest[i - 1]);
                }
            }
            assert forall|i: int| some.len() <= i < all.len() implies exists|to: int|
                composer::is_node_placed(source, (#[trigger] all[i]).value, cut, to) by {
                assert(all[i] == rest[i - 1]);
            }
        }
    }
}

/// Passing over the elements of an array in the first `n` tokens gives the same as in all of them,
/// as far as it goes.
proof fn lemma_elements_cut(
    source: Seq<char>,
    tokens: Seq<TokenView>,
    n: int,
    at: int,
    open_end: int,
)
    requires
        scanner::are_tokens_of(source, tokens),
        1 <= at <= tokens.len() + 1,
        0 < n <= tokens.len(),
        scanner::is_boundary(source, open_end),
        open_end <= composer::offset_before(tokens, at),
        open_end <= tokens[n - 1].end,
    ensures
        ({
            let (end, last) = composer::elements_from(tokens, at, open_end);
            let (short_end, short_last) = composer::elements_from(tokens.take(n), at, open_end);
            let cut = tokens[n - 1].end;
            &&& last <= n ==> short_end == end && short_last == last
            &&& last > n ==> short_last >= n
            &&& end <= cut ==> short_end == end
        }),
    decreases composer::tokens_left(tokens, at), 1nat,
{
    let beginning = tokens.take(n);
    composer::lemma_elements_end_later(tokens, at, open_end);
    composer::lemma_elements_placed(source, tokens, at, open_end);
    if at >= n {
        lemma_offset_beyond(source, tokens, n, at);
    } else {
        assert(beginning[at] == tokens[at]);
        if tokens[at].kind == TokenKind::ArrayEnd {
        } else if tokens[at].kind == TokenKind::Comma {
            lemma_elements_cut(source, tokens, n, at + 1, open_end);
        } else {
            composer::lemma_value_ends_later(tokens, at);
            composer::lemma_value_ends_later(beginning, at);
            lemma_value_cut(source, tokens, n, at);
            let next = (composer::value_at(tokens, at)->0).1;
            assert(open_end <= composer::offset_before(tokens, next)) by {
                assert(tokens[at - 1].end <= tokens[at].start);
                assert(next <= tokens.len() ==> tokens[at].end <= tokens[next - 1].end);
                assert(tokens[at].end <= tokens[tokens.len() - 1].end);
            }
            lemma_elements_cut(source, tokens, n, next, open_end);
            let short_next = (composer::value_at(beginning, at)->0).1;
            if next > n {
                assert(composer::elements_from(beginning, next, open_end) == (open_end, next));
                assert(composer::elements_from(beginning, short_next, open_end) == (
                    open_end,
                    short_next,
                ));
                composer::lemma_elements_end_later(tokens, next, open_end);
            }
        }
    }
}

/// The packages of a section that is cut are what is left of its packages.
proof fn lemma_packages_in_cut(
    section: Seq<char>,
    some: Seq<PropertyView>,
    all: Seq<PropertyView>,
    source: Seq<char>,
    cut: int,
)
    requires
        are_properties_cut(some, all, source, cut),
    ensures
        are_entries_cut(
            composer::packages_in(section, some),
            composer::packages_in(section, all),
            cut,
        ),
        some.len() == all.len() ==> composer::packages_in(section, some).len()
            == composer::packages_in(section, all).len(),
    decreases all.len(),
{
    if all.len() > some.len() {
        let before = all.drop_last();
        assert forall|i: int| 0 <= i < before.len() implies before[i] == all[i] by {}
        assert(all.last() == all[before.len() as int]);
        lemma_packages_in_cut(section, some, before, source, cut);
    } else if all.len() > 0 {
        let before = all.drop_last();
        let some_before = some.drop_last();
        assert forall|i: int| 0 <= i < before.len() implies before[i] == all[i] && some_before[i]
            == some[i] by {}
        assert(all.last() == all[before.len() as int]);
        assert(some.last() == some[before.len() as int]);
        assert(some_before =~= before);
        lemma_properties_uncut(before, source, cut);
        lemma_packages_in_cut(section, before, before, source, cut);
    }
}

/// The packages of a section behind the cut stand behind the cut.
proof fn lemma_packages_in_beyond(
    section: Seq<char>,
    properties: Seq<PropertyView>,
    source: Seq<char>,
    cut: int,
    to: int,
)
    requires
        composer::are_properties_placed(source, properties, cut, to),
    ensures
        forall|i: int|
            0 <= i < composer::packages_in(section, properties).len() ==> (
            #[trigger] composer::packages_in(section, properties)[i]).value_end > cut,
    decreases properties.len(),
{
    if properties.len() > 0 {
        let before = properties.drop_last();
        assert forall|i: int| 0 <= i < before.len() implies before[i] == properties[i] by {}
        assert(properties.last() == properties[before.len() as int]);
        lemma_packages_in_beyond(section, before, source, cut, to);
    }
}

/// The packages of a manifest that is cut are what is left of its packages.
proof fn lemma_packages_among_cut(
    some: Seq<PropertyView>,
    all: Seq<PropertyView>,
    source: Seq<char>,
    cut: int,
)
    requires
        are_properties_cut(some, all, source, cut),
    ensures
        are_entries_cut(composer::packages_among(some), composer::packages_among(all), cut),
    decreases all.len(),
{
    if all.len() > some.len() {
        let before = all.drop_last();
        let last = all.last();
        assert forall|i: int| 0 <= i < before.len() implies before[i] == all[i] by {}
        assert(last == all[before.len() as int]);
        lemma_packages_among_cut(some, before, source, cut);
        let to = choose|to: int| composer::is_node_placed(source, last.value, cut, to);
        match last.value.kind {
            NodeKindView::Object(properties) => {
                lemma_packages_in_beyond(last.key, properties, source, cut, to);
            },
            _ => {},
        }
    } else if all.len() > 0 {
        let before = all.drop_last();
        let n = before.len() as int;
        assert(some.drop_last() =~= before);
        assert(all.last() == all[n] && some.last() == some[n]);
        match (some[n].value.kind, all[n].value.kind) {
            (NodeKindView::Object(some_last), NodeKindView::Object(all_last)) => {
                lemma_packages_in_cut(all[n].key, some_last, all_last, source, cut);
            },
            _ => {},
        }
        let head = composer::packages_among(before);
        let left = composer::packages_of(some[n]);
        let right = composer::packages_of(all[n]);
        assert(are_entries_cut(left, right, cut));
        assert(composer::packages_among(some) =~= head + left);
        assert(composer::packages_among(all) =~= head + right);
        assert forall|i: int| 0 <= i < (head + left).len() implies {
            &&& (#[trigger] (head + left)[i]).section == (head + right)[i].section
            &&& (head + left)[i].name == (head + right)[i].name
            &&& (head + left)[i].key_token == (head + right)[i].key_token
            &&& (head + right)[i].value_end <= cut ==> (head + left)[i] == (head + right)[i]
        } by {
            if i >= head.len() {
                assert((head + left)[i] == left[i - head.len()]);
                assert((head + right)[i] == right[i - head.len()]);
            }
        }
        assert forall|i: int| (head + left).len() <= i < (head + right).len() implies (
        #[trigger] (head + right)[i]).value_end > cut by {
            assert((head + right)[i] == right[i - head.len()]);
        }
    }
}

/// The dependencies of a manifest are found while it is still being written: its first `n` tokens
/// name, in the same order, every dependency whose constraint ends among them, exactly as the whole
/// manifest does. What they name besides, the whole manifest names too, in the same places.
pub proof fn law_entries_survive_truncation(source: Seq<char>, tokens: Seq<TokenView>, n: int)
    requires
        scanner::are_tokens_of(source, tokens),
        0 < n <= tokens.len(),
    ensures
        are_entries_cut(
            composer::dependencies_of(tokens.take(n)),
            composer::dependencies_of(tokens),
            tokens[n - 1].end,
        ),
{
    composer::lemma_value_ends_later(tokens, 0);
    composer::lemma_value_ends_later(tokens.take(n), 0);
    lemma_value_cut(source, tokens, n, 0);
    let (node, _) = composer::value_at(tokens, 0)->0;
    let (short, _) = composer::value_at(tokens.take(n), 0)->0;
    match (short.kind, node.kind) {
        (NodeKindView::Object(some), NodeKindView::Object(all)) => {
            lemma_packages_among_cut(some, all, source, tokens[n - 1].end);
        },
        _ => {},
    }
}

} // verus!
