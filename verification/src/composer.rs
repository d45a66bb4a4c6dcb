//! The dependencies of a Composer manifest and where they stand in its text.
use crate::position;
use crate::position::{offset_to_position, Position, Range};
use crate::scanner;
use crate::scanner::{tokenize, Token, TokenKind, TokenView};
use crate::text;
use crate::text::{chars_of, same_text};
use vstd::prelude::*;
use vstd::string::*;

verus! {

/// The value of a property: the properties of an object, or what else the value is.
#[derive(Debug)]
pub enum NodeKind {
    Object(Vec<Property>),
    Array,
    Scalar,
}

/// A value and the offset behind it.
#[derive(Debug)]
pub struct Node {
    pub kind: NodeKind,
    pub end: usize,
}

/// A property of an object.
#[derive(Debug)]
pub struct Property {
    pub key: String,
    pub key_token: Token,
    pub value: Node,
}

/// The model of a value's kind.
pub enum NodeKindView {
    Object(Seq<PropertyView>),
    Array,
    Scalar,
}

/// The model of a value.
pub struct NodeView {
    pub kind: NodeKindView,
    pub end: int,
}

/// The model of a property.
pub struct PropertyView {
    pub key: Seq<char>,
    pub key_token: TokenView,
    pub value: NodeView,
}

/// The model of a value.
pub open spec fn node_view(node: Node) -> NodeView
    decreases node,
{
    NodeView {
        kind: match node.kind {
            NodeKind::Object(properties) => NodeKindView::Object(property_views(properties@)),
            NodeKind::Array => NodeKindView::Array,
            NodeKind::Scalar => NodeKindView::Scalar,
        },
        end: node.end as int,
    }
}

/// The models of the properties of an object.
pub open spec fn property_views(properties: Seq<Property>) -> Seq<PropertyView>
    decreases properties,
{
    Seq::new(
        properties.len(),
        |i: int|
            if 0 <= i < properties.len() {
                property_view(properties[i])
            } else {
                arbitrary()
            },
    )
}

/// The model of a property.
pub open spec fn property_view(property: Property) -> PropertyView
    decreases property,
{
    PropertyView {
        key: property.key@,
        key_token: property.key_token@,
        value: node_view(property.value),
    }
}

/// The token at a place is of a kind.
pub open spec fn kind_at(tokens: Seq<TokenView>, at: int, kind: TokenKind) -> bool {
    0 <= at < tokens.len() && tokens[at].kind == kind
}

/// How many tokens stand from a place on.
pub open spec fn tokens_left(tokens: Seq<TokenView>, at: int) -> nat {
    if at < tokens.len() {
        (tokens.len() - at) as nat
    } else {
        0
    }
}

/// The value that starts at a token, and the place behind its last token. A value that the end of
/// the tokens cuts off ends where it began to.
pub open spec fn value_at(tokens: Seq<TokenView>, at: int) -> Option<(NodeView, int)>
    decreases tokens_left(tokens, at), 0nat,
{
    if !(0 <= at < tokens.len()) {
        None
    } else if tokens[at].kind == TokenKind::ObjectStart {
        let (properties, end, next) = members_from(tokens, at + 1, tokens[at].end);
        Some((NodeView { kind: NodeKindView::Object(properties), end }, next))
    } else if tokens[at].kind == TokenKind::ArrayStart {
        let (end, next) = elements_from(tokens, at + 1, tokens[at].end);
        Some((NodeView { kind: NodeKindView::Array, end }, next))
    } else {
        Some((NodeView { kind: NodeKindView::Scalar, end: tokens[at].end }, at + 1))
    }
}

/// Where the value of the key at a place is to be found: behind the colon, if there is one.
pub open spec fn value_place(tokens: Seq<TokenView>, key: int) -> int {
    if kind_at(tokens, key + 1, TokenKind::Colon) {
        key + 2
    } else {
        key + 1
    }
}

/// The properties of an object from a place on, the offset behind the object, and the place behind
/// its last token. Tokens that cannot start a property are passed over; `open_end` is the offset
/// that stands for the end where the closing brace is missing.
pub open spec fn members_from(tokens: Seq<TokenView>, at: int, open_end: int) -> (
    Seq<PropertyView>,
    int,
    int,
)
    decreases tokens_left(tokens, at), 1nat,
{
    if !(0 <= at < tokens.len()) {
        (Seq::empty(), open_end, at)
    } else if tokens[at].kind == TokenKind::ObjectEnd {
        (Seq::empty(), tokens[at].end, at + 1)
    } else if tokens[at].kind == TokenKind::String {
        match value_at(tokens, value_place(tokens, at)) {
            None => members_from(tokens, value_place(tokens, at) + 1, open_end),
            // A value always ends behind the place at which it starts.
            Some((value, next)) => if next <= at {
                (Seq::empty(), open_end, at)
            } else {
                let (rest, end, last) = members_from(tokens, next, open_end);
                let first = PropertyView { key: tokens[at].value, key_token: tokens[at], value };
                (seq![first] + rest, end, last)
            },
        }
    } else {
        members_from(tokens, at + 1, open_end)
    }
}

/// The offset behind an array whose elements start at a place, and the place behind its last token.
pub open spec fn elements_from(tokens: Seq<TokenView>, at: int, open_end: int) -> (int, int)
    decreases tokens_left(tokens, at), 1nat,
{
    if !(0 <= at < tokens.len()) {
        (open_end, at)
    } else if tokens[at].kind == TokenKind::ArrayEnd {
        (tokens[at].end, at + 1)
    } else if tokens[at].kind == TokenKind::Comma {
        elements_from(tokens, at + 1, open_end)
    } else {
        match value_at(tokens, at) {
            // A value always ends behind the place at which it starts.
            Some((_, next)) if next > at => elements_from(tokens, next, open_end),
            _ => (open_end, at),
        }
    }
}

/// A value ends behind the place at which it starts.
pub proof fn lemma_value_ends_later(tokens: Seq<TokenView>, at: int)
    requires
        0 <= at,
    ensures
        value_at(tokens, at) matches Some((_, next)) ==> at < next <= tokens.len() + 1,
        value_at(tokens, at) is None <==> at >= tokens.len(),
    decreases tokens_left(tokens, at), 0nat,
{
    if at < tokens.len() {
        lemma_members_end_later(tokens, at + 1, tokens[at].end);
        lemma_elements_end_later(tokens, at + 1, tokens[at].end);
    }
}

/// The properties of an object end behind the place at which they start.
pub proof fn lemma_members_end_later(tokens: Seq<TokenView>, at: int, open_end: int)
    requires
        0 <= at <= tokens.len() + 1,
    ensures
        at <= members_from(tokens, at, open_end).2 <= tokens.len() + 1,
        at < tokens.len() ==> at < members_from(tokens, at, open_end).2,
    decreases tokens_left(tokens, at), 1nat,
{
    if at < tokens.len() && tokens[at].kind != TokenKind::ObjectEnd {
        if tokens[at].kind == TokenKind::String {
            let place = value_place(tokens, at);
            lemma_value_ends_later(tokens, place);
            match value_at(tokens, place) {
                None => {
                    lemma_members_end_later(tokens, place + 1, open_end);
                },
                Some((_, next)) => {
                    lemma_members_end_later(tokens, next, open_end);
                },
            }
        } else {
            lemma_members_end_later(tokens, at + 1, open_end);
        }
    }
}

/// The elements of an array end behind the place at which they start.
pub proof fn lemma_elements_end_later(tokens: Seq<TokenView>, at: int, open_end: int)
    requires
        0 <= at <= tokens.len() + 1,
    ensures
        at <= elements_from(tokens, at, open_end).1 <= tokens.len() + 1,
        at < tokens.len() ==> at < elements_from(tokens, at, open_end).1,
    decreases tokens_left(tokens, at), 1nat,
{
    if at < tokens.len() && tokens[at].kind != TokenKind::ArrayEnd {
        if tokens[at].kind == TokenKind::Comma {
            lemma_elements_end_later(tokens, at + 1, open_end);
        } else {
            lemma_value_ends_later(tokens, at);
            lemma_elements_end_later(tokens, (value_at(tokens, at)->0).1, open_end);
        }
    }
}

/// Tells whether the token at a place is of a kind.
fn is_kind(tokens: &[Token], at: usize, kind: TokenKind) -> (yes: bool)
    ensures
        yes == kind_at(scanner::token_views(tokens@), at as int, kind),
{
    at < tokens.len() && tokens[at].kind == kind
}

/// Reads the value that starts at a token. The second part of the result is the place behind its
/// last token.
pub fn parse_value(tokens: &[Token], index: usize) -> (parsed: Option<(Node, usize)>)
    requires
        tokens@.len() < usize::MAX,
    ensures
        match parsed {
            Some((node, next)) => value_at(scanner::token_views(tokens@), index as int) == Some(
                (node_view(node), next as int),
            ),
            None => value_at(scanner::token_views(tokens@), index as int) is None,
        },
    decreases tokens_left(scanner::token_views(tokens@), index as int), 0nat,
{
    if index >= tokens.len() {
        return None;
    }
    let token = &tokens[index];
    match token.kind {
        TokenKind::ObjectStart => {
            let (properties, end, next) = parse_members(tokens, index + 1, token.end);
            Some((Node { kind: NodeKind::Object(properties), end }, next))
        },
        TokenKind::ArrayStart => {
            let (end, next) = parse_elements(tokens, index + 1, token.end);
            Some((Node { kind: NodeKind::Array, end }, next))
        },
        _ => Some((Node { kind: NodeKind::Scalar, end: token.end }, index + 1)),
    }
}

/// Reads the properties of an object from a place on.
fn parse_members(tokens: &[Token], from: usize, open_end: usize) -> (parsed: (
    Vec<Property>,
    usize,
    usize,
))
    requires
        tokens@.len() < usize::MAX,
        from <= tokens@.len(),
    ensures
        members_from(scanner::token_views(tokens@), from as int, open_end as int) == (
            property_views(parsed.0@),
            parsed.1 as int,
            parsed.2 as int,
        ),
    decreases tokens_left(scanner::token_views(tokens@), from as int), 1nat,
{
    let ghost views = scanner::token_views(tokens@);
    let ghost whole = members_from(views, from as int, open_end as int);
    let mut properties: Vec<Property> = Vec::new();
    let mut cursor: usize = from;
    assert(property_views(properties@) + whole.0 =~= whole.0);
    while cursor < tokens.len()
        invariant
            tokens@.len() < usize::MAX,
            from <= cursor <= tokens@.len() + 1,
            views == scanner::token_views(tokens@),
            whole == members_from(views, from as int, open_end as int),
            ({
                let rest = members_from(views, cursor as int, open_end as int);
                whole == (property_views(properties@) + rest.0, rest.1, rest.2)
            }),
        decreases tokens_left(views, cursor as int),
    {
        let current = &tokens[cursor];
        match current.kind {
            TokenKind::ObjectEnd => {
                assert(property_views(properties@) + Seq::<PropertyView>::empty()
                    =~= property_views(properties@));
                return (properties, current.end, cursor + 1);
            },
            TokenKind::String => {
                let place = if is_kind(tokens, cursor + 1, TokenKind::Colon) {
                    cursor + 2
                } else {
                    cursor + 1
                };
                proof {
                    lemma_value_ends_later(views, place as int);
                }
                match parse_value(tokens, place) {
                    None => {
                        cursor = place + 1;
                    },
                    Some((value, next)) => {
                        let ghost before = properties@;
                        let ghost rest = members_from(views, next as int, open_end as int);
                        properties.push(
                            Property { key: current.value.clone(), key_token: current.clone(), value },
                        );
                        proof {
                            let first = property_view(properties@.last());
                            assert(property_views(before) + (seq![first] + rest.0)
                                =~= property_views(properties@) + rest.0);
                        }
                        cursor = if is_kind(tokens, next, TokenKind::Comma) {
                            next + 1
                        } else {
                            next
                        };
                    },
                }
            },
            _ => {
                cursor += 1;
            },
        }
    }
    assert(property_views(properties@) + Seq::<PropertyView>::empty() =~= property_views(
        properties@,
    ));
    (properties, open_end, cursor)
}

/// Passes over the elements of an array from a place on.
fn parse_elements(tokens: &[Token], from: usize, open_end: usize) -> (parsed: (usize, usize))
    requires
        tokens@.len() < usize::MAX,
        from <= tokens@.len(),
    ensures
        elements_from(scanner::token_views(tokens@), from as int, open_end as int) == (
            parsed.0 as int,
            parsed.1 as int,
        ),
    decreases tokens_left(scanner::token_views(tokens@), from as int), 1nat,
{
    let ghost views = scanner::token_views(tokens@);
    let mut cursor: usize = from;
    while cursor < tokens.len()
        invariant
            tokens@.len() < usize::MAX,
            from <= cursor <= tokens@.len() + 1,
            views == scanner::token_views(tokens@),
            elements_from(views, from as int, open_end as int) == elements_from(
                views,
                cursor as int,
                open_end as int,
            ),
        decreases tokens_left(views, cursor as int),
    {
        let current = &tokens[cursor];
        if let TokenKind::ArrayEnd = current.kind {
            return (current.end, cursor + 1);
        }
        if let TokenKind::Comma = current.kind {
            cursor += 1;
        } else {
            proof {
                lemma_value_ends_later(views, cursor as int);
            }
            match parse_value(tokens, cursor) {
                Some((_, next)) => {
                    cursor = next;
                },
                None => {
                    cursor += 1;
                },
            }
        }
    }
    (open_end, cursor)
}

/// The sections of a manifest that list packages.
pub open spec fn lists_packages(section: Seq<char>) -> bool {
    ||| section == "require"@
    ||| section == "require-dev"@
    ||| section == "conflict"@
    ||| section == "replace"@
    ||| section == "provide"@
    ||| section == "suggest"@
}

/// The sections of a manifest whose packages are installed and can be updated.
pub open spec fn lists_updates(section: Seq<char>) -> bool {
    section == "require"@ || section == "require-dev"@
}

/// The characters of a package name, other than the slash.
pub open spec fn is_name_char(c: char) -> bool {
    text::is_ascii_letter(c) || text::is_digit(c) || c == '_' || c == '.' || c == '-'
}

/// A vendor and a package, neither of them empty, with one slash between them.
pub open spec fn is_package_name(name: Seq<char>) -> bool {
    exists|slash: int|
        0 < slash < name.len() - 1 && #[trigger] name[slash] == '/' && (forall|i: int|
            0 <= i < name.len() && i != slash ==> is_name_char(#[trigger] name[i]))
}

/// Tells whether a section of a manifest lists packages.
pub fn is_dependency_section(section: &str) -> (yes: bool)
    ensures
        yes == lists_packages(section@),
{
    same_text(section, "require") || same_text(section, "require-dev") || same_text(
        section,
        "conflict",
    ) || same_text(section, "replace") || same_text(section, "provide") || same_text(
        section,
        "suggest",
    )
}

/// Tells whether a section of a manifest lists packages that can be updated.
pub fn is_update_section(section: &str) -> (yes: bool)
    ensures
        yes == lists_updates(section@),
{
    same_text(section, "require") || same_text(section, "require-dev")
}

/// Tells whether a character can stand in the name of a vendor or a package.
pub fn is_package_character(character: char) -> (yes: bool)
    ensures
        yes == is_name_char(character),
{
    ('a' <= character && character <= 'z') || ('A' <= character && character <= 'Z') || ('0'
        <= character && character <= '9') || character == '_' || character == '.' || character
        == '-'
}

/// Tells whether a name is that of a package on Packagist: a vendor and a package with a slash
/// between them. The names of platform requirements, such as `php`, are not.
pub fn is_composer_package(name: &str) -> (yes: bool)
    ensures
        yes == is_package_name(name@),
{
    let chars = chars_of(name);
    let mut slash: Option<usize> = None;
    let mut i: usize = 0;
    while i < chars.len()
        invariant
            i <= chars@.len(),
            chars@ == name@,
            match slash {
                None => forall|j: int| 0 <= j < i ==> is_name_char(#[trigger] chars@[j]),
                Some(at) => {
                    &&& 0 < at < i
                    &&& chars@[at as int] == '/'
                    &&& forall|j: int| 0 <= j < i && j != at ==> is_name_char(#[trigger] chars@[j])
                },
            },
        decreases chars@.len() - i,
    {
        if chars[i] == '/' {
            if slash.is_some() || i == 0 {
                proof {
                    assert forall|at: int| 0 < at < name@.len() - 1 && name@[at] == '/' implies !(
                    forall|j: int|
                        0 <= j < name@.len() && j != at ==> is_name_char(#[trigger] name@[j])) by {
                        if at == i {
                            assert(!is_name_char(name@[slash->0 as int]));
                        } else {
                            assert(!is_name_char(name@[i as int]));
                        }
                    }
                }
                return false;
            }
            slash = Some(i);
        } else if !is_package_character(chars[i]) {
            proof {
                assert(!is_name_char(name@[i as int]));
                assert(name@[i as int] != '/');
            }
            return false;
        }
        i += 1;
    }
    match slash {
        None => {
            assert(!is_name_char('/'));
            false
        },
        Some(at) => {
            assert(!is_name_char('/'));
            at + 1 < chars.len()
        },
    }
}

/// A dependency that a manifest names.
#[derive(Debug)]
pub struct DependencyEntry {
    pub section: String,
    pub name: String,
    pub key_token: Token,
    pub value_end: usize,
}

/// The model of a dependency.
pub struct EntryView {
    pub section: Seq<char>,
    pub name: Seq<char>,
    pub key_token: TokenView,
    pub value_end: int,
}

impl View for DependencyEntry {
    type V = EntryView;

    open spec fn view(&self) -> EntryView {
        EntryView {
            section: self.section@,
            name: self.name@,
            key_token: self.key_token@,
            value_end: self.value_end as int,
        }
    }
}

/// The dependencies of a row, each by its model.
pub open spec fn entry_views(entries: Seq<DependencyEntry>) -> Seq<EntryView> {
    entries.map_values(|entry: DependencyEntry| entry@)
}

/// The packages among the properties of a section, in order.
pub open spec fn packages_in(section: Seq<char>, properties: Seq<PropertyView>) -> Seq<EntryView>
    decreases properties.len(),
{
    if properties.len() == 0 {
        Seq::empty()
    } else {
        let before = packages_in(section, properties.drop_last());
        let last = properties.last();
        if is_package_name(last.key) {
            before.push(
                EntryView {
                    section,
                    name: last.key,
                    key_token: last.key_token,
                    value_end: last.value.end,
                },
            )
        } else {
            before
        }
    }
}

/// The packages that one property of a manifest lists: none, unless it is a section with packages.
pub open spec fn packages_of(property: PropertyView) -> Seq<EntryView> {
    match property.value.kind {
        NodeKindView::Object(properties) if lists_packages(property.key) => packages_in(
            property.key,
            properties,
        ),
        _ => Seq::empty(),
    }
}

/// The packages that the sections of a manifest list, in order.
pub open spec fn packages_among(sections: Seq<PropertyView>) -> Seq<EntryView>
    decreases sections.len(),
{
    if sections.len() == 0 {
        Seq::empty()
    } else {
        packages_among(sections.drop_last()) + packages_of(sections.last())
    }
}

/// The dependencies that the tokens of a manifest name.
pub open spec fn dependencies_of(tokens: Seq<TokenView>) -> Seq<EntryView> {
    match value_at(tokens, 0) {
        Some((NodeView { kind: NodeKindView::Object(sections), .. }, _)) => packages_among(
            sections,
        ),
        _ => Seq::empty(),
    }
}

/// Adds the packages among the properties of a section to the entries.
fn add_packages(entries: &mut Vec<DependencyEntry>, section: &String, properties: &Vec<Property>)
    ensures
        entry_views(final(entries)@) == entry_views(old(entries)@) + packages_in(
            section@,
            property_views(properties@),
        ),
{
    let ghost views = property_views(properties@);
    let mut i: usize = 0;
    assert(entry_views(entries@) =~= entry_views(old(entries)@) + packages_in(
        section@,
        views.take(0),
    ));
    while i < properties.len()
        invariant
            i <= properties@.len(),
            views == property_views(properties@),
            entry_views(entries@) == entry_views(old(entries)@) + packages_in(
                section@,
                views.take(i as int),
            ),
        decreases properties@.len() - i,
    {
        let property = &properties[i];
        proof {
            assert(views.take(i + 1).drop_last() =~= views.take(i as int));
            assert(views.take(i + 1).last() == property_view(*property));
        }
        if is_composer_package(property.key.as_str()) {
            let ghost before = entries@;
            entries.push(
                DependencyEntry {
                    section: section.clone(),
                    name: property.key.clone(),
                    key_token: property.key_token.clone(),
                    value_end: property.value.end,
                },
            );
            assert(entry_views(entries@) =~= entry_views(before).push(entries@.last()@));
            assert(entry_views(entries@) =~= entry_views(old(entries)@) + packages_in(
                section@,
                views.take(i + 1),
            ));
        }
        i += 1;
    }
    assert(views.take(views.len() as int) =~= views);
}

/// The value ends behind the offset `from` and not behind the offset `to`, and so do all values in
/// it.
pub open spec fn is_node_placed(source: Seq<char>, node: NodeView, from: int, to: int) -> bool
    decreases node, 0nat,
{
    &&& from < node.end <= to
    &&& scanner::is_boundary(source, node.end)
    &&& match node.kind {
        NodeKindView::Object(properties) => are_properties_placed(source, properties, from, to),
        _ => true,
    }
}

/// The properties stand one behind the other between two offsets, each with its value behind its
/// key and before the keys behind it.
pub open spec fn are_properties_placed(
    source: Seq<char>,
    properties: Seq<PropertyView>,
    from: int,
    to: int,
) -> bool
    decreases properties, 1nat,
{
    &&& forall|i: int|
        0 <= i < properties.len() ==> {
            let key = (#[trigger] properties[i]).key_token;
            &&& from <= key.start
            &&& scanner::is_quoted_span(source, key.start, key.end)
            &&& is_node_placed(source, properties[i].value, key.end, to)
        }
    &&& forall|i: int, j: int|
        0 <= i < j < properties.len() ==> is_node_placed(
            source,
            (#[trigger] properties[i]).value,
            properties[i].key_token.end,
            (#[trigger] properties[j]).key_token.start,
        )
}

/// The dependencies stand one behind the other in the text, each with its value behind its name,
/// and their names are in quotes.
pub open spec fn are_entries_placed(source: Seq<char>, entries: Seq<EntryView>) -> bool {
    &&& forall|i: int|
        0 <= i < entries.len() ==> {
            let key = (#[trigger] entries[i]).key_token;
            &&& scanner::is_quoted_span(source, key.start, key.end)
            &&& key.end < entries[i].value_end <= text::byte_len(source)
            &&& scanner::is_boundary(source, entries[i].value_end)
        }
    &&& forall|i: int, j: int|
        0 <= i < j < entries.len() ==> (#[trigger] entries[i]).value_end <= (
        #[trigger] entries[j]).key_token.start
}

/// The offset behind the last of the tokens before a place.
pub open spec fn offset_before(tokens: Seq<TokenView>, at: int) -> int
    recommends
        tokens.len() > 0,
{
    if at <= 0 {
        0
    } else if at <= tokens.len() {
        tokens[at - 1].end
    } else {
        tokens.last().end
    }
}

/// What holds between two offsets holds between wider ones.
pub proof fn lemma_node_placed_wider(
    source: Seq<char>,
    node: NodeView,
    from: int,
    to: int,
    wider_from: int,
    wider_to: int,
)
    requires
        is_node_placed(source, node, from, to),
        wider_from <= from,
        to <= wider_to,
    ensures
        is_node_placed(source, node, wider_from, wider_to),
    decreases node,
{
    match node.kind {
        NodeKindView::Object(properties) => {
            lemma_properties_placed_wider(source, properties, from, to, wider_from, wider_to);
        },
        _ => {},
    }
}

/// What holds between two offsets holds between wider ones.
proof fn lemma_properties_placed_wider(
    source: Seq<char>,
    properties: Seq<PropertyView>,
    from: int,
    to: int,
    wider_from: int,
    wider_to: int,
)
    requires
        are_properties_placed(source, properties, from, to),
        wider_from <= from,
        to <= wider_to,
    ensures
        are_properties_placed(source, properties, wider_from, wider_to),
    decreases properties,
{
    assert forall|i: int| 0 <= i < properties.len() implies is_node_placed(
        source,
        (#[trigger] properties[i]).value,
        properties[i].key_token.end,
        wider_to,
    ) by {
        let key = properties[i].key_token;
        lemma_node_placed_wider(source, properties[i].value, key.end, to, key.end, wider_to);
    }
}

/// A value lies between its first token and the place behind its last one.
pub proof fn lemma_value_placed(source: Seq<char>, tokens: Seq<TokenView>, at: int)
    requires
        scanner::are_tokens_of(source, tokens),
        0 <= at < tokens.len(),
    ensures
        value_at(tokens, at) matches Some((node, next)) && is_node_placed(
            source,
            node,
            tokens[at].start,
            offset_before(tokens, next),
        ),
    decreases tokens_left(tokens, at), 0nat,
{
    let (node, next) = value_at(tokens, at)->0;
    lemma_value_ends_later(tokens, at);
    if tokens[at].kind == TokenKind::ObjectStart {
        lemma_members_placed(source, tokens, at + 1, tokens[at].end);
        let properties = members_from(tokens, at + 1, tokens[at].end).0;
        lemma_properties_placed_wider(
            source,
            properties,
            tokens[at].end,
            offset_before(tokens, next),
            tokens[at].start,
            offset_before(tokens, next),
        );
    } else if tokens[at].kind == TokenKind::ArrayStart {
        lemma_elements_placed(source, tokens, at + 1, tokens[at].end);
    }
}

/// The properties of an object lie between the place at which they start and the place behind the
/// object.
pub proof fn lemma_members_placed(
    source: Seq<char>,
    tokens: Seq<TokenView>,
    at: int,
    open_end: int,
)
    requires
        scanner::are_tokens_of(source, tokens),
        1 <= at <= tokens.len() + 1,
        tokens.len() > 0,
        scanner::is_boundary(source, open_end),
        open_end <= offset_before(tokens, at),
    ensures
        ({
            let (properties, end, next) = members_from(tokens, at, open_end);
            &&& are_properties_placed(
                source,
                properties,
                offset_before(tokens, at),
                offset_before(tokens, next),
            )
            &&& open_end <= end <= offset_before(tokens, next)
            &&& end == open_end || offset_before(tokens, at) < end
            &&& scanner::is_boundary(source, end)
        }),
    decreases tokens_left(tokens, at), 1nat,
{
    let (properties, end, last) = members_from(tokens, at, open_end);
    if at < tokens.len() && tokens[at].kind != TokenKind::ObjectEnd {
        if tokens[at].kind == TokenKind::String {
            let place = value_place(tokens, at);
            lemma_value_ends_later(tokens, place);
            match value_at(tokens, place) {
                None => {
                    lemma_members_placed(source, tokens, place + 1, open_end);
                    lemma_properties_placed_wider(
                        source,
                        properties,
                        offset_before(tokens, place + 1),
                        offset_before(tokens, last),
                        offset_before(tokens, at),
                        offset_before(tokens, last),
                    );
                },
                Some((value, next)) => {
                    let rest = members_from(tokens, next, open_end).0;
                    lemma_value_placed(source, tokens, place);
                    lemma_members_placed(source, tokens, next, open_end);
                    lemma_members_end_later(tokens, next, open_end);
                    let first = properties[0];
                    assert(properties =~= seq![first] + rest);
                    let from = first.key_token.end;
                    let within = offset_before(tokens, next);
                    let to = offset_before(tokens, last);
                    lemma_node_placed_wider(source, value, tokens[place].start, within, from, to);
                    assert forall|j: int| 0 <= j < rest.len() implies is_node_placed(
                        source,
                        value,
                        from,
                        (#[trigger] rest[j]).key_token.start,
                    ) by {
                        lemma_node_placed_wider(
                            source,
                            value,
                            tokens[place].start,
                            within,
                            from,
                            rest[j].key_token.start,
                        );
                    }
                    assert forall|i: int, j: int| 0 <= i < j < properties.len() implies is_node_placed(
                        source,
                        (#[trigger] properties[i]).value,
                        properties[i].key_token.end,
                        (#[trigger] properties[j]).key_token.start,
                    ) by {
                        assert(properties[j] == rest[j - 1]);
                        if i > 0 {
                            assert(properties[i] == rest[i - 1]);
                        }
                    }
                    assert forall|i: int| 0 <= i < properties.len() implies {
                        let key = (#[trigger] properties[i]).key_token;
                        &&& offset_before(tokens, at) <= key.start
                        &&& scanner::is_quoted_span(source, key.start, key.end)
                        &&& is_node_placed(source, properties[i].value, key.end, to)
                    } by {
                        if i > 0 {
                            assert(properties[i] == rest[i - 1]);
                        }
                    }
                },
            }
        } else {
            lemma_members_placed(source, tokens, at + 1, open_end);
            lemma_properties_placed_wider(
                source,
                properties,
                offset_before(tokens, at + 1),
                offset_before(tokens, last),
                offset_before(tokens, at),
                offset_before(tokens, last),
            );
        }
    }
}

/// An array ends between the place at which its elements start and the place behind it.
pub proof fn lemma_elements_placed(
    source: Seq<char>,
    tokens: Seq<TokenView>,
    at: int,
    open_end: int,
)
    requires
        scanner::are_tokens_of(source, tokens),
        1 <= at <= tokens.len() + 1,
        tokens.len() > 0,
        scanner::is_boundary(source, open_end),
        open_end <= offset_before(tokens, at),
    ensures
        ({
            let (end, next) = elements_from(tokens, at, open_end);
            &&& open_end <= end <= offset_before(tokens, next)
            &&& end == open_end || offset_before(tokens, at) < end
            &&& scanner::is_boundary(source, end)
        }),
    decreases tokens_left(tokens, at), 1nat,
{
    if at < tokens.len() && tokens[at].kind != TokenKind::ArrayEnd {
        if tokens[at].kind == TokenKind::Comma {
            lemma_elements_placed(source, tokens, at + 1, open_end);
        } else {
            lemma_value_ends_later(tokens, at);
            let next = (value_at(tokens, at)->0).1;
            lemma_elements_placed(source, tokens, next, open_end);
        }
    }
}

/// The dependencies are placed as they have to be, between two offsets.
spec fn are_entries_within(source: Seq<char>, entries: Seq<EntryView>, from: int, to: int) -> bool {
    &&& are_entries_placed(source, entries)
    &&& forall|i: int|
        0 <= i < entries.len() ==> from <= (#[trigger] entries[i]).key_token.start
            && entries[i].value_end <= to
}

/// The packages of a section lie where the section's properties lie.
proof fn lemma_packages_in_placed(
    source: Seq<char>,
    section: Seq<char>,
    properties: Seq<PropertyView>,
    from: int,
    to: int,
)
    requires
        are_properties_placed(source, properties, from, to),
        to <= text::byte_len(source),
    ensures
        are_entries_within(source, packages_in(section, properties), from, to),
        properties.len() > 0 ==> forall|i: int|
            0 <= i < packages_in(section, properties.drop_last()).len() ==> (
            #[trigger] packages_in(section, properties.drop_last())[i]).value_end
                <= properties.last().key_token.start,
    decreases properties.len(),
{
    if properties.len() > 0 {
        let before = properties.drop_last();
        let last = properties.last();
        let bound = last.key_token.start;
        assert forall|i: int| 0 <= i < before.len() implies before[i] == properties[i] by {}
        assert(last == properties[before.len() as int]);
        assert(are_properties_placed(source, before, from, bound));
        lemma_packages_in_placed(source, section, before, from, bound);
    }
}

/// The packages of a manifest lie where its sections lie.
proof fn lemma_packages_among_placed(
    source: Seq<char>,
    sections: Seq<PropertyView>,
    from: int,
    to: int,
)
    requires
        are_properties_placed(source, sections, from, to),
        to <= text::byte_len(source),
    ensures
        are_entries_within(source, packages_among(sections), from, to),
    decreases sections.len(),
{
    if sections.len() > 0 {
        let before = sections.drop_last();
        let last = sections.last();
        let bound = last.key_token.start;
        assert forall|i: int| 0 <= i < before.len() implies before[i] == sections[i] by {}
        assert(last == sections[before.len() as int]);
        assert(are_properties_placed(source, before, from, bound));
        lemma_packages_among_placed(source, before, from, bound);
        match last.value.kind {
            NodeKindView::Object(properties) => {
                lemma_packages_in_placed(source, last.key, properties, last.key_token.end, to);
            },
            _ => {},
        }
    }
}

/// The dependencies of a manifest stand one behind the other in its text.
pub proof fn lemma_dependencies_placed(source: Seq<char>, tokens: Seq<TokenView>)
    requires
        scanner::are_tokens_of(source, tokens),
    ensures
        are_entries_placed(source, dependencies_of(tokens)),
{
    if tokens.len() > 0 {
        lemma_value_placed(source, tokens, 0);
        lemma_value_ends_later(tokens, 0);
        let (node, next) = value_at(tokens, 0)->0;
        match node.kind {
            NodeKindView::Object(sections) => {
                lemma_packages_among_placed(
                    source,
                    sections,
                    tokens[0].start,
                    offset_before(tokens, next),
                );
            },
            _ => {},
        }
    }
}

/// A text has no more tokens than bytes.
proof fn lemma_tokens_fit(source: Seq<char>, tokens: Seq<TokenView>, n: int)
    requires
        scanner::are_tokens_of(source, tokens),
        0 <= n <= tokens.len(),
    ensures
        n <= text::byte_len(source),
        n > 0 ==> n <= tokens[n - 1].end,
    decreases n,
{
    if n > 0 {
        lemma_tokens_fit(source, tokens, n - 1);
        if n > 1 {
            assert(tokens[n - 2].end <= tokens[n - 1].start);
        }
    }
}

/// The dependencies that a manifest names, in the order of its text. What follows the first place
/// at which the text cannot be read is left out.
pub fn dependency_entries(source: &str) -> (entries: Vec<DependencyEntry>)
    requires
        text::byte_len(source@) < usize::MAX,
    ensures
        entry_views(entries@) == dependencies_of(scanner::tokens_of(source@)),
        are_entries_placed(source@, entry_views(entries@)),
{
    let tokens = tokenize(source);
    let ghost views = scanner::token_views(tokens@);
    proof {
        lemma_tokens_fit(source@, views, views.len() as int);
        lemma_dependencies_placed(source@, views);
    }
    let mut entries: Vec<DependencyEntry> = Vec::new();
    assert(entry_views(entries@) =~= Seq::empty());
    let sections = match parse_value(tokens.as_slice(), 0) {
        Some((Node { kind: NodeKind::Object(sections), .. }, _)) => sections,
        _ => {
            return entries;
        },
    };
    let ghost all = property_views(sections@);
    let mut i: usize = 0;
    assert(packages_among(all.take(0)) =~= Seq::empty());
    while i < sections.len()
        invariant
            i <= sections@.len(),
            all == property_views(sections@),
            entry_views(entries@) == packages_among(all.take(i as int)),
        decreases sections@.len() - i,
    {
        let section = &sections[i];
        proof {
            assert(all.take(i + 1).drop_last() =~= all.take(i as int));
            assert(all.take(i + 1).last() == property_view(*section));
            assert(packages_among(all.take(i as int)) + Seq::<EntryView>::empty()
                =~= packages_among(all.take(i as int)));
        }
        if is_dependency_section(section.key.as_str()) {
            if let NodeKind::Object(properties) = &section.value.kind {
                add_packages(&mut entries, &section.key, properties);
            }
        }
        i += 1;
    }
    assert(all.take(all.len() as int) =~= all);
    entries
}

/// The place of a dependency's name, without its quotes.
pub open spec fn name_range(source: Seq<char>, entry: EntryView) -> Range {
    Range {
        start: position::position_at(source, entry.key_token.start + 1),
        end: position::position_at(source, entry.key_token.end - 1),
    }
}

/// The dependency is one of those that stand in the text.
pub open spec fn is_entry_of(source: Seq<char>, entry: EntryView) -> bool {
    &&& scanner::is_quoted_span(source, entry.key_token.start, entry.key_token.end)
    &&& 0 <= entry.value_end <= text::byte_len(source)
    &&& scanner::is_boundary(source, entry.value_end)
}

/// The place of a dependency's name in the text, without its quotes.
pub fn package_range(source: &str, dependency: &DependencyEntry) -> (range: Range)
    requires
        text::byte_len(source@) <= u32::MAX,
        is_entry_of(source@, dependency@),
    ensures
        range == name_range(source@, dependency@),
{
    Range {
        start: offset_to_position(source, dependency.key_token.start + 1),
        end: offset_to_position(source, dependency.key_token.end - 1),
    }
}

/// The place right behind a dependency's constraint, where its version is shown.
pub fn dependency_position(source: &str, dependency: &DependencyEntry) -> (position: Position)
    requires
        text::byte_len(source@) <= u32::MAX,
        is_entry_of(source@, dependency@),
    ensures
        position == position::position_at(source@, dependency@.value_end),
{
    offset_to_position(source, dependency.value_end)
}

/// Only packages of the sections that list packages are taken for dependencies. So platform
/// requirements, whose names have no slash, are not among them.
pub proof fn law_dependencies_are_packages(tokens: Seq<TokenView>)
    ensures
        forall|i: int|
            0 <= i < dependencies_of(tokens).len() ==> {
                &&& is_package_name((#[trigger] dependencies_of(tokens)[i]).name)
                &&& dependencies_of(tokens)[i].name.contains('/')
                &&& lists_packages(dependencies_of(tokens)[i].section)
            },
{
    if let Some((NodeView { kind: NodeKindView::Object(sections), .. }, _)) = value_at(tokens, 0) {
        lemma_packages_among(sections);
    }
}

/// All entries are packages of sections that list packages.
spec fn are_packages(entries: Seq<EntryView>) -> bool {
    forall|i: int|
        0 <= i < entries.len() ==> is_package_name((#[trigger] entries[i]).name)
            && entries[i].name.contains('/') && lists_packages(entries[i].section)
}

proof fn lemma_packages_among(sections: Seq<PropertyView>)
    ensures
        are_packages(packages_among(sections)),
    decreases sections.len(),
{
    if sections.len() > 0 {
        lemma_packages_among(sections.drop_last());
        let last = sections.last();
        if let NodeKindView::Object(properties) = last.value.kind {
            if lists_packages(last.key) {
                lemma_packages_in(last.key, properties);
            }
        }
    }
}

proof fn lemma_packages_in(section: Seq<char>, properties: Seq<PropertyView>)
    requires
        lists_packages(section),
    ensures
        are_packages(packages_in(section, properties)),
    decreases properties.len(),
{
    if properties.len() > 0 {
        lemma_packages_in(section, properties.drop_last());
    }
}

/// The characters of which the names of vendors and packages are made.
pub open spec fn is_plain_name(name: Seq<char>) -> bool {
    name.len() > 0 && forall|i: int|
        0 <= i < name.len() ==> ('a' <= #[trigger] name[i] <= 'z') || ('A' <= name[i] <= 'Z') || (
        '0' <= name[i] <= '9') || name[i] == '_' || name[i] == '.' || name[i] == '-'
}

/// The names of packages are those of a vendor and of a package with a slash between them, all of
/// them and no others.
pub proof fn law_package_name_has_vendor_and_package(
    vendor: Seq<char>,
    package: Seq<char>,
    name: Seq<char>,
)
    ensures
        is_plain_name(vendor) && is_plain_name(package) ==> is_package_name(
            vendor.push('/') + package,
        ),
        is_package_name(name) ==> exists|slash: int|
            0 < slash < name.len() && #[trigger] name[slash] == '/' && is_plain_name(
                name.take(slash),
            ) && is_plain_name(name.skip(slash + 1)),
{
    if is_plain_name(vendor) && is_plain_name(package) {
        let all = vendor.push('/') + package;
        let slash = vendor.len() as int;
        assert(all[slash] == '/');
        assert forall|i: int| 0 <= i < all.len() && i != slash implies is_name_char(
            #[trigger] all[i],
        ) by {
            if i < slash {
                assert(all[i] == vendor[i]);
            } else {
                assert(all[i] == package[i - slash - 1]);
            }
        }
    }
    if is_package_name(name) {
        let slash = choose|slash: int|
            0 < slash < name.len() - 1 && #[trigger] name[slash] == '/' && (forall|i: int|
                0 <= i < name.len() && i != slash ==> is_name_char(#[trigger] name[i]));
        let left = name.take(slash);
        let right = name.skip(slash + 1);
        assert forall|i: int| 0 <= i < left.len() implies is_name_char(#[trigger] left[i]) by {
            assert(left[i] == name[i]);
        }
        assert forall|i: int| 0 <= i < right.len() implies is_name_char(#[trigger] right[i]) by {
            assert(right[i] == name[slash + 1 + i]);
        }
        assert(name[slash] == '/' && is_plain_name(left) && is_plain_name(right));
    }
}

/// The section is one of the six in which a manifest names packages.
pub open spec fn is_one_of_six(section: Seq<char>) -> bool {
    ||| section == "require"@
    ||| section == "require-dev"@
    ||| section == "conflict"@
    ||| section == "replace"@
    ||| section == "provide"@
    ||| section == "suggest"@
}

/// The dependency is that of a property of an object that stands under one of the six sections, and
/// the key of the property is the name of a package.
pub open spec fn is_dependency_at(
    sections: Seq<PropertyView>,
    i: int,
    j: int,
    entry: EntryView,
) -> bool {
    &&& 0 <= i < sections.len()
    &&& is_one_of_six(sections[i].key)
    &&& entry.section == sections[i].key
    &&& sections[i].value.kind matches NodeKindView::Object(properties) && {
        &&& 0 <= j < properties.len()
        &&& is_package_name(properties[j].key)
        &&& entry.name == properties[j].key
        &&& entry.key_token == properties[j].key_token
        &&& entry.value_end == properties[j].value.end
    }
}

/// The dependency is that of some property under one of the six sections.
pub open spec fn is_dependency_of(sections: Seq<PropertyView>, entry: EntryView) -> bool {
    exists|i: int, j: int| is_dependency_at(sections, i, j, entry)
}

/// Every package of each of the six sections is among the dependencies, with its section, its name,
/// the place of its name and the end of its constraint, and nothing else is. There are none where the
/// document is not an object.
pub proof fn law_dependencies_are_all_packages_of_sections(
    tokens: Seq<TokenView>,
    sections: Seq<PropertyView>,
)
    requires
        value_at(tokens, 0) matches Some((node, _)) && node.kind == NodeKindView::Object(sections),
    ensures
        forall|entry: EntryView| #[trigger]
            dependencies_of(tokens).contains(entry) <==> is_dependency_of(sections, entry),
{
    let all = dependencies_of(tokens);
    assert(all == packages_among(sections));
    assert forall|entry: EntryView| #[trigger]
        all.contains(entry) <==> is_dependency_of(sections, entry) by {
        if is_dependency_of(sections, entry) {
            let (i, j) = choose|i: int, j: int| is_dependency_at(sections, i, j, entry);
            lemma_package_is_among(sections, i, j, entry);
        }
        if all.contains(entry) {
            let n = choose|n: int| 0 <= n < all.len() && all[n] == entry;
            lemma_entry_is_package(sections, n);
        }
    }
}

proof fn lemma_package_is_among(
    sections: Seq<PropertyView>,
    i: int,
    j: int,
    entry: EntryView,
)
    requires
        is_dependency_at(sections, i, j, entry),
    ensures
        packages_among(sections).contains(entry),
    decreases sections.len(),
{
    let front = sections.drop_last();
    let before = packages_among(front);
    let all = packages_among(sections);
    if i < front.len() {
        assert(front[i] == sections[i]);
        assert(is_dependency_at(front, i, j, entry));
        lemma_package_is_among(front, i, j, entry);
        let n = choose|n: int| 0 <= n < before.len() && before[n] == entry;
        assert(all[n] == entry);
    } else {
        let last = packages_of(sections.last());
        if let NodeKindView::Object(properties) = sections[i].value.kind {
            lemma_package_is_in(sections[i].key, properties, j, entry);
            let n = choose|n: int| 0 <= n < last.len() && last[n] == entry;
            assert(all[before.len() + n] == entry);
        }
    }
}

proof fn lemma_package_is_in(
    section: Seq<char>,
    properties: Seq<PropertyView>,
    j: int,
    entry: EntryView,
)
    requires
        0 <= j < properties.len(),
        is_package_name(properties[j].key),
        entry == (EntryView {
            section,
            name: properties[j].key,
            key_token: properties[j].key_token,
            value_end: properties[j].value.end,
        }),
    ensures
        packages_in(section, properties).contains(entry),
    decreases properties.len(),
{
    let front = properties.drop_last();
    let before = packages_in(section, front);
    let all = packages_in(section, properties);
    if j < front.len() {
        assert(front[j] == properties[j]);
        lemma_package_is_in(section, front, j, entry);
        let n = choose|n: int| 0 <= n < before.len() && before[n] == entry;
        assert(all[n] == entry);
    } else {
        assert(all[before.len() as int] == entry);
    }
}

proof fn lemma_entry_is_package(sections: Seq<PropertyView>, n: int)
    requires
        0 <= n < packages_among(sections).len(),
    ensures
        is_dependency_of(sections, packages_among(sections)[n]),
    decreases sections.len(),
{
    let front = sections.drop_last();
    let before = packages_among(front);
    let entry = packages_among(sections)[n];
    if n < before.len() {
        assert(before[n] == entry);
        lemma_entry_is_package(front, n);
        let (i, j) = choose|i: int, j: int| is_dependency_at(front, i, j, before[n]);
        assert(is_dependency_at(sections, i, j, entry));
    } else {
        let end = sections.len() - 1;
        if let NodeKindView::Object(properties) = sections[end].value.kind {
            let j = lemma_entry_is_in(sections[end].key, properties, n - before.len());
            assert(is_dependency_at(sections, end, j, entry));
        }
    }
}

proof fn lemma_entry_is_in(section: Seq<char>, properties: Seq<PropertyView>, n: int) -> (j: int)
    requires
        0 <= n < packages_in(section, properties).len(),
    ensures
        0 <= j < properties.len(),
        is_package_name(properties[j].key),
        packages_in(section, properties)[n] == (EntryView {
            section,
            name: properties[j].key,
            key_token: properties[j].key_token,
            value_end: properties[j].value.end,
        }),
    decreases properties.len(),
{
    let front = properties.drop_last();
    if n < packages_in(section, front).len() {
        lemma_entry_is_in(section, front, n)
    } else {
        properties.len() - 1
    }
}

/// A document that is not an object, and one without tokens, has no dependencies.
pub proof fn law_other_documents_have_no_dependencies(tokens: Seq<TokenView>)
    requires
        tokens.len() > 0 ==> tokens[0].kind != TokenKind::ObjectStart,
    ensures
        dependencies_of(tokens).len() == 0,
{
}

/// Updates are looked for in the two sections whose packages are installed, and in no other one.
pub proof fn law_updates_are_looked_for_in_two_sections(section: Seq<char>)
    ensures
        lists_updates("require"@),
        lists_updates("require-dev"@),
        lists_updates(section) ==> section == "require"@ || section == "require-dev"@,
        lists_packages(section) <==> is_one_of_six(section),
{
}

/// A string that stands where a property begins is its key, and the value behind it is its value,
/// whether a colon stands between them or is missing. The properties behind that value follow.
pub proof fn law_property_is_read(tokens: Seq<TokenView>, at: int, open_end: int)
    requires
        0 <= at,
        at + 1 < tokens.len(),
        tokens[at].kind == TokenKind::String,
        tokens[at + 1].kind == TokenKind::Colon ==> at + 2 < tokens.len(),
    ensures
        ({
            let place = if tokens[at + 1].kind == TokenKind::Colon {
                at + 2
            } else {
                at + 1
            };
            let (properties, end, last) = members_from(tokens, at, open_end);
            value_at(tokens, place) matches Some((value, next)) && {
                &&& place < next
                &&& properties.len() > 0
                &&& properties[0].key == tokens[at].value
                &&& properties[0].key_token == tokens[at]
                &&& properties[0].value == value
                &&& properties.skip(1) == members_from(tokens, next, open_end).0
                &&& end == members_from(tokens, next, open_end).1
            }
        }),
{
    let place = value_place(tokens, at);
    lemma_value_ends_later(tokens, place);
    let (value, next) = value_at(tokens, place)->0;
    let rest = members_from(tokens, next, open_end).0;
    assert(members_from(tokens, at, open_end).0.skip(1) =~= rest);
}

/// What can neither begin a property nor end an object is passed over. An object ends at its closing
/// brace, or where the tokens end.
pub proof fn law_stray_tokens_are_passed_over(tokens: Seq<TokenView>, at: int, open_end: int)
    requires
        0 <= at,
    ensures
        at < tokens.len() && tokens[at].kind != TokenKind::String && tokens[at].kind
            != TokenKind::ObjectEnd ==> members_from(tokens, at, open_end) == members_from(
            tokens,
            at + 1,
            open_end,
        ),
        at < tokens.len() && tokens[at].kind == TokenKind::ObjectEnd ==> members_from(
            tokens,
            at,
            open_end,
        ) == (Seq::<PropertyView>::empty(), tokens[at].end, at + 1),
        at >= tokens.len() ==> members_from(tokens, at, open_end).0.len() == 0 && members_from(
            tokens,
            at,
            open_end,
        ).1 == open_end,
{
}

/// A value that is neither an object nor an array is one token, and it ends where that token ends.
pub proof fn law_plain_value_is_one_token(tokens: Seq<TokenView>, at: int)
    requires
        0 <= at < tokens.len(),
        tokens[at].kind != TokenKind::ObjectStart,
        tokens[at].kind != TokenKind::ArrayStart,
    ensures
        value_at(tokens, at) == Some(
            (NodeView { kind: NodeKindView::Scalar, end: tokens[at].end }, at + 1),
        ),
{
}

/// The place of a name leaves out the quotes around it.
pub proof fn law_name_stands_between_quotes(source: Seq<char>, entry: EntryView)
    ensures
        name_range(source, entry).start == position::position_at(source, entry.key_token.start + 1),
        name_range(source, entry).end == position::position_at(source, entry.key_token.end - 1),
{
}

/// An object is made of the properties behind its opening brace, and an array of what stands behind its
/// opening bracket. Where the closing one is missing, the value ends behind the opening one.
pub proof fn law_objects_and_arrays_are_read(tokens: Seq<TokenView>, at: int)
    requires
        0 <= at < tokens.len(),
    ensures
        tokens[at].kind == TokenKind::ObjectStart ==> (value_at(tokens, at) matches Some((node, next))
            && node.kind == NodeKindView::Object(members_from(tokens, at + 1, tokens[at].end).0)
            && node.end == members_from(tokens, at + 1, tokens[at].end).1 && next == members_from(
            tokens,
            at + 1,
            tokens[at].end,
        ).2),
        tokens[at].kind == TokenKind::ArrayStart ==> (value_at(tokens, at) matches Some((node, next))
            && node.kind == NodeKindView::Array && node.end == elements_from(
            tokens,
            at + 1,
            tokens[at].end,
        ).0 && next == elements_from(tokens, at + 1, tokens[at].end).1),
{
}

/// An array goes on up to its closing bracket, over commas and over values with all that is in them, or
/// up to the end of the tokens.
pub proof fn law_elements_are_passed_over(tokens: Seq<TokenView>, at: int, open_end: int)
    requires
        0 <= at,
    ensures
        at >= tokens.len() ==> elements_from(tokens, at, open_end).0 == open_end,
        at < tokens.len() && tokens[at].kind == TokenKind::ArrayEnd ==> elements_from(
            tokens,
            at,
            open_end,
        ) == (tokens[at].end, at + 1),
        at < tokens.len() && tokens[at].kind == TokenKind::Comma ==> elements_from(
            tokens,
            at,
            open_end,
        ) == elements_from(tokens, at + 1, open_end),
        at < tokens.len() && tokens[at].kind != TokenKind::ArrayEnd && tokens[at].kind
            != TokenKind::Comma ==> (value_at(tokens, at) matches Some((_, next)) && elements_from(
            tokens,
            at,
            open_end,
        ) == elements_from(tokens, next, open_end)),
{
    lemma_value_ends_later(tokens, at);
}

} // verus!
