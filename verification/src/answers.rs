//! What the server answers about a document: links to packages and hints at versions.
use crate::backend::Document;
use crate::composer;
use crate::composer::{
    dependency_position, is_update_section, package_range, DependencyEntry, EntryView,
};
use crate::entries::EntryMap;
use crate::position;
use crate::position::{position_in_range, Position, Range};
use crate::scanner;
use crate::text;
use crate::text::to_ascii_lowercase;
use crate::version;
use crate::version::{compare_versions, version_label};
use crate::version_cache;
use crate::version_cache::{CacheLookup, CacheView, LookupView, VersionCache};
use std::cmp::Ordering;
use vstd::prelude::*;

verus! {

/// A link from the name of a package to its page.
#[derive(Debug)]
pub struct Link {
    pub range: Range,
    pub target: String,
    pub tooltip: String,
}

pub struct LinkView {
    pub range: Range,
    pub target: Seq<char>,
    pub tooltip: Seq<char>,
}

impl View for Link {
    type V = LinkView;

    open spec fn view(&self) -> LinkView {
        LinkView { range: self.range, target: self.target@, tooltip: self.tooltip@ }
    }
}

/// What the links of a row hold.
pub open spec fn link_views(links: Seq<Link>) -> Seq<LinkView> {
    links.map_values(|link: Link| link@)
}

/// The address of the page of a package.
pub open spec fn package_page(name: Seq<char>) -> Seq<char> {
    "https://packagist.org/packages/"@ + name
}

/// The link for a dependency.
pub open spec fn link_of(source: Seq<char>, entry: EntryView) -> LinkView {
    LinkView {
        range: composer::name_range(source, entry),
        target: package_page(entry.name),
        tooltip: "Open "@ + entry.name + " on Packagist"@,
    }
}

/// The links for the dependencies, one for each.
pub open spec fn links_for(source: Seq<char>, entries: Seq<EntryView>) -> Seq<LinkView> {
    entries.map_values(|entry: EntryView| link_of(source, entry))
}

/// `str::parse` reads a text as a `tower_lsp_server::ls_types::Uri` without an error.
pub uninterp spec fn is_uri(source: Seq<char>) -> bool;

/// The address of a page of Packagist that is made of letters, digits, dots, hyphens, underscores
/// and slashes.
pub open spec fn is_plain_page(source: Seq<char>) -> bool {
    let host = "https://packagist.org/"@;
    &&& text::begins_with(source, host)
    &&& forall|i: int|
        host.len() <= i < source.len() ==> composer::is_name_char(#[trigger] source[i])
            || source[i] == '/'
}

/// The `FromStr` of `tower_lsp_server::ls_types::Uri` reads a text as a URI by the grammar of RFC
/// 3986. Whether it gives an error depends on the text alone, and it gives none for a plain page of
/// Packagist.
#[verifier::external_body]
fn parses_as_uri(source: &str) -> (yes: bool)
    ensures
        yes == is_uri(source@),
        is_plain_page(source@) ==> yes,
{
    source.parse::<tower_lsp_server::ls_types::Uri>().is_ok()
}

/// The link for a dependency, unless editors do not accept the address of its page.
pub fn document_link(source: &str, dependency: &DependencyEntry, accepted: bool) -> (link: Option<
    Link,
>)
    requires
        text::byte_len(source@) <= u32::MAX,
        composer::is_entry_of(source@, dependency@),
    ensures
        match link {
            Some(link) => accepted && link@ == link_of(source@, dependency@),
            None => !accepted,
        },
{
    if !accepted {
        return None;
    }
    let target = page_of(dependency.name.as_str());
    let mut tooltip = "Open ".to_owned();
    tooltip.append(dependency.name.as_str());
    tooltip.append(" on Packagist");
    Some(Link { range: package_range(source, dependency), target, tooltip })
}

/// The address of the page of a package.
pub fn page_of(package_name: &str) -> (address: String)
    ensures
        address@ == package_page(package_name@),
{
    let mut address = "https://packagist.org/packages/".to_owned();
    address.append(package_name);
    address
}

/// The page of a package is plain.
proof fn lemma_package_page_is_plain(name: Seq<char>)
    requires
        composer::is_package_name(name),
    ensures
        is_plain_page(package_page(name)),
{
    reveal_strlit("https://packagist.org/");
    reveal_strlit("https://packagist.org/packages/");
    let host = "https://packagist.org/"@;
    let folder = "https://packagist.org/packages/"@;
    let page = package_page(name);
    let slash = choose|slash: int|
        0 < slash < name.len() - 1 && #[trigger] name[slash] == '/' && (forall|i: int|
            0 <= i < name.len() && i != slash ==> composer::is_name_char(#[trigger] name[i]));
    assert(page.subrange(0, host.len() as int) =~= host);
    assert forall|i: int| host.len() <= i < page.len() implies composer::is_name_char(
        #[trigger] page[i],
    ) || page[i] == '/' by {
        if i < folder.len() {
            assert(page[i] == folder[i]);
        } else {
            assert(page[i] == name[i - folder.len()]);
        }
    }
}

/// The links for the dependencies of a document, in the order of its text.
pub fn document_links(document: &Document) -> (links: Vec<Link>)
    requires
        document.wf(),
    ensures
        link_views(links@) == links_for(
            document.text@,
            composer::entry_views(document.dependencies@),
        ),
{
    let ghost source = document.text@;
    let ghost entries = composer::entry_views(document.dependencies@);
    let mut links: Vec<Link> = Vec::new();
    let mut i: usize = 0;
    while i < document.dependencies.len()
        invariant
            i <= document.dependencies@.len(),
            document.wf(),
            source == document.text@,
            entries == composer::entry_views(document.dependencies@),
            links@.len() == i,
            forall|j: int| 0 <= j < i ==> (#[trigger] links@[j])@ == link_of(source, entries[j]),
        decreases document.dependencies@.len() - i,
    {
        let dependency = &document.dependencies[i];
        proof {
            assert(entries[i as int] == dependency@);
            composer::law_dependencies_are_packages(scanner::tokens_of(source));
            lemma_package_page_is_plain(dependency@.name);
        }
        let target = page_of(dependency.name.as_str());
        let accepted = parses_as_uri(target.as_str());
        if let Some(link) = document_link(document.text.as_str(), dependency, accepted) {
            links.push(link);
        }
        i += 1;
    }
    assert(link_views(links@) =~= links_for(source, entries));
    links
}

/// A hint at the version of a package.
#[derive(Debug)]
pub struct Hint {
    pub position: Position,
    pub label: String,
    pub tooltip: String,
}

pub struct HintView {
    pub position: Position,
    pub label: Seq<char>,
    pub tooltip: Seq<char>,
}

impl View for Hint {
    type V = HintView;

    open spec fn view(&self) -> HintView {
        HintView { position: self.position, label: self.label@, tooltip: self.tooltip@ }
    }
}

/// What the hints of a row hold.
pub open spec fn hint_views(hints: Seq<Hint>) -> Seq<HintView> {
    hints.map_values(|hint: Hint| hint@)
}

/// The latest version is stable, and it is ahead of the installed version, which is stable too.
pub open spec fn is_update(installed: Seq<char>, latest: Option<Seq<char>>) -> bool {
    match latest {
        Some(latest) => match (version::version_parts(installed), version::version_parts(latest)) {
            (Some(old_parts), Some(new_parts)) => version::parts_less(old_parts, new_parts),
            _ => false,
        },
        None => false,
    }
}

/// The hint for a dependency: the installed version, and the latest one where it is an update.
pub open spec fn hint_of(
    source: Seq<char>,
    entry: EntryView,
    installed: Seq<char>,
    latest: Option<Seq<char>>,
) -> HintView {
    let shown = version::label_of(installed);
    let position = position::position_at(source, entry.value_end);
    if is_update(installed, latest) {
        let newer = version::label_of(latest->0);
        HintView {
            position,
            label: shown + " → "@ + newer,
            tooltip: entry.name + ": "@ + shown + " is installed; "@ + newer
                + " is the newest stable release on Packagist"@,
        }
    } else {
        HintView {
            position,
            label: shown,
            tooltip: "Version currently installed for "@ + entry.name,
        }
    }
}

/// What an answer about versions rests on: the text, the installed versions by lower-case names,
/// the stretch of the text that is asked for, whether updates are wanted, and what is known of
/// them.
pub struct Question {
    pub source: Seq<char>,
    pub installed: Map<Seq<char>, Seq<char>>,
    pub range: Range,
    pub check_updates: bool,
    pub cache: CacheView,
    pub now: u64,
}

impl Question {
    /// The dependency is installed and stands in the stretch of the text that is asked for.
    pub open spec fn shows(self, entry: EntryView) -> bool {
        &&& self.installed.contains_key(text::lowered(entry.name))
        &&& position::lies_in(
            position::position_at(self.source, entry.value_end),
            self.range,
        )
    }

    /// Updates of the dependency are looked for.
    pub open spec fn wants_update(self, entry: EntryView) -> bool {
        self.shows(entry) && self.check_updates && composer::lists_updates(entry.section)
    }

    /// Updates of the dependency are looked for, and nothing is known of them.
    pub open spec fn lacks_update(self, entry: EntryView) -> bool {
        self.wants_update(entry) && version_cache::lookup_of(
            self.cache,
            entry.name,
            self.now,
        ) is Missing
    }

    /// The latest version of a dependency, as far as it is known and wanted.
    pub open spec fn latest(self, entry: EntryView) -> Option<Seq<char>> {
        if self.wants_update(entry) {
            match version_cache::lookup_of(self.cache, entry.name, self.now) {
                LookupView::Ready(value) => value,
                _ => None,
            }
        } else {
            None
        }
    }

    /// The hint for a dependency that is shown.
    pub open spec fn hint(self, entry: EntryView) -> HintView {
        hint_of(
            self.source,
            entry,
            self.installed[text::lowered(entry.name)],
            self.latest(entry),
        )
    }
}

/// The hints for the dependencies that are shown, in order.
pub open spec fn hints_among(question: Question, entries: Seq<EntryView>) -> Seq<HintView>
    decreases entries.len(),
{
    if entries.len() == 0 {
        Seq::empty()
    } else {
        let before = hints_among(question, entries.drop_last());
        if question.shows(entries.last()) {
            before.push(question.hint(entries.last()))
        } else {
            before
        }
    }
}

/// The names of the dependencies whose updates are looked for and not known, in order.
pub open spec fn unknown_among(question: Question, entries: Seq<EntryView>) -> Seq<Seq<char>>
    decreases entries.len(),
{
    if entries.len() == 0 {
        Seq::empty()
    } else {
        let before = unknown_among(question, entries.drop_last());
        let last = entries.last();
        if question.lacks_update(last) {
            before.push(last.name)
        } else {
            before
        }
    }
}

/// The cache after the dependencies were looked up whose updates are looked for.
pub open spec fn cache_after(question: Question, entries: Seq<EntryView>) -> CacheView
    decreases entries.len(),
{
    if entries.len() == 0 {
        question.cache
    } else {
        let before = cache_after(question, entries.drop_last());
        if question.wants_update(entries.last()) {
            version_cache::after_lookup(before, entries.last().name, question.now)
        } else {
            before
        }
    }
}

/// To look one package up does not change what is known of another one.
proof fn lemma_lookups_are_independent(
    cache: CacheView,
    name: Seq<char>,
    other: Seq<char>,
    now: u64,
)
    ensures
        version_cache::lookup_of(
            version_cache::after_lookup(cache, name, now),
            other,
            now,
        ) == version_cache::lookup_of(cache, other, now),
{
}

proof fn lemma_lookups_change_nothing(question: Question, entries: Seq<EntryView>, name: Seq<char>)
    ensures
        version_cache::lookup_of(cache_after(question, entries), name, question.now)
            == version_cache::lookup_of(question.cache, name, question.now),
    decreases entries.len(),
{
    if entries.len() > 0 {
        lemma_lookups_change_nothing(question, entries.drop_last(), name);
        lemma_lookups_are_independent(
            cache_after(question, entries.drop_last()),
            entries.last().name,
            name,
            question.now,
        );
    }
}

/// Tells whether the latest version is an update of the installed one.
fn is_newer(installed: &str, latest: &str) -> (newer: bool)
    ensures
        newer == is_update(installed@, Some(latest@)),
{
    match compare_versions(latest, installed) {
        Some(Ordering::Greater) => true,
        _ => false,
    }
}

/// The hint for a dependency.
pub fn inlay_hint(
    source: &str,
    dependency: &DependencyEntry,
    installed: &str,
    latest: Option<String>,
) -> (hint: Hint)
    requires
        text::byte_len(source@) <= u32::MAX,
        composer::is_entry_of(source@, dependency@),
    ensures
        hint@ == hint_of(
            source@,
            dependency@,
            installed@,
            version_cache::text_view(latest),
        ),
{
    let position = dependency_position(source, dependency);
    let shown = version_label(installed);
    if let Some(latest) = latest {
        if is_newer(installed, latest.as_str()) {
            let newer = version_label(latest.as_str());
            let mut label = shown.clone();
            label.append(" → ");
            label.append(newer.as_str());
            let mut tooltip = dependency.name.clone();
            tooltip.append(": ");
            tooltip.append(shown.as_str());
            tooltip.append(" is installed; ");
            tooltip.append(newer.as_str());
            tooltip.append(" is the newest stable release on Packagist");
            return Hint { position, label, tooltip };
        }
    }
    let mut tooltip = "Version currently installed for ".to_owned();
    tooltip.append(dependency.name.as_str());
    Hint { position, label: shown, tooltip }
}

/// The hints for the dependencies of a document, in the order of its text, and the names of the
/// packages whose latest versions have to be requested.
pub fn inlay_hints(
    document: &Document,
    installed: &EntryMap<String>,
    range: Range,
    check_updates: bool,
    cache: &mut VersionCache,
    now: u64,
) -> (answer: (Vec<Hint>, Vec<String>))
    requires
        document.wf(),
    ensures
        ({
            let question = Question {
                source: document.text@,
                installed: installed@,
                range,
                check_updates,
                cache: old(cache).cache@,
                now,
            };
            let entries = composer::entry_views(document.dependencies@);
            &&& hint_views(answer.0@) == hints_among(question, entries)
            &&& text::text_views(answer.1@) == unknown_among(question, entries)
            &&& final(cache).cache@ == cache_after(question, entries)
            &&& final(cache).warned_about_storage == old(cache).warned_about_storage
        }),
{
    let ghost question = Question {
        source: document.text@,
        installed: installed@,
        range,
        check_updates,
        cache: cache.cache@,
        now,
    };
    let ghost entries = composer::entry_views(document.dependencies@);
    let ghost warned = cache.warned_about_storage;
    let mut hints: Vec<Hint> = Vec::new();
    let mut unknown: Vec<String> = Vec::new();
    let mut i: usize = 0;
    assert(hint_views(hints@) =~= Seq::empty());
    assert(text::text_views(unknown@) =~= Seq::empty());
    while i < document.dependencies.len()
        invariant
            i <= document.dependencies@.len(),
            document.wf(),
            entries == composer::entry_views(document.dependencies@),
            question.source == document.text@,
            question.installed == installed@,
            question.range == range,
            question.check_updates == check_updates,
            question.now == now,
            cache.warned_about_storage == warned,
            cache.cache@ == cache_after(question, entries.take(i as int)),
            hint_views(hints@) == hints_among(question, entries.take(i as int)),
            text::text_views(unknown@) == unknown_among(
                question,
                entries.take(i as int),
            ),
        decreases document.dependencies@.len() - i,
    {
        let dependency = &document.dependencies[i];
        let ghost entry = dependency@;
        let ghost had = hints@;
        let ghost had_unknown = unknown@;
        proof {
            assert(entries[i as int] == entry);
            assert(entries.take(i + 1).drop_last() =~= entries.take(i as int));
            assert(entries.take(i + 1).last() == entry);
            lemma_lookups_change_nothing(question, entries.take(i as int), entry.name);
        }
        i += 1;
        let key = to_ascii_lowercase(dependency.name.as_str());
        if let Some(version) = installed.get(key.as_str()) {
            let position = dependency_position(document.text.as_str(), dependency);
            if position_in_range(position, range) {
                let mut latest: Option<String> = None;
                if check_updates && is_update_section(dependency.section.as_str()) {
                    match cache.get_at(dependency.name.as_str(), now) {
                        CacheLookup::Ready(value) => {
                            latest = value;
                        },
                        CacheLookup::Missing => {
                            unknown.push(dependency.name.clone());
                            assert(text::text_views(unknown@)
                                =~= text::text_views(had_unknown).push(entry.name));
                        },
                        CacheLookup::Pending => {},
                    }
                }
                hints.push(
                    inlay_hint(document.text.as_str(), dependency, version.as_str(), latest),
                );
                assert(hint_views(hints@) =~= hint_views(had).push(hints@.last()@));
            }
        }
    }
    assert(entries.take(entries.len() as int) =~= entries);
    (hints, unknown)
}

/// No two hints stand at the same place.
pub proof fn law_hints_stand_apart(question: Question, entries: Seq<EntryView>)
    requires
        text::byte_len(question.source) <= u32::MAX,
        composer::are_entries_placed(question.source, entries),
    ensures
        forall|i: int, j: int|
            0 <= i < j < hints_among(question, entries).len() ==> (#[trigger] hints_among(
                question,
                entries,
            )[i]).position != (#[trigger] hints_among(question, entries)[j]).position,
{
    lemma_hints_stand_before(question, entries);
}

/// The hints stand one behind the other, and none stands behind the last of the dependencies.
proof fn lemma_hints_stand_before(question: Question, entries: Seq<EntryView>)
    requires
        text::byte_len(question.source) <= u32::MAX,
        composer::are_entries_placed(question.source, entries),
    ensures
        forall|i: int, j: int|
            0 <= i < j < hints_among(question, entries).len() ==> (#[trigger] hints_among(
                question,
                entries,
            )[i]).position != (#[trigger] hints_among(question, entries)[j]).position,
        forall|i: int|
            0 <= i < hints_among(question, entries).len() ==> exists|k: int|
                0 <= k < entries.len() && (#[trigger] hints_among(question, entries)[i]).position
                    == position::position_at(
                    question.source,
                    (#[trigger] entries[k]).value_end,
                ),
    decreases entries.len(),
{
    if entries.len() > 0 {
        let front = entries.drop_last();
        let end = entries.len() - 1;
        let before = hints_among(question, front);
        let after = hints_among(question, entries);
        assert forall|k: int| 0 <= k < front.len() implies front[k] == entries[k] by {}
        assert(composer::are_entries_placed(question.source, front));
        lemma_hints_stand_before(question, front);
        assert forall|i: int| 0 <= i < after.len() implies exists|k: int|
            0 <= k < entries.len() && (#[trigger] after[i]).position == position::position_at(
                question.source,
                (#[trigger] entries[k]).value_end,
            ) by {
            if i < before.len() {
                assert(after[i] == before[i]);
                let k = choose|k: int|
                    0 <= k < front.len() && before[i].position == position::position_at(
                        question.source,
                        (#[trigger] front[k]).value_end,
                    );
                assert(entries[k] == front[k]);
            } else {
                assert(after[i].position == position::position_at(
                    question.source,
                    entries[end].value_end,
                ));
            }
        }
        assert forall|i: int, j: int| 0 <= i < j < after.len() implies (#[trigger] after[i]).position
            != (#[trigger] after[j]).position by {
            assert(after[i] == before[i]);
            if j < before.len() {
                assert(after[j] == before[j]);
            } else {
                let k = choose|k: int|
                    0 <= k < front.len() && before[i].position == position::position_at(
                        question.source,
                        (#[trigger] front[k]).value_end,
                    );
                assert(entries[k] == front[k]);
                assert(entries[k].value_end <= entries[end].key_token.start);
                position::law_positions_follow_offsets(
                    question.source,
                    entries[k].value_end,
                    entries[end].value_end,
                );
            }
        }
    }
}

/// Which installed versions are shown, and where, does not depend on what is known of updates: the
/// hints do not wait for them.
pub proof fn law_local_hints_do_not_wait(
    question: Question,
    other: Question,
    entries: Seq<EntryView>,
)
    requires
        question.source == other.source,
        question.installed == other.installed,
        question.range == other.range,
    ensures
        hints_among(question, entries).len() == hints_among(other, entries).len(),
        forall|i: int|
            0 <= i < hints_among(question, entries).len() ==> (#[trigger] hints_among(
                question,
                entries,
            )[i]).position == hints_among(other, entries)[i].position,
    decreases entries.len(),
{
    if entries.len() > 0 {
        law_local_hints_do_not_wait(question, other, entries.drop_last());
        let before = hints_among(question, entries.drop_last());
        let after = hints_among(question, entries);
        assert forall|i: int| 0 <= i < after.len() implies (#[trigger] after[i]).position
            == hints_among(other, entries)[i].position by {
            if i < before.len() {
                assert(after[i] == before[i]);
            }
        }
    }
}

/// Where updates are not wanted, nothing is requested and nothing is looked up, and every hint says
/// no more than what is installed.
pub proof fn law_nothing_is_requested_unasked(question: Question, entries: Seq<EntryView>)
    requires
        !question.check_updates,
    ensures
        unknown_among(question, entries).len() == 0,
        cache_after(question, entries) == question.cache,
        forall|i: int|
            0 <= i < entries.len() && question.shows(#[trigger] entries[i]) ==> question.hint(
                entries[i],
            ).label == version::label_of(question.installed[text::lowered(entries[i].name)]),
    decreases entries.len(),
{
    if entries.len() > 0 {
        law_nothing_is_requested_unasked(question, entries.drop_last());
    }
}

/// Where nothing is known to be installed, there are no hints, and nothing is requested.
pub proof fn law_hints_are_omitted_without_metadata(question: Question, entries: Seq<EntryView>)
    requires
        question.installed == Map::<Seq<char>, Seq<char>>::empty(),
    ensures
        hints_among(question, entries).len() == 0,
        unknown_among(question, entries).len() == 0,
    decreases entries.len(),
{
    if entries.len() > 0 {
        law_hints_are_omitted_without_metadata(question, entries.drop_last());
    }
}

/// One of the dependencies has the given name, and nothing is known of its updates.
pub open spec fn lacks_update_of(
    question: Question,
    entries: Seq<EntryView>,
    name: Seq<char>,
) -> bool {
    exists|k: int|
        0 <= k < entries.len() && entries[k].name == name && question.lacks_update(
            #[trigger] entries[k],
        )
}

/// Every package whose latest version is requested is one that can be updated, is shown, and is
/// not known of: neither is a request for it under way, nor is what came of one still kept.
pub proof fn law_only_unknown_packages_are_requested(question: Question, entries: Seq<EntryView>)
    ensures
        forall|i: int|
            0 <= i < unknown_among(question, entries).len() ==> lacks_update_of(
                question,
                entries,
                #[trigger] unknown_among(question, entries)[i],
            ),
    decreases entries.len(),
{
    if entries.len() > 0 {
        let front = entries.drop_last();
        let end = entries.len() - 1;
        let before = unknown_among(question, front);
        let after = unknown_among(question, entries);
        law_only_unknown_packages_are_requested(question, front);
        assert forall|i: int| 0 <= i < after.len() implies lacks_update_of(
            question,
            entries,
            #[trigger] after[i],
        ) by {
            if i < before.len() {
                assert(after[i] == before[i]);
                assert(lacks_update_of(question, front, before[i]));
                let k = choose|k: int|
                    0 <= k < front.len() && front[k].name == before[i] && question.lacks_update(
                        #[trigger] front[k],
                    );
                assert(entries[k] == front[k]);
            } else {
                assert(question.lacks_update(entries[end]));
            }
        }
    }
}

/// The dependency is installed in this version, and its constraint ends in the stretch of the text that
/// is asked for, the ends of which belong to it.
pub open spec fn is_asked_for(question: Question, entry: EntryView, installed: Seq<char>) -> bool {
    let place = position::position_at(question.source, entry.value_end);
    &&& question.installed.contains_key(text::lowered(entry.name))
    &&& question.installed[text::lowered(entry.name)] == installed
    &&& place.reaches(question.range.start)
    &&& question.range.end.reaches(place)
}

/// The hint of a dependency is among the hints, and it reads as given.
pub open spec fn is_hinted(
    question: Question,
    entries: Seq<EntryView>,
    entry: EntryView,
    label: Seq<char>,
    tooltip: Seq<char>,
) -> bool {
    exists|k: int| #[trigger]
        is_hint_at(hints_among(question, entries), k, question.source, entry, label, tooltip)
}

/// The hint at this place of a row stands behind the constraint of the dependency, and reads as
/// given.
pub open spec fn is_hint_at(
    hints: Seq<HintView>,
    k: int,
    source: Seq<char>,
    entry: EntryView,
    label: Seq<char>,
    tooltip: Seq<char>,
) -> bool {
    &&& 0 <= k < hints.len()
    &&& hints[k].position == position::position_at(source, entry.value_end)
    &&& hints[k].label == label
    &&& hints[k].tooltip == tooltip
}

proof fn lemma_shown_is_hinted(question: Question, entries: Seq<EntryView>, i: int)
    requires
        0 <= i < entries.len(),
        question.shows(entries[i]),
    ensures
        hints_among(question, entries).contains(question.hint(entries[i])),
    decreases entries.len(),
{
    let front = entries.drop_last();
    let before = hints_among(question, front);
    let after = hints_among(question, entries);
    let hint = question.hint(entries[i]);
    if i < front.len() {
        assert(front[i] == entries[i]);
        lemma_shown_is_hinted(question, front, i);
        let k = choose|k: int| 0 <= k < before.len() && before[k] == hint;
        assert(after[k] == hint);
    } else {
        assert(after[before.len() as int] == hint);
    }
}

/// Where updates are wanted, every dependency of `require` or `require-dev` that is asked for and of
/// which a newer stable version is known has a hint that shows both versions with an arrow between
/// them.
pub proof fn law_update_is_shown(
    question: Question,
    entries: Seq<EntryView>,
    i: int,
    installed: Seq<char>,
    latest: Seq<char>,
    older: Seq<u64>,
    newer: Seq<u64>,
)
    requires
        0 <= i < entries.len(),
        is_asked_for(question, entries[i], installed),
        entries[i].section == "require"@ || entries[i].section == "require-dev"@,
        question.check_updates,
        version_cache::lookup_of(question.cache, entries[i].name, question.now)
            == LookupView::Ready(Some(latest)),
        version::version_parts(installed) == Some(older),
        version::version_parts(latest) == Some(newer),
        version::parts_less(older, newer),
    ensures
        is_hinted(
            question,
            entries,
            entries[i],
            version::label_of(installed) + " → "@ + version::label_of(latest),
            entries[i].name + ": "@ + version::label_of(installed) + " is installed; "@
                + version::label_of(latest) + " is the newest stable release on Packagist"@,
        ),
{
    lemma_shown_is_hinted(question, entries, i);
    let hints = hints_among(question, entries);
    let k = choose|k: int| 0 <= k < hints.len() && hints[k] == question.hint(entries[i]);
    assert(is_hint_at(
        hints,
        k,
        question.source,
        entries[i],
        version::label_of(installed) + " → "@ + version::label_of(latest),
        entries[i].name + ": "@ + version::label_of(installed) + " is installed; "@
            + version::label_of(latest) + " is the newest stable release on Packagist"@,
    ));
}

/// Every other dependency that is asked for has a hint that shows its installed version alone: where
/// updates are not wanted, in every other section, and where no version is known that is stable and
/// ahead of the installed one, which has to be stable too.
pub proof fn law_installed_version_is_shown_alone(
    question: Question,
    entries: Seq<EntryView>,
    i: int,
    installed: Seq<char>,
)
    requires
        0 <= i < entries.len(),
        is_asked_for(question, entries[i], installed),
        !question.check_updates || (entries[i].section != "require"@ && entries[i].section
            != "require-dev"@) || match version_cache::lookup_of(
            question.cache,
            entries[i].name,
            question.now,
        ) {
            LookupView::Ready(Some(latest)) => match (
                version::version_parts(installed),
                version::version_parts(latest),
            ) {
                (Some(older), Some(newer)) => !version::parts_less(older, newer),
                _ => true,
            },
            _ => true,
        },
    ensures
        is_hinted(
            question,
            entries,
            entries[i],
            version::label_of(installed),
            "Version currently installed for "@ + entries[i].name,
        ),
{
    lemma_shown_is_hinted(question, entries, i);
    let hints = hints_among(question, entries);
    let k = choose|k: int| 0 <= k < hints.len() && hints[k] == question.hint(entries[i]);
    assert(is_hint_at(
        hints,
        k,
        question.source,
        entries[i],
        version::label_of(installed),
        "Version currently installed for "@ + entries[i].name,
    ));
}

/// The hint belongs to some dependency that is asked for.
pub open spec fn belongs_to_one(
    question: Question,
    entries: Seq<EntryView>,
    hint: HintView,
) -> bool {
    exists|i: int, installed: Seq<char>|
        0 <= i < entries.len() && #[trigger] is_asked_for(question, entries[i], installed)
            && hint.position == position::position_at(question.source, entries[i].value_end)
}

/// There are no hints but those of dependencies that are asked for.
pub proof fn law_only_dependencies_asked_for_are_hinted(
    question: Question,
    entries: Seq<EntryView>,
)
    ensures
        forall|k: int|
            0 <= k < hints_among(question, entries).len() ==> belongs_to_one(
                question,
                entries,
                #[trigger] hints_among(question, entries)[k],
            ),
    decreases entries.len(),
{
    if entries.len() > 0 {
        let front = entries.drop_last();
        let end = entries.len() - 1;
        let before = hints_among(question, front);
        let after = hints_among(question, entries);
        law_only_dependencies_asked_for_are_hinted(question, front);
        assert forall|k: int| 0 <= k < after.len() implies belongs_to_one(
            question,
            entries,
            #[trigger] after[k],
        ) by {
            if k < before.len() {
                assert(after[k] == before[k]);
                let (i, installed) = choose|i: int, installed: Seq<char>|
                    0 <= i < front.len() && #[trigger] is_asked_for(question, front[i], installed)
                        && before[k].position == position::position_at(
                        question.source,
                        front[i].value_end,
                    );
                assert(is_asked_for(question, entries[i], installed));
            } else {
                let installed = question.installed[text::lowered(entries[end].name)];
                assert(is_asked_for(question, entries[end], installed));
            }
        }
    }
}

/// The latest version of the dependency has to be requested: updates are wanted, it is asked for and
/// stands in one of the two sections that can be updated, and nothing is known of it.
pub open spec fn has_to_be_requested(question: Question, entry: EntryView) -> bool {
    &&& question.check_updates
    &&& entry.section == "require"@ || entry.section == "require-dev"@
    &&& exists|installed: Seq<char>| is_asked_for(question, entry, installed)
    &&& version_cache::lookup_of(question.cache, entry.name, question.now) is Missing
}

/// The names of the packages that have to be requested are exactly those of such dependencies.
pub proof fn law_all_unknown_packages_are_requested(
    question: Question,
    entries: Seq<EntryView>,
    name: Seq<char>,
)
    ensures
        unknown_among(question, entries).contains(name) <==> exists|i: int|
            0 <= i < entries.len() && has_to_be_requested(question, #[trigger] entries[i])
                && entries[i].name == name,
    decreases entries.len(),
{
    if entries.len() > 0 {
        let front = entries.drop_last();
        let end = entries.len() - 1;
        let before = unknown_among(question, front);
        let after = unknown_among(question, entries);
        law_all_unknown_packages_are_requested(question, front, name);
        if question.shows(entries[end]) {
            assert(is_asked_for(
                question,
                entries[end],
                question.installed[text::lowered(entries[end].name)],
            ));
        }
        assert(has_to_be_requested(question, entries[end]) == question.lacks_update(entries[end]));
        if before.contains(name) {
            let k = choose|k: int| 0 <= k < before.len() && before[k] == name;
            assert(after[k] == name);
            let i = choose|i: int|
                0 <= i < front.len() && has_to_be_requested(question, #[trigger] front[i])
                    && front[i].name == name;
            assert(entries[i] == front[i]);
        }
        if question.lacks_update(entries[end]) && entries[end].name == name {
            assert(after[before.len() as int] == name);
            assert(has_to_be_requested(question, entries[end]));
        }
        if after.contains(name) && !before.contains(name) {
            let k = choose|k: int| 0 <= k < after.len() && after[k] == name;
            if k < before.len() {
                assert(before[k] == name);
            }
        }
        if exists|i: int|
            0 <= i < entries.len() && has_to_be_requested(question, #[trigger] entries[i])
                && entries[i].name == name {
            let i = choose|i: int|
                0 <= i < entries.len() && has_to_be_requested(question, #[trigger] entries[i])
                    && entries[i].name == name;
            if i < end {
                assert(front[i] == entries[i]);
            }
        }
    } else {
        assert(!unknown_among(question, entries).contains(name));
    }
}

/// Every dependency has a link, in the order of the dependencies. It leads from the name, without its
/// quotes, to the page of the package on Packagist.
pub proof fn law_every_dependency_is_linked(source: Seq<char>, entries: Seq<EntryView>, i: int)
    requires
        0 <= i < entries.len(),
    ensures
        links_for(source, entries).len() == entries.len(),
        links_for(source, entries)[i].target == "https://packagist.org/packages/"@ + entries[i].name,
        links_for(source, entries)[i].tooltip == "Open "@ + entries[i].name + " on Packagist"@,
        links_for(source, entries)[i].range.start == position::position_at(
            source,
            entries[i].key_token.start + 1,
        ),
        links_for(source, entries)[i].range.end == position::position_at(
            source,
            entries[i].key_token.end - 1,
        ),
{
}

/// The hints stand in the order of the dependencies, each for itself: those of some dependencies are
/// followed by those of the dependencies behind them. The same is true of the packages to request.
pub proof fn law_dependencies_are_answered_in_order(
    question: Question,
    some: Seq<EntryView>,
    more: Seq<EntryView>,
)
    ensures
        hints_among(question, some + more) == hints_among(question, some) + hints_among(
            question,
            more,
        ),
        unknown_among(question, some + more) == unknown_among(question, some) + unknown_among(
            question,
            more,
        ),
    decreases more.len(),
{
    let all = some + more;
    if more.len() == 0 {
        assert(all =~= some);
        assert(hints_among(question, all) =~= hints_among(question, some) + hints_among(
            question,
            more,
        ));
        assert(unknown_among(question, all) =~= unknown_among(question, some) + unknown_among(
            question,
            more,
        ));
    } else {
        law_dependencies_are_answered_in_order(question, some, more.drop_last());
        assert(all.drop_last() =~= some + more.drop_last());
        assert(all.last() == more.last());
        assert(hints_among(question, all) =~= hints_among(question, some) + hints_among(
            question,
            more,
        ));
        assert(unknown_among(question, all) =~= unknown_among(question, some) + unknown_among(
            question,
            more,
        ));
    }
}

/// One dependency has no more than one hint.
pub proof fn law_one_dependency_has_one_hint(question: Question, entry: EntryView)
    ensures
        hints_among(question, seq![entry]).len() <= 1,
        unknown_among(question, seq![entry]).len() <= 1,
        hints_among(question, seq![entry]).len() == 1 <==> exists|installed: Seq<char>|
            is_asked_for(question, entry, installed),
{
    reveal_with_fuel(hints_among, 2);
    reveal_with_fuel(unknown_among, 2);
    assert(seq![entry].drop_last() =~= Seq::empty());
    assert(seq![entry].last() == entry);
    if question.shows(entry) {
        assert(is_asked_for(question, entry, question.installed[text::lowered(entry.name)]));
    }
}

/// What is kept of versions changes only in that entries that no longer count may be gone, so every
/// later lookup finds the same.
pub proof fn law_answers_keep_what_is_known(
    question: Question,
    entries: Seq<EntryView>,
    name: Seq<char>,
    moment: u64,
)
    requires
        question.now <= moment,
    ensures
        version_cache::lookup_of(cache_after(question, entries), name, moment)
            == version_cache::lookup_of(question.cache, name, moment),
        cache_after(question, entries).timestamps == question.cache.timestamps,
    decreases entries.len(),
{
    if entries.len() > 0 {
        law_answers_keep_what_is_known(question, entries.drop_last(), name, moment);
    }
}

} // verus!
