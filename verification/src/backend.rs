//! What the server keeps of open documents and of Packagist while it runs, and what it answers.
use crate::composer;
use crate::composer::{dependency_entries, DependencyEntry};
use crate::entries;
use crate::entries::EntryMap;
use crate::scanner;
use crate::text;
use crate::text::{byte_length, to_ascii_lowercase};
use crate::version_cache;
use crate::version_cache::{copy_of_text, CacheLookup, LookupView};
use vstd::prelude::*;

verus! {

/// For how many nanoseconds the version of a package is kept.
pub const PACKAGIST_CACHE_TTL: u64 = 6 * 60 * 60 * 1_000_000_000;

/// For how many nanoseconds a failure is kept.
pub const PACKAGIST_ERROR_CACHE_TTL: u64 = 15 * 60 * 1_000_000_000;

/// After how many nanoseconds a request is given up.
pub const PACKAGIST_TIMEOUT: u64 = 5 * 1_000_000_000;

/// For how many nanoseconds one budget of requests has to last.
pub const PACKAGIST_REQUEST_WINDOW: u64 = 60 * 60 * 1_000_000_000;

pub const MAX_PACKAGIST_REQUESTS_PER_WINDOW: usize = 256;

pub const MAX_CONCURRENT_REQUESTS: usize = 4;

pub const MAX_CACHE_ENTRIES: usize = 256;

pub const MAX_DOCUMENT_BYTES: usize = 2 * 1024 * 1024;

/// An open document and the dependencies that it names.
#[derive(Debug)]
pub struct Document {
    pub text: String,
    pub dependencies: Vec<DependencyEntry>,
}

impl Document {
    /// The dependencies are those of the text, and the text is not oversized.
    pub open spec fn wf(&self) -> bool {
        &&& text::byte_len(self.text@) <= MAX_DOCUMENT_BYTES
        &&& composer::entry_views(self.dependencies@) == composer::dependencies_of(
            scanner::tokens_of(self.text@),
        )
        &&& composer::are_entries_placed(
            self.text@,
            composer::entry_views(self.dependencies@),
        )
    }

    /// The document with the given text. Of an oversized text nothing is kept.
    pub fn new(text: String) -> (document: Self)
        ensures
            document.wf(),
            text::byte_len(text@) <= MAX_DOCUMENT_BYTES ==> document.text@ == text@,
            text::byte_len(text@) > MAX_DOCUMENT_BYTES ==> document.text@.len() == 0
                && document.dependencies@.len() == 0,
    {
        let kept = if byte_length(text.as_str()) > MAX_DOCUMENT_BYTES {
            String::new()
        } else {
            text
        };
        let dependencies = dependency_entries(kept.as_str());
        proof {
            let entries = composer::entry_views(dependencies@);
            if kept@.len() == 0 && entries.len() > 0 {
                assert(entries[0].value_end <= text::byte_len(kept@));
                assert(text::byte_len(kept@) == 0);
            }
        }
        Document { text: kept, dependencies }
    }
}

/// A request under way, or what came of one.
#[derive(Debug)]
pub enum CacheEntry {
    Pending,
    Ready { value: Option<String>, expires_at: u64 },
}

pub enum CacheEntryView {
    Pending,
    Ready { value: Option<Seq<char>>, expires_at: u64 },
}

impl View for CacheEntry {
    type V = CacheEntryView;

    open spec fn view(&self) -> CacheEntryView {
        match *self {
            CacheEntry::Pending => CacheEntryView::Pending,
            CacheEntry::Ready { value, expires_at } => CacheEntryView::Ready {
                value: version_cache::text_view(value),
                expires_at,
            },
        }
    }
}

impl CacheEntryView {
    /// The entry is a result that no longer counts.
    pub open spec fn is_expired(self, now: u64) -> bool {
        self matches CacheEntryView::Ready { expires_at, .. } && expires_at <= now
    }
}

/// The versions of packages that are kept in memory only, by lower-case names, and the requests
/// since the last budget began. Moments are in nanoseconds from some moment before the server
/// started.
#[derive(Debug)]
pub struct VersionCache {
    pub entries: EntryMap<CacheEntry>,
    pub request_window_started: u64,
    pub requests_in_window: usize,
}

#[verifier::ext_equal]
pub struct VersionCacheView {
    pub entries: Map<Seq<char>, CacheEntryView>,
    pub window_started: u64,
    pub requests: nat,
}

impl View for VersionCache {
    type V = VersionCacheView;

    open spec fn view(&self) -> VersionCacheView {
        VersionCacheView {
            entries: self.entries@,
            window_started: self.request_window_started,
            requests: self.requests_in_window as nat,
        }
    }
}

/// For how long a result is kept.
pub open spec fn result_ttl(value: Option<Seq<char>>) -> u64 {
    if value is Some {
        PACKAGIST_CACHE_TTL
    } else {
        PACKAGIST_ERROR_CACHE_TTL
    }
}

/// What a cache knows of a package at the given moment.
pub open spec fn lookup_of(cache: VersionCacheView, name: Seq<char>, now: u64) -> LookupView {
    let key = text::lowered(name);
    if cache.entries.contains_key(key) {
        match cache.entries[key] {
            CacheEntryView::Pending => LookupView::Pending,
            CacheEntryView::Ready { value, expires_at } => if expires_at > now {
                LookupView::Ready(value)
            } else {
                LookupView::Missing
            },
        }
    } else {
        LookupView::Missing
    }
}

/// A cache after a package was looked up: a result that no longer counts is gone.
pub open spec fn after_lookup(cache: VersionCacheView, name: Seq<char>, now: u64) -> VersionCacheView {
    let key = text::lowered(name);
    if cache.entries.contains_key(key) && cache.entries[key].is_expired(now) {
        VersionCacheView { entries: cache.entries.remove(key), ..cache }
    } else {
        cache
    }
}

/// The entries without the results that no longer count.
pub open spec fn current_entries(entries: Map<Seq<char>, CacheEntryView>, now: u64) -> Map<
    Seq<char>,
    CacheEntryView,
> {
    Map::new(
        |name: Seq<char>| entries.contains_key(name) && !entries[name].is_expired(now),
        |name: Seq<char>| entries[name],
    )
}

/// A cache without the results that no longer count.
pub open spec fn pruned(cache: VersionCacheView, now: u64) -> VersionCacheView {
    VersionCacheView { entries: current_entries(cache.entries, now), ..cache }
}

/// A cache with a budget that has not run out of time: the time of the last one, or a new one that
/// begins now.
pub open spec fn with_budget(cache: VersionCacheView, now: u64) -> VersionCacheView {
    if now - cache.window_started >= PACKAGIST_REQUEST_WINDOW {
        VersionCacheView { window_started: now, requests: 0, ..cache }
    } else {
        cache
    }
}

/// Whether a request is started, and the cache after that. It is started where the package is not
/// known, the cache is not full, and the budget is not used up.
pub open spec fn begun(cache: VersionCacheView, name: Seq<char>, now: u64) -> (
    bool,
    VersionCacheView,
) {
    if !(lookup_of(cache, name, now) is Missing) {
        (false, cache)
    } else {
        let current = pruned(cache, now);
        if current.entries.dom().len() >= MAX_CACHE_ENTRIES {
            (false, current)
        } else {
            let ready = with_budget(current, now);
            if ready.requests >= MAX_PACKAGIST_REQUESTS_PER_WINDOW {
                (false, ready)
            } else {
                (
                    true,
                    VersionCacheView {
                        entries: ready.entries.insert(text::lowered(name), CacheEntryView::Pending),
                        requests: ready.requests + 1,
                        ..ready
                    },
                )
            }
        }
    }
}

/// A cache after a request was finished.
pub open spec fn finished(
    cache: VersionCacheView,
    name: Seq<char>,
    value: Option<Seq<char>>,
    now: u64,
) -> VersionCacheView {
    VersionCacheView {
        entries: cache.entries.insert(
            text::lowered(name),
            CacheEntryView::Ready { value, expires_at: (now + result_ttl(value)) as u64 },
        ),
        ..cache
    }
}

impl VersionCache {
    /// A cache that knows of no package, with a budget that begins now.
    pub fn new(now: u64) -> (cache: Self)
        ensures
            cache@ == (VersionCacheView {
                entries: Map::empty(),
                window_started: now,
                requests: 0,
            }),
    {
        VersionCache {
            entries: EntryMap::new(),
            request_window_started: now,
            requests_in_window: 0,
        }
    }

    /// What the cache knows of a package.
    pub fn get(&mut self, package_name: &str, now: u64) -> (found: CacheLookup)
        ensures
            found@ == lookup_of(old(self)@, package_name@, now),
            final(self)@ == after_lookup(old(self)@, package_name@, now),
    {
        let key = to_ascii_lowercase(package_name);
        let found = match self.entries.get(key.as_str()) {
            Some(CacheEntry::Pending) => CacheLookup::Pending,
            Some(CacheEntry::Ready { value, expires_at }) => {
                if *expires_at > now {
                    CacheLookup::Ready(copy_of_text(value))
                } else {
                    CacheLookup::Missing
                }
            },
            None => CacheLookup::Missing,
        };
        if let CacheLookup::Missing = found {
            self.entries.remove(key.as_str());
            assert(!old(self)@.entries.contains_key(key@) ==> old(self)@.entries.remove(key@)
                =~= old(self)@.entries);
        }
        found
    }

    /// Starts a request, and tells whether it did.
    pub fn begin_request(&mut self, package_name: &str, now: u64) -> (started: bool)
        ensures
            (started, final(self)@) == begun(old(self)@, package_name@, now),
    {
        let key = to_ascii_lowercase(package_name);
        proof {
            text::lemma_lowered_twice(package_name@);
        }
        match self.get(key.as_str(), now) {
            CacheLookup::Missing => {},
            _ => {
                return false;
            },
        }
        self.prune(now);
        assert(self@ =~= pruned(old(self)@, now));
        if self.entries.len() >= MAX_CACHE_ENTRIES {
            return false;
        }
        if now.saturating_sub(self.request_window_started) >= PACKAGIST_REQUEST_WINDOW {
            self.request_window_started = now;
            self.requests_in_window = 0;
        }
        if self.requests_in_window >= MAX_PACKAGIST_REQUESTS_PER_WINDOW {
            return false;
        }
        self.entries.insert(key, CacheEntry::Pending);
        self.requests_in_window = self.requests_in_window + 1;
        true
    }

    /// Keeps what came of a request.
    pub fn finish_request(&mut self, package_name: &str, value: Option<String>, now: u64)
        requires
            now + result_ttl(version_cache::text_view(value)) <= u64::MAX,
        ensures
            final(self)@ == finished(
                old(self)@,
                package_name@,
                version_cache::text_view(value),
                now,
            ),
    {
        let ttl = if value.is_some() {
            PACKAGIST_CACHE_TTL
        } else {
            PACKAGIST_ERROR_CACHE_TTL
        };
        self.entries.insert(
            to_ascii_lowercase(package_name),
            CacheEntry::Ready { value, expires_at: now + ttl },
        );
    }

    /// Takes the results out that no longer count.
    pub fn prune(&mut self, now: u64)
        ensures
            final(self)@ == pruned(old(self)@, now),
    {
        let mut entries: EntryMap<CacheEntry> = EntryMap::new();
        std::mem::swap(&mut entries, &mut self.entries);
        let ghost all = entries.listed();
        let mut rows = entries.into_rows();
        let mut current: EntryMap<CacheEntry> = EntryMap::new();
        assert(entries::row_views(rows@) =~= all.take(rows@.len() as int));
        while rows.len() > 0
            invariant
                entries::are_distinct(all),
                rows@.len() <= all.len(),
                entries::row_views(rows@) == all.take(rows@.len() as int),
                forall|i: int|
                    #![trigger all[i]]
                    rows@.len() <= i < all.len() && !all[i].1.is_expired(now)
                        ==> current@.contains_key(all[i].0) && current@[all[i].0] == all[i].1,
                forall|name: Seq<char>| #[trigger]
                    current@.contains_key(name) ==> exists|i: int|
                        rows@.len() <= i < all.len() && (#[trigger] all[i]).0 == name
                            && !all[i].1.is_expired(now),
            decreases rows@.len(),
        {
            let ghost before = rows@;
            let ghost had = current@;
            let ghost at = rows@.len() - 1;
            let (name, entry) = rows.pop().unwrap();
            assert(entries::row_views(before)[at] == all[at]);
            assert(entries::row_views(rows@) =~= all.take(at));
            let expired = match &entry {
                CacheEntry::Ready { expires_at, .. } => *expires_at <= now,
                CacheEntry::Pending => false,
            };
            if !expired {
                current.insert(name, entry);
            }
            proof {
                assert forall|i: int|
                    #![trigger all[i]]
                    rows@.len() <= i < all.len() && !all[i].1.is_expired(
                        now,
                    ) implies current@.contains_key(all[i].0) && current@[all[i].0]
                    == all[i].1 by {
                    if i > at {
                        assert(all[at].0 != all[i].0);
                    }
                }
                assert forall|other: Seq<char>| #[trigger]
                    current@.contains_key(other) implies exists|i: int|
                    rows@.len() <= i < all.len() && (#[trigger] all[i]).0 == other
                        && !all[i].1.is_expired(now) by {
                    if had.contains_key(other) {
                        let i = choose|i: int|
                            before.len() <= i < all.len() && (#[trigger] all[i]).0 == other
                                && !all[i].1.is_expired(now);
                        assert(all[i].0 == other);
                    } else {
                        assert(all[at].0 == other);
                    }
                }
            }
        }
        proof {
            entries::lemma_map_of(all);
            let wanted = current_entries(old(self)@.entries, now);
            assert forall|name: Seq<char>|
                current@.contains_key(name) == wanted.contains_key(name) && (current@.contains_key(
                    name,
                ) ==> current@[name] == wanted[name]) by {
                if current@.contains_key(name) {
                    let i = choose|i: int|
                        0 <= i < all.len() && (#[trigger] all[i]).0 == name
                            && !all[i].1.is_expired(now);
                    assert(old(self)@.entries[all[i].0] == all[i].1);
                }
                if wanted.contains_key(name) {
                    let i = choose|i: int| 0 <= i < all.len() && (#[trigger] all[i]).0 == name;
                    assert(old(self)@.entries[all[i].0] == all[i].1);
                }
            }
            assert(current@ =~= wanted);
        }
        self.entries = current;
    }
}

/// A package for which a request was started is not requested again until that request is finished,
/// however its name is spelled in capitals.
pub proof fn law_started_request_blocks_others(
    cache: VersionCacheView,
    name: Seq<char>,
    now: u64,
    again: Seq<char>,
    moment: u64,
)
    requires
        begun(cache, name, now).0,
        text::lowered(again) == text::lowered(name),
    ensures
        lookup_of(begun(cache, name, now).1, again, moment) == LookupView::Pending,
        begun(begun(cache, name, now).1, again, moment) == (false, begun(cache, name, now).1),
{
}

/// The requests of one budget never exceed it: a request is counted in the budget that is running,
/// or it is the first one of a budget that begins with it.
pub proof fn law_budget_is_kept(cache: VersionCacheView, name: Seq<char>, now: u64)
    requires
        cache.requests <= MAX_PACKAGIST_REQUESTS_PER_WINDOW,
    ensures
        begun(cache, name, now).1.requests <= MAX_PACKAGIST_REQUESTS_PER_WINDOW,
        begun(cache, name, now).0 ==> {
            let after = begun(cache, name, now).1;
            ||| after.window_started == cache.window_started && after.requests == cache.requests
                + 1 && now - cache.window_started < PACKAGIST_REQUEST_WINDOW
            ||| after.window_started == now && after.requests == 1 && now - cache.window_started
                >= PACKAGIST_REQUEST_WINDOW
        },
{
}

/// Every budget that a new one follows has lasted its whole time.
pub proof fn law_budget_lasts(cache: VersionCacheView, name: Seq<char>, now: u64)
    ensures
        begun(cache, name, now).1.window_started != cache.window_started ==> begun(
            cache,
            name,
            now,
        ).1.window_started == now && now - cache.window_started >= PACKAGIST_REQUEST_WINDOW,
{
}

/// Something that happens to a cache in memory.
pub enum Operation {
    Lookup { name: Seq<char> },
    Begin { name: Seq<char> },
    Finish { name: Seq<char>, value: Option<Seq<char>> },
    Prune,
}

/// An operation and the moment at which it happens.
pub struct Step {
    pub now: u64,
    pub operation: Operation,
}

/// The cache after a step.
pub open spec fn after_step(cache: VersionCacheView, step: Step) -> VersionCacheView {
    match step.operation {
        Operation::Lookup { name } => after_lookup(cache, name, step.now),
        Operation::Begin { name } => begun(cache, name, step.now).1,
        Operation::Finish { name, value } => finished(cache, name, value, step.now),
        Operation::Prune => pruned(cache, step.now),
    }
}

/// The cache after a row of steps.
pub open spec fn after_steps(cache: VersionCacheView, steps: Seq<Step>) -> VersionCacheView
    decreases steps.len(),
{
    if steps.len() == 0 {
        cache
    } else {
        after_step(after_steps(cache, steps.drop_last()), steps.last())
    }
}

/// The step neither starts nor finishes a request for the package.
pub open spec fn leaves_alone(step: Step, key: Seq<char>) -> bool {
    match step.operation {
        Operation::Begin { name } => text::lowered(name) != key,
        Operation::Finish { name, .. } => text::lowered(name) != key,
        _ => true,
    }
}

/// What came of a request is served until it expires, whatever happens to the cache in between, as
/// long as no other request for the package is started or finished and the clock is not set back: a
/// version for six hours, a failure for a quarter of an hour. After that the package is unknown. The
/// lookup takes nothing out but a result of the package that no longer counts.
pub proof fn law_result_is_served_until_it_expires(
    cache: VersionCacheView,
    name: Seq<char>,
    value: Option<Seq<char>>,
    now: u64,
    steps: Seq<Step>,
    again: Seq<char>,
    moment: u64,
)
    requires
        now + result_ttl(value) <= u64::MAX,
        text::lowered(again) == text::lowered(name),
        forall|i: int|
            0 <= i < steps.len() ==> leaves_alone(#[trigger] steps[i], text::lowered(name))
                && steps[i].now <= moment,
    ensures
        ({
            let kept = after_steps(finished(cache, name, value, now), steps);
            if moment < now + result_ttl(value) {
                &&& lookup_of(kept, again, moment) == LookupView::Ready(value)
                &&& after_lookup(kept, again, moment) == kept
            } else {
                &&& lookup_of(kept, again, moment) == LookupView::Missing
                &&& after_lookup(kept, again, moment) == (VersionCacheView {
                    entries: kept.entries.remove(text::lowered(name)),
                    ..kept
                })
            }
        }),
{
    let key = text::lowered(name);
    let kept = after_steps(finished(cache, name, value, now), steps);
    lemma_result_stays(cache, name, value, now, steps, moment);
    if !kept.entries.contains_key(key) {
        assert(kept.entries.remove(key) =~= kept.entries);
    }
}

/// The result stays in the cache; only after it has expired it may be gone.
proof fn lemma_result_stays(
    cache: VersionCacheView,
    name: Seq<char>,
    value: Option<Seq<char>>,
    now: u64,
    steps: Seq<Step>,
    moment: u64,
)
    requires
        now + result_ttl(value) <= u64::MAX,
        forall|i: int|
            0 <= i < steps.len() ==> leaves_alone(#[trigger] steps[i], text::lowered(name))
                && steps[i].now <= moment,
    ensures
        ({
            let key = text::lowered(name);
            let kept = after_steps(finished(cache, name, value, now), steps);
            if kept.entries.contains_key(key) {
                kept.entries[key] == (CacheEntryView::Ready {
                    value,
                    expires_at: (now + result_ttl(value)) as u64,
                })
            } else {
                now + result_ttl(value) <= moment
            }
        }),
    decreases steps.len(),
{
    if steps.len() > 0 {
        let front = steps.drop_last();
        let end = steps.len() - 1;
        assert forall|i: int| 0 <= i < front.len() implies leaves_alone(
            #[trigger] front[i],
            text::lowered(name),
        ) && front[i].now <= moment by {
            assert(front[i] == steps[i]);
        }
        lemma_result_stays(cache, name, value, now, front, moment);
        assert(leaves_alone(steps[end], text::lowered(name)));
    }
}

/// In memory, versions are kept for six hours and failures for a quarter of an hour. No more than 256
/// packages are kept and no more than 256 are requested in an hour, four at a time, and each is given
/// up after five seconds. Documents of up to 2 MiB are read.
pub proof fn law_limits_in_memory(version: Seq<char>)
    ensures
        result_ttl(Some(version)) == 21_600_000_000_000,
        result_ttl(None) == 900_000_000_000,
        PACKAGIST_REQUEST_WINDOW == 3_600_000_000_000,
        PACKAGIST_TIMEOUT == 5_000_000_000,
        MAX_PACKAGIST_REQUESTS_PER_WINDOW == 256,
        MAX_CONCURRENT_REQUESTS == 4,
        MAX_CACHE_ENTRIES == 256,
        MAX_DOCUMENT_BYTES == 2_097_152,
{
}

/// A package of which nothing is known is requested wherever there is room for it among the packages
/// that still count, and the hour that is running has requests left or is over. What is known of other
/// packages stays, but for results that no longer count.
pub proof fn law_unknown_package_is_requested_in_memory(
    cache: VersionCacheView,
    name: Seq<char>,
    now: u64,
    other: Seq<char>,
)
    requires
        lookup_of(cache, name, now) is Missing,
        pruned(cache, now).entries.dom().len() < 256,
        cache.requests < 256 || now - cache.window_started >= 3_600_000_000_000,
        text::lowered(other) != text::lowered(name),
    ensures
        begun(cache, name, now).0,
        lookup_of(begun(cache, name, now).1, name, now) == LookupView::Pending,
        lookup_of(begun(cache, name, now).1, other, now) == lookup_of(cache, other, now),
{
}

/// Nothing is requested where there is no room, or where the running hour has no requests left.
pub proof fn law_nothing_is_requested_beyond_limits_in_memory(
    cache: VersionCacheView,
    name: Seq<char>,
    now: u64,
)
    requires
        pruned(cache, now).entries.dom().len() >= 256 || (cache.requests >= 256 && now
            - cache.window_started < 3_600_000_000_000),
    ensures
        !begun(cache, name, now).0,
{
}

/// What is finished for one package changes nothing that is known of another one.
pub proof fn law_results_are_kept_apart_in_memory(
    cache: VersionCacheView,
    name: Seq<char>,
    value: Option<Seq<char>>,
    now: u64,
    other: Seq<char>,
    moment: u64,
)
    requires
        text::lowered(other) != text::lowered(name),
    ensures
        lookup_of(finished(cache, name, value, now), other, moment) == lookup_of(
            cache,
            other,
            moment,
        ),
        finished(cache, name, value, now).requests == cache.requests,
        finished(cache, name, value, now).window_started == cache.window_started,
{
}

/// To take out results that no longer count, or to look a package up, changes nothing that is known: not
/// of the package itself, not of requests under way, and not of other packages.
pub proof fn law_tidying_changes_nothing_that_is_known(
    cache: VersionCacheView,
    name: Seq<char>,
    now: u64,
    other: Seq<char>,
    moment: u64,
)
    requires
        now <= moment,
    ensures
        lookup_of(pruned(cache, now), other, moment) == lookup_of(cache, other, moment),
        lookup_of(after_lookup(cache, name, now), other, moment) == lookup_of(cache, other, moment),
        pruned(cache, now).requests == cache.requests,
        pruned(cache, now).window_started == cache.window_started,
        after_lookup(cache, name, now).requests == cache.requests,
        after_lookup(cache, name, now).window_started == cache.window_started,
        pruned(cache, now).entries.contains_key(other) ==> !(pruned(
            cache,
            now,
        ).entries[other] matches CacheEntryView::Ready { expires_at, .. } && expires_at <= now),
{
}

/// What is known of a package in memory: a request under way until it is finished, and a result until it
/// expires, under every spelling of the name in capitals.
pub proof fn law_entries_count_in_memory(cache: VersionCacheView, name: Seq<char>, now: u64)
    ensures
        ({
            let key = text::lowered(name);
            let found = lookup_of(cache, name, now);
            &&& !cache.entries.contains_key(key) ==> found is Missing
            &&& cache.entries.contains_key(key) ==> match cache.entries[key] {
                CacheEntryView::Pending => found is Pending,
                CacheEntryView::Ready { value, expires_at } => if now < expires_at {
                    found == LookupView::Ready(value)
                } else {
                    found is Missing
                },
            }
        }),
{
}

/// A document that is kept has up to 2 MiB, and its dependencies are all that its tokens name, whatever
/// else its text holds.
pub proof fn law_document_has_the_dependencies_of_its_text(document: Document)
    requires
        document.wf(),
    ensures
        text::byte_len(document.text@) <= 2_097_152,
        composer::entry_views(document.dependencies@) == composer::dependencies_of(
            scanner::tokens_of(document.text@),
        ),
{
}

} // verus!
