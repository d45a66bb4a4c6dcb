//! The cache of Packagist versions that outlives the server, and the budget of requests.
use crate::entries;
use crate::entries::EntryMap;
use crate::text;
use crate::text::{byte_length, same_text, to_ascii_lowercase};
use vstd::prelude::*;
use vstd::relations::sorted_by;

verus! {

/// The environment variable that names the directory of the cache.
pub const CACHE_DIRECTORY_ENV: &'static str = "COMPOSER_LANGUAGE_SERVER_CACHE_DIR";

pub const CACHE_SCHEMA_VERSION: u32 = 1;

pub const CACHE_FILE_NAME: &'static str = "packagist-versions-v1.json";

pub const CACHE_LOCK_FILE_NAME: &'static str = "packagist-versions.lock";

pub const CACHE_TTL_SECONDS: u64 = 6 * 60 * 60;

pub const ERROR_CACHE_TTL_SECONDS: u64 = 15 * 60;

pub const PENDING_TTL_SECONDS: u64 = 30;

pub const REQUEST_WINDOW_SECONDS: u64 = 60 * 60;

pub const MAX_REQUESTS_PER_WINDOW: usize = 256;

pub const MAX_CACHE_ENTRIES: usize = 256;

pub const MAX_CACHE_FILE_BYTES: u64 = 256 * 1024;

pub const MAX_PACKAGE_NAME_BYTES: usize = 256;

pub const MAX_VERSION_BYTES: usize = 256;

pub const CLOCK_SKEW_TOLERANCE_SECONDS: u64 = 5 * 60;

/// The text behind an optional value.
pub open spec fn text_view(value: Option<String>) -> Option<Seq<char>> {
    match value {
        Some(value) => Some(value@),
        None => None,
    }
}

/// What the cache knows of a package.
#[derive(Debug, PartialEq, Eq)]
pub enum CacheLookup {
    Ready(Option<String>),
    Pending,
    Missing,
}

pub enum LookupView {
    Ready(Option<Seq<char>>),
    Pending,
    Missing,
}

impl View for CacheLookup {
    type V = LookupView;

    open spec fn view(&self) -> LookupView {
        match *self {
            CacheLookup::Ready(value) => LookupView::Ready(text_view(value)),
            CacheLookup::Pending => LookupView::Pending,
            CacheLookup::Missing => LookupView::Missing,
        }
    }
}

/// The answer to the wish to request the versions of a package.
#[derive(Debug, PartialEq, Eq)]
pub enum RequestClaim {
    Started,
    Ready(Option<String>),
    Pending,
    Rejected,
}

pub enum ClaimView {
    Started,
    Ready(Option<Seq<char>>),
    Pending,
    Rejected,
}

impl View for RequestClaim {
    type V = ClaimView;

    open spec fn view(&self) -> ClaimView {
        match *self {
            RequestClaim::Started => ClaimView::Started,
            RequestClaim::Ready(value) => ClaimView::Ready(text_view(value)),
            RequestClaim::Pending => ClaimView::Pending,
            RequestClaim::Rejected => ClaimView::Rejected,
        }
    }
}

/// A request under way, or what came of one.
#[derive(Debug)]
pub enum CacheEntry {
    Pending { expires_at: u64 },
    Ready { value: Option<String>, expires_at: u64 },
}

pub enum CacheEntryView {
    Pending { expires_at: u64 },
    Ready { value: Option<Seq<char>>, expires_at: u64 },
}

impl View for CacheEntry {
    type V = CacheEntryView;

    open spec fn view(&self) -> CacheEntryView {
        match *self {
            CacheEntry::Pending { expires_at } => CacheEntryView::Pending { expires_at },
            CacheEntry::Ready { value, expires_at } => CacheEntryView::Ready {
                value: text_view(value),
                expires_at,
            },
        }
    }
}

/// A copy of an optional text.
pub(crate) fn copy_of_text(value: &Option<String>) -> (copy: Option<String>)
    ensures
        text_view(copy) == text_view(*value),
{
    match value {
        Some(value) => Some(value.clone()),
        None => None,
    }
}

impl Clone for CacheEntry {
    fn clone(&self) -> (copy: Self)
        ensures
            copy@ == self@,
    {
        match self {
            CacheEntry::Pending { expires_at } => CacheEntry::Pending { expires_at: *expires_at },
            CacheEntry::Ready { value, expires_at } => CacheEntry::Ready {
                value: copy_of_text(value),
                expires_at: *expires_at,
            },
        }
    }
}

/// A moment some seconds later; the last moment there is, where that lies beyond it.
pub open spec fn later(now: u64, seconds: u64) -> u64 {
    if now + seconds > u64::MAX {
        u64::MAX
    } else {
        (now + seconds) as u64
    }
}

/// How long a result is kept: a failure is kept for less time than a version.
pub open spec fn result_ttl(value: Option<Seq<char>>) -> u64 {
    if value is Some {
        CACHE_TTL_SECONDS
    } else {
        ERROR_CACHE_TTL_SECONDS
    }
}

impl CacheEntryView {
    /// The first moment at which the entry no longer counts.
    pub open spec fn expiry(self) -> u64 {
        match self {
            CacheEntryView::Pending { expires_at } => expires_at,
            CacheEntryView::Ready { expires_at, .. } => expires_at,
        }
    }

    /// The longest time for which such an entry is kept.
    pub open spec fn ttl(self) -> u64 {
        match self {
            CacheEntryView::Pending { .. } => PENDING_TTL_SECONDS,
            CacheEntryView::Ready { value, .. } => result_ttl(value),
        }
    }

    /// The entry counts, it could have been made by now, and it holds no oversized version.
    pub open spec fn is_plausible(self, now: u64) -> bool {
        &&& now < self.expiry()
        &&& self.expiry() <= later(later(now, self.ttl()), CLOCK_SKEW_TOLERANCE_SECONDS)
        &&& self matches CacheEntryView::Ready { value: Some(version), .. } ==> text::byte_len(
            version,
        ) <= MAX_VERSION_BYTES
    }
}

impl CacheEntry {
    /// The first moment at which the entry no longer counts.
    pub fn expires_at(&self) -> (moment: u64)
        ensures
            moment == self@.expiry(),
    {
        match self {
            CacheEntry::Pending { expires_at } => *expires_at,
            CacheEntry::Ready { expires_at, .. } => *expires_at,
        }
    }

    /// Tells whether the entry counts and can be believed.
    pub fn is_valid(&self, now: u64) -> (valid: bool)
        ensures
            valid == self@.is_plausible(now),
    {
        let expires_at = self.expires_at();
        let maximum_ttl = match self {
            CacheEntry::Pending { .. } => PENDING_TTL_SECONDS,
            CacheEntry::Ready { value: Some(_), .. } => CACHE_TTL_SECONDS,
            CacheEntry::Ready { value: None, .. } => ERROR_CACHE_TTL_SECONDS,
        };
        if expires_at <= now || expires_at > now.saturating_add(maximum_ttl).saturating_add(
            CLOCK_SKEW_TOLERANCE_SECONDS,
        ) {
            return false;
        }
        match self {
            CacheEntry::Ready { value: Some(version), .. } => byte_length(version.as_str())
                <= MAX_VERSION_BYTES,
            _ => true,
        }
    }
}

/// What is kept of Packagist: results by the lower-case names of packages, and the moments at which
/// requests were started.
#[derive(Debug)]
pub struct PersistedCache {
    pub schema_version: u32,
    pub entries: EntryMap<CacheEntry>,
    pub request_timestamps: Vec<u64>,
}

#[verifier::ext_equal]
pub struct CacheView {
    pub schema_version: u32,
    pub entries: Map<Seq<char>, CacheEntryView>,
    pub timestamps: Seq<u64>,
}

impl View for PersistedCache {
    type V = CacheView;

    open spec fn view(&self) -> CacheView {
        CacheView {
            schema_version: self.schema_version,
            entries: self.entries@,
            timestamps: self.request_timestamps@,
        }
    }
}

/// A cache without results and without requests.
pub open spec fn empty_cache() -> CacheView {
    CacheView {
        schema_version: CACHE_SCHEMA_VERSION,
        entries: Map::empty(),
        timestamps: Seq::empty(),
    }
}

/// An entry that is worth keeping under the given name.
pub open spec fn is_worth_keeping(name: Seq<char>, entry: CacheEntryView, now: u64) -> bool {
    &&& name.len() > 0
    &&& text::byte_len(name) <= MAX_PACKAGE_NAME_BYTES
    &&& entry.is_plausible(now)
}

/// The entries that are worth keeping.
pub open spec fn plausible_entries(entries: Map<Seq<char>, CacheEntryView>, now: u64) -> Map<
    Seq<char>,
    CacheEntryView,
> {
    Map::new(
        |name: Seq<char>| entries.contains_key(name) && is_worth_keeping(name, entries[name], now),
        |name: Seq<char>| entries[name],
    )
}

/// All of the entries where the cache has room for them; else as many as it has room for, and none
/// of those left out expires later than one that is kept.
pub open spec fn are_latest(
    kept: Map<Seq<char>, CacheEntryView>,
    all: Map<Seq<char>, CacheEntryView>,
) -> bool {
    if all.dom().len() <= MAX_CACHE_ENTRIES {
        kept == all
    } else {
        &&& kept.submap_of(all)
        &&& kept.dom().finite()
        &&& kept.dom().len() == MAX_CACHE_ENTRIES
        &&& forall|name: Seq<char>, other: Seq<char>|
            #![trigger kept.contains_key(name), all.contains_key(other)]
            kept.contains_key(name) && all.contains_key(other) && !kept.contains_key(other)
                ==> all[other].expiry() <= kept[name].expiry()
    }
}

/// A request at the given moment counts against the budget.
pub open spec fn is_recent(timestamp: u64, now: u64) -> bool {
    &&& timestamp <= later(now, CLOCK_SKEW_TOLERANCE_SECONDS)
    &&& now - timestamp < REQUEST_WINDOW_SECONDS
}

/// The requests that count at the given moment.
pub open spec fn recent_at(now: u64) -> spec_fn(u64) -> bool {
    |timestamp: u64| is_recent(timestamp, now)
}

/// The order of moments.
pub open spec fn moment_order() -> spec_fn(u64, u64) -> bool {
    |a: u64, b: u64| a <= b
}

/// The last moments of a row, as many as the budget has requests.
pub open spec fn last_of(timestamps: Seq<u64>) -> Seq<u64> {
    if timestamps.len() > MAX_REQUESTS_PER_WINDOW {
        timestamps.skip(timestamps.len() - MAX_REQUESTS_PER_WINDOW)
    } else {
        timestamps
    }
}

/// The moments of the requests that count against the budget.
pub open spec fn recent_timestamps(timestamps: Seq<u64>, now: u64) -> Seq<u64> {
    last_of(timestamps.filter(recent_at(now)).sort_by(moment_order()))
}

/// The second cache is what is left of the first one: nothing of a cache with another schema; else
/// the latest entries worth keeping, and the requests that still count.
pub open spec fn is_sanitized(before: CacheView, after: CacheView, now: u64) -> bool {
    if before.schema_version != CACHE_SCHEMA_VERSION {
        after == empty_cache()
    } else {
        &&& after.schema_version == before.schema_version
        &&& are_latest(after.entries, plausible_entries(before.entries, now))
        &&& after.timestamps == recent_timestamps(before.timestamps, now)
    }
}

impl Clone for PersistedCache {
    fn clone(&self) -> (copy: Self)
        ensures
            copy@ == self@,
    {
        let entries = self.entries.clone();
        proof {
            assert forall|i: int| 0 <= i < self.entries.listed().len() implies #[trigger]
                entries.listed()[i] == self.entries.listed()[i] by {
                assert(entries.listed()[i].0 == self.entries.listed()[i].0);
                assert(cloned(self.entries.row_entries()[i], entries.row_entries()[i]));
            }
            assert(entries.listed() =~= self.entries.listed());
        }
        PersistedCache {
            schema_version: self.schema_version,
            entries,
            request_timestamps: self.request_timestamps.clone(),
        }
    }
}

impl Default for PersistedCache {
    /// A cache without results and without requests.
    fn default() -> (cache: Self)
        ensures
            cache@ == empty_cache(),
    {
        PersistedCache {
            schema_version: CACHE_SCHEMA_VERSION,
            entries: EntryMap::new(),
            request_timestamps: Vec::new(),
        }
    }
}

/// The place of an entry with the given expiry among entries that are ordered from the latest
/// expiry to the earliest.
fn place_of(rows: &Vec<(String, CacheEntry)>, expires_at: u64) -> (place: usize)
    requires
        are_ordered(entries::row_views(rows@)),
    ensures
        place <= rows@.len(),
        forall|i: int| 0 <= i < place ==> (#[trigger] rows@[i]).1@.expiry() >= expires_at,
        forall|i: int| place <= i < rows@.len() ==> (#[trigger] rows@[i]).1@.expiry() <= expires_at,
{
    let mut place: usize = 0;
    while place < rows.len() && rows[place].1.expires_at() >= expires_at
        invariant
            place <= rows@.len(),
            forall|i: int| 0 <= i < place ==> (#[trigger] rows@[i]).1@.expiry() >= expires_at,
        decreases rows@.len() - place,
    {
        place += 1;
    }
    proof {
        let views = entries::row_views(rows@);
        assert forall|i: int| place <= i < rows@.len() implies (#[trigger] rows@[i]).1@.expiry()
            <= expires_at by {
            assert(views[place as int].1.expiry() >= views[i].1.expiry());
        }
    }
    place
}

/// The rows are ordered from the latest expiry to the earliest.
spec fn are_ordered(rows: Seq<(Seq<char>, CacheEntryView)>) -> bool {
    forall|i: int, j: int|
        0 <= i <= j < rows.len() ==> (#[trigger] rows[i]).1.expiry() >= (
        #[trigger] rows[j]).1.expiry()
}

/// The rows are those of the given ones, from some place on, that are worth keeping.
spec fn are_picked(
    picked: Seq<(Seq<char>, CacheEntryView)>,
    rows: Seq<(Seq<char>, CacheEntryView)>,
    from: int,
    now: u64,
) -> bool {
    &&& entries::are_distinct(picked)
    &&& forall|j: int|
        0 <= j < picked.len() ==> is_worth_keeping(
            (#[trigger] picked[j]).0,
            picked[j].1,
            now,
        ) && rows.skip(from).contains(picked[j])
    &&& forall|i: int|
        from <= i < rows.len() && is_worth_keeping((#[trigger] rows[i]).0, rows[i].1, now)
            ==> picked.contains(rows[i])
}

/// One row more is looked at: it is picked if it is worth keeping.
proof fn lemma_pick(
    picked: Seq<(Seq<char>, CacheEntryView)>,
    rows: Seq<(Seq<char>, CacheEntryView)>,
    at: int,
    place: int,
    now: u64,
)
    requires
        0 <= at < rows.len(),
        0 <= place <= picked.len(),
        entries::are_distinct(rows),
        are_picked(picked, rows, at + 1, now),
    ensures
        is_worth_keeping(rows[at].0, rows[at].1, now) ==> are_picked(
            picked.insert(place, rows[at]),
            rows,
            at,
            now,
        ),
        !is_worth_keeping(rows[at].0, rows[at].1, now) ==> are_picked(picked, rows, at, now),
{
    let row = rows[at];
    let tail = rows.skip(at + 1);
    assert forall|other: (Seq<char>, CacheEntryView)| #[trigger]
        tail.contains(other) implies rows.skip(at).contains(other) && other.0
        != row.0 by {
        let k = tail.index_of(other);
        assert(tail[k] == other);
        assert(rows[at + 1 + k] == other);
        assert(rows.skip(at)[k + 1] == other);
    }
    assert(rows.skip(at)[0] == row);
    assert(rows.skip(at).contains(row));
    if is_worth_keeping(row.0, row.1, now) {
        let after = picked.insert(place, row);
        assert forall|j: int| 0 <= j < after.len() implies #[trigger] after[j] == (if j < place {
            picked[j]
        } else if j == place {
            row
        } else {
            picked[j - 1]
        }) by {}
        assert forall|i: int|
            at <= i < rows.len() && is_worth_keeping(
                (#[trigger] rows[i]).0,
                rows[i].1,
                now,
            ) implies after.contains(rows[i]) by {
            if i == at {
                assert(after[place] == rows[i]);
            } else {
                assert(picked.contains(rows[i]));
                let j = choose|j: int| 0 <= j < picked.len() && picked[j] == rows[i];
                assert(after[if j < place { j } else { j + 1 }] == rows[i]);
            }
        }
        assert forall|i: int, j: int| 0 <= i < j < after.len() implies (#[trigger] after[i]).0 != (
        #[trigger] after[j]).0 by {
            if i == place {
                assert(rows.skip(at + 1).contains(picked[j - 1]));
            } else if j == place {
                assert(rows.skip(at + 1).contains(picked[i]));
            }
        }
    }
}

/// The first of the picked rows, as many as the cache has room for, are the latest entries.
proof fn lemma_first_are_latest(
    picked: Seq<(Seq<char>, CacheEntryView)>,
    rows: Seq<(Seq<char>, CacheEntryView)>,
    n: int,
    now: u64,
)
    requires
        entries::are_distinct(rows),
        are_picked(picked, rows, 0, now),
        are_ordered(picked),
        n == (if picked.len() > MAX_CACHE_ENTRIES {
            MAX_CACHE_ENTRIES as int
        } else {
            picked.len() as int
        }),
    ensures
        entries::are_distinct(picked.take(n)),
        are_latest(
            entries::map_of(picked.take(n)),
            plausible_entries(entries::map_of(rows), now),
        ),
{
    let all = entries::map_of(picked);
    let kept = entries::map_of(picked.take(n));
    let source = entries::map_of(rows);
    entries::lemma_map_of(picked);
    entries::lemma_map_of(picked.take(n));
    entries::lemma_map_of(rows);
    assert(rows.skip(0) =~= rows);
    assert forall|name: Seq<char>|
        all.contains_key(name) == plausible_entries(source, now).contains_key(name) && (
        all.contains_key(name) ==> all[name] == source[name]) by {
        if all.contains_key(name) {
            let j = choose|j: int| 0 <= j < picked.len() && (#[trigger] picked[j]).0 == name;
            assert(rows.contains(picked[j]));
            let i = choose|i: int| 0 <= i < rows.len() && rows[i] == picked[j];
            assert(source[rows[i].0] == rows[i].1);
        }
        if plausible_entries(source, now).contains_key(name) {
            let i = choose|i: int| 0 <= i < rows.len() && (#[trigger] rows[i]).0 == name;
            assert(picked.contains(rows[i]));
            let j = choose|j: int| 0 <= j < picked.len() && picked[j] == rows[i];
            assert(all.contains_key(picked[j].0));
        }
    }
    assert(all =~= plausible_entries(source, now));
    if picked.len() <= MAX_CACHE_ENTRIES {
        assert(picked.take(n) =~= picked);
    } else {
        assert forall|name: Seq<char>| kept.contains_key(name) implies all.contains_key(name)
            && kept[name] == all[name] by {
            let i = choose|i: int| 0 <= i < n && (#[trigger] picked.take(n)[i]).0 == name;
            assert(picked[i] == picked.take(n)[i]);
        }
        assert(kept.submap_of(all));
        assert forall|name: Seq<char>, other: Seq<char>|
            #![trigger kept.contains_key(name), all.contains_key(other)]
            kept.contains_key(name) && all.contains_key(other) && !kept.contains_key(
                other,
            ) implies all[other].expiry() <= kept[name].expiry() by {
            let i = choose|i: int| 0 <= i < n && (#[trigger] picked.take(n)[i]).0 == name;
            let j = choose|j: int| 0 <= j < picked.len() && (#[trigger] picked[j]).0 == other;
            if j < n {
                assert(picked.take(n)[j] == picked[j]);
            }
            assert(picked[i] == picked.take(n)[i]);
            assert(picked[i].1.expiry() >= picked[j].1.expiry());
        }
    }
}

/// The latest of the entries that are worth keeping.
fn keep_latest(entries: EntryMap<CacheEntry>, now: u64) -> (kept: EntryMap<CacheEntry>)
    ensures
        are_latest(kept@, plausible_entries(entries@, now)),
{
    let ghost all = entries.listed();
    let mut rows = entries.into_rows();
    let mut picked: Vec<(String, CacheEntry)> = Vec::new();
    assert(entries::row_views(rows@) =~= all.take(rows@.len() as int));
    while rows.len() > 0
        invariant
            entries::are_distinct(all),
            rows@.len() <= all.len(),
            entries::row_views(rows@) == all.take(rows@.len() as int),
            are_picked(entries::row_views(picked@), all, rows@.len() as int, now),
            are_ordered(entries::row_views(picked@)),
        decreases rows@.len(),
    {
        let ghost before = rows@;
        let ghost at = rows@.len() - 1;
        let ghost had = entries::row_views(picked@);
        let row = rows.pop().unwrap();
        proof {
            assert(entries::row_views(before)[at] == all[at]);
            assert(entries::row_views(rows@) =~= all.take(at));
        }
        let length = byte_length(row.0.as_str());
        if length > 0 && length <= MAX_PACKAGE_NAME_BYTES && row.1.is_valid(now) {
            let place = place_of(&picked, row.1.expires_at());
            proof {
                lemma_pick(had, all, at, place as int, now);
                assert forall|i: int| 0 <= i < had.len() implies #[trigger] had[i]
                    == (picked@[i].0@, picked@[i].1@) by {}
            }
            picked.insert(place, row);
            assert(entries::row_views(picked@) =~= had.insert(place as int, all[at]));
        } else {
            proof {
                lemma_pick(had, all, at, 0, now);
            }
        }
    }
    let ghost views = entries::row_views(picked@);
    let ghost n = if views.len() > MAX_CACHE_ENTRIES {
        MAX_CACHE_ENTRIES as int
    } else {
        views.len() as int
    };
    proof {
        lemma_first_are_latest(views, all, n, now);
    }
    picked.truncate(MAX_CACHE_ENTRIES);
    assert(entries::row_views(picked@) =~= views.take(n));
    EntryMap::from_rows(picked)
}

/// The moments of the requests that count against the budget, in order.
fn keep_recent(timestamps: &Vec<u64>, now: u64) -> (recent: Vec<u64>)
    ensures
        recent@ == recent_timestamps(timestamps@, now),
{
    let latest_allowed = now.saturating_add(CLOCK_SKEW_TOLERANCE_SECONDS);
    let mut sorted: Vec<u64> = Vec::new();
    let mut i: usize = 0;
    proof {
        reveal(Seq::filter);
        assert(sorted@ =~= timestamps@.take(0).filter(recent_at(now)));
    }
    while i < timestamps.len()
        invariant
            i <= timestamps@.len(),
            latest_allowed == later(now, CLOCK_SKEW_TOLERANCE_SECONDS),
            sorted_by(sorted@, moment_order()),
            sorted@.to_multiset() == timestamps@.take(i as int).filter(
                recent_at(now),
            ).to_multiset(),
        decreases timestamps@.len() - i,
    {
        broadcast use vstd::seq_lib::group_to_multiset_ensures;

        let timestamp = timestamps[i];
        let ghost before = timestamps@.take(i as int).filter(recent_at(now));
        assert(timestamps@.take(i + 1).drop_last() =~= timestamps@.take(i as int));
        if timestamp <= latest_allowed && now.saturating_sub(timestamp) < REQUEST_WINDOW_SECONDS {
            let ghost had = sorted@;
            let place = insertion_place(&sorted, timestamp);
            sorted.insert(place, timestamp);
            proof {
                reveal(Seq::filter);
                assert(timestamps@.take(i + 1).filter(recent_at(now)) =~= before.push(timestamp));
                assert(sorted@.to_multiset() =~= had.to_multiset().insert(timestamp));
                assert forall|k: int, l: int| 0 <= k < l < sorted@.len() implies #[trigger]
                    moment_order()(sorted@[k], sorted@[l]) by {
                    let from = if k < place {
                        k
                    } else {
                        k - 1
                    };
                    let to = if l < place {
                        l
                    } else {
                        l - 1
                    };
                    if k != place && l != place {
                        assert(moment_order()(had[from], had[to]));
                    }
                }
            }
        } else {
            proof {
                reveal(Seq::filter);
                assert(timestamps@.take(i + 1).filter(recent_at(now)) =~= before);
            }
        }
        i += 1;
    }
    let ghost wanted = timestamps@.filter(recent_at(now));
    proof {
        assert(timestamps@.take(timestamps@.len() as int) =~= timestamps@);
        wanted.lemma_sort_by_ensures(moment_order());
        vstd::seq_lib::lemma_sorted_unique(
            sorted@,
            wanted.sort_by(moment_order()),
            moment_order(),
        );
    }
    keep_last(sorted)
}

/// The place of a moment among moments in order.
fn insertion_place(sorted: &Vec<u64>, timestamp: u64) -> (place: usize)
    requires
        sorted_by(sorted@, moment_order()),
    ensures
        place <= sorted@.len(),
        forall|i: int| 0 <= i < place ==> sorted@[i] <= timestamp,
        forall|i: int| place <= i < sorted@.len() ==> timestamp <= sorted@[i],
{
    let mut place: usize = 0;
    while place < sorted.len() && sorted[place] <= timestamp
        invariant
            place <= sorted@.len(),
            forall|i: int| 0 <= i < place ==> sorted@[i] <= timestamp,
        decreases sorted@.len() - place,
    {
        place += 1;
    }
    proof {
        assert forall|i: int| place <= i < sorted@.len() implies timestamp <= sorted@[i] by {
            if place < i {
                assert(moment_order()(sorted@[place as int], sorted@[i]));
            }
        }
    }
    place
}

/// The last moments of a row, as many as the budget has requests.
fn keep_last(timestamps: Vec<u64>) -> (kept: Vec<u64>)
    ensures
        kept@ == last_of(timestamps@),
{
    if timestamps.len() <= MAX_REQUESTS_PER_WINDOW {
        return timestamps;
    }
    let from = timestamps.len() - MAX_REQUESTS_PER_WINDOW;
    let mut kept: Vec<u64> = Vec::new();
    let mut i: usize = from;
    while i < timestamps.len()
        invariant
            from <= i <= timestamps@.len(),
            kept@ == timestamps@.subrange(from as int, i as int),
        decreases timestamps@.len() - i,
    {
        kept.push(timestamps[i]);
        i += 1;
        assert(kept@ =~= timestamps@.subrange(from as int, i as int));
    }
    kept
}

/// What a cache knows of a package at the given moment.
pub open spec fn lookup_of(cache: CacheView, name: Seq<char>, now: u64) -> LookupView {
    let key = text::lowered(name);
    if cache.entries.contains_key(key) && now < cache.entries[key].expiry() {
        match cache.entries[key] {
            CacheEntryView::Pending { .. } => LookupView::Pending,
            CacheEntryView::Ready { value, .. } => LookupView::Ready(value),
        }
    } else {
        LookupView::Missing
    }
}

/// A cache without the entry of a package.
pub open spec fn without(cache: CacheView, key: Seq<char>) -> CacheView {
    CacheView { entries: cache.entries.remove(key), ..cache }
}

/// A cache after a package was looked up: an entry that no longer counts is gone.
pub open spec fn after_lookup(cache: CacheView, name: Seq<char>, now: u64) -> CacheView {
    let key = text::lowered(name);
    if cache.entries.contains_key(key) && cache.entries[key].expiry() <= now {
        without(cache, key)
    } else {
        cache
    }
}

/// A cache after a request was started.
pub open spec fn with_request(cache: CacheView, key: Seq<char>, now: u64) -> CacheView {
    CacheView {
        entries: cache.entries.insert(
            key,
            CacheEntryView::Pending { expires_at: later(now, PENDING_TTL_SECONDS) },
        ),
        timestamps: cache.timestamps.push(now),
        ..cache
    }
}

/// A cache after a request was finished.
pub open spec fn with_result(
    cache: CacheView,
    key: Seq<char>,
    value: Option<Seq<char>>,
    now: u64,
) -> CacheView {
    CacheView {
        entries: cache.entries.insert(
            key,
            CacheEntryView::Ready { value, expires_at: later(now, result_ttl(value)) },
        ),
        ..cache
    }
}

/// The entry of the given name is a result, and no other result expires earlier.
pub open spec fn is_oldest_result(entries: Map<Seq<char>, CacheEntryView>, name: Seq<char>) -> bool {
    &&& entries.contains_key(name)
    &&& entries[name] is Ready
    &&& forall|other: Seq<char>| #[trigger]
        entries.contains_key(other) && entries[other] is Ready ==> entries[name].expiry()
            <= entries[other].expiry()
}

/// Whether a request is started, and the cache after that. Where the budget is used up, none is
/// started. Where the cache is full, a result that expires first makes room, and none is started
/// where there is no result.
pub open spec fn is_admitted(
    cache: CacheView,
    after: CacheView,
    key: Seq<char>,
    now: u64,
    claim: ClaimView,
) -> bool {
    if cache.timestamps.len() >= MAX_REQUESTS_PER_WINDOW {
        claim == ClaimView::Rejected && after == cache
    } else if cache.entries.dom().len() < MAX_CACHE_ENTRIES {
        claim == ClaimView::Started && after == with_request(cache, key, now)
    } else if exists|name: Seq<char>| #[trigger]
        cache.entries.contains_key(name) && cache.entries[name] is Ready {
        &&& claim == ClaimView::Started
        &&& exists|oldest: Seq<char>| #[trigger]
            is_oldest_result(cache.entries, oldest) && after == with_request(
                without(cache, oldest),
                key,
                now,
            )
    } else {
        claim == ClaimView::Rejected && after == cache
    }
}

/// The answer to the wish to request the versions of a package, and the cache after it: what the
/// cache knows, or else whether the rest of it allows a request.
pub open spec fn is_claimed(
    before: CacheView,
    after: CacheView,
    name: Seq<char>,
    now: u64,
    claim: ClaimView,
) -> bool {
    match lookup_of(before, name, now) {
        LookupView::Ready(value) => claim == ClaimView::Ready(value) && after == before,
        LookupView::Pending => claim == ClaimView::Pending && after == before,
        LookupView::Missing => exists|rest: CacheView| #[trigger]
            is_sanitized(after_lookup(before, name, now), rest, now) && is_admitted(
                rest,
                after,
                text::lowered(name),
                now,
                claim,
            ),
    }
}

impl PersistedCache {
    /// What the cache knows of a package.
    pub fn lookup(&mut self, package_name: &str, now: u64) -> (found: CacheLookup)
        ensures
            found@ == lookup_of(old(self)@, package_name@, now),
            final(self)@ == after_lookup(old(self)@, package_name@, now),
    {
        let key = to_ascii_lowercase(package_name);
        let found = match self.entries.get(key.as_str()) {
            Some(entry) => {
                if entry.expires_at() > now {
                    match entry {
                        CacheEntry::Pending { .. } => CacheLookup::Pending,
                        CacheEntry::Ready { value, .. } => CacheLookup::Ready(
                            copy_of_text(value),
                        ),
                    }
                } else {
                    CacheLookup::Missing
                }
            },
            None => CacheLookup::Missing,
        };
        if let CacheLookup::Missing = found {
            self.entries.remove(key.as_str());
            assert(!old(self)@.entries.contains_key(key@) ==> old(self)@.entries.remove(key@)
                =~= old(self)@.entries);
        }
        found
    }

    /// The name of a result that expires first.
    fn oldest_result(&self) -> (oldest: Option<String>)
        ensures
            match oldest {
                Some(name) => is_oldest_result(self@.entries, name@),
                None => forall|name: Seq<char>| #[trigger]
                    self@.entries.contains_key(name) ==> !(self@.entries[name] is Ready),
            },
    {
        let ghost rows = self.entries.listed();
        let mut best: Option<usize> = None;
        let mut i: usize = 0;
        let n = self.entries.len();
        while i < n
            invariant
                i <= n,
                n == rows.len(),
                rows == self.entries.listed(),
                match best {
                    Some(best) => {
                        &&& best < i
                        &&& rows[best as int].1 is Ready
                        &&& forall|j: int|
                            0 <= j < i && (#[trigger] rows[j]).1 is Ready
                                ==> rows[best as int].1.expiry() <= rows[j].1.expiry()
                    },
                    None => forall|j: int| 0 <= j < i ==> !((#[trigger] rows[j]).1 is Ready),
                },
            decreases n - i,
        {
            let entry = self.entries.entry_at(i);
            if let CacheEntry::Ready { .. } = entry {
                let better = match best {
                    Some(best) => entry.expires_at() < self.entries.entry_at(best).expires_at(),
                    None => true,
                };
                if better {
                    best = Some(i);
                }
            }
            i += 1;
        }
        proof {
            entries::lemma_map_of(rows);
            assert forall|name: Seq<char>| #[trigger]
                self@.entries.contains_key(name) && self@.entries[name] is Ready implies (
            best matches Some(best) && rows[best as int].1.expiry()
                <= self@.entries[name].expiry()) by {
                let j = choose|j: int| 0 <= j < rows.len() && (#[trigger] rows[j]).0 == name;
                assert(rows[j].1 == self@.entries[name]);
            }
        }
        match best {
            Some(best) => {
                assert(self@.entries[rows[best as int].0] == rows[best as int].1);
                Some(self.entries.name_at(best).to_owned())
            },
            None => None,
        }
    }

    /// Starts a request, if the budget and the room in the cache allow one.
    fn start_request(&mut self, key: String, now: u64) -> (claim: RequestClaim)
        ensures
            is_admitted(old(self)@, final(self)@, key@, now, claim@),
    {
        if self.request_timestamps.len() >= MAX_REQUESTS_PER_WINDOW {
            return RequestClaim::Rejected;
        }
        if self.entries.len() >= MAX_CACHE_ENTRIES {
            match self.oldest_result() {
                Some(name) => {
                    self.entries.remove(name.as_str());
                    assert(is_oldest_result(old(self)@.entries, name@));
                    assert(old(self)@.entries.contains_key(name@));
                },
                None => {
                    return RequestClaim::Rejected;
                },
            }
        }
        self.entries.insert(
            key,
            CacheEntry::Pending { expires_at: now.saturating_add(PENDING_TTL_SECONDS) },
        );
        self.request_timestamps.push(now);
        RequestClaim::Started
    }

    /// Answers the wish to request the versions of a package.
    pub fn claim(&mut self, package_name: &str, now: u64) -> (claim: RequestClaim)
        ensures
            is_claimed(old(self)@, final(self)@, package_name@, now, claim@),
    {
        let key = to_ascii_lowercase(package_name);
        proof {
            text::lemma_lowered_twice(package_name@);
        }
        match self.lookup(key.as_str(), now) {
            CacheLookup::Ready(value) => {
                return RequestClaim::Ready(value);
            },
            CacheLookup::Pending => {
                return RequestClaim::Pending;
            },
            CacheLookup::Missing => {},
        }
        self.sanitize(now);
        let ghost rest = self@;
        let claim = self.start_request(key, now);
        assert(is_sanitized(after_lookup(old(self)@, package_name@, now), rest, now));
        claim
    }

    /// Keeps what came of a request.
    pub fn finish(&mut self, package_name: &str, value: Option<String>, now: u64)
        ensures
            is_sanitized(
                with_result(old(self)@, text::lowered(package_name@), text_view(value), now),
                final(self)@,
                now,
            ),
    {
        let ttl = if value.is_some() {
            CACHE_TTL_SECONDS
        } else {
            ERROR_CACHE_TTL_SECONDS
        };
        self.entries.insert(
            to_ascii_lowercase(package_name),
            CacheEntry::Ready { value, expires_at: now.saturating_add(ttl) },
        );
        self.sanitize(now);
    }

    /// Leaves out what cannot be believed, what no longer counts, and what there is no room for.
    pub fn sanitize(&mut self, now: u64)
        ensures
            is_sanitized(old(self)@, final(self)@, now),
    {
        if self.schema_version != CACHE_SCHEMA_VERSION {
            *self = PersistedCache::default();
            return;
        }
        let mut entries: EntryMap<CacheEntry> = EntryMap::new();
        std::mem::swap(&mut entries, &mut self.entries);
        self.entries = keep_latest(entries, now);
        self.request_timestamps = keep_recent(&self.request_timestamps, now);
    }
}

/// The lower-case forms of the names, each once, in the order in which they first stand there.
pub open spec fn distinct_keys(names: Seq<Seq<char>>) -> Seq<Seq<char>>
    decreases names.len(),
{
    if names.len() == 0 {
        Seq::empty()
    } else {
        let before = distinct_keys(names.drop_last());
        let key = text::lowered(names.last());
        if before.contains(key) {
            before
        } else {
            before.push(key)
        }
    }
}

/// What the claims hold.
pub open spec fn claim_views(claims: Seq<(String, RequestClaim)>) -> Seq<(Seq<char>, ClaimView)> {
    claims.map_values(|claim: (String, RequestClaim)| (claim.0@, claim.1@))
}

/// The answers to a row of wishes, one after the other, and the cache after the last one.
pub open spec fn are_claimed(
    before: CacheView,
    after: CacheView,
    keys: Seq<Seq<char>>,
    now: u64,
    claims: Seq<(Seq<char>, ClaimView)>,
) -> bool
    decreases keys.len(),
{
    if keys.len() == 0 {
        claims.len() == 0 && after == before
    } else {
        &&& claims.len() == keys.len()
        &&& claims.last().0 == keys.last()
        &&& exists|middle: CacheView|
            are_claimed(before, middle, keys.drop_last(), now, claims.drop_last())
                && #[trigger] is_claimed(middle, after, keys.last(), now, claims.last().1)
    }
}

/// Tells whether a name has a claim.
fn has_claim(claims: &Vec<(String, RequestClaim)>, key: &str) -> (yes: bool)
    ensures
        yes == exists|i: int| 0 <= i < claims@.len() && (#[trigger] claims@[i]).0@ == key@,
{
    let mut i: usize = 0;
    while i < claims.len()
        invariant
            i <= claims@.len(),
            forall|j: int| 0 <= j < i ==> (#[trigger] claims@[j]).0@ != key@,
        decreases claims@.len() - i,
    {
        if same_text(claims[i].0.as_str(), key) {
            assert(claims@[i as int].0@ == key@);
            return true;
        }
        i += 1;
    }
    false
}

impl PersistedCache {
    /// Answers the wishes to request the versions of some packages, each package once.
    pub fn claim_each(&mut self, package_names: &Vec<String>, now: u64) -> (claims: Vec<
        (String, RequestClaim),
    >)
        ensures
            are_claimed(
                old(self)@,
                final(self)@,
                distinct_keys(text::text_views(package_names@)),
                now,
                claim_views(claims@),
            ),
    {
        let ghost names = text::text_views(package_names@);
        let mut claims: Vec<(String, RequestClaim)> = Vec::new();
        let mut i: usize = 0;
        while i < package_names.len()
            invariant
                i <= package_names@.len(),
                names == text::text_views(package_names@),
                are_claimed(
                    old(self)@,
                    self@,
                    distinct_keys(names.take(i as int)),
                    now,
                    claim_views(claims@),
                ),
                claims@.len() == distinct_keys(names.take(i as int)).len(),
                forall|j: int|
                    0 <= j < claims@.len() ==> (#[trigger] claims@[j]).0@ == distinct_keys(
                        names.take(i as int),
                    )[j],
            decreases package_names@.len() - i,
        {
            let ghost keys = distinct_keys(names.take(i as int));
            let ghost had = claims@;
            let ghost middle = self@;
            let key = to_ascii_lowercase(package_names[i].as_str());
            assert(names.take(i + 1).drop_last() =~= names.take(i as int));
            if has_claim(&claims, key.as_str()) {
                assert(keys.contains(key@));
            } else {
                assert(!keys.contains(key@)) by {
                    if keys.contains(key@) {
                        assert(claims@[keys.index_of(key@)].0@ == key@);
                    }
                }
                let claim = self.claim(key.as_str(), now);
                claims.push((key, claim));
                proof {
                    assert(claim_views(claims@).drop_last() =~= claim_views(had));
                    assert(keys.push(key@).drop_last() =~= keys);
                    assert(is_claimed(
                        middle,
                        self@,
                        keys.push(key@).last(),
                        now,
                        claim_views(claims@).last().1,
                    ));
                }
            }
            i += 1;
        }
        assert(names.take(names.len() as int) =~= names);
        claims
    }
}

/// The answers to wishes that are settled in the file of the cache, and what is written to it: what is
/// left of its contents answers them.
pub open spec fn are_settled(
    contents: CacheView,
    written: CacheView,
    keys: Seq<Seq<char>>,
    now: u64,
    claims: Seq<(Seq<char>, ClaimView)>,
) -> bool {
    exists|loaded: CacheView| #[trigger]
        is_sanitized(contents, loaded, now) && are_claimed(loaded, written, keys, now, claims)
}

/// What is written to the file of the cache when a request is finished: the result is added to what is
/// left of its contents.
pub open spec fn is_result_settled(
    contents: CacheView,
    written: CacheView,
    key: Seq<char>,
    value: Option<Seq<char>>,
    now: u64,
) -> bool {
    exists|loaded: CacheView| #[trigger]
        is_sanitized(contents, loaded, now) && is_sanitized(
            with_result(loaded, key, value, now),
            written,
            now,
        )
}

/// What stood in the file of the cache when its lock was taken; `None` where nothing could be read
/// from it.
#[derive(Debug)]
pub struct CacheStore {
    pub stored: Option<PersistedCache>,
}

impl CacheStore {
    /// The cache that stood in the file; an empty one where nothing could be read from it.
    pub open spec fn contents(&self) -> CacheView {
        match self.stored {
            Some(cache) => cache@,
            None => empty_cache(),
        }
    }

    /// A store with the given contents.
    pub fn new(stored: Option<PersistedCache>) -> (store: Self)
        ensures
            store.stored == stored,
    {
        CacheStore { stored }
    }

    /// What is left of the contents of the file, to be kept in memory and written back.
    pub fn load(self, now: u64) -> (cache: PersistedCache)
        ensures
            is_sanitized(self.contents(), cache@, now),
    {
        let mut cache = match self.stored {
            Some(cache) => cache,
            None => PersistedCache::default(),
        };
        cache.sanitize(now);
        cache
    }

    /// Answers the wishes to request the versions of some packages. The cache is to be kept in
    /// memory and written back.
    pub fn claim_many(self, package_names: &Vec<String>, now: u64) -> (outcome: (
        PersistedCache,
        Vec<(String, RequestClaim)>,
    ))
        ensures
            are_settled(
                self.contents(),
                outcome.0@,
                distinct_keys(text::text_views(package_names@)),
                now,
                claim_views(outcome.1@),
            ),
    {
        let ghost contents = self.contents();
        let mut cache = self.load(now);
        let ghost loaded = cache@;
        assert(is_sanitized(contents, loaded, now));
        let claims = cache.claim_each(package_names, now);
        (cache, claims)
    }

    /// Keeps what came of a request. The cache is to be kept in memory and written back.
    pub fn finish(self, package_name: &str, value: Option<String>, now: u64) -> (cache:
        PersistedCache)
        ensures
            is_result_settled(
                self.contents(),
                cache@,
                text::lowered(package_name@),
                text_view(value),
                now,
            ),
    {
        let ghost contents = self.contents();
        let mut cache = self.load(now);
        let ghost loaded = cache@;
        assert(is_sanitized(contents, loaded, now));
        cache.finish(package_name, value, now);
        cache
    }
}

/// Tells whether a file of this size, or this many bytes read from one, can be a cache.
pub fn is_cache_size(bytes: u64) -> (yes: bool)
    ensures
        yes == (bytes <= MAX_CACHE_FILE_BYTES),
{
    bytes <= MAX_CACHE_FILE_BYTES
}

/// A kind of operating system, as far as the place of the cache depends on it.
#[derive(Clone, Copy, Debug, PartialEq, Eq, Structural)]
pub enum System {
    Windows,
    MacOs,
    OtherUnix,
    Other,
}

/// Which variables of the environment are set and not empty.
#[derive(Clone, Copy, Debug)]
pub struct SetVariables {
    pub cache_directory: bool,
    pub local_app_data: bool,
    pub xdg_cache_home: bool,
    pub home: bool,
}

/// A directory: the one that a variable of the environment names, or one below it.
#[derive(Clone, Copy, Debug, PartialEq, Eq)]
pub struct CachePlace {
    pub variable: &'static str,
    pub below: Option<&'static str>,
}

pub struct PlaceView {
    pub variable: Seq<char>,
    pub below: Option<Seq<char>>,
}

impl View for CachePlace {
    type V = PlaceView;

    open spec fn view(&self) -> PlaceView {
        PlaceView {
            variable: self.variable@,
            below: match self.below {
                Some(below) => Some(below@),
                None => None,
            },
        }
    }
}

/// Where the cache is kept by the custom of the system, if the environment tells enough.
pub open spec fn default_place(system: System, set: SetVariables) -> Option<PlaceView> {
    match system {
        System::Windows => if set.local_app_data {
            Some(
                PlaceView {
                    variable: "LOCALAPPDATA"@,
                    below: Some("composer-language-server"@),
                },
            )
        } else {
            None
        },
        System::MacOs => if set.home {
            Some(
                PlaceView {
                    variable: "HOME"@,
                    below: Some("Library/Caches/composer-language-server"@),
                },
            )
        } else {
            None
        },
        System::OtherUnix => if set.xdg_cache_home {
            Some(
                PlaceView {
                    variable: "XDG_CACHE_HOME"@,
                    below: Some("composer-language-server"@),
                },
            )
        } else if set.home {
            Some(
                PlaceView {
                    variable: "HOME"@,
                    below: Some(".cache/composer-language-server"@),
                },
            )
        } else {
            None
        },
        System::Other => None,
    }
}

/// Where the cache is kept: in the directory that the variable of the server names, or else by the
/// custom of the system.
pub open spec fn cache_place(system: System, set: SetVariables) -> Option<PlaceView> {
    if set.cache_directory {
        Some(PlaceView { variable: CACHE_DIRECTORY_ENV@, below: None })
    } else {
        default_place(system, set)
    }
}

/// Where the cache is kept by the custom of the system.
pub fn default_cache_directory(system: System, set: SetVariables) -> (place: Option<CachePlace>)
    ensures
        match place {
            Some(place) => default_place(system, set) == Some(place@),
            None => default_place(system, set) is None,
        },
{
    match system {
        System::Windows => if set.local_app_data {
            Some(CachePlace { variable: "LOCALAPPDATA", below: Some("composer-language-server") })
        } else {
            None
        },
        System::MacOs => if set.home {
            Some(
                CachePlace {
                    variable: "HOME",
                    below: Some("Library/Caches/composer-language-server"),
                },
            )
        } else {
            None
        },
        System::OtherUnix => if set.xdg_cache_home {
            Some(CachePlace { variable: "XDG_CACHE_HOME", below: Some("composer-language-server") })
        } else if set.home {
            Some(CachePlace { variable: "HOME", below: Some(".cache/composer-language-server") })
        } else {
            None
        },
        System::Other => None,
    }
}

/// Where the cache is kept.
pub fn cache_directory(system: System, set: SetVariables) -> (place: Option<CachePlace>)
    ensures
        match place {
            Some(place) => cache_place(system, set) == Some(place@),
            None => cache_place(system, set) is None,
        },
{
    if set.cache_directory {
        Some(CachePlace { variable: CACHE_DIRECTORY_ENV, below: None })
    } else {
        default_cache_directory(system, set)
    }
}

/// The cache of a running server.
#[derive(Debug)]
pub struct VersionCache {
    pub cache: PersistedCache,
    pub warned_about_storage: bool,
}

impl VersionCache {
    /// The cache of a server that starts: what was loaded, or an empty one where there is no file
    /// or it is not available.
    pub fn new_at(loaded: Option<PersistedCache>) -> (cache: Self)
        ensures
            !cache.warned_about_storage,
            match loaded {
                Some(loaded) => cache.cache@ == loaded@,
                None => cache.cache@ == empty_cache(),
            },
    {
        let cache = match loaded {
            Some(loaded) => loaded,
            None => PersistedCache::default(),
        };
        VersionCache { cache, warned_about_storage: false }
    }

    /// What the cache knows of a package.
    pub fn get_at(&mut self, package_name: &str, now: u64) -> (found: CacheLookup)
        ensures
            found@ == lookup_of(old(self).cache@, package_name@, now),
            final(self).cache@ == after_lookup(old(self).cache@, package_name@, now),
            final(self).warned_about_storage == old(self).warned_about_storage,
    {
        self.cache.lookup(package_name, now)
    }

    /// Answers the wishes to request the versions of some packages: as it was settled in the file
    /// of the cache, or in memory where there is no file or it is not available.
    pub fn claim_requests_at(
        &mut self,
        package_names: &Vec<String>,
        now: u64,
        settled: Option<(PersistedCache, Vec<(String, RequestClaim)>)>,
    ) -> (claims: Vec<(String, RequestClaim)>)
        ensures
            final(self).warned_about_storage == old(self).warned_about_storage,
            match settled {
                Some((cache, answers)) => final(self).cache@ == cache@ && claims@ == answers@,
                None => are_claimed(
                    old(self).cache@,
                    final(self).cache@,
                    distinct_keys(text::text_views(package_names@)),
                    now,
                    claim_views(claims@),
                ),
            },
    {
        match settled {
            Some((cache, claims)) => {
                self.cache = cache;
                claims
            },
            None => self.cache.claim_each(package_names, now),
        }
    }

    /// Keeps what came of a request: as it was settled in the file of the cache, or in memory where
    /// there is no file or it is not available.
    pub fn finish_request_at(
        &mut self,
        package_name: &str,
        value: Option<String>,
        now: u64,
        settled: Option<PersistedCache>,
    )
        ensures
            final(self).warned_about_storage == old(self).warned_about_storage,
            match settled {
                Some(cache) => final(self).cache@ == cache@,
                None => is_sanitized(
                    with_result(
                        old(self).cache@,
                        text::lowered(package_name@),
                        text_view(value),
                        now,
                    ),
                    final(self).cache@,
                    now,
                ),
            },
    {
        match settled {
            Some(cache) => {
                self.cache = cache;
            },
            None => {
                self.cache.finish(package_name, value, now);
            },
        }
    }

    /// Notes that the file of the cache is not available, and tells whether a warning is due: only
    /// the first time.
    pub fn warn_storage_error(&mut self) -> (due: bool)
        ensures
            due == !old(self).warned_about_storage,
            final(self).warned_about_storage,
            final(self).cache == old(self).cache,
    {
        let due = !self.warned_about_storage;
        self.warned_about_storage = true;
        due
    }
}

impl Default for VersionCache {
    /// A cache that is kept in memory only.
    fn default() -> (cache: Self)
        ensures
            cache.cache@ == empty_cache(),
            !cache.warned_about_storage,
    {
        VersionCache::new_at(None)
    }
}

} // verus!
