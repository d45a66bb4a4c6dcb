//! What holds of every cache of versions, over several of its operations.
use crate::text;
use crate::version_cache;
use crate::version_cache::{
    CacheEntryView, CacheView, ClaimView, LookupView, CACHE_SCHEMA_VERSION,
    CLOCK_SKEW_TOLERANCE_SECONDS, MAX_CACHE_ENTRIES, MAX_PACKAGE_NAME_BYTES,
    MAX_REQUESTS_PER_WINDOW, MAX_VERSION_BYTES, PENDING_TTL_SECONDS,
};
use vstd::prelude::*;
use vstd::relations::sorted_by;

verus! {

/// The entries that are worth keeping are some of the entries.
proof fn lemma_plausible_are_fewer(entries: Map<Seq<char>, CacheEntryView>, now: u64)
    requires
        entries.dom().finite(),
    ensures
        version_cache::plausible_entries(entries, now).dom().finite(),
        version_cache::plausible_entries(entries, now).dom().len() <= entries.dom().len(),
        version_cache::plausible_entries(entries, now).submap_of(entries),
{
    let some = version_cache::plausible_entries(entries, now);
    assert(some.dom().subset_of(entries.dom()));
    vstd::set_lib::lemma_set_subset_finite(entries.dom(), some.dom());
    vstd::set_lib::lemma_len_subset(some.dom(), entries.dom());
}

/// The requests that are kept of a row all count, stand in order, and are no more than the budget.
proof fn lemma_recent_timestamps(timestamps: Seq<u64>, now: u64)
    ensures
        version_cache::recent_timestamps(timestamps, now).len() <= MAX_REQUESTS_PER_WINDOW,
        sorted_by(
            version_cache::recent_timestamps(timestamps, now),
            version_cache::moment_order(),
        ),
        forall|i: int|
            0 <= i < version_cache::recent_timestamps(timestamps, now).len()
                ==> version_cache::is_recent(
                #[trigger] version_cache::recent_timestamps(timestamps, now)[i],
                now,
            ),
{
    broadcast use vstd::seq_lib::group_filter_ensures;

    let some = timestamps.filter(version_cache::recent_at(now));
    let sorted = some.sort_by(version_cache::moment_order());
    let kept = version_cache::recent_timestamps(timestamps, now);
    some.lemma_sort_by_ensures(version_cache::moment_order());
    let from = sorted.len() - kept.len();
    assert forall|i: int| 0 <= i < kept.len() implies kept[i] == sorted[from + i] by {}
    assert forall|i: int| 0 <= i < kept.len() implies version_cache::is_recent(
        #[trigger] kept[i],
        now,
    ) by {
        assert(sorted.contains(sorted[from + i]));
        assert(some.contains(kept[i]));
        let j = some.index_of(kept[i]);
        assert(version_cache::recent_at(now)(some[j]));
    }
    assert forall|i: int, j: int| 0 <= i < j < kept.len() implies #[trigger]
        version_cache::moment_order()(kept[i], kept[j]) by {
        assert(version_cache::moment_order()(sorted[from + i], sorted[from + j]));
    }
}

/// A sanitized cache has the current schema, and no more entries and requests than there is room
/// for. All of them are worth keeping, and all are of the cache before.
pub proof fn law_sanitized_cache_is_bounded(before: CacheView, after: CacheView, now: u64)
    requires
        before.entries.dom().finite(),
        version_cache::is_sanitized(before, after, now),
    ensures
        after.schema_version == CACHE_SCHEMA_VERSION,
        after.entries.dom().finite(),
        after.entries.dom().len() <= MAX_CACHE_ENTRIES,
        after.timestamps.len() <= MAX_REQUESTS_PER_WINDOW,
        after.entries.submap_of(before.entries),
        forall|name: Seq<char>| #[trigger]
            after.entries.contains_key(name) ==> version_cache::is_worth_keeping(
                name,
                after.entries[name],
                now,
            ),
        forall|i: int|
            0 <= i < after.timestamps.len() ==> version_cache::is_recent(
                #[trigger] after.timestamps[i],
                now,
            ),
{
    lemma_plausible_are_fewer(before.entries, now);
    lemma_recent_timestamps(before.timestamps, now);
    let all = version_cache::plausible_entries(before.entries, now);
    if before.schema_version == CACHE_SCHEMA_VERSION {
        assert forall|name: Seq<char>| #[trigger]
            after.entries.contains_key(name) implies before.entries.contains_key(name)
            && after.entries[name] == before.entries[name] && version_cache::is_worth_keeping(
            name,
            after.entries[name],
            now,
        ) by {
            assert(after.entries.dom().contains(name));
            assert(all.dom().contains(name));
        }
    }
}

/// To sanitize a cache a second time at the same moment changes nothing.
pub proof fn law_sanitizing_twice_changes_nothing(
    before: CacheView,
    once: CacheView,
    twice: CacheView,
    now: u64,
)
    requires
        before.entries.dom().finite(),
        version_cache::is_sanitized(before, once, now),
        version_cache::is_sanitized(once, twice, now),
    ensures
        twice == once,
{
    law_sanitized_cache_is_bounded(before, once, now);
    assert(version_cache::plausible_entries(once.entries, now) =~= once.entries);
    assert(sorted_by(once.timestamps, version_cache::moment_order())) by {
        lemma_recent_timestamps(before.timestamps, now);
    }
    lemma_all_recent(once.timestamps, now);
    assert(twice =~= once);
}

/// A short row of requests in order that all count is kept as it is.
proof fn lemma_all_recent(timestamps: Seq<u64>, now: u64)
    requires
        timestamps.len() <= MAX_REQUESTS_PER_WINDOW,
        sorted_by(timestamps, version_cache::moment_order()),
        forall|i: int|
            0 <= i < timestamps.len() ==> version_cache::is_recent(#[trigger] timestamps[i], now),
    ensures
        version_cache::recent_timestamps(timestamps, now) == timestamps,
{
    lemma_filter_of_all(timestamps, version_cache::recent_at(now));
    timestamps.lemma_sort_by_ensures(version_cache::moment_order());
    vstd::seq_lib::lemma_sorted_unique(
        timestamps,
        timestamps.sort_by(version_cache::moment_order()),
        version_cache::moment_order(),
    );
}

proof fn lemma_filter_of_all(row: Seq<u64>, picks: spec_fn(u64) -> bool)
    requires
        forall|i: int| 0 <= i < row.len() ==> picks(#[trigger] row[i]),
    ensures
        row.filter(picks) == row,
    decreases row.len(),
{
    reveal(Seq::filter);
    if row.len() > 0 {
        let front = row.drop_last();
        assert forall|i: int| 0 <= i < front.len() implies picks(#[trigger] front[i]) by {
            assert(front[i] == row[i]);
        }
        lemma_filter_of_all(front, picks);
        assert(front.push(row.last()) =~= row);
    }
}

/// A cache as every operation leaves it: with the current schema, and within its bounds.
pub open spec fn is_bounded(cache: CacheView) -> bool {
    &&& cache.schema_version == CACHE_SCHEMA_VERSION
    &&& cache.entries.dom().finite()
    &&& cache.entries.dom().len() <= MAX_CACHE_ENTRIES
    &&& cache.timestamps.len() <= MAX_REQUESTS_PER_WINDOW
}

/// What is left of a cache when a package is asked for that it does not know: nothing of that
/// package, and all entries worth keeping where there is room for them.
proof fn lemma_rest_of_unknown(
    before: CacheView,
    rest: CacheView,
    name: Seq<char>,
    now: u64,
)
    requires
        before.entries.dom().finite(),
        version_cache::lookup_of(before, name, now) is Missing,
        version_cache::is_sanitized(
            version_cache::after_lookup(before, name, now),
            rest,
            now,
        ),
    ensures
        is_bounded(rest),
        !rest.entries.contains_key(text::lowered(name)),
        rest.entries.submap_of(before.entries),
        is_bounded(before) ==> forall|other: Seq<char>| #[trigger]
            before.entries.contains_key(other) && version_cache::is_worth_keeping(
                other,
                before.entries[other],
                now,
            ) ==> rest.entries.contains_key(other) && rest.entries[other]
                == before.entries[other],
{
    let looked = version_cache::after_lookup(before, name, now);
    let key = text::lowered(name);
    law_sanitized_cache_is_bounded(looked, rest, now);
    lemma_plausible_are_fewer(looked.entries, now);
    assert(!looked.entries.contains_key(key));
    assert(looked.entries.submap_of(before.entries));
    assert(rest.entries.dom().contains(key) ==> looked.entries.dom().contains(key));
    assert forall|other: Seq<char>|
        rest.entries.dom().contains(other) implies before.entries.dom().contains(other)
        && rest.entries[other] == before.entries[other] by {
        assert(looked.entries.dom().contains(other));
    }
    if is_bounded(before) {
        vstd::set_lib::lemma_len_subset(looked.entries.dom(), before.entries.dom());
        assert(rest.entries == version_cache::plausible_entries(looked.entries, now));
        assert forall|other: Seq<char>| #[trigger]
            before.entries.contains_key(other) && version_cache::is_worth_keeping(
                other,
                before.entries[other],
                now,
            ) implies rest.entries.contains_key(other) && rest.entries[other]
            == before.entries[other] by {
            assert(looked.entries.contains_key(other));
        }
    }
}

/// Every answer to a wish leaves the cache within its bounds, and it forgets no request that is
/// under way: those stay until they expire, also where the cache is full.
pub proof fn law_claim_keeps_requests(
    before: CacheView,
    after: CacheView,
    name: Seq<char>,
    now: u64,
    claim: ClaimView,
)
    requires
        is_bounded(before),
        version_cache::is_claimed(before, after, name, now, claim),
    ensures
        is_bounded(after),
        forall|other: Seq<char>| #[trigger]
            before.entries.contains_key(other) && before.entries[other] is Pending
                && version_cache::is_worth_keeping(other, before.entries[other], now)
                ==> after.entries.contains_key(other) && after.entries[other]
                == before.entries[other],
{
    if version_cache::lookup_of(before, name, now) is Missing {
        let key = text::lowered(name);
        let rest = choose|rest: CacheView| #[trigger]
            version_cache::is_sanitized(
                version_cache::after_lookup(before, name, now),
                rest,
                now,
            ) && version_cache::is_admitted(rest, after, key, now, claim);
        lemma_rest_of_unknown(before, rest, name, now);
        if claim == ClaimView::Started && rest.entries.dom().len() >= MAX_CACHE_ENTRIES {
            let oldest = choose|oldest: Seq<char>| #[trigger]
                version_cache::is_oldest_result(rest.entries, oldest) && after
                    == version_cache::with_request(
                    version_cache::without(rest, oldest),
                    key,
                    now,
                );
            assert(version_cache::is_oldest_result(rest.entries, oldest));
        }
        assert forall|other: Seq<char>| #[trigger]
            before.entries.contains_key(other) && before.entries[other] is Pending
                && version_cache::is_worth_keeping(
                other,
                before.entries[other],
                now,
            ) implies after.entries.contains_key(other) && after.entries[other]
            == before.entries[other] by {
            assert(rest.entries.contains_key(other));
            assert(other != key);
        }
    }
}

/// A package for which a request was started is not requested again while that request is under
/// way, however its name is spelled in capitals.
pub proof fn law_requests_are_deduplicated(
    before: CacheView,
    middle: CacheView,
    after: CacheView,
    name: Seq<char>,
    again: Seq<char>,
    now: u64,
    moment: u64,
    claim: ClaimView,
)
    requires
        version_cache::is_claimed(before, middle, name, now, ClaimView::Started),
        text::lowered(again) == text::lowered(name),
        moment < version_cache::later(now, PENDING_TTL_SECONDS),
        version_cache::is_claimed(middle, after, again, moment, claim),
    ensures
        claim == ClaimView::Pending,
        after == middle,
{
    let key = text::lowered(name);
    let rest = choose|rest: CacheView| #[trigger]
        version_cache::is_sanitized(version_cache::after_lookup(before, name, now), rest, now)
            && version_cache::is_admitted(rest, middle, key, now, ClaimView::Started);
    assert(middle.entries.contains_key(key));
    assert(middle.entries[key] == (CacheEntryView::Pending {
        expires_at: version_cache::later(now, PENDING_TTL_SECONDS),
    }));
}

/// Among the claims that are made of a row of names, no package stands twice, and every package of
/// the row stands once.
pub proof fn law_each_package_is_claimed_once(names: Seq<Seq<char>>)
    ensures
        version_cache::distinct_keys(names).no_duplicates(),
        forall|i: int|
            0 <= i < names.len() ==> version_cache::distinct_keys(names).contains(
                text::lowered(#[trigger] names[i]),
            ),
        forall|j: int|
            0 <= j < version_cache::distinct_keys(names).len() ==> exists|i: int|
                0 <= i < names.len() && text::lowered(#[trigger] names[i]) == (
                #[trigger] version_cache::distinct_keys(names)[j]),
    decreases names.len(),
{
    if names.len() > 0 {
        let front = names.drop_last();
        law_each_package_is_claimed_once(front);
        let before = version_cache::distinct_keys(front);
        let keys = version_cache::distinct_keys(names);
        let last = text::lowered(names.last());
        assert forall|i: int| 0 <= i < names.len() implies keys.contains(
            text::lowered(#[trigger] names[i]),
        ) by {
            if i < names.len() - 1 {
                assert(front[i] == names[i]);
                let j = before.index_of(text::lowered(front[i]));
                assert(before.contains(text::lowered(front[i])));
                assert(keys[j] == before[j]);
            } else if !before.contains(last) {
                assert(keys[keys.len() - 1] == last);
            }
        }
        assert forall|j: int| 0 <= j < keys.len() implies exists|i: int|
            0 <= i < names.len() && text::lowered(#[trigger] names[i]) == (#[trigger] keys[j]) by {
            if j < before.len() {
                assert(keys[j] == before[j]);
                let i = choose|i: int|
                    0 <= i < front.len() && text::lowered(#[trigger] front[i]) == before[j];
                assert(names[i] == front[i]);
            } else {
                assert(text::lowered(names[names.len() - 1]) == keys[j]);
            }
        }
    }
}

/// The cache can hold such a result of a package.
pub open spec fn is_storable(name: Seq<char>, value: Option<Seq<char>>) -> bool {
    &&& name.len() > 0
    &&& text::byte_len(text::lowered(name)) <= MAX_PACKAGE_NAME_BYTES
    &&& value matches Some(version) ==> text::byte_len(version) <= MAX_VERSION_BYTES
}

/// The names of the other entries that are worth keeping and expire no earlier than the entry of the
/// given name.
pub open spec fn rivals_of(
    entries: Map<Seq<char>, CacheEntryView>,
    key: Seq<char>,
    now: u64,
) -> Set<Seq<char>> {
    entries.dom().filter(
        |name: Seq<char>|
            name != key && version_cache::is_worth_keeping(name, entries[name], now)
                && entries[name].expiry() >= entries[key].expiry(),
    )
}

/// The cache has room for a result that is finished now: it is not full of entries that expire no
/// earlier. That is so whenever the request was in a cache within its bounds, or such a cache was
/// not full.
pub open spec fn has_room(
    before: CacheView,
    name: Seq<char>,
    value: Option<Seq<char>>,
    now: u64,
) -> bool {
    rivals_of(
        version_cache::with_result(before, text::lowered(name), value, now).entries,
        text::lowered(name),
        now,
    ).len() < MAX_CACHE_ENTRIES
}

/// A cache within its bounds has room for the result of a request that is in it, and for any result
/// where it is not full.
pub proof fn law_claimed_request_has_room(
    before: CacheView,
    name: Seq<char>,
    value: Option<Seq<char>>,
    now: u64,
)
    requires
        is_bounded(before),
        before.entries.contains_key(text::lowered(name)) || before.entries.dom().len()
            < MAX_CACHE_ENTRIES,
    ensures
        has_room(before, name, value, now),
{
    let key = text::lowered(name);
    let entries = version_cache::with_result(before, key, value, now).entries;
    let others = entries.dom().remove(key);
    assert(rivals_of(entries, key, now).subset_of(others));
    vstd::set_lib::lemma_len_subset(rivals_of(entries, key, now), others);
}

/// What came of a request is served until it expires, under every spelling of the name in capitals:
/// a version for six hours, a failure for a quarter of an hour. After that the package is unknown.
pub proof fn law_results_are_served(
    before: CacheView,
    after: CacheView,
    name: Seq<char>,
    value: Option<Seq<char>>,
    now: u64,
    again: Seq<char>,
    moment: u64,
)
    requires
        before.schema_version == CACHE_SCHEMA_VERSION,
        before.entries.dom().finite(),
        has_room(before, name, value, now),
        is_storable(name, value),
        now < u64::MAX,
        version_cache::is_sanitized(
            version_cache::with_result(before, text::lowered(name), value, now),
            after,
            now,
        ),
        text::lowered(again) == text::lowered(name),
    ensures
        is_bounded(after),
        version_cache::lookup_of(after, again, moment) == (if moment < version_cache::later(
            now,
            version_cache::result_ttl(value),
        ) {
            LookupView::Ready(value)
        } else {
            LookupView::Missing
        }),
{
    lemma_result_is_kept(before, after, name, value, now);
}

/// A result for which there is room stays in the cache.
proof fn lemma_result_is_kept(
    before: CacheView,
    after: CacheView,
    name: Seq<char>,
    value: Option<Seq<char>>,
    now: u64,
)
    requires
        before.schema_version == CACHE_SCHEMA_VERSION,
        before.entries.dom().finite(),
        has_room(before, name, value, now),
        is_storable(name, value),
        now < u64::MAX,
        version_cache::is_sanitized(
            version_cache::with_result(before, text::lowered(name), value, now),
            after,
            now,
        ),
    ensures
        is_bounded(after),
        after.entries.contains_key(text::lowered(name)),
        after.entries[text::lowered(name)] == (CacheEntryView::Ready {
            value,
            expires_at: version_cache::later(now, version_cache::result_ttl(value)),
        }),
{
    let key = text::lowered(name);
    let full = version_cache::with_result(before, key, value, now);
    let all = version_cache::plausible_entries(full.entries, now);
    law_sanitized_cache_is_bounded(full, after, now);
    lemma_plausible_are_fewer(full.entries, now);
    assert(full.entries.contains_key(key));
    assert(key.len() == name.len());
    assert(version_cache::is_worth_keeping(key, full.entries[key], now));
    assert(all.contains_key(key));
    if !after.entries.contains_key(key) {
        let rivals = rivals_of(full.entries, key, now);
        assert forall|other: Seq<char>| #[trigger]
            after.entries.dom().contains(other) implies rivals.contains(other) by {
            assert(after.entries.contains_key(other));
            assert(all.dom().contains(other));
        }
        assert(after.entries.dom().subset_of(rivals));
        vstd::set_lib::lemma_len_subset(after.entries.dom(), rivals);
    }
    assert(after.entries.dom().contains(key));
}

/// What came of a request is still served after a restart, until it expires: the server that starts
/// loads it from the file into which it was written. Its clock may be behind by as much as is put up
/// with.
pub proof fn law_results_survive_a_restart(
    before: CacheView,
    written: CacheView,
    loaded: CacheView,
    name: Seq<char>,
    value: Option<Seq<char>>,
    now: u64,
    restart: u64,
    moment: u64,
)
    requires
        before.schema_version == CACHE_SCHEMA_VERSION,
        before.entries.dom().finite(),
        has_room(before, name, value, now),
        is_storable(name, value),
        now < u64::MAX,
        version_cache::is_sanitized(
            version_cache::with_result(before, text::lowered(name), value, now),
            written,
            now,
        ),
        version_cache::is_sanitized(written, loaded, restart),
        now <= version_cache::later(restart, CLOCK_SKEW_TOLERANCE_SECONDS),
        restart < version_cache::later(now, version_cache::result_ttl(value)),
        moment < version_cache::later(now, version_cache::result_ttl(value)),
    ensures
        version_cache::lookup_of(loaded, name, moment) == LookupView::Ready(value),
{
    let key = text::lowered(name);
    lemma_result_is_kept(before, written, name, value, now);
    lemma_plausible_are_fewer(written.entries, restart);
    assert(version_cache::is_worth_keeping(key, written.entries[key], restart));
    assert(version_cache::plausible_entries(written.entries, restart).contains_key(key));
}

/// A package that is not known is requested wherever the budget and the cache have room, and the
/// request is on record.
pub proof fn law_unknown_package_is_requested(
    before: CacheView,
    after: CacheView,
    name: Seq<char>,
    now: u64,
    claim: ClaimView,
)
    requires
        is_bounded(before),
        before.timestamps.len() < MAX_REQUESTS_PER_WINDOW,
        before.entries.dom().len() < MAX_CACHE_ENTRIES,
        version_cache::lookup_of(before, name, now) is Missing,
        version_cache::is_claimed(before, after, name, now, claim),
    ensures
        claim == ClaimView::Started,
        after.entries.contains_key(text::lowered(name)),
        after.entries[text::lowered(name)] == (CacheEntryView::Pending {
            expires_at: version_cache::later(now, PENDING_TTL_SECONDS),
        }),
        after.timestamps == version_cache::recent_timestamps(before.timestamps, now).push(now),
{
    let key = text::lowered(name);
    let rest = choose|rest: CacheView| #[trigger]
        version_cache::is_sanitized(version_cache::after_lookup(before, name, now), rest, now)
            && version_cache::is_admitted(rest, after, key, now, claim);
    lemma_rest_of_unknown(before, rest, name, now);
    vstd::set_lib::lemma_len_subset(rest.entries.dom(), before.entries.dom());
    lemma_recent_are_fewer(before.timestamps, now);
}

proof fn lemma_recent_are_fewer(timestamps: Seq<u64>, now: u64)
    ensures
        version_cache::recent_timestamps(timestamps, now).len() <= timestamps.len(),
{
    broadcast use {
        vstd::seq_lib::group_filter_ensures,
        vstd::seq_lib::group_to_multiset_ensures,
    };

    let some = timestamps.filter(version_cache::recent_at(now));
    some.lemma_sort_by_ensures(version_cache::moment_order());
    assert(some.len() == some.to_multiset().len());
    assert(some.sort_by(version_cache::moment_order()).len() == some.sort_by(
        version_cache::moment_order(),
    ).to_multiset().len());
}

/// No package is requested while the budget of the last hour is used up.
pub proof fn law_nothing_is_requested_beyond_the_budget(
    before: CacheView,
    after: CacheView,
    name: Seq<char>,
    now: u64,
    claim: ClaimView,
)
    requires
        is_bounded(before),
        version_cache::recent_timestamps(before.timestamps, now).len() >= MAX_REQUESTS_PER_WINDOW,
        version_cache::is_claimed(before, after, name, now, claim),
    ensures
        claim != ClaimView::Started,
        version_cache::lookup_of(before, name, now) is Missing ==> claim == ClaimView::Rejected,
{
}

/// A request that one process has started and written to the file is under way for every other that
/// loads the file before it expires, however the name is spelled in capitals. The clock of the other
/// may be behind by as much as is put up with.
pub proof fn law_started_request_is_pending_elsewhere(
    before: CacheView,
    written: CacheView,
    loaded: CacheView,
    after: CacheView,
    name: Seq<char>,
    again: Seq<char>,
    now: u64,
    moment: u64,
    claim: ClaimView,
)
    requires
        is_bounded(before),
        is_storable(name, None),
        version_cache::is_claimed(before, written, name, now, ClaimView::Started),
        version_cache::is_sanitized(written, loaded, moment),
        moment < version_cache::later(now, PENDING_TTL_SECONDS),
        now <= version_cache::later(moment, CLOCK_SKEW_TOLERANCE_SECONDS),
        text::lowered(again) == text::lowered(name),
        version_cache::is_claimed(loaded, after, again, moment, claim),
    ensures
        claim == ClaimView::Pending,
        after == loaded,
{
    let key = text::lowered(name);
    let rest = choose|rest: CacheView| #[trigger]
        version_cache::is_sanitized(version_cache::after_lookup(before, name, now), rest, now)
            && version_cache::is_admitted(rest, written, key, now, ClaimView::Started);
    law_claim_keeps_requests(before, written, name, now, ClaimView::Started);
    lemma_plausible_are_fewer(written.entries, moment);
    assert(key.len() == name.len());
    assert(written.entries.contains_key(key));
    assert(version_cache::is_worth_keeping(key, written.entries[key], moment));
    assert(version_cache::plausible_entries(written.entries, moment).contains_key(key));
}

/// What is left of a bounded cache: all that is worth keeping.
proof fn lemma_rest_of_bounded(before: CacheView, after: CacheView, now: u64)
    requires
        is_bounded(before),
        version_cache::is_sanitized(before, after, now),
    ensures
        is_bounded(after),
        after.entries == version_cache::plausible_entries(before.entries, now),
        after.entries.dom().len() <= before.entries.dom().len(),
        after.timestamps.len() <= before.timestamps.len(),
{
    law_sanitized_cache_is_bounded(before, after, now);
    lemma_plausible_are_fewer(before.entries, now);
    lemma_recent_are_fewer(before.timestamps, now);
}

/// The answer to a single wish.
proof fn lemma_single_claim(
    before: CacheView,
    after: CacheView,
    key: Seq<char>,
    now: u64,
    claims: Seq<(Seq<char>, ClaimView)>,
)
    requires
        version_cache::are_claimed(before, after, seq![key], now, claims),
    ensures
        claims == seq![(key, claims[0].1)],
        version_cache::is_claimed(before, after, key, now, claims[0].1),
{
    reveal_with_fuel(version_cache::are_claimed, 2);
    assert(seq![key].drop_last() =~= Seq::empty());
    assert(seq![key].last() == key);
    assert(claims.last() == claims[0]);
    assert(claims =~= seq![(key, claims[0].1)]);
}

/// A row of one name has one key.
proof fn lemma_single_key(name: Seq<char>)
    ensures
        version_cache::distinct_keys(seq![name]) == seq![text::lowered(name)],
{
    reveal_with_fuel(version_cache::distinct_keys, 2);
    assert(seq![name].drop_last() =~= Seq::empty());
    assert(seq![name].last() == name);
    assert(version_cache::distinct_keys(seq![name]) =~= seq![text::lowered(name)]);
}

/// Of two processes that ask for the same package in turn, over a file that has room and does not
/// know the package, such as an empty one, the first one starts a request and the second one waits
/// for it. The request is in the file when both are done.
pub proof fn law_two_processes_start_one_request(
    contents: CacheView,
    first: CacheView,
    second: CacheView,
    name: Seq<char>,
    again: Seq<char>,
    now: u64,
    moment: u64,
    first_claims: Seq<(Seq<char>, ClaimView)>,
    second_claims: Seq<(Seq<char>, ClaimView)>,
)
    requires
        is_bounded(contents),
        contents.entries.dom().len() < MAX_CACHE_ENTRIES,
        contents.timestamps.len() < MAX_REQUESTS_PER_WINDOW,
        version_cache::lookup_of(contents, name, now) is Missing,
        is_storable(name, None),
        text::lowered(again) == text::lowered(name),
        moment < version_cache::later(now, PENDING_TTL_SECONDS),
        now <= version_cache::later(moment, CLOCK_SKEW_TOLERANCE_SECONDS),
        version_cache::are_settled(
            contents,
            first,
            version_cache::distinct_keys(seq![name]),
            now,
            first_claims,
        ),
        version_cache::are_settled(
            first,
            second,
            version_cache::distinct_keys(seq![again]),
            moment,
            second_claims,
        ),
    ensures
        first_claims == seq![(text::lowered(name), ClaimView::Started)],
        second_claims == seq![(text::lowered(name), ClaimView::Pending)],
        is_bounded(second),
        second.entries.contains_key(text::lowered(name)),
        second.entries[text::lowered(name)] == (CacheEntryView::Pending {
            expires_at: version_cache::later(now, PENDING_TTL_SECONDS),
        }),
{
    let key = text::lowered(name);
    text::lemma_lowered_twice(name);
    lemma_single_key(name);
    lemma_single_key(again);
    let loaded = choose|loaded: CacheView| #[trigger]
        version_cache::is_sanitized(contents, loaded, now) && version_cache::are_claimed(
            loaded,
            first,
            seq![key],
            now,
            first_claims,
        );
    lemma_rest_of_bounded(contents, loaded, now);
    lemma_single_claim(loaded, first, key, now, first_claims);
    law_unknown_package_is_requested(loaded, first, key, now, first_claims[0].1);
    let reloaded = choose|reloaded: CacheView| #[trigger]
        version_cache::is_sanitized(first, reloaded, moment) && version_cache::are_claimed(
            reloaded,
            second,
            seq![key],
            moment,
            second_claims,
        );
    lemma_single_claim(reloaded, second, key, moment, second_claims);
    law_claim_keeps_requests(loaded, first, key, now, ClaimView::Started);
    lemma_rest_of_bounded(first, reloaded, moment);
    law_started_request_is_pending_elsewhere(
        loaded,
        first,
        reloaded,
        second,
        key,
        key,
        now,
        moment,
        second_claims[0].1,
    );
}

/// Once one process has finished a request in the file, every other that asks for the package gets
/// what came of it, until it expires. The request has to be in the file, or the file has to have room.
pub proof fn law_finished_request_is_ready_elsewhere(
    contents: CacheView,
    written: CacheView,
    after: CacheView,
    name: Seq<char>,
    again: Seq<char>,
    value: Option<Seq<char>>,
    now: u64,
    moment: u64,
    claims: Seq<(Seq<char>, ClaimView)>,
)
    requires
        is_bounded(contents),
        contents.entries.dom().len() < MAX_CACHE_ENTRIES || contents.entries.contains_key(
            text::lowered(name),
        ),
        is_storable(name, value),
        text::lowered(again) == text::lowered(name),
        now < u64::MAX,
        now <= version_cache::later(moment, CLOCK_SKEW_TOLERANCE_SECONDS),
        moment < version_cache::later(now, version_cache::result_ttl(value)),
        version_cache::is_result_settled(contents, written, text::lowered(name), value, now),
        version_cache::are_settled(
            written,
            after,
            version_cache::distinct_keys(seq![again]),
            moment,
            claims,
        ),
    ensures
        claims == seq![(text::lowered(name), ClaimView::Ready(value))],
{
    let key = text::lowered(name);
    text::lemma_lowered_twice(name);
    lemma_single_key(name);
    lemma_single_key(again);
    let loaded = choose|loaded: CacheView| #[trigger]
        version_cache::is_sanitized(contents, loaded, now) && version_cache::is_sanitized(
            version_cache::with_result(loaded, key, value, now),
            written,
            now,
        );
    lemma_rest_of_bounded(contents, loaded, now);
    if contents.entries.contains_key(key) && !loaded.entries.contains_key(key) {
        let others = contents.entries.dom().remove(key);
        assert(loaded.entries.dom().subset_of(others));
        vstd::set_lib::lemma_len_subset(loaded.entries.dom(), others);
    }
    law_claimed_request_has_room(loaded, name, value, now);
    let reloaded = choose|reloaded: CacheView| #[trigger]
        version_cache::is_sanitized(written, reloaded, moment) && version_cache::are_claimed(
            reloaded,
            after,
            seq![key],
            moment,
            claims,
        );
    law_results_survive_a_restart(loaded, written, reloaded, name, value, now, moment, moment);
    lemma_single_claim(reloaded, after, key, moment, claims);
}

/// Versions are kept for six hours, failures for a quarter of an hour, and requests under way for half a
/// minute. No more than 256 packages are kept and no more than 256 are requested in an hour. Clocks may
/// differ by five minutes, and neither names nor versions of more than 256 bytes are kept.
pub proof fn law_limits_of_the_cache(version: Seq<char>)
    ensures
        version_cache::result_ttl(Some(version)) == 21_600,
        version_cache::result_ttl(None) == 900,
        PENDING_TTL_SECONDS == 30,
        version_cache::REQUEST_WINDOW_SECONDS == 3_600,
        MAX_REQUESTS_PER_WINDOW == 256,
        MAX_CACHE_ENTRIES == 256,
        CLOCK_SKEW_TOLERANCE_SECONDS == 300,
        MAX_PACKAGE_NAME_BYTES == 256,
        MAX_VERSION_BYTES == 256,
        version_cache::MAX_CACHE_FILE_BYTES == 262_144,
        CACHE_SCHEMA_VERSION == 1,
{
}

/// A request under way is pending, and a result is ready, until it expires, under every spelling of the
/// name in capitals. From that moment on the package is unknown, as one is that has no entry.
pub proof fn law_entries_count_until_they_expire(
    cache: CacheView,
    name: Seq<char>,
    now: u64,
)
    ensures
        ({
            let key = text::lowered(name);
            let found = version_cache::lookup_of(cache, name, now);
            &&& !cache.entries.contains_key(key) ==> found is Missing
            &&& cache.entries.contains_key(key) ==> match cache.entries[key] {
                CacheEntryView::Pending { expires_at } => if now < expires_at {
                    found is Pending
                } else {
                    found is Missing
                },
                CacheEntryView::Ready { value, expires_at } => if now < expires_at {
                    found == LookupView::Ready(value)
                } else {
                    found is Missing
                },
            }
        }),
{
}

/// An entry is believed exactly where it has not expired and expires no later than one that is made now,
/// by a clock that may be ahead by five minutes. Then it is kept under a name of 1 to 256 bytes, and no
/// version of more than 256 bytes is.
pub proof fn law_entries_are_believed_within_their_time(
    name: Seq<char>,
    value: Option<Seq<char>>,
    expires_at: u64,
    now: u64,
)
    requires
        now <= u64::MAX - 86_400,
    ensures
        version_cache::is_worth_keeping(name, CacheEntryView::Pending { expires_at }, now) <==> (
        name.len() > 0 && text::byte_len(name) <= 256 && now < expires_at <= now + 330),
        version_cache::is_worth_keeping(name, CacheEntryView::Ready { value, expires_at }, now) <==> (
        name.len() > 0 && text::byte_len(name) <= 256 && now < expires_at && match value {
            Some(version) => expires_at <= now + 21_900 && text::byte_len(version) <= 256,
            None => expires_at <= now + 1_200,
        }),
{
}

/// What is left of a cache is all that is believed, where that is no more than there is room for, and it
/// is left as it was. Nothing is left of a cache with another schema.
pub proof fn law_believed_entries_are_kept(
    before: CacheView,
    after: CacheView,
    now: u64,
    name: Seq<char>,
)
    requires
        before.entries.dom().finite(),
        before.entries.dom().len() <= 256,
        version_cache::is_sanitized(before, after, now),
    ensures
        before.schema_version == 1 ==> {
            &&& after.entries.contains_key(name) <==> before.entries.contains_key(name)
                && version_cache::is_worth_keeping(name, before.entries[name], now)
            &&& after.entries.contains_key(name) ==> after.entries[name] == before.entries[name]
        },
        before.schema_version != 1 ==> !after.entries.contains_key(name) && after.timestamps.len()
            == 0,
{
    lemma_plausible_are_fewer(before.entries, now);
    assert(version_cache::plausible_entries(before.entries, now).dom().subset_of(
        before.entries.dom(),
    ));
    vstd::set_lib::lemma_len_subset(
        version_cache::plausible_entries(before.entries, now).dom(),
        before.entries.dom(),
    );
}

/// A request counts against the budget for an hour. One of the future counts where it lies no more than
/// five minutes ahead.
pub proof fn law_requests_count_for_an_hour(moment: u64, now: u64)
    requires
        now <= u64::MAX - 86_400,
    ensures
        version_cache::is_recent(moment, now) <==> now < moment + 3_600 && moment <= now + 300,
{
}

/// The requests that count are kept in the order of time, all of them where they are no more than the
/// budget has.
pub proof fn law_requests_that_count_are_kept(moments: Seq<u64>, now: u64)
    requires
        moments.len() <= 256,
    ensures
        version_cache::recent_timestamps(moments, now).to_multiset() == moments.filter(
            |moment: u64| version_cache::is_recent(moment, now),
        ).to_multiset(),
        forall|i: int, j: int|
            0 <= i <= j < version_cache::recent_timestamps(moments, now).len()
                ==> version_cache::recent_timestamps(moments, now)[i]
                <= version_cache::recent_timestamps(moments, now)[j],
{
    broadcast use {
        vstd::seq_lib::group_filter_ensures,
        vstd::seq_lib::group_to_multiset_ensures,
    };

    let picks = |moment: u64| version_cache::is_recent(moment, now);
    assert(picks =~= version_cache::recent_at(now));
    let some = moments.filter(version_cache::recent_at(now));
    let sorted = some.sort_by(version_cache::moment_order());
    some.lemma_sort_by_ensures(version_cache::moment_order());
    assert(some.len() == some.to_multiset().len());
    assert(sorted.len() == sorted.to_multiset().len());
    assert(version_cache::recent_timestamps(moments, now) == sorted);
    assert forall|i: int, j: int| 0 <= i <= j < sorted.len() implies sorted[i] <= sorted[j] by {
        if i < j {
            assert(version_cache::moment_order()(sorted[i], sorted[j]));
        }
    }
}

/// In a full cache a result that expires first makes room for a request, and every other entry stays. A
/// cache that is full of requests takes no other one.
pub proof fn law_full_cache_gives_up_oldest_result(
    before: CacheView,
    after: CacheView,
    key: Seq<char>,
    now: u64,
    claim: ClaimView,
    ready: Seq<char>,
)
    requires
        before.entries.dom().len() >= 256,
        before.timestamps.len() < 256,
        version_cache::is_admitted(before, after, key, now, claim),
    ensures
        before.entries.contains_key(ready) && before.entries[ready] is Ready ==> {
            &&& claim == ClaimView::Started
            &&& exists|oldest: Seq<char>| #[trigger] gives_up(before, after, key, oldest)
            &&& after.entries.contains_key(key)
            &&& after.entries[key] == (CacheEntryView::Pending {
                expires_at: version_cache::later(now, 30),
            })
            &&& after.timestamps == before.timestamps.push(now)
        },
        (forall|name: Seq<char>| #[trigger]
            before.entries.contains_key(name) ==> before.entries[name] is Pending) ==> claim
            == ClaimView::Rejected && after == before,
{
    if before.entries.contains_key(ready) && before.entries[ready] is Ready {
        let oldest = choose|oldest: Seq<char>| #[trigger]
            version_cache::is_oldest_result(before.entries, oldest) && after
                == version_cache::with_request(
                version_cache::without(before, oldest),
                key,
                now,
            );
        assert(version_cache::is_oldest_result(before.entries, oldest));
        assert(gives_up(before, after, key, oldest));
    }
}

/// The one entry that is gone, unless it is that of the new request, is a result, and no result expires
/// before it.
pub open spec fn gives_up(
    before: CacheView,
    after: CacheView,
    key: Seq<char>,
    oldest: Seq<char>,
) -> bool {
    &&& before.entries.contains_key(oldest)
    &&& before.entries[oldest] is Ready
    &&& oldest != key ==> !after.entries.contains_key(oldest)
    &&& forall|name: Seq<char>| #[trigger]
        before.entries.contains_key(name) ==> {
            &&& before.entries[name] is Ready ==> before.entries[oldest].expiry()
                <= before.entries[name].expiry()
            &&& name != oldest && name != key ==> after.entries.contains_key(name)
                && after.entries[name] == before.entries[name]
        }
}

/// The cache is kept in the directory that the variable of the server names, where it is set. Else it is
/// kept where programs keep such files on the system, and nowhere where the environment does not tell
/// where that is.
pub proof fn law_cache_is_kept_where_it_belongs(
    system: version_cache::System,
    set: version_cache::SetVariables,
)
    ensures
        ({
            let place = version_cache::cache_place(system, set);
            &&& set.cache_directory ==> is_place(
                place,
                "COMPOSER_LANGUAGE_SERVER_CACHE_DIR"@,
                None,
            )
            &&& !set.cache_directory && system == version_cache::System::Windows
                ==> if set.local_app_data {
                is_place(place, "LOCALAPPDATA"@, Some("composer-language-server"@))
            } else {
                place is None
            }
            &&& !set.cache_directory && system == version_cache::System::MacOs ==> if set.home {
                is_place(place, "HOME"@, Some("Library/Caches/composer-language-server"@))
            } else {
                place is None
            }
            &&& !set.cache_directory && system == version_cache::System::OtherUnix
                ==> if set.xdg_cache_home {
                is_place(place, "XDG_CACHE_HOME"@, Some("composer-language-server"@))
            } else if set.home {
                is_place(place, "HOME"@, Some(".cache/composer-language-server"@))
            } else {
                place is None
            }
            &&& !set.cache_directory && system == version_cache::System::Other ==> place is None
        }),
{
}

/// The place is the directory that the variable names, or the one below it.
pub open spec fn is_place(
    place: Option<version_cache::PlaceView>,
    variable: Seq<char>,
    below: Option<Seq<char>>,
) -> bool {
    place matches Some(place) && place.variable == variable && place.below == below
}

/// To look a package up changes nothing that is known, of it or of other packages, then or later, and no
/// request is forgotten.
pub proof fn law_lookups_change_nothing_that_is_known(
    cache: CacheView,
    name: Seq<char>,
    now: u64,
    other: Seq<char>,
    moment: u64,
)
    requires
        now <= moment,
    ensures
        version_cache::lookup_of(
            version_cache::after_lookup(cache, name, now),
            other,
            moment,
        ) == version_cache::lookup_of(cache, other, moment),
        version_cache::lookup_of(cache, name, now) is Missing ==> !version_cache::after_lookup(
            cache,
            name,
            now,
        ).entries.contains_key(text::lowered(name)),
        version_cache::after_lookup(cache, name, now).timestamps == cache.timestamps,
        version_cache::after_lookup(cache, name, now).schema_version == cache.schema_version,
{
}

/// What is finished for one package changes nothing that is known of another one, and no request is
/// forgotten.
pub proof fn law_results_are_kept_apart(
    cache: CacheView,
    key: Seq<char>,
    value: Option<Seq<char>>,
    now: u64,
    other: Seq<char>,
    moment: u64,
)
    requires
        text::lowered(other) != key,
    ensures
        version_cache::lookup_of(
            version_cache::with_result(cache, key, value, now),
            other,
            moment,
        ) == version_cache::lookup_of(cache, other, moment),
        version_cache::with_result(cache, key, value, now).timestamps == cache.timestamps,
{
}

/// The packages of a row are claimed in the order in which they first stand there: what is claimed of
/// its beginning is claimed first.
pub proof fn law_claims_keep_the_order_of_names(names: Seq<Seq<char>>, more: Seq<Seq<char>>)
    ensures
        version_cache::distinct_keys(names).is_prefix_of(
            version_cache::distinct_keys(names + more),
        ),
    decreases more.len(),
{
    if more.len() == 0 {
        assert(names + more =~= names);
    } else {
        let front = more.drop_last();
        law_claims_keep_the_order_of_names(names, front);
        assert((names + more).drop_last() =~= names + front);
        assert((names + more).last() == more.last());
    }
}

/// What is answered to the wish to request a package, where there is room.
pub open spec fn answer_of(cache: CacheView, key: Seq<char>, now: u64) -> ClaimView {
    match version_cache::lookup_of(cache, key, now) {
        LookupView::Ready(value) => ClaimView::Ready(value),
        LookupView::Pending => ClaimView::Pending,
        LookupView::Missing => ClaimView::Started,
    }
}

/// Where there is room for all packages of a row, each of them is answered for itself: with what is known
/// of it, or with the start of a request where nothing is.
pub proof fn law_each_wish_is_answered_for_itself(
    before: CacheView,
    after: CacheView,
    keys: Seq<Seq<char>>,
    now: u64,
    claims: Seq<(Seq<char>, ClaimView)>,
)
    requires
        is_bounded(before),
        forall|name: Seq<char>| #[trigger]
            before.entries.contains_key(name) ==> version_cache::is_worth_keeping(
                name,
                before.entries[name],
                now,
            ),
        before.entries.dom().len() + keys.len() <= 256,
        before.timestamps.len() + keys.len() <= 256,
        keys.no_duplicates(),
        forall|i: int| 0 <= i < keys.len() ==> text::lowered(#[trigger] keys[i]) == keys[i],
        version_cache::are_claimed(before, after, keys, now, claims),
    ensures
        claims.len() == keys.len(),
        forall|i: int|
            0 <= i < keys.len() ==> (#[trigger] claims[i]) == (
                keys[i],
                answer_of(before, keys[i], now),
            ),
{
    lemma_wishes_are_answered(before, after, keys, now, claims, Seq::empty());
}

/// Nothing else changes of what is known than that some of the given packages are requested.
spec fn knows_the_same(before: CacheView, after: CacheView, keys: Seq<Seq<char>>) -> bool {
    forall|name: Seq<char>|
        #![trigger after.entries.contains_key(name)]
        #![trigger before.entries.contains_key(name)]
        !keys.contains(name) ==> after.entries.contains_key(name) == before.entries.contains_key(name)
            && (before.entries.contains_key(name) ==> after.entries[name] == before.entries[name])
}

proof fn lemma_wishes_are_answered(
    before: CacheView,
    after: CacheView,
    keys: Seq<Seq<char>>,
    now: u64,
    claims: Seq<(Seq<char>, ClaimView)>,
    later: Seq<Seq<char>>,
)
    requires
        is_bounded(before),
        forall|name: Seq<char>| #[trigger]
            before.entries.contains_key(name) ==> version_cache::is_worth_keeping(
                name,
                before.entries[name],
                now,
            ),
        before.entries.dom().len() + keys.len() + later.len() <= 256,
        before.timestamps.len() + keys.len() + later.len() <= 256,
        keys.no_duplicates(),
        forall|i: int| 0 <= i < keys.len() ==> text::lowered(#[trigger] keys[i]) == keys[i],
        version_cache::are_claimed(before, after, keys, now, claims),
    ensures
        claims.len() == keys.len(),
        forall|i: int|
            0 <= i < keys.len() ==> (#[trigger] claims[i]) == (
                keys[i],
                answer_of(before, keys[i], now),
            ),
        is_bounded(after),
        after.entries.dom().len() <= before.entries.dom().len() + keys.len(),
        after.timestamps.len() <= before.timestamps.len() + keys.len(),
        knows_the_same(before, after, keys),
    decreases keys.len(),
{
    if keys.len() > 0 {
        let end = keys.len() - 1;
        let front = keys.drop_last();
        let key = keys[end];
        let middle = choose|middle: CacheView|
            version_cache::are_claimed(before, middle, front, now, claims.drop_last())
                && #[trigger] version_cache::is_claimed(middle, after, key, now, claims.last().1);
        assert forall|i: int| 0 <= i < front.len() implies text::lowered(#[trigger] front[i])
            == front[i] by {
            assert(front[i] == keys[i]);
        }
        lemma_wishes_are_answered(
            before,
            middle,
            front,
            now,
            claims.drop_last(),
            later.push(key),
        );
        assert(!front.contains(key));
        assert(middle.entries.contains_key(key) == before.entries.contains_key(key));
        assert(version_cache::lookup_of(middle, key, now) == version_cache::lookup_of(
            before,
            key,
            now,
        ));
        assert forall|i: int| 0 <= i < front.len() implies (#[trigger] claims[i]) == (
            keys[i],
            answer_of(before, keys[i], now),
        ) by {
            assert(claims.drop_last()[i] == claims[i]);
            assert(front[i] == keys[i]);
        }
        if version_cache::lookup_of(middle, key, now) is Missing {
            lemma_started_in_room(before, middle, after, front, key, now, claims.last().1);
        }
        assert forall|name: Seq<char>|
            #![trigger after.entries.contains_key(name)]
            #![trigger before.entries.contains_key(name)]
            !keys.contains(name) implies after.entries.contains_key(name)
            == before.entries.contains_key(name) && (before.entries.contains_key(name)
            ==> after.entries[name] == before.entries[name]) by {
            assert(!front.contains(name)) by {
                if front.contains(name) {
                    let i = choose|i: int| 0 <= i < front.len() && front[i] == name;
                    assert(keys[i] == name);
                }
            }
            assert(keys.contains(key)) by {
                assert(keys[end] == key);
            }
            assert(middle.entries.contains_key(name) == before.entries.contains_key(name));
        }
    }
}

proof fn lemma_started_in_room(
    before: CacheView,
    middle: CacheView,
    after: CacheView,
    front: Seq<Seq<char>>,
    key: Seq<char>,
    now: u64,
    claim: ClaimView,
)
    requires
        is_bounded(middle),
        middle.entries.dom().len() < 256,
        middle.timestamps.len() < 256,
        version_cache::lookup_of(middle, key, now) is Missing,
        text::lowered(key) == key,
        version_cache::is_claimed(middle, after, key, now, claim),
        knows_the_same(before, middle, front),
        forall|name: Seq<char>| #[trigger]
            before.entries.contains_key(name) ==> version_cache::is_worth_keeping(
                name,
                before.entries[name],
                now,
            ),
    ensures
        claim == ClaimView::Started,
        is_bounded(after),
        after.entries.dom().len() <= middle.entries.dom().len() + 1,
        after.timestamps.len() <= middle.timestamps.len() + 1,
        forall|name: Seq<char>|
            #![trigger after.entries.contains_key(name)]
            #![trigger middle.entries.contains_key(name)]
            name != key && !front.contains(name) ==> after.entries.contains_key(name)
                == middle.entries.contains_key(name) && (middle.entries.contains_key(name)
                ==> after.entries[name] == middle.entries[name]),
{
    let rest = choose|rest: CacheView| #[trigger]
        version_cache::is_sanitized(version_cache::after_lookup(middle, key, now), rest, now)
            && version_cache::is_admitted(rest, after, key, now, claim);
    lemma_rest_of_unknown(middle, rest, key, now);
    vstd::set_lib::lemma_len_subset(rest.entries.dom(), middle.entries.dom());
    lemma_recent_are_fewer(middle.timestamps, now);
    law_claim_keeps_requests(middle, after, key, now, claim);
    assert forall|name: Seq<char>|
        #![trigger after.entries.contains_key(name)]
        #![trigger middle.entries.contains_key(name)]
        name != key && !front.contains(name) implies after.entries.contains_key(name)
        == middle.entries.contains_key(name) && (middle.entries.contains_key(name)
        ==> after.entries[name] == middle.entries[name]) by {
        assert(middle.entries.contains_key(name) == before.entries.contains_key(name));
        if middle.entries.contains_key(name) {
            assert(rest.entries.contains_key(name));
        }
        if rest.entries.contains_key(name) {
            assert(rest.entries.dom().contains(name));
            assert(middle.entries.dom().contains(name));
        }
    }
}

/// Of more entries than there is room for, as many are kept as there is room for, and none that is left
/// out expires later than one that is kept.
pub proof fn law_latest_entries_are_kept(
    before: CacheView,
    after: CacheView,
    now: u64,
    kept: Seq<char>,
    left: Seq<char>,
)
    requires
        before.schema_version == 1,
        before.entries.dom().finite(),
        version_cache::is_sanitized(before, after, now),
        before.entries.contains_key(left),
        version_cache::is_worth_keeping(left, before.entries[left], now),
        !after.entries.contains_key(left),
    ensures
        after.entries.dom().len() == 256,
        after.entries.contains_key(kept) ==> before.entries[left].expiry()
            <= after.entries[kept].expiry(),
{
    let all = version_cache::plausible_entries(before.entries, now);
    assert(all.contains_key(left));
}

/// The moment at which an entry no longer counts is the one that it states.
pub proof fn law_entries_state_when_they_expire(value: Option<Seq<char>>, expires_at: u64)
    ensures
        (CacheEntryView::Pending { expires_at }).expiry() == expires_at,
        (CacheEntryView::Ready { value, expires_at }).expiry() == expires_at,
{
}

/// A request is under way for half a minute, and what came of it is kept from the moment at which it
/// came. A moment beyond the last one there is counts as that.
pub proof fn law_entries_are_made_for_their_time(
    cache: CacheView,
    key: Seq<char>,
    value: Option<Seq<char>>,
    now: u64,
)
    ensures
        version_cache::with_request(cache, key, now).entries[key] == (CacheEntryView::Pending {
            expires_at: if now + 30 <= u64::MAX {
                (now + 30) as u64
            } else {
                u64::MAX
            },
        }),
        version_cache::with_request(cache, key, now).timestamps == cache.timestamps.push(now),
        version_cache::with_result(cache, key, value, now).entries[key] == (CacheEntryView::Ready {
            value,
            expires_at: {
                let time: int = if value is Some {
                    21_600
                } else {
                    900
                };
                if now + time <= u64::MAX {
                    (now + time) as u64
                } else {
                    u64::MAX
                }
            },
        }),
{
}

} // verus!
