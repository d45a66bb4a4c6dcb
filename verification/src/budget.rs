//! The hourly budget of requests, over everything that can happen to a cache.
use crate::text;
use crate::version_cache;
use crate::version_cache::{
    CacheView, ClaimView, CACHE_SCHEMA_VERSION, MAX_REQUESTS_PER_WINDOW,
    REQUEST_WINDOW_SECONDS,
};
use vstd::prelude::*;

verus! {

/// Something that happens to a cache.
pub enum Operation {
    Lookup { name: Seq<char> },
    Claim { name: Seq<char>, claim: ClaimView },
    Finish { name: Seq<char>, value: Option<Seq<char>> },
    Load,
}

/// An operation, the moment at which it happens, and the cache after it.
pub struct Step {
    pub now: u64,
    pub operation: Operation,
    pub after: CacheView,
}

/// The step leads from the given cache to the one after it.
pub open spec fn is_step(before: CacheView, step: Step) -> bool {
    match step.operation {
        Operation::Lookup { name } => step.after == version_cache::after_lookup(
            before,
            name,
            step.now,
        ),
        Operation::Claim { name, claim } => version_cache::is_claimed(
            before,
            step.after,
            name,
            step.now,
            claim,
        ),
        Operation::Finish { name, value } => version_cache::is_sanitized(
            version_cache::with_result(before, text::lowered(name), value, step.now),
            step.after,
            step.now,
        ),
        Operation::Load => version_cache::is_sanitized(before, step.after, step.now),
    }
}

/// The cache after a row of steps.
pub open spec fn cache_after(start: CacheView, steps: Seq<Step>) -> CacheView {
    if steps.len() == 0 {
        start
    } else {
        steps.last().after
    }
}

/// Each step leads from the cache that the one before it left, and the clock is not set back.
pub open spec fn is_run(start: CacheView, steps: Seq<Step>) -> bool
    decreases steps.len(),
{
    if steps.len() == 0 {
        true
    } else {
        let front = steps.drop_last();
        &&& is_run(start, front)
        &&& is_step(cache_after(start, front), steps.last())
        &&& front.len() > 0 ==> front.last().now <= steps.last().now
    }
}

/// A request is started in the step.
pub open spec fn starts_request(step: Step) -> bool {
    step.operation matches Operation::Claim { claim, .. } && claim == ClaimView::Started
}

/// The number of requests that are started behind one moment and not behind another.
pub open spec fn requests_started(steps: Seq<Step>, behind: int, until: int) -> nat
    decreases steps.len(),
{
    if steps.len() == 0 {
        0
    } else {
        let before = requests_started(steps.drop_last(), behind, until);
        if starts_request(steps.last()) && behind < steps.last().now <= until {
            before + 1
        } else {
            before
        }
    }
}

/// The number of moments behind one moment and not behind another.
spec fn moments_within(moments: Seq<u64>, behind: int, until: int) -> nat
    decreases moments.len(),
{
    if moments.len() == 0 {
        0
    } else {
        let before = moments_within(moments.drop_last(), behind, until);
        if behind < moments.last() <= until {
            before + 1
        } else {
            before
        }
    }
}

proof fn lemma_moments_bounds(moments: Seq<u64>, behind: int, until: int, end: int)
    requires
        until <= end,
    ensures
        moments_within(moments, behind, until) <= moments_within(moments, behind, end),
        moments_within(moments, behind, end) <= moments.len(),
    decreases moments.len(),
{
    if moments.len() > 0 {
        lemma_moments_bounds(moments.drop_last(), behind, until, end);
    }
}

/// A moment that is taken out no longer counts.
proof fn lemma_moment_removed(moments: Seq<u64>, at: int, behind: int, until: int)
    requires
        0 <= at < moments.len(),
    ensures
        moments_within(moments, behind, until) == moments_within(
            moments.remove(at),
            behind,
            until,
        ) + (if behind < moments[at] <= until {
            1nat
        } else {
            0nat
        }),
    decreases moments.len(),
{
    let end = moments.len() - 1;
    if at == end {
        assert(moments.remove(at) =~= moments.drop_last());
    } else {
        lemma_moment_removed(moments.drop_last(), at, behind, until);
        assert(moments.remove(at).drop_last() =~= moments.drop_last().remove(at));
        assert(moments.remove(at).last() == moments.last());
    }
}

/// The order of the moments does not count.
proof fn lemma_moments_in_another_order(
    left: Seq<u64>,
    right: Seq<u64>,
    behind: int,
    until: int,
)
    requires
        left.to_multiset() == right.to_multiset(),
    ensures
        moments_within(left, behind, until) == moments_within(right, behind, until),
    decreases left.len(),
{
    broadcast use vstd::seq_lib::group_to_multiset_ensures;

    assert(left.len() == left.to_multiset().len());
    assert(right.len() == right.to_multiset().len());
    if left.len() > 0 {
        let end = left.len() - 1;
        assert(left.to_multiset().count(left[end]) > 0);
        assert(right.contains(left[end]));
        let at = right.index_of(left[end]);
        assert(left.remove(end) =~= left.drop_last());
        assert(right.remove(at).to_multiset() =~= left.drop_last().to_multiset());
        lemma_moments_in_another_order(left.drop_last(), right.remove(at), behind, until);
        lemma_moment_removed(right, at, behind, until);
    }
}

/// Moments outside the range can be left out.
proof fn lemma_moments_filtered(
    moments: Seq<u64>,
    picks: spec_fn(u64) -> bool,
    behind: int,
    until: int,
)
    requires
        forall|moment: u64| behind < moment <= until ==> #[trigger] picks(moment),
    ensures
        moments_within(moments.filter(picks), behind, until) == moments_within(
            moments,
            behind,
            until,
        ),
    decreases moments.len(),
{
    reveal(Seq::filter);
    if moments.len() > 0 {
        let front = moments.drop_last();
        lemma_moments_filtered(front, picks, behind, until);
        if picks(moments.last()) {
            assert(moments.filter(picks).drop_last() =~= front.filter(picks));
        }
    }
}

/// To sanitize a row of requests within the budget keeps all requests of the last hour.
proof fn lemma_recent_moments_stay(timestamps: Seq<u64>, now: u64, behind: int)
    requires
        timestamps.len() <= MAX_REQUESTS_PER_WINDOW,
        now - REQUEST_WINDOW_SECONDS <= behind,
    ensures
        version_cache::recent_timestamps(timestamps, now).len() <= MAX_REQUESTS_PER_WINDOW,
        moments_within(version_cache::recent_timestamps(timestamps, now), behind, now as int)
            == moments_within(timestamps, behind, now as int),
{
    broadcast use {
        vstd::seq_lib::group_filter_ensures,
        vstd::seq_lib::group_to_multiset_ensures,
    };

    let some = timestamps.filter(version_cache::recent_at(now));
    let sorted = some.sort_by(version_cache::moment_order());
    some.lemma_sort_by_ensures(version_cache::moment_order());
    assert(some.len() == some.to_multiset().len());
    assert(sorted.len() == sorted.to_multiset().len());
    lemma_moments_filtered(timestamps, version_cache::recent_at(now), behind, now as int);
    lemma_moments_in_another_order(some, sorted, behind, now as int);
}

/// No step of a run lies behind the last one.
proof fn lemma_started_until_last(start: CacheView, steps: Seq<Step>, behind: int, until: int)
    requires
        is_run(start, steps),
        steps.len() > 0,
        steps.last().now <= until,
    ensures
        requests_started(steps, behind, until) == requests_started(
            steps,
            behind,
            steps.last().now as int,
        ),
    decreases steps.len(),
{
    reveal_with_fuel(requests_started, 2);
    let front = steps.drop_last();
    if front.len() > 0 {
        lemma_started_until_last(start, front, behind, until);
        lemma_started_until_last(start, front, behind, steps.last().now as int);
    }
}

/// The requests of the last hour that a run started are on record, and the record is within the
/// budget once one was started.
spec fn is_recorded(start: CacheView, steps: Seq<Step>) -> bool {
    let cache = cache_after(start, steps);
    let now = steps.last().now;
    &&& forall|behind: int|
        now - REQUEST_WINDOW_SECONDS <= behind ==> #[trigger] requests_started(
            steps,
            behind,
            now as int,
        ) <= moments_within(cache.timestamps, behind, now as int)
    &&& has_started(steps) ==> cache.timestamps.len() <= MAX_REQUESTS_PER_WINDOW
        && cache.schema_version == CACHE_SCHEMA_VERSION
}

/// Some step starts a request.
spec fn has_started(steps: Seq<Step>) -> bool
    decreases steps.len(),
{
    steps.len() > 0 && (starts_request(steps.last()) || has_started(steps.drop_last()))
}

proof fn lemma_none_started(steps: Seq<Step>, behind: int, until: int)
    requires
        !has_started(steps),
    ensures
        requests_started(steps, behind, until) == 0,
    decreases steps.len(),
{
    if steps.len() > 0 {
        lemma_none_started(steps.drop_last(), behind, until);
    }
}

/// The requests that the steps before the last one started are still on record in a cache that has
/// the moments of the cache before, or those of them that count.
proof fn lemma_record_carried(
    start: CacheView,
    front: Seq<Step>,
    now: u64,
    timestamps: Seq<u64>,
    behind: int,
)
    requires
        is_run(start, front),
        front.len() > 0 ==> front.last().now <= now && is_recorded(start, front),
        has_started(front),
        timestamps == cache_after(start, front).timestamps || timestamps
            == version_cache::recent_timestamps(cache_after(start, front).timestamps, now),
        now - REQUEST_WINDOW_SECONDS <= behind,
    ensures
        requests_started(front, behind, now as int) <= moments_within(
            timestamps,
            behind,
            now as int,
        ),
        timestamps.len() <= MAX_REQUESTS_PER_WINDOW,
{
    let had = cache_after(start, front).timestamps;
    let then = front.last().now;
    lemma_started_until_last(start, front, behind, now as int);
    assert(requests_started(front, behind, then as int) <= moments_within(
        had,
        behind,
        then as int,
    ));
    lemma_moments_bounds(had, behind, then as int, now as int);
    lemma_recent_moments_stay(had, now, behind);
}

proof fn lemma_run_is_recorded(start: CacheView, steps: Seq<Step>)
    requires
        is_run(start, steps),
        steps.len() > 0,
    ensures
        is_recorded(start, steps),
    decreases steps.len(),
{
    let front = steps.drop_last();
    let step = steps.last();
    let now = step.now;
    let before = cache_after(start, front);
    if front.len() > 0 {
        lemma_run_is_recorded(start, front);
    }
    if starts_request(step) {
        let name = step.operation->Claim_name;
        let rest = choose|rest: CacheView| #[trigger]
            version_cache::is_sanitized(
                version_cache::after_lookup(before, name, now),
                rest,
                now,
            ) && version_cache::is_admitted(
                rest,
                step.after,
                text::lowered(name),
                now,
                ClaimView::Started,
            );
        assert(step.after.timestamps =~= rest.timestamps.push(now));
        assert(step.after.schema_version == CACHE_SCHEMA_VERSION);
        assert forall|behind: int| now - REQUEST_WINDOW_SECONDS <= behind implies #[trigger]
            requests_started(steps, behind, now as int) <= moments_within(
            step.after.timestamps,
            behind,
            now as int,
        ) by {
            assert(step.after.timestamps.drop_last() =~= rest.timestamps);
            if has_started(front) {
                lemma_record_carried(start, front, now, rest.timestamps, behind);
            } else {
                lemma_none_started(front, behind, now as int);
            }
        }
    } else {
        if has_started(front) {
            assert(step.after.schema_version == CACHE_SCHEMA_VERSION && (step.after.timestamps
                == before.timestamps || step.after.timestamps == version_cache::recent_timestamps(
                before.timestamps,
                now,
            ))) by {
                lemma_quiet_step(before, step);
            }
            lemma_record_carried(start, front, now, step.after.timestamps, now as int);
        }
        assert forall|behind: int| now - REQUEST_WINDOW_SECONDS <= behind implies #[trigger]
            requests_started(steps, behind, now as int) <= moments_within(
            step.after.timestamps,
            behind,
            now as int,
        ) by {
            if has_started(front) {
                lemma_record_carried(start, front, now, step.after.timestamps, behind);
            } else {
                lemma_none_started(front, behind, now as int);
            }
        }
    }
}

/// A step that starts no request keeps the moments on record, or those of them that count.
proof fn lemma_quiet_step(before: CacheView, step: Step)
    requires
        is_step(before, step),
        !starts_request(step),
        before.schema_version == CACHE_SCHEMA_VERSION,
    ensures
        step.after.schema_version == CACHE_SCHEMA_VERSION,
        step.after.timestamps == before.timestamps || step.after.timestamps
            == version_cache::recent_timestamps(before.timestamps, step.now),
{
    if let Operation::Claim { name, claim } = step.operation {
        if version_cache::lookup_of(before, name, step.now) is Missing {
            let rest = choose|rest: CacheView| #[trigger]
                version_cache::is_sanitized(
                    version_cache::after_lookup(before, name, step.now),
                    rest,
                    step.now,
                ) && version_cache::is_admitted(
                    rest,
                    step.after,
                    text::lowered(name),
                    step.now,
                    claim,
                );
            assert(step.after == rest);
        }
    }
}

/// Whatever happens to a cache, and whatever it held at the start, no more requests are started in
/// any hour than the budget has.
pub proof fn law_hourly_budget_is_kept(start: CacheView, steps: Seq<Step>, end: int)
    requires
        is_run(start, steps),
    ensures
        requests_started(steps, end - REQUEST_WINDOW_SECONDS, end) <= MAX_REQUESTS_PER_WINDOW,
    decreases steps.len(),
{
    if steps.len() > 0 {
        let now = steps.last().now;
        let behind = end - REQUEST_WINDOW_SECONDS;
        if now > end {
            law_hourly_budget_is_kept(start, steps.drop_last(), end);
        } else {
            lemma_run_is_recorded(start, steps);
            lemma_started_until_last(start, steps, behind, end);
            let record = cache_after(start, steps).timestamps;
            lemma_moments_bounds(record, behind, now as int, now as int);
            if !has_started(steps) {
                lemma_none_started(steps, behind, now as int);
            }
        }
    }
}

} // verus!
