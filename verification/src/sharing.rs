//! Two servers that use the file of the cache at the same time, each under its lock.
use crate::cache_laws;
use crate::text;
use crate::version_cache;
use crate::version_cache::{
    CacheView, ClaimView, CLOCK_SKEW_TOLERANCE_SECONDS, MAX_CACHE_ENTRIES,
    MAX_REQUESTS_PER_WINDOW, PENDING_TTL_SECONDS,
};
use vstd::prelude::*;

verus! {

/// How far a server is with a transaction.
pub enum Progress {
    Begins,
    Locked,
    Read,
    Written,
    Ended,
}

/// A server that asks for one package: what it asks for and when, how far it is, what it has read from
/// the file, and its answers.
pub struct Process {
    pub name: Seq<char>,
    pub now: u64,
    pub progress: Progress,
    pub seen: CacheView,
    pub claims: Seq<(Seq<char>, ClaimView)>,
}

pub enum Side {
    Left,
    Right,
}

/// The file, the server that holds its lock, and the two servers.
pub struct World {
    pub file: CacheView,
    pub holder: Option<Side>,
    pub left: Process,
    pub right: Process,
}

impl World {
    pub open spec fn process(self, side: Side) -> Process {
        match side {
            Side::Left => self.left,
            Side::Right => self.right,
        }
    }
}

pub open spec fn other(side: Side) -> Side {
    match side {
        Side::Left => Side::Right,
        Side::Right => Side::Left,
    }
}

/// One server takes its next step: it takes the lock, which no one holds, reads the file, settles its
/// wish and writes the file, or gives the lock back. It reads and writes only while it holds the
/// lock. The other server does nothing.
pub open spec fn takes_step(before: World, after: World, side: Side) -> bool {
    let old_process = before.process(side);
    let new_process = after.process(side);
    &&& after.process(other(side)) == before.process(other(side))
    &&& new_process.name == old_process.name
    &&& new_process.now == old_process.now
    &&& match old_process.progress {
        Progress::Begins => {
            &&& before.holder is None
            &&& after.holder == Some(side)
            &&& after.file == before.file
            &&& new_process.progress is Locked
        },
        Progress::Locked => {
            &&& before.holder == Some(side)
            &&& after.holder == before.holder
            &&& after.file == before.file
            &&& new_process.progress is Read
            &&& new_process.seen == before.file
        },
        Progress::Read => {
            &&& before.holder == Some(side)
            &&& after.holder == before.holder
            &&& new_process.progress is Written
            &&& are_answers(new_process, old_process.seen, after.file)
        },
        Progress::Written => {
            &&& before.holder == Some(side)
            &&& after.holder is None
            &&& after.file == before.file
            &&& new_process.progress is Ended
            &&& new_process.claims == old_process.claims
        },
        Progress::Ended => false,
    }
}

/// The answers of a server are settled in a file with the given contents, and this is written to it.
pub open spec fn are_answers(process: Process, contents: CacheView, written: CacheView) -> bool {
    version_cache::are_settled(
        contents,
        written,
        version_cache::distinct_keys(seq![process.name]),
        process.now,
        process.claims,
    )
}

/// Both servers begin, and no one holds the lock.
pub open spec fn is_start(world: World) -> bool {
    &&& world.holder is None
    &&& world.left.progress is Begins
    &&& world.right.progress is Begins
}

/// The worlds follow each other, and between one and the next one of the servers takes a step.
pub open spec fn is_schedule(worlds: Seq<World>) -> bool {
    &&& worlds.len() > 0
    &&& is_start(worlds[0])
    &&& forall|i: int|
        #![trigger worlds[i]]
        0 <= i < worlds.len() - 1 ==> takes_step(worlds[i], worlds[i + 1], Side::Left)
            || takes_step(worlds[i], worlds[i + 1], Side::Right)
}

/// The server has written the file.
spec fn has_written(process: Process) -> bool {
    process.progress is Written || process.progress is Ended
}

/// The server holds the lock.
spec fn is_inside(process: Process) -> bool {
    !(process.progress is Begins) && !(process.progress is Ended)
}

/// The first server has written the file, and then the second one.
spec fn in_turn(contents: CacheView, first: Process, second: Process, written: CacheView) -> bool {
    exists|middle: CacheView| #[trigger]
        are_answers(first, contents, middle) && are_answers(second, middle, written)
}

/// What holds at every moment: the lock is held by the one server that is inside, and the file is
/// what the servers made of it that have written it, in turn.
spec fn is_consistent(world: World, contents: CacheView) -> bool {
    &&& is_inside(world.left) <==> world.holder == Some(Side::Left)
    &&& is_inside(world.right) <==> world.holder == Some(Side::Right)
    &&& world.left.progress is Read ==> world.left.seen == world.file
    &&& world.right.progress is Read ==> world.right.seen == world.file
    &&& match (has_written(world.left), has_written(world.right)) {
        (false, false) => world.file == contents,
        (true, false) => are_answers(world.left, contents, world.file),
        (false, true) => are_answers(world.right, contents, world.file),
        (true, true) => in_turn(contents, world.left, world.right, world.file) || in_turn(
            contents,
            world.right,
            world.left,
            world.file,
        ),
    }
}

proof fn lemma_step_is_consistent(before: World, after: World, side: Side, contents: CacheView)
    requires
        is_consistent(before, contents),
        takes_step(before, after, side),
    ensures
        is_consistent(after, contents),
{
    let process = before.process(side);
    let partner = before.process(other(side));
    if process.progress is Read && has_written(partner) {
        assert(are_answers(partner, contents, before.file));
        assert(in_turn(contents, partner, after.process(side), after.file));
    }
    if process.progress is Written {
        if has_written(partner) {
            if in_turn(contents, before.left, before.right, before.file) {
                let middle = choose|middle: CacheView| #[trigger]
                    are_answers(before.left, contents, middle) && are_answers(
                        before.right,
                        middle,
                        before.file,
                    );
                assert(are_answers(after.left, contents, middle));
                assert(are_answers(after.right, middle, after.file));
            } else {
                let middle = choose|middle: CacheView| #[trigger]
                    are_answers(before.right, contents, middle) && are_answers(
                        before.left,
                        middle,
                        before.file,
                    );
                assert(are_answers(after.right, contents, middle));
                assert(are_answers(after.left, middle, after.file));
            }
        }
    }
}

proof fn lemma_schedule_is_consistent(worlds: Seq<World>, n: int)
    requires
        is_schedule(worlds),
        0 <= n < worlds.len(),
    ensures
        is_consistent(worlds[n], worlds[0].file),
        worlds[n].left.name == worlds[0].left.name,
        worlds[n].left.now == worlds[0].left.now,
        worlds[n].right.name == worlds[0].right.name,
        worlds[n].right.now == worlds[0].right.now,
    decreases n,
{
    if n > 0 {
        lemma_schedule_is_consistent(worlds, n - 1);
        let before = worlds[n - 1];
        if takes_step(before, worlds[n - 1 + 1], Side::Left) {
            lemma_step_is_consistent(before, worlds[n], Side::Left, worlds[0].file);
        } else {
            lemma_step_is_consistent(before, worlds[n], Side::Right, worlds[0].file);
        }
    }
}

/// The second clock is not so far ahead of the first one that a request of the first server has
/// expired, nor further behind than is put up with.
pub open spec fn are_close(first: u64, second: u64) -> bool {
    &&& second < version_cache::later(first, PENDING_TTL_SECONDS)
    &&& first <= version_cache::later(second, CLOCK_SKEW_TOLERANCE_SECONDS)
}

/// The two servers ask for the same package, at moments that are close. The file has room and knows
/// the package at neither moment.
pub open spec fn asks_for_unknown(world: World) -> bool {
    let file = world.file;
    let left = world.left;
    let right = world.right;
    &&& cache_laws::is_bounded(file)
    &&& file.entries.dom().len() < MAX_CACHE_ENTRIES
    &&& file.timestamps.len() < MAX_REQUESTS_PER_WINDOW
    &&& version_cache::lookup_of(file, left.name, left.now) is Missing
    &&& version_cache::lookup_of(file, right.name, right.now) is Missing
    &&& cache_laws::is_storable(left.name, None)
    &&& text::lowered(right.name) == text::lowered(left.name)
    &&& are_close(left.now, right.now)
    &&& are_close(right.now, left.now)
}

/// Of two servers that ask for the same package at the same time, over a file that has room and does
/// not know the package, exactly one starts a request and the other one waits for it, however their
/// steps are interleaved. The request is in the file when both are done.
pub proof fn law_servers_at_the_same_time_start_one_request(worlds: Seq<World>)
    requires
        is_schedule(worlds),
        worlds.last().left.progress is Ended,
        worlds.last().right.progress is Ended,
        asks_for_unknown(worlds[0]),
    ensures
        ({
            let started = seq![(text::lowered(worlds[0].left.name), ClaimView::Started)];
            let waiting = seq![(text::lowered(worlds[0].left.name), ClaimView::Pending)];
            let left = worlds.last().left.claims;
            let right = worlds.last().right.claims;
            (left == started && right == waiting) || (left == waiting && right == started)
        }),
        cache_laws::is_bounded(worlds.last().file),
        worlds.last().file.entries.contains_key(text::lowered(worlds[0].left.name)),
{
    let end = worlds.last();
    let contents = worlds[0].file;
    lemma_schedule_is_consistent(worlds, worlds.len() - 1);
    if in_turn(contents, end.left, end.right, end.file) {
        lemma_first_starts(contents, end.left, end.right, end.file);
    } else {
        lemma_first_starts(contents, end.right, end.left, end.file);
    }
}

proof fn lemma_first_starts(
    contents: CacheView,
    first: Process,
    second: Process,
    written: CacheView,
)
    requires
        in_turn(contents, first, second, written),
        cache_laws::is_bounded(contents),
        contents.entries.dom().len() < MAX_CACHE_ENTRIES,
        contents.timestamps.len() < MAX_REQUESTS_PER_WINDOW,
        version_cache::lookup_of(contents, first.name, first.now) is Missing,
        cache_laws::is_storable(first.name, None),
        text::lowered(second.name) == text::lowered(first.name),
        are_close(first.now, second.now),
    ensures
        first.claims == seq![(text::lowered(first.name), ClaimView::Started)],
        second.claims == seq![(text::lowered(first.name), ClaimView::Pending)],
        cache_laws::is_bounded(written),
        written.entries.contains_key(text::lowered(first.name)),
{
    let middle = choose|middle: CacheView| #[trigger]
        are_answers(first, contents, middle) && are_answers(second, middle, written);
    cache_laws::law_two_processes_start_one_request(
        contents,
        middle,
        written,
        first.name,
        second.name,
        first.now,
        second.now,
        first.claims,
        second.claims,
    );
}

/// Once the server that started the request has finished it, whichever of the two that is, every
/// server that asks for the package gets what came of it, until it expires.
pub proof fn law_servers_at_the_same_time_share_the_result(
    worlds: Seq<World>,
    written: CacheView,
    after: CacheView,
    again: Seq<char>,
    value: Option<Seq<char>>,
    now: u64,
    moment: u64,
    claims: Seq<(Seq<char>, ClaimView)>,
)
    requires
        is_schedule(worlds),
        worlds.last().left.progress is Ended,
        worlds.last().right.progress is Ended,
        asks_for_unknown(worlds[0]),
        cache_laws::is_storable(worlds[0].left.name, value),
        text::lowered(again) == text::lowered(worlds[0].left.name),
        now < u64::MAX,
        now <= version_cache::later(moment, CLOCK_SKEW_TOLERANCE_SECONDS),
        moment < version_cache::later(now, version_cache::result_ttl(value)),
        version_cache::is_result_settled(
            worlds.last().file,
            written,
            text::lowered(worlds[0].left.name),
            value,
            now,
        ),
        version_cache::are_settled(
            written,
            after,
            version_cache::distinct_keys(seq![again]),
            moment,
            claims,
        ),
    ensures
        claims == seq![(text::lowered(worlds[0].left.name), ClaimView::Ready(value))],
{
    law_servers_at_the_same_time_start_one_request(worlds);
    cache_laws::law_finished_request_is_ready_elsewhere(
        worlds.last().file,
        written,
        after,
        worlds[0].left.name,
        again,
        value,
        now,
        moment,
        claims,
    );
}

} // verus!
