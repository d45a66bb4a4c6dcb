//! Older servers that can stand in for the one of this release.
use crate::platform;
use crate::platform::{
    is_valid_server, ExecutableFormat, FileProbe, PlatformView, ServerPlatform,
};
use crate::settings::SERVER_NAME;
use crate::text;
use crate::text::{chars_of, parse_u64, same_text, split_chars, stands_at, starts_with};
use crate::version;
use vstd::prelude::*;

verus! {

/// A file that is named as a server is: its version, and the place of its target among those that
/// run on the platform.
#[derive(Debug)]
pub struct Candidate {
    pub name: String,
    pub version: Vec<u64>,
    pub priority: usize,
}

pub struct CandidateView {
    pub name: Seq<char>,
    pub version: Seq<u64>,
    pub priority: int,
}

impl View for Candidate {
    type V = CandidateView;

    open spec fn view(&self) -> CandidateView {
        CandidateView {
            name: self.name@,
            version: self.version@,
            priority: self.priority as int,
        }
    }
}

/// What the candidates of a row are.
pub open spec fn candidate_views(candidates: Seq<Candidate>) -> Seq<CandidateView> {
    candidates.map_values(|candidate: Candidate| candidate@)
}

/// How the name of a server for a target ends.
pub open spec fn suffix_of(platform: PlatformView, priority: int) -> Seq<char> {
    "-"@ + platform.fallback_targets[priority] + platform.executable_suffix
}

/// The place of the first target, from the given one on, whose suffix the name ends with.
pub open spec fn target_from(platform: PlatformView, name: Seq<char>, from: int) -> Option<int>
    decreases platform.fallback_targets.len() - from,
{
    if from >= platform.fallback_targets.len() {
        None
    } else if text::ends_with(name, suffix_of(platform, from)) {
        Some(from)
    } else {
        target_from(platform, name, from + 1)
    }
}

/// The numbers of a version whose parts are all numbers.
pub open spec fn numbers_of(parts: Seq<Seq<char>>) -> Option<Seq<u64>>
    decreases parts.len(),
{
    if parts.len() == 0 {
        Some(Seq::empty())
    } else {
        match (numbers_of(parts.drop_last()), text::u64_value(parts.last())) {
            (Some(before), Some(number)) => Some(before.push(number)),
            _ => None,
        }
    }
}

/// The candidate with the given name: the name of the server, a version and a target with hyphens
/// between them, and the end of executable files. The file of this release is none.
pub open spec fn candidate_of(platform: PlatformView, name: Seq<char>) -> Option<CandidateView> {
    let prefix = SERVER_NAME@ + "-"@;
    match target_from(platform, name, 0) {
        Some(priority) if name != platform::file_of(platform) => {
            let end = name.len() - suffix_of(platform, priority).len();
            if text::begins_with(name, prefix) && prefix.len() <= end {
                match numbers_of(text::pieces(name.subrange(prefix.len() as int, end), '.')) {
                    Some(version) => Some(CandidateView { name, version, priority }),
                    None => None,
                }
            } else {
                None
            }
        },
        _ => None,
    }
}

/// The characters of a suffix.
fn make_suffix(platform: &ServerPlatform, priority: usize) -> (suffix: Vec<char>)
    requires
        priority < platform@.fallback_targets.len(),
    ensures
        suffix@ == suffix_of(platform@, priority as int),
{
    let mut suffix = "-".to_owned();
    suffix.append(platform.fallback_targets[priority]);
    suffix.append(platform.executable_suffix);
    chars_of(suffix.as_str())
}

/// Tells whether the characters end with a pattern.
fn ends_as(chars: &[char], pattern: &[char]) -> (yes: bool)
    ensures
        yes == text::ends_with(chars@, pattern@),
{
    if chars.len() < pattern.len() {
        return false;
    }
    stands_at(chars, pattern, chars.len() - pattern.len())
}

/// The place of the first target whose suffix the name ends with.
fn find_target(platform: &ServerPlatform, name: &[char]) -> (priority: Option<usize>)
    ensures
        match priority {
            Some(priority) => priority < platform@.fallback_targets.len() && target_from(
                platform@,
                name@,
                0,
            ) == Some(priority as int),
            None => target_from(platform@, name@, 0) is None,
        },
{
    let mut i: usize = 0;
    while i < platform.fallback_targets.len()
        invariant
            i <= platform@.fallback_targets.len(),
            target_from(platform@, name@, 0) == target_from(platform@, name@, i as int),
        decreases platform@.fallback_targets.len() - i,
    {
        let suffix = make_suffix(platform, i);
        if ends_as(name, suffix.as_slice()) {
            return Some(i);
        }
        i += 1;
    }
    None
}

/// The numbers of a version whose parts are all numbers.
fn read_numbers(parts: &Vec<Vec<char>>) -> (numbers: Option<Vec<u64>>)
    ensures
        match numbers {
            Some(numbers) => numbers_of(parts@.map_values(|part: Vec<char>| part@)) == Some(
                numbers@,
            ),
            None => numbers_of(parts@.map_values(|part: Vec<char>| part@)) is None,
        },
{
    let ghost all = parts@.map_values(|part: Vec<char>| part@);
    let mut numbers: Vec<u64> = Vec::new();
    let mut i: usize = 0;
    while i < parts.len()
        invariant
            i <= parts@.len(),
            all == parts@.map_values(|part: Vec<char>| part@),
            numbers_of(all.take(i as int)) == Some(numbers@),
        decreases parts@.len() - i,
    {
        assert(all.take(i + 1).drop_last() =~= all.take(i as int));
        assert(all.take(i + 1).last() == parts@[i as int]@);
        match parse_u64(parts[i].as_slice()) {
            Some(number) => {
                numbers.push(number);
            },
            None => {
                proof {
                    lemma_no_numbers(all, i + 1);
                }
                return None;
            },
        }
        i += 1;
    }
    assert(all.take(all.len() as int) =~= all);
    Some(numbers)
}

/// A part that is no number spoils the whole version.
proof fn lemma_no_numbers(parts: Seq<Seq<char>>, n: int)
    requires
        0 <= n <= parts.len(),
        numbers_of(parts.take(n)) is None,
    ensures
        numbers_of(parts) is None,
    decreases parts.len(),
{
    if n < parts.len() {
        let front = parts.drop_last();
        assert(front.take(n) =~= parts.take(n));
        lemma_no_numbers(front, n);
    } else {
        assert(parts.take(n) =~= parts);
    }
}

/// The candidate with the given name, if it is named as a server is.
pub fn candidate(platform: &ServerPlatform, name: &str) -> (candidate: Option<Candidate>)
    ensures
        match candidate {
            Some(candidate) => candidate_of(platform@, name@) == Some(candidate@),
            None => candidate_of(platform@, name@) is None,
        },
{
    if same_text(name, platform.file_name().as_str()) {
        return None;
    }
    let chars = chars_of(name);
    let mut start = SERVER_NAME.to_owned();
    start.append("-");
    let prefix = chars_of(start.as_str());
    let priority = match find_target(platform, chars.as_slice()) {
        Some(priority) => priority,
        None => {
            return None;
        },
    };
    let suffix = make_suffix(platform, priority);
    proof {
        lemma_target_ends_name(platform@, name@, 0);
    }
    let end = chars.len() - suffix.len();
    if !starts_with(chars.as_slice(), prefix.as_slice()) || prefix.len() > end {
        return None;
    }
    let middle = vstd::slice::slice_subrange(chars.as_slice(), prefix.len(), end);
    let parts = split_chars(middle, '.');
    assert(parts@.map_values(|part: Vec<char>| part@) =~= text::pieces(middle@, '.'));
    match read_numbers(&parts) {
        Some(version) => Some(Candidate { name: name.to_owned(), version, priority }),
        None => None,
    }
}

/// The name ends with the suffix of the target that is found.
proof fn lemma_target_ends_name(platform: PlatformView, name: Seq<char>, from: int)
    requires
        0 <= from,
    ensures
        target_from(platform, name, from) matches Some(priority) ==> from <= priority
            < platform.fallback_targets.len() && text::ends_with(
            name,
            suffix_of(platform, priority),
        ),
    decreases platform.fallback_targets.len() - from,
{
    if from < platform.fallback_targets.len() && !text::ends_with(name, suffix_of(platform, from)) {
        lemma_target_ends_name(platform, name, from + 1);
    }
}

/// The first version is lower than the second one: at the first number in which they differ it has
/// the smaller one, or it ends where the second one goes on.
pub open spec fn is_lower(left: Seq<u64>, right: Seq<u64>) -> bool {
    exists|i: int|
        #![trigger left.take(i)]
        0 <= i <= left.len() && i < right.len() && left.take(i) == right.take(i) && (i
            == left.len() || left[i] < right[i])
}

/// The first candidate is tried no later than the second one: it has the higher version, or the
/// same one and a target that is no further behind.
pub open spec fn is_tried_first(left: CandidateView, right: CandidateView) -> bool {
    is_lower(right.version, left.version) || (left.version == right.version && left.priority
        <= right.priority)
}

/// Tells whether the first version is lower than the second one.
fn is_lower_version(left: &Vec<u64>, right: &Vec<u64>) -> (lower: bool)
    ensures
        lower == is_lower(left@, right@),
{
    let mut i: usize = 0;
    while i < left.len() && i < right.len() && left[i] == right[i]
        invariant
            i <= left@.len(),
            i <= right@.len(),
            forall|j: int| 0 <= j < i ==> left@[j] == right@[j],
        decreases left@.len() - i,
    {
        i += 1;
    }
    let lower = i < right.len() && (i == left.len() || left[i] < right[i]);
    proof {
        let at = i as int;
        assert(left@.take(at) =~= right@.take(at));
        assert forall|k: int|
            #![trigger left@.take(k)]
            0 <= k <= left@.len() && k < right@.len() && left@.take(k) == right@.take(k) && (k
                == left@.len() || left@[k] < right@[k]) implies k == at by {
            if k < at {
                assert(left@[k] == right@[k]);
            } else if k > at {
                assert(left@.take(k)[at] == left@[at]);
                assert(right@.take(k)[at] == right@[at]);
            }
        }
    }
    lower
}

/// Tells whether the first candidate is tried no later than the second one.
fn goes_first(left: &Candidate, right: &Candidate) -> (first: bool)
    ensures
        first == is_tried_first(left@, right@),
{
    if is_lower_version(&right.version, &left.version) {
        return true;
    }
    let lower = is_lower_version(&left.version, &right.version);
    proof {
        lemma_versions_differ(left.version@, right.version@);
        assert(left.version@ == right.version@ ==> !lower) by {
            if left.version@ == right.version@ {
                lemma_not_lower_than_itself(left.version@);
            }
        }
    }
    !lower && left.priority <= right.priority
}

proof fn lemma_not_lower_than_itself(version: Seq<u64>)
    ensures
        !is_lower(version, version),
{
}

/// Of two versions that differ, one is lower.
proof fn lemma_versions_differ(left: Seq<u64>, right: Seq<u64>)
    ensures
        left == right || is_lower(left, right) || is_lower(right, left),
    decreases left.len(),
{
    if left.len() == 0 {
        if right.len() > 0 {
            assert(left.take(0) =~= right.take(0));
        } else {
            assert(left =~= right);
        }
    } else if right.len() == 0 {
        assert(left.take(0) =~= right.take(0));
        assert(right.take(0) =~= left.take(0));
    } else if left[0] != right[0] {
        assert(left.take(0) =~= right.take(0));
        assert(right.take(0) =~= left.take(0));
    } else {
        let a = left.drop_first();
        let b = right.drop_first();
        lemma_versions_differ(a, b);
        if is_lower(a, b) {
            lemma_lower_behind_first(left, right);
        } else if is_lower(b, a) {
            lemma_lower_behind_first(right, left);
        } else {
            assert(left =~= seq![left[0]] + a);
            assert(right =~= seq![right[0]] + b);
        }
    }
}

proof fn lemma_lower_behind_first(left: Seq<u64>, right: Seq<u64>)
    requires
        left.len() > 0,
        right.len() > 0,
        left[0] == right[0],
        is_lower(left.drop_first(), right.drop_first()),
    ensures
        is_lower(left, right),
{
    let a = left.drop_first();
    let b = right.drop_first();
    let i = choose|i: int|
        #![trigger a.take(i)]
        0 <= i <= a.len() && i < b.len() && a.take(i) == b.take(i) && (i == a.len() || a[i] < b[i]);
    assert forall|j: int| 0 <= j < i + 1 implies left[j] == right[j] by {
        if j > 0 {
            assert(a.take(i)[j - 1] == left[j]);
            assert(b.take(i)[j - 1] == right[j]);
        }
    }
    assert(left.take(i + 1) =~= right.take(i + 1));
}

proof fn lemma_lower_is_transitive(a: Seq<u64>, b: Seq<u64>, c: Seq<u64>)
    requires
        is_lower(a, b),
        is_lower(b, c),
    ensures
        is_lower(a, c),
{
    let i = choose|i: int|
        #![trigger a.take(i)]
        0 <= i <= a.len() && i < b.len() && a.take(i) == b.take(i) && (i == a.len() || a[i] < b[i]);
    let k = choose|i: int|
        #![trigger b.take(i)]
        0 <= i <= b.len() && i < c.len() && b.take(i) == c.take(i) && (i == b.len() || b[i] < c[i]);
    let first = if i < k {
        i
    } else {
        k
    };
    assert forall|j: int| 0 <= j < first implies a[j] == c[j] by {
        assert(a.take(i)[j] == a[j] && b.take(i)[j] == b[j]);
        assert(b.take(k)[j] == b[j] && c.take(k)[j] == c[j]);
    }
    if i < k {
        assert(b.take(k)[i] == b[i] && c.take(k)[i] == c[i]);
    } else if k < i {
        assert(a.take(i)[k] == a[k] && b.take(i)[k] == b[k]);
    }
    assert(a.take(first) =~= c.take(first));
}

/// Of any two candidates one is tried no later than the other, and a candidate that is tried no
/// later than a second one is tried no later than all that the second one is tried no later than.
pub proof fn law_candidates_are_ordered(a: CandidateView, b: CandidateView, c: CandidateView)
    ensures
        is_tried_first(a, a),
        is_tried_first(a, b) || is_tried_first(b, a),
        is_tried_first(a, b) && is_tried_first(b, c) ==> is_tried_first(a, c),
{
    lemma_versions_differ(a.version, b.version);
    if is_lower(b.version, a.version) && is_lower(c.version, b.version) {
        lemma_lower_is_transitive(c.version, b.version, a.version);
    }
}

/// Of two candidates with different versions the higher one is tried first, and of two with the
/// same version the one whose target is preferred.
pub proof fn law_higher_versions_are_tried_first(a: CandidateView, b: CandidateView)
    ensures
        is_lower(b.version, a.version) ==> is_tried_first(a, b) && !is_tried_first(b, a),
        a.version == b.version && a.priority < b.priority ==> is_tried_first(a, b)
            && !is_tried_first(b, a),
{
    lemma_not_lower_than_itself(a.version);
    if is_lower(b.version, a.version) {
        if is_lower(a.version, b.version) {
            lemma_lower_is_transitive(a.version, b.version, a.version);
        }
    }
}

/// The candidates are in the order in which they are tried.
pub open spec fn are_in_order(candidates: Seq<CandidateView>) -> bool {
    forall|i: int, j: int|
        0 <= i < j < candidates.len() ==> is_tried_first(
            #[trigger] candidates[i],
            #[trigger] candidates[j],
        )
}

/// The place of a candidate among candidates in order.
fn place_of(ordered: &Vec<Candidate>, candidate: &Candidate) -> (place: usize)
    requires
        are_in_order(candidate_views(ordered@)),
    ensures
        place <= ordered@.len(),
        forall|i: int| 0 <= i < place ==> is_tried_first((#[trigger] ordered@[i])@, candidate@),
        forall|i: int|
            place <= i < ordered@.len() ==> is_tried_first(candidate@, (#[trigger] ordered@[i])@),
{
    let mut place: usize = 0;
    while place < ordered.len() && goes_first(&ordered[place], candidate)
        invariant
            place <= ordered@.len(),
            forall|i: int| 0 <= i < place ==> is_tried_first((#[trigger] ordered@[i])@, candidate@),
        decreases ordered@.len() - place,
    {
        place += 1;
    }
    proof {
        let views = candidate_views(ordered@);
        assert forall|i: int| place <= i < ordered@.len() implies is_tried_first(
            candidate@,
            (#[trigger] ordered@[i])@,
        ) by {
            let at = place as int;
            law_candidates_are_ordered(views[at], candidate@, views[i]);
            law_candidates_are_ordered(candidate@, views[at], views[i]);
            assert(views[at] == ordered@[at]@ && views[i] == ordered@[i]@);
        }
    }
    place
}

/// The candidates in the order in which they are tried. The order of those that differ in nothing
/// but their names is left open.
pub fn in_order(candidates: Vec<Candidate>) -> (ordered: Vec<Candidate>)
    ensures
        are_in_order(candidate_views(ordered@)),
        candidate_views(ordered@).to_multiset() == candidate_views(candidates@).to_multiset(),
{
    let ghost all = candidate_views(candidates@);
    let mut rest = candidates;
    let mut ordered: Vec<Candidate> = Vec::new();
    proof {
        assert(candidate_views(ordered@) =~= Seq::empty());
        assert(all.skip(all.len() as int) =~= Seq::empty());
        assert(candidate_views(rest@) =~= all.take(all.len() as int));
    }
    while rest.len() > 0
        invariant
            rest@.len() <= all.len(),
            candidate_views(rest@) == all.take(rest@.len() as int),
            are_in_order(candidate_views(ordered@)),
            candidate_views(ordered@).to_multiset() == all.skip(rest@.len() as int).to_multiset(),
        decreases rest@.len(),
    {
        broadcast use vstd::seq_lib::group_to_multiset_ensures;

        let ghost at = rest@.len() - 1;
        let ghost before = rest@;
        let ghost had = candidate_views(ordered@);
        let candidate = rest.pop().unwrap();
        let ghost view = candidate@;
        assert(candidate_views(before)[at] == all[at]);
        assert(candidate_views(rest@) =~= all.take(at));
        let place = place_of(&ordered, &candidate);
        proof {
            assert forall|i: int| 0 <= i < had.len() implies #[trigger] had[i] == ordered@[i]@ by {}
        }
        ordered.insert(place, candidate);
        proof {
            let after = candidate_views(ordered@);
            assert(after =~= had.insert(place as int, view));
            assert(after.to_multiset() =~= had.to_multiset().insert(view));
            assert(all.skip(at) =~= all.skip(at + 1).insert(0, view));
            assert forall|i: int, j: int| 0 <= i < j < after.len() implies is_tried_first(
                #[trigger] after[i],
                #[trigger] after[j],
            ) by {
                let from = if i < place {
                    i
                } else {
                    i - 1
                };
                let to = if j < place {
                    j
                } else {
                    j - 1
                };
                if i == place {
                    assert(after[j] == had[to]);
                } else if j == place {
                    assert(after[i] == had[from]);
                } else {
                    assert(after[i] == had[from] && after[j] == had[to]);
                }
            }
        }
    }
    assert(all.skip(0) =~= all);
    ordered
}

/// What the candidates of a row are, each with what was found in its file.
pub open spec fn found_views(found: Seq<(Candidate, FileProbe)>) -> Seq<(CandidateView, FileProbe)> {
    found.map_values(|pair: (Candidate, FileProbe)| (pair.0@, pair.1))
}

/// The candidates whose files can be servers.
pub open spec fn valid_among(
    found: Seq<(CandidateView, FileProbe)>,
    format: ExecutableFormat,
) -> Seq<CandidateView>
    decreases found.len(),
{
    if found.len() == 0 {
        Seq::empty()
    } else {
        let before = valid_among(found.drop_last(), format);
        if platform::is_server(found.last().1, format) {
            before.push(found.last().0)
        } else {
            before
        }
    }
}

/// The candidates whose files can be servers, in the order in which they are tried.
pub fn usable_in_order(found: Vec<(Candidate, FileProbe)>, format: ExecutableFormat) -> (ordered:
    Vec<Candidate>)
    ensures
        are_in_order(candidate_views(ordered@)),
        candidate_views(ordered@).to_multiset() == valid_among(
            found_views(found@),
            format,
        ).to_multiset(),
{
    in_order(keep_valid(found, format))
}

/// The candidates whose files can be servers.
fn keep_valid(found: Vec<(Candidate, FileProbe)>, format: ExecutableFormat) -> (valid: Vec<
    Candidate,
>)
    ensures
        candidate_views(valid@).to_multiset() == valid_among(
            found_views(found@),
            format,
        ).to_multiset(),
{
    let ghost all = found_views(found@);
    let mut rest = found;
    let mut valid: Vec<Candidate> = Vec::new();
    proof {
        assert(candidate_views(valid@) =~= Seq::empty());
        assert(found_views(rest@) =~= all.take(all.len() as int));
        assert(all.take(all.len() as int) =~= all);
        assert(valid_among(all, format).to_multiset() =~= valid_among(
            all,
            format,
        ).to_multiset().add(candidate_views(valid@).to_multiset())) by {
            broadcast use vstd::seq_lib::group_to_multiset_ensures;

        }
    }
    while rest.len() > 0
        invariant
            rest@.len() <= all.len(),
            found_views(rest@) == all.take(rest@.len() as int),
            valid_among(all, format).to_multiset() == valid_among(
                all.take(rest@.len() as int),
                format,
            ).to_multiset().add(candidate_views(valid@).to_multiset()),
        decreases rest@.len(),
    {
        broadcast use vstd::seq_lib::group_to_multiset_ensures;

        let ghost n = rest@.len() as int;
        let ghost before = rest@;
        let ghost had = candidate_views(valid@);
        let (candidate, probe) = rest.pop().unwrap();
        proof {
            assert(found_views(before)[n - 1] == all[n - 1]);
            assert(found_views(rest@) =~= all.take(n - 1));
            assert(all.take(n).drop_last() =~= all.take(n - 1));
            assert(all.take(n).last() == all[n - 1]);
        }
        if is_valid_server(&probe, format) {
            let ghost view = candidate@;
            valid.push(candidate);
            proof {
                assert(candidate_views(valid@) =~= had.push(view));
                let front = valid_among(all.take(n - 1), format);
                assert(front.push(view).to_multiset().add(had.to_multiset())
                    =~= front.to_multiset().add(had.push(view).to_multiset()));
            }
        }
    }
    proof {
        broadcast use vstd::seq_lib::group_to_multiset_ensures;

        assert(all.take(0) =~= Seq::empty());
        assert(valid_among(all, format).to_multiset() =~= candidate_views(valid@).to_multiset());
    }
    valid
}

/// What to do next with candidates in order, given which of the first ones could be made executable.
#[derive(Clone, Copy, Debug, PartialEq, Eq, Structural)]
pub enum Trial {
    /// Make the candidate at this place executable.
    Try(usize),
    /// Use the candidate at this place.
    Take(usize),
    /// There is no other candidate.
    GiveUp,
}

/// What to do next with so many candidates. The first one that could be made executable is used; else
/// the next one is tried.
pub open spec fn trial_after(candidates: nat, outcomes: Seq<bool>) -> Trial
    decreases outcomes.len(),
{
    if outcomes.len() > 0 && !(trial_after(candidates, outcomes.drop_last()) is Try) {
        trial_after(candidates, outcomes.drop_last())
    } else if outcomes.len() > 0 && outcomes.last() {
        Trial::Take((outcomes.len() - 1) as usize)
    } else if outcomes.len() < candidates {
        Trial::Try(outcomes.len() as usize)
    } else {
        Trial::GiveUp
    }
}

/// What to do next with candidates in order, given which of the first ones could be made executable.
pub fn next_trial(candidates: &Vec<Candidate>, outcomes: &Vec<bool>) -> (trial: Trial)
    ensures
        trial == trial_after(candidates@.len(), outcomes@),
{
    let mut trial = if candidates.len() > 0 {
        Trial::Try(0)
    } else {
        Trial::GiveUp
    };
    let mut i: usize = 0;
    assert(outcomes@.take(0) =~= Seq::empty());
    while i < outcomes.len()
        invariant
            i <= outcomes@.len(),
            trial == trial_after(candidates@.len(), outcomes@.take(i as int)),
        decreases outcomes@.len() - i,
    {
        assert(outcomes@.take(i + 1).drop_last() =~= outcomes@.take(i as int));
        assert(outcomes@.take(i + 1).last() == outcomes@[i as int]);
        if let Trial::Try(_) = trial {
            if outcomes[i] {
                trial = Trial::Take(i);
            } else if i + 1 < candidates.len() {
                trial = Trial::Try(i + 1);
            } else {
                trial = Trial::GiveUp;
            }
        }
        i += 1;
    }
    assert(outcomes@.take(outcomes@.len() as int) =~= outcomes@);
    trial
}

/// The server that is used is the first of the candidates that could be made executable, and one is
/// given up only where none of them could.
pub proof fn law_first_enabled_server_is_taken(candidates: nat, outcomes: Seq<bool>)
    requires
        candidates <= usize::MAX,
        outcomes.len() <= candidates,
    ensures
        match trial_after(candidates, outcomes) {
            Trial::Take(at) => at < outcomes.len() && outcomes[at as int] && forall|i: int|
                0 <= i < at ==> !outcomes[i],
            Trial::Try(at) => at == outcomes.len() && at < candidates && forall|i: int|
                0 <= i < outcomes.len() ==> !outcomes[i],
            Trial::GiveUp => outcomes.len() == candidates && forall|i: int|
                0 <= i < outcomes.len() ==> !outcomes[i],
        },
    decreases outcomes.len(),
{
    if outcomes.len() > 0 {
        let front = outcomes.drop_last();
        law_first_enabled_server_is_taken(candidates, front);
        assert forall|i: int| 0 <= i < front.len() implies front[i] == outcomes[i] by {}
    }
}

/// An older server is used only if its file was found to be a server and it was made executable.
pub proof fn law_fallback_is_checked(
    found: Seq<(CandidateView, FileProbe)>,
    format: ExecutableFormat,
    ordered: Seq<CandidateView>,
    outcomes: Seq<bool>,
    at: usize,
)
    requires
        ordered.to_multiset() == valid_among(found, format).to_multiset(),
        ordered.len() <= usize::MAX,
        outcomes.len() <= ordered.len(),
        trial_after(ordered.len(), outcomes) == Trial::Take(at),
    ensures
        at < outcomes.len(),
        outcomes[at as int],
        exists|i: int|
            0 <= i < found.len() && (#[trigger] found[i]).0 == ordered[at as int]
                && platform::is_server(found[i].1, format),
{
    broadcast use vstd::seq_lib::group_to_multiset_ensures;

    law_first_enabled_server_is_taken(ordered.len(), outcomes);
    let taken = ordered[at as int];
    assert(ordered.contains(taken));
    assert(ordered.to_multiset().count(taken) > 0);
    assert(valid_among(found, format).contains(taken));
    lemma_valid_was_found(found, format, taken);
}

proof fn lemma_valid_was_found(
    found: Seq<(CandidateView, FileProbe)>,
    format: ExecutableFormat,
    candidate: CandidateView,
)
    requires
        valid_among(found, format).contains(candidate),
    ensures
        exists|i: int|
            0 <= i < found.len() && (#[trigger] found[i]).0 == candidate && platform::is_server(
                found[i].1,
                format,
            ),
    decreases found.len(),
{
    if found.len() > 0 {
        let front = found.drop_last();
        let end = found.len() - 1;
        let before = valid_among(front, format);
        if before.contains(candidate) {
            lemma_valid_was_found(front, format, candidate);
            let i = choose|i: int|
                0 <= i < front.len() && (#[trigger] front[i]).0 == candidate
                    && platform::is_server(front[i].1, format);
            assert(found[i] == front[i]);
        } else {
            let all = valid_among(found, format);
            let at = all.index_of(candidate);
            assert(all[at] == candidate);
            if at < before.len() {
                assert(before[at] == candidate);
            }
            assert(found[end].0 == candidate);
        }
    }
}

/// Of two versions that agree up to a place, the one with the smaller number there is lower, and so is
/// one that ends there where the other goes on.
pub proof fn law_lower_version_has_smaller_number(left: Seq<u64>, right: Seq<u64>, at: int)
    requires
        0 <= at <= left.len(),
        at < right.len(),
        forall|i: int| 0 <= i < at ==> left[i] == right[i],
        at < left.len() ==> left[at] < right[at],
    ensures
        is_lower(left, right),
        !is_lower(right, left),
{
    assert(left.take(at) =~= right.take(at));
    if is_lower(right, left) {
        lemma_lower_is_transitive(left, right, left);
        lemma_not_lower_than_itself(left);
    }
}

/// The numbers between the dots of a version are read one by one.
proof fn lemma_numbers_are_read(numbers: Seq<u64>)
    ensures
        numbers_of(numbers.map_values(|number: u64| text::decimal_text(number as nat))) == Some(
            numbers,
        ),
    decreases numbers.len(),
{
    let parts = numbers.map_values(|number: u64| text::decimal_text(number as nat));
    if numbers.len() > 0 {
        let front = numbers.drop_last();
        lemma_numbers_are_read(front);
        assert(parts.drop_last() =~= front.map_values(
            |number: u64| text::decimal_text(number as nat),
        ));
        text::law_number_is_read_as_written(numbers.last(), Seq::empty());
        assert(front.push(numbers.last()) =~= numbers);
    } else {
        assert(parts =~= Seq::empty());
        assert(numbers =~= Seq::empty());
    }
}

/// Every file that is named as a server of some release for a target of the platform is a candidate,
/// with that version, but for the file of this release.
pub proof fn law_servers_of_other_releases_are_candidates(
    platform: PlatformView,
    numbers: Seq<u64>,
    priority: int,
)
    requires
        numbers.len() > 0,
        0 <= priority < platform.fallback_targets.len(),
    ensures
        ({
            let name = "composer-language-server-"@ + version::dotted(numbers) + "-"@
                + platform.fallback_targets[priority] + platform.executable_suffix;
            &&& name == platform::file_of(platform) ==> candidate_of(platform, name) is None
            &&& name != platform::file_of(platform) && (forall|other: int|
                0 <= other < priority ==> !(#[trigger] text::ends_with(
                    name,
                    suffix_of(platform, other),
                ))) ==> candidate_of(platform, name) == Some(
                CandidateView { name, version: numbers, priority },
            )
        }),
{
    reveal_strlit("composer-language-server");
    reveal_strlit("composer-language-server-");
    reveal_strlit("-");
    let prefix = SERVER_NAME@ + "-"@;
    let middle = version::dotted(numbers);
    let suffix = suffix_of(platform, priority);
    assert(prefix =~= "composer-language-server-"@);
    let name = "composer-language-server-"@ + middle + "-"@ + platform.fallback_targets[priority]
        + platform.executable_suffix;
    assert(name =~= prefix + middle + suffix);
    let end = name.len() - suffix.len();
    assert(name.subrange(0, prefix.len() as int) =~= prefix);
    assert(name.subrange(end, end + suffix.len()) =~= suffix);
    assert(name.subrange(prefix.len() as int, end) =~= middle);
    version::lemma_dotted(numbers);
    lemma_numbers_are_read(numbers);
    if forall|other: int|
        0 <= other < priority ==> !(#[trigger] text::ends_with(name, suffix_of(platform, other))) {
        lemma_first_target(platform, name, 0, priority);
    }
}

proof fn lemma_first_target(platform: PlatformView, name: Seq<char>, from: int, priority: int)
    requires
        0 <= from <= priority < platform.fallback_targets.len(),
        text::ends_with(name, suffix_of(platform, priority)),
        forall|other: int|
            0 <= other < priority ==> !(#[trigger] text::ends_with(
                name,
                suffix_of(platform, other),
            )),
    ensures
        target_from(platform, name, from) == Some(priority),
    decreases priority - from,
{
    if from < priority {
        assert(!text::ends_with(name, suffix_of(platform, from)));
        lemma_first_target(platform, name, from + 1, priority);
    }
}

/// No file is a candidate whose name does not begin with that of the server, or ends with no target of
/// the platform.
pub proof fn law_other_files_are_no_candidates(platform: PlatformView, name: Seq<char>)
    ensures
        candidate_of(platform, name) matches Some(candidate) ==> {
            &&& candidate.name == name
            &&& name != platform::file_of(platform)
            &&& 0 <= candidate.priority < platform.fallback_targets.len()
            &&& text::begins_with(name, "composer-language-server"@ + "-"@)
            &&& text::ends_with(
                name,
                "-"@ + platform.fallback_targets[candidate.priority] + platform.executable_suffix,
            )
        },
{
    lemma_target_ends_name(platform, name, 0);
}

/// The candidates that are tried are exactly those whose files can be servers.
pub proof fn law_valid_candidates_are_tried(
    found: Seq<(CandidateView, FileProbe)>,
    format: ExecutableFormat,
    candidate: CandidateView,
)
    ensures
        valid_among(found, format).contains(candidate) <==> exists|i: int|
            0 <= i < found.len() && (#[trigger] found[i]).0 == candidate && platform::is_server(
                found[i].1,
                format,
            ),
    decreases found.len(),
{
    if valid_among(found, format).contains(candidate) {
        lemma_valid_was_found(found, format, candidate);
    } else if found.len() > 0 {
        let front = found.drop_last();
        let end = found.len() - 1;
        let before = valid_among(front, format);
        let all = valid_among(found, format);
        law_valid_candidates_are_tried(front, format, candidate);
        assert(!before.contains(candidate)) by {
            if before.contains(candidate) {
                let n = choose|n: int| 0 <= n < before.len() && before[n] == candidate;
                assert(all[n] == candidate);
            }
        }
        assert forall|i: int| 0 <= i < found.len() implies !((#[trigger] found[i]).0 == candidate
            && platform::is_server(found[i].1, format)) by {
            if i < end {
                assert(front[i] == found[i]);
            } else if found[i].0 == candidate && platform::is_server(found[i].1, format) {
                assert(all[before.len() as int] == candidate);
            }
        }
    }
}

} // verus!
