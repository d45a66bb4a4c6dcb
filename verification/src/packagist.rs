//! What Packagist tells about a package: its releases, and the newest stable one among them.
use crate::json;
use crate::json::{Json, JsonView};
use crate::version;
use crate::version::{is_less, stable_version_parts};
use vstd::prelude::*;
use vstd::string::*;

verus! {

/// The address of the metadata of a package.
pub open spec fn metadata_address(package_name: Seq<char>) -> Seq<char> {
    "https://repo.packagist.org/p2/"@ + package_name + ".json"@
}

/// The releases of a package in the metadata: those under its name, or else those under the first
/// name that the metadata holds.
pub open spec fn releases_of(metadata: JsonView, package_name: Seq<char>) -> Option<Seq<JsonView>> {
    match metadata.member("packages"@) {
        Some(JsonView::Object(packages)) => match json::member_of(packages, package_name) {
            Some(releases) => releases.array(),
            None => if packages.len() > 0 {
                packages[0].1.array()
            } else {
                None
            },
        },
        _ => None,
    }
}

/// The numbers by which a stable release is ordered, and its version. The numbers are those of its
/// normalized version, where it has one.
pub open spec fn stable_release(release: JsonView) -> Option<(Seq<u64>, Seq<char>)> {
    match release.string_member("version"@) {
        Some(version) => {
            let comparable = match release.string_member("version_normalized"@) {
                Some(normalized) => normalized,
                None => version,
            };
            match version::version_parts(comparable) {
                Some(parts) => Some((parts, version)),
                None => None,
            }
        },
        None => None,
    }
}

/// The greatest of the stable releases; the last one of several that are equal.
pub open spec fn newest_release(releases: Seq<JsonView>) -> Option<(Seq<u64>, Seq<char>)>
    decreases releases.len(),
{
    if releases.len() == 0 {
        None
    } else {
        let before = newest_release(releases.drop_last());
        match (before, stable_release(releases.last())) {
            (_, None) => before,
            (None, Some(release)) => Some(release),
            (Some(best), Some(release)) => if version::parts_less(release.0, best.0) {
                before
            } else {
                Some(release)
            },
        }
    }
}

/// The version of the newest stable release of a package that the metadata holds.
pub open spec fn newest_version(metadata: JsonView, package_name: Seq<char>) -> Option<Seq<char>> {
    match releases_of(metadata, package_name) {
        Some(releases) => match newest_release(releases) {
            Some((_, version)) => Some(version),
            None => None,
        },
        None => None,
    }
}

/// The address of the metadata of a package.
pub fn metadata_url(package_name: &str) -> (address: String)
    ensures
        address@ == metadata_address(package_name@),
{
    let mut address = "https://repo.packagist.org/p2/".to_owned();
    address.append(package_name);
    address.append(".json");
    address
}

/// The releases of a package in the metadata.
fn find_releases<'a>(metadata: &'a Json, package_name: &str) -> (releases: Option<&'a Vec<Json>>)
    ensures
        match releases {
            Some(releases) => releases_of(metadata@, package_name@) == Some(
                json::item_models(releases@),
            ),
            None => releases_of(metadata@, package_name@) is None,
        },
{
    match metadata.get("packages") {
        Some(packages) => match packages {
            Json::Object(fields) => match packages.get(package_name) {
                Some(releases) => releases.as_array(),
                None => {
                    if fields.len() > 0 {
                        fields[0].1.as_array()
                    } else {
                        None
                    }
                },
            },
            _ => None,
        },
        None => None,
    }
}

/// The numbers by which a stable release is ordered, and its version.
fn read_release(release: &Json) -> (stable: Option<([u64; 5], &str)>)
    ensures
        match stable {
            Some((parts, version)) => stable_release(release@) == Some((parts@, version@)),
            None => stable_release(release@) is None,
        },
{
    match release.get_str("version") {
        Some(version) => {
            let comparable = match release.get_str("version_normalized") {
                Some(normalized) => normalized,
                None => version,
            };
            match stable_version_parts(comparable) {
                Some(parts) => Some((parts, version)),
                None => None,
            }
        },
        None => None,
    }
}

/// The version of the newest stable release of a package that the metadata holds.
pub fn newest_stable_version(metadata: &Json, package_name: &str) -> (version: Option<String>)
    ensures
        match version {
            Some(version) => newest_version(metadata@, package_name@) == Some(version@),
            None => newest_version(metadata@, package_name@) is None,
        },
{
    let releases = match find_releases(metadata, package_name) {
        Some(releases) => releases,
        None => {
            return None;
        },
    };
    let ghost models = json::item_models(releases@);
    let mut best: Option<([u64; 5], &str)> = None;
    let mut i: usize = 0;
    while i < releases.len()
        invariant
            i <= releases@.len(),
            models == json::item_models(releases@),
            match best {
                Some((parts, version)) => newest_release(models.take(i as int)) == Some(
                    (parts@, version@),
                ),
                None => newest_release(models.take(i as int)) is None,
            },
        decreases releases@.len() - i,
    {
        assert(models.take(i + 1).drop_last() =~= models.take(i as int));
        assert(models.take(i + 1).last() == releases@[i as int]@);
        if let Some((parts, version)) = read_release(&releases[i]) {
            let keep = match &best {
                Some((greatest, _)) => is_less(&parts, greatest),
                None => false,
            };
            if !keep {
                best = Some((parts, version));
            }
        }
        i += 1;
    }
    assert(models.take(models.len() as int) =~= models);
    match best {
        Some((_, version)) => Some(version.to_owned()),
        None => None,
    }
}

/// The version of the newest stable release of a package that the text of its metadata holds;
/// `None` where the text is not JSON.
pub fn latest_stable_version(body: &str, package_name: &str) -> (version: Option<String>)
    ensures
        match (json::json_of_text(body@), version) {
            (Some(metadata), Some(version)) => newest_version(metadata, package_name@) == Some(
                version@,
            ),
            (Some(metadata), None) => newest_version(metadata, package_name@) is None,
            (None, _) => version is None,
        },
{
    match Json::parse(body) {
        Some(metadata) => newest_stable_version(&metadata, package_name),
        None => None,
    }
}

/// The newest release is one of the stable ones, and none of the stable ones is ahead of it. There
/// is none only where no release is stable.
pub proof fn law_newest_release_is_greatest(releases: Seq<JsonView>)
    ensures
        match newest_release(releases) {
            Some((parts, version)) => {
                &&& exists|i: int|
                    0 <= i < releases.len() && stable_release(#[trigger] releases[i]) == Some(
                        (parts, version),
                    )
                &&& forall|i: int|
                    0 <= i < releases.len() ==> (stable_release(#[trigger] releases[i]) matches Some(
                        (other, _),
                    ) ==> !version::parts_less(parts, other))
            },
            None => forall|i: int|
                0 <= i < releases.len() ==> stable_release(#[trigger] releases[i]) is None,
        },
    decreases releases.len(),
{
    if releases.len() > 0 {
        let front = releases.drop_last();
        let end = releases.len() - 1;
        law_newest_release_is_greatest(front);
        assert forall|i: int| 0 <= i < end implies front[i] == releases[i] by {}
        match (newest_release(front), stable_release(releases[end])) {
            (Some((parts, version)), None) => {
                let i = choose|i: int|
                    0 <= i < front.len() && stable_release(#[trigger] front[i]) == Some(
                        (parts, version),
                    );
                assert(stable_release(releases[i]) == Some((parts, version)));
            },
            (Some((parts, version)), Some((last, last_version))) => {
                let i = choose|i: int|
                    0 <= i < front.len() && stable_release(#[trigger] front[i]) == Some(
                        (parts, version),
                    );
                assert(stable_release(releases[i]) == Some((parts, version)));
                version::law_version_order_is_strict(last, last, last);
                if !version::parts_less(last, parts) {
                    assert forall|k: int| 0 <= k < releases.len() implies (stable_release(
                        #[trigger] releases[k],
                    ) matches Some((other, _)) ==> !version::parts_less(last, other)) by {
                        if k < end {
                            assert(front[k] == releases[k]);
                            if let Some((other, _)) = stable_release(releases[k]) {
                                version::law_version_order_is_strict(last, parts, other);
                            }
                        }
                    }
                }
            },
            (None, Some((last, _))) => {
                version::law_version_order_is_strict(last, last, last);
            },
            (None, None) => {},
        }
    }
}

/// The release has this version and is stable, and these are the numbers by which it is ordered: those
/// of `version_normalized` where that is a text, and else those of `version`.
pub open spec fn is_stable_release(
    release: JsonView,
    version: Seq<char>,
    numbers: Seq<u64>,
) -> bool {
    &&& release.member("version"@) == Some(JsonView::String(version))
    &&& match release.member("version_normalized"@) {
        Some(JsonView::String(normalized)) => version::version_parts(normalized) == Some(numbers),
        _ => version::version_parts(version) == Some(numbers),
    }
}

/// The version is that of one of the stable releases. No stable release is ahead of it, and none that
/// follows it is as good.
pub open spec fn is_newest_of(releases: Seq<JsonView>, version: Seq<char>) -> bool {
    exists|i: int, numbers: Seq<u64>|
        0 <= i < releases.len() && #[trigger] is_stable_release(releases[i], version, numbers) && (
        forall|k: int, other: Seq<char>, theirs: Seq<u64>|
            0 <= k < releases.len() && #[trigger] is_stable_release(releases[k], other, theirs)
                ==> !version::parts_less(numbers, theirs) && (k > i ==> version::parts_less(
                theirs,
                numbers,
            )))
}

/// The newest version of a package is that of the greatest stable release under its name, or under the
/// first name where the metadata does not hold its name, and the last one of several that are equal.
/// There is none only where no release is stable. What else the metadata holds does not count.
pub proof fn law_newest_version_is_that_of_greatest_release(
    metadata: JsonView,
    packages: Seq<(Seq<char>, JsonView)>,
    name: Seq<char>,
    releases: Seq<JsonView>,
)
    requires
        metadata.member("packages"@) == Some(JsonView::Object(packages)),
        match JsonView::Object(packages).member(name) {
            Some(found) => found == JsonView::Array(releases),
            None => packages.len() > 0 && packages[0].1 == JsonView::Array(releases),
        },
    ensures
        match newest_version(metadata, name) {
            Some(version) => is_newest_of(releases, version),
            None => forall|k: int, version: Seq<char>, numbers: Seq<u64>|
                0 <= k < releases.len() ==> !(#[trigger] is_stable_release(
                    releases[k],
                    version,
                    numbers,
                )),
        },
{
    lemma_newest_release(releases);
    let found = read_releases(releases);
    assert forall|k: int, version: Seq<char>, numbers: Seq<u64>|
        0 <= k < releases.len() implies (#[trigger] is_stable_release(releases[k], version, numbers)
        <==> found[k] == Some((numbers, version))) by {
        lemma_release_is_read(releases[k], version, numbers);
    }
    if let Some((numbers, version)) = newest_release(releases) {
        let at = choose|at: int| is_greatest_at(found, at, (numbers, version));
        assert(is_stable_release(releases[at], version, numbers));
        assert forall|k: int, other: Seq<char>, theirs: Seq<u64>|
            0 <= k < releases.len() && #[trigger] is_stable_release(
                releases[k],
                other,
                theirs,
            ) implies !version::parts_less(numbers, theirs) && (k > at ==> version::parts_less(
            theirs,
            numbers,
        )) by {
            assert(found[k] == Some((theirs, other)));
        }
    }
}

/// The order in which the newest of some numbered texts is found: the greatest one, and the last one of
/// several that are equal.
spec fn is_greatest_at(
    found: Seq<Option<(Seq<u64>, Seq<char>)>>,
    at: int,
    best: (Seq<u64>, Seq<char>),
) -> bool {
    &&& 0 <= at < found.len()
    &&& found[at] == Some(best)
    &&& forall|k: int|
        0 <= k < found.len() ==> ((#[trigger] found[k]) matches Some(other)
            ==> !version::parts_less(best.0, other.0) && (k > at ==> version::parts_less(
            other.0,
            best.0,
        )))
}

/// What is found is greatest among what was found before and the last one.
proof fn lemma_greatest_of_more(
    found: Seq<Option<(Seq<u64>, Seq<char>)>>,
    at: int,
    best: (Seq<u64>, Seq<char>),
)
    requires
        found.len() > 0,
        is_greatest_at(found.drop_last(), at, best),
        forall|k: int|
            0 <= k < found.len() ==> ((#[trigger] found[k]) matches Some(other) ==> other.0.len()
                == 5),
    ensures
        match found.last() {
            Some(last) => if version::parts_less(last.0, best.0) {
                is_greatest_at(found, at, best)
            } else {
                is_greatest_at(found, found.len() - 1, last)
            },
            None => is_greatest_at(found, at, best),
        },
{
    let front = found.drop_last();
    let end = found.len() - 1;
    assert(front[at] == found[at]);
    assert(best.0.len() == 5);
    if let Some(last) = found[end] {
        version::law_version_order_is_strict(last.0, best.0, last.0);
        assert forall|k: int| 0 <= k < found.len() implies ((#[trigger] found[k]) matches Some(other)
            ==> (version::parts_less(last.0, best.0) ==> !version::parts_less(best.0, other.0) && (k
            > at ==> version::parts_less(other.0, best.0))) && (!version::parts_less(
            last.0,
            best.0,
        ) ==> !version::parts_less(last.0, other.0))) by {
            if let Some(other) = found[k] {
                if k < end {
                    assert(front[k] == found[k]);
                }
                version::law_version_order_is_strict(last.0, best.0, other.0);
            }
        }
    } else {
        assert forall|k: int| 0 <= k < found.len() implies ((#[trigger] found[k]) matches Some(other)
            ==> !version::parts_less(best.0, other.0) && (k > at ==> version::parts_less(
            other.0,
            best.0,
        ))) by {
            if k < end {
                assert(front[k] == found[k]);
            }
        }
    }
}

/// What is read of each release.
spec fn read_releases(releases: Seq<JsonView>) -> Seq<Option<(Seq<u64>, Seq<char>)>> {
    releases.map_values(|release: JsonView| stable_release(release))
}

proof fn lemma_numbers_are_five(release: JsonView)
    ensures
        stable_release(release) matches Some((numbers, _)) ==> numbers.len() == 5,
{
}

proof fn lemma_newest_release(releases: Seq<JsonView>)
    ensures
        match newest_release(releases) {
            Some(best) => exists|at: int| is_greatest_at(read_releases(releases), at, best),
            None => forall|k: int|
                0 <= k < releases.len() ==> (#[trigger] read_releases(releases)[k]) is None,
        },
    decreases releases.len(),
{
    let found = read_releases(releases);
    if releases.len() > 0 {
        let front = releases.drop_last();
        let end = releases.len() - 1;
        lemma_newest_release(front);
        assert(found.drop_last() =~= read_releases(front));
        assert forall|k: int| 0 <= k < found.len() implies ((#[trigger] found[k]) matches Some(other)
            ==> other.0.len() == 5) by {
            lemma_numbers_are_five(releases[k]);
        }
        assert(found[end] == stable_release(releases[end]));
        match newest_release(front) {
            Some(best) => {
                let at = choose|at: int| is_greatest_at(read_releases(front), at, best);
                lemma_greatest_of_more(found, at, best);
            },
            None => {
                assert forall|k: int| 0 <= k < end implies (#[trigger] found[k]) is None by {
                    assert(found[k] == read_releases(front)[k]);
                }
                if let Some(last) = found[end] {
                    version::law_version_order_is_strict(last.0, last.0, last.0);
                    assert(is_greatest_at(found, end, last));
                }
            },
        }
    }
}

/// A release is read for what it is.
proof fn lemma_release_is_read(release: JsonView, version: Seq<char>, numbers: Seq<u64>)
    ensures
        is_stable_release(release, version, numbers) <==> stable_release(release) == Some(
            (numbers, version),
        ),
{
}

/// Metadata without releases where they have to stand has no newest version.
pub proof fn law_other_metadata_has_no_newest_version(metadata: JsonView, name: Seq<char>)
    requires
        match metadata.member("packages"@) {
            Some(JsonView::Object(packages)) => match JsonView::Object(packages).member(name) {
                Some(found) => !(found is Array),
                None => packages.len() == 0 || !(packages[0].1 is Array),
            },
            _ => true,
        },
    ensures
        newest_version(metadata, name) is None,
{
}

/// The metadata of a package stands on Packagist under the name as it is written, and that of another
/// one stands elsewhere.
pub proof fn law_metadata_stands_under_its_name(name: Seq<char>, other: Seq<char>)
    ensures
        metadata_address(name) == "https://repo.packagist.org/p2/"@ + name + ".json"@,
        metadata_address(name) == metadata_address(other) ==> name == other,
{
    let start = "https://repo.packagist.org/p2/"@.len() as int;
    let left = metadata_address(name);
    let right = metadata_address(other);
    assert(left.subrange(start, start + name.len()) =~= name);
    if left == right {
        assert(left.len() == start + name.len() + ".json"@.len());
        assert(right.len() == start + other.len() + ".json"@.len());
        assert(right.subrange(start, start + other.len()) =~= other);
    }
}

} // verus!
