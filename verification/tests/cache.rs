//! The cache that outlives the server.
use composer_language_server::version_cache::{
    cache_directory, default_cache_directory, is_cache_size, CacheEntry, CacheLookup, CacheStore,
    PersistedCache, RequestClaim, SetVariables, System, VersionCache, CACHE_DIRECTORY_ENV,
    CACHE_SCHEMA_VERSION, CACHE_TTL_SECONDS, CLOCK_SKEW_TOLERANCE_SECONDS,
    ERROR_CACHE_TTL_SECONDS, MAX_CACHE_ENTRIES, MAX_CACHE_FILE_BYTES, MAX_PACKAGE_NAME_BYTES,
    MAX_REQUESTS_PER_WINDOW, MAX_VERSION_BYTES, PENDING_TTL_SECONDS, REQUEST_WINDOW_SECONDS,
};

const NOW: u64 = 1_700_000_000;

/// The file of a cache that several servers share.
struct Directory {
    file: Option<PersistedCache>,
}

impl Directory {
    fn new() -> Self {
        Directory { file: None }
    }

    fn store(&self) -> CacheStore {
        CacheStore::new(self.file.clone())
    }

    fn open(&mut self, now: u64) -> VersionCache {
        let loaded = self.store().load(now);
        self.file = Some(loaded.clone());
        VersionCache::new_at(Some(loaded))
    }

    fn claim_requests_at(
        &mut self,
        cache: &mut VersionCache,
        package_names: &[String],
        now: u64,
    ) -> Vec<(String, RequestClaim)> {
        let names = package_names.to_vec();
        let (written, claims) = self.store().claim_many(&names, now);
        self.file = Some(written.clone());
        cache.claim_requests_at(&names, now, Some((written, claims)))
    }

    fn finish_request_at(
        &mut self,
        cache: &mut VersionCache,
        package_name: &str,
        value: Option<String>,
        now: u64,
    ) {
        let written = self.store().finish(package_name, value.clone(), now);
        self.file = Some(written.clone());
        cache.finish_request_at(package_name, value, now, Some(written));
    }
}

fn ready(version: &str, expires_at: u64) -> CacheEntry {
    CacheEntry::Ready {
        value: Some(version.to_owned()),
        expires_at,
    }
}

#[test]
fn successful_results_survive_a_restart() {
    let mut directory = Directory::new();
    let package = "vendor/package".to_owned();

    let mut first = directory.open(NOW);
    assert_eq!(
        directory.claim_requests_at(&mut first, std::slice::from_ref(&package), NOW),
        vec![(package.clone(), RequestClaim::Started)]
    );
    directory.finish_request_at(&mut first, &package, Some("v1.2.3".to_owned()), NOW);

    let mut restarted = directory.open(NOW + 1);
    assert_eq!(
        restarted.get_at(&package, NOW + 1),
        CacheLookup::Ready(Some("v1.2.3".to_owned()))
    );
    assert_eq!(
        directory.claim_requests_at(&mut restarted, std::slice::from_ref(&package), NOW + 1),
        vec![(package, RequestClaim::Ready(Some("v1.2.3".to_owned())))]
    );
}

#[test]
fn request_budget_survives_a_restart() {
    let mut directory = Directory::new();
    let packages: Vec<_> = (0..MAX_REQUESTS_PER_WINDOW)
        .map(|index| format!("vendor/package-{index}"))
        .collect();

    let mut first = directory.open(NOW);
    assert!(directory
        .claim_requests_at(&mut first, &packages, NOW)
        .iter()
        .all(|(_, claim)| *claim == RequestClaim::Started));

    let mut restarted = directory.open(NOW + 1);
    assert_eq!(
        directory.claim_requests_at(&mut restarted, &["vendor/extra".to_owned()], NOW + 1),
        vec![("vendor/extra".to_owned(), RequestClaim::Rejected)]
    );
    assert_eq!(
        directory.claim_requests_at(
            &mut restarted,
            &["vendor/extra".to_owned()],
            NOW + REQUEST_WINDOW_SECONDS,
        ),
        vec![("vendor/extra".to_owned(), RequestClaim::Started)]
    );
}

#[test]
fn cache_instances_share_pending_and_ready_entries() {
    let mut directory = Directory::new();
    let package = "vendor/package".to_owned();
    let mut first = directory.open(NOW);
    let mut second = directory.open(NOW);

    assert_eq!(
        directory.claim_requests_at(&mut first, std::slice::from_ref(&package), NOW),
        vec![(package.clone(), RequestClaim::Started)]
    );
    assert_eq!(
        directory.claim_requests_at(&mut second, std::slice::from_ref(&package), NOW),
        vec![(package.clone(), RequestClaim::Pending)]
    );

    directory.finish_request_at(&mut first, &package, Some("v2.0.0".to_owned()), NOW + 1);
    assert_eq!(
        directory.claim_requests_at(&mut second, std::slice::from_ref(&package), NOW + 1),
        vec![(package, RequestClaim::Ready(Some("v2.0.0".to_owned())))]
    );
}

#[test]
fn one_of_two_servers_starts_a_request_whichever_holds_the_lock_first() {
    let key = "vendor/package".to_owned();
    let names = ["vendor/package".to_owned(), "Vendor/PACKAGE".to_owned()];
    let times = [NOW, NOW + PENDING_TTL_SECONDS - 1];
    for first in [0, 1] {
        let second = 1 - first;
        let mut directory = Directory::new();
        let mut servers = [directory.open(times[0]), directory.open(times[1])];
        assert_eq!(
            directory.claim_requests_at(&mut servers[first], &names[first..=first], times[first]),
            vec![(key.clone(), RequestClaim::Started)]
        );
        assert_eq!(
            directory.claim_requests_at(
                &mut servers[second],
                &names[second..=second],
                times[second],
            ),
            vec![(key.clone(), RequestClaim::Pending)]
        );

        let late = NOW + 2 * PENDING_TTL_SECONDS;
        directory.finish_request_at(&mut servers[first], &key, Some("v2.0.0".to_owned()), late);
        for server in &mut servers {
            assert_eq!(
                directory.claim_requests_at(server, &names[..1], late),
                vec![(key.clone(), RequestClaim::Ready(Some("v2.0.0".to_owned())))]
            );
        }
    }
}

#[test]
fn requests_of_another_process_are_pending_until_they_expire() {
    let mut directory = Directory::new();
    let names = ["Vendor/Package".to_owned()];
    let key = "vendor/package".to_owned();
    let mut first = directory.open(NOW);
    directory.claim_requests_at(&mut first, &names, NOW);
    let last = NOW + PENDING_TTL_SECONDS - 1;
    for moment in [NOW - CLOCK_SKEW_TOLERANCE_SECONDS, NOW, last] {
        let mut other = directory.open(moment);
        assert_eq!(
            directory.claim_requests_at(&mut other, &names, moment),
            vec![(key.clone(), RequestClaim::Pending)]
        );
    }
    directory.finish_request_at(&mut first, "vendor/PACKAGE", None, last);
    let mut other = directory.open(last);
    assert_eq!(
        directory.claim_requests_at(&mut other, &names, last + ERROR_CACHE_TTL_SECONDS - 1),
        vec![(key.clone(), RequestClaim::Ready(None))]
    );
    assert_eq!(
        directory.claim_requests_at(&mut other, &names, last + ERROR_CACHE_TTL_SECONDS),
        vec![(key, RequestClaim::Started)]
    );
}

#[test]
fn unreadable_cache_files_are_replaced() {
    let mut directory = Directory::new();
    let mut cache = directory.open(NOW);
    assert_eq!(
        directory.claim_requests_at(&mut cache, &["vendor/package".to_owned()], NOW),
        vec![("vendor/package".to_owned(), RequestClaim::Started)]
    );
    assert!(is_cache_size(MAX_CACHE_FILE_BYTES));
    assert!(!is_cache_size(MAX_CACHE_FILE_BYTES + 1));
    directory.file = None;
    let mut cache = directory.open(NOW + 1);
    assert_eq!(
        directory.claim_requests_at(&mut cache, &["vendor/other".to_owned()], NOW + 1),
        vec![("vendor/other".to_owned(), RequestClaim::Started)]
    );
}

#[test]
fn cache_entries_with_implausible_expiry_times_are_discarded() {
    let mut cache = PersistedCache::default();
    cache.entries.insert(
        "vendor/pending".to_owned(),
        CacheEntry::Pending {
            expires_at: NOW + CACHE_TTL_SECONDS,
        },
    );
    cache.entries.insert(
        "vendor/failure".to_owned(),
        CacheEntry::Ready {
            value: None,
            expires_at: NOW + CACHE_TTL_SECONDS,
        },
    );

    cache.sanitize(NOW);

    assert!(cache.entries.is_empty());
}

#[test]
fn full_cache_evicts_the_oldest_ready_entry() {
    let mut cache = PersistedCache::default();
    for index in 0..MAX_CACHE_ENTRIES {
        cache.entries.insert(
            format!("vendor/package-{index}"),
            CacheEntry::Ready {
                value: Some("v1.0.0".to_owned()),
                expires_at: NOW + CACHE_TTL_SECONDS - index as u64,
            },
        );
    }

    assert_eq!(cache.claim("vendor/new", NOW), RequestClaim::Started);
    assert_eq!(cache.entries.len(), MAX_CACHE_ENTRIES);
    assert!(!cache.entries.contains_key("vendor/package-255"));
    assert!(cache.entries.contains_key("vendor/new"));
}

#[test]
fn a_cache_full_of_requests_rejects_others() {
    let mut cache = PersistedCache::default();
    for index in 0..MAX_CACHE_ENTRIES {
        cache.entries.insert(
            format!("vendor/package-{index}"),
            CacheEntry::Pending {
                expires_at: NOW + PENDING_TTL_SECONDS,
            },
        );
    }
    assert_eq!(cache.claim("vendor/new", NOW), RequestClaim::Rejected);
    assert_eq!(cache.entries.len(), MAX_CACHE_ENTRIES);
    assert!(cache.request_timestamps.is_empty());
    assert_eq!(
        cache.claim("vendor/new", NOW + PENDING_TTL_SECONDS),
        RequestClaim::Started
    );
    assert_eq!(cache.entries.len(), 1);
}

#[test]
fn oversized_caches_keep_the_latest_entries() {
    let mut cache = PersistedCache::default();
    for index in 0..300u64 {
        cache
            .entries
            .insert(format!("vendor/package-{index}"), ready("1.0", NOW + 1 + index));
    }
    cache.sanitize(NOW);
    assert_eq!(cache.entries.len(), MAX_CACHE_ENTRIES);
    for index in 0..300u64 {
        let name = format!("vendor/package-{index}");
        assert_eq!(cache.entries.contains_key(&name), index >= 44, "{name}");
    }
}

#[test]
fn entries_are_valid_within_their_time() {
    let latest = NOW + CACHE_TTL_SECONDS + CLOCK_SKEW_TOLERANCE_SECONDS;
    assert!(ready("1.0", latest).is_valid(NOW));
    assert!(!ready("1.0", latest + 1).is_valid(NOW));
    assert!(ready("1.0", NOW + 1).is_valid(NOW));
    assert!(!ready("1.0", NOW).is_valid(NOW));
    let pending = |expires_at| CacheEntry::Pending { expires_at };
    let latest = NOW + PENDING_TTL_SECONDS + CLOCK_SKEW_TOLERANCE_SECONDS;
    assert!(pending(latest).is_valid(NOW));
    assert!(!pending(latest + 1).is_valid(NOW));
    let failure = |expires_at| CacheEntry::Ready {
        value: None,
        expires_at,
    };
    let latest = NOW + ERROR_CACHE_TTL_SECONDS + CLOCK_SKEW_TOLERANCE_SECONDS;
    assert!(failure(latest).is_valid(NOW));
    assert!(!failure(latest + 1).is_valid(NOW));
    assert!(ready(&"x".repeat(MAX_VERSION_BYTES), NOW + 1).is_valid(NOW));
    assert!(!ready(&"x".repeat(MAX_VERSION_BYTES + 1), NOW + 1).is_valid(NOW));
    assert!(!ready(&"é".repeat(MAX_VERSION_BYTES / 2 + 1), NOW + 1).is_valid(NOW));
    assert!(ready("1.0", u64::MAX).is_valid(u64::MAX - 1));
    assert_eq!(ready("1.0", 7).expires_at(), 7);
    assert_eq!(pending(8).expires_at(), 8);
}

#[test]
fn entries_with_implausible_names_are_discarded() {
    let mut cache = PersistedCache::default();
    let longest = "n".repeat(MAX_PACKAGE_NAME_BYTES);
    for name in ["", longest.as_str(), "n/n", &format!("{longest}n")] {
        cache.entries.insert(name.to_owned(), ready("1.0", NOW + 1));
    }
    cache.sanitize(NOW);
    assert_eq!(cache.entries.len(), 2);
    assert!(cache.entries.contains_key(&longest));
    assert!(cache.entries.contains_key("n/n"));
}

#[test]
fn caches_with_another_schema_are_emptied() {
    let mut cache = PersistedCache::default();
    cache.entries.insert("a/b".to_owned(), ready("1.0", NOW + 1));
    cache.request_timestamps.push(NOW);
    cache.schema_version = CACHE_SCHEMA_VERSION + 1;
    cache.sanitize(NOW);
    assert_eq!(cache.schema_version, CACHE_SCHEMA_VERSION);
    assert!(cache.entries.is_empty());
    assert!(cache.request_timestamps.is_empty());
}

#[test]
fn requests_of_the_last_hour_are_kept_in_order() {
    let mut cache = PersistedCache::default();
    cache.request_timestamps = vec![
        NOW,
        NOW - REQUEST_WINDOW_SECONDS,
        NOW + CLOCK_SKEW_TOLERANCE_SECONDS + 1,
        NOW - REQUEST_WINDOW_SECONDS + 1,
        NOW + CLOCK_SKEW_TOLERANCE_SECONDS,
        NOW,
        0,
    ];
    cache.sanitize(NOW);
    let kept = vec![
        NOW - REQUEST_WINDOW_SECONDS + 1,
        NOW,
        NOW,
        NOW + CLOCK_SKEW_TOLERANCE_SECONDS,
    ];
    assert_eq!(cache.request_timestamps, kept);
    cache.sanitize(NOW);
    assert_eq!(cache.request_timestamps, kept);

    cache.request_timestamps = (0..400).map(|index| NOW - index).collect();
    cache.sanitize(NOW);
    let latest: Vec<u64> = (0..MAX_REQUESTS_PER_WINDOW as u64)
        .map(|index| NOW - index)
        .rev()
        .collect();
    assert_eq!(cache.request_timestamps, latest);
}

#[test]
fn no_hour_has_more_requests_than_the_budget() {
    let mut cache = PersistedCache::default();
    let mut started: Vec<u64> = Vec::new();
    for index in 0..1_500u64 {
        let now = NOW + index * 7;
        if cache.claim(&format!("vendor/package-{index}"), now) == RequestClaim::Started {
            started.push(now);
            cache.finish(&format!("vendor/package-{index}"), None, now);
        }
    }
    for last in &started {
        let in_hour = started
            .iter()
            .filter(|moment| *moment <= last && last - *moment < REQUEST_WINDOW_SECONDS)
            .count();
        assert!(in_hour <= MAX_REQUESTS_PER_WINDOW);
    }
    assert_eq!(started.len(), 3 * MAX_REQUESTS_PER_WINDOW);
}

#[test]
fn lookups_ignore_capitals_and_drop_what_expired() {
    let mut cache = PersistedCache::default();
    cache.finish("Vendor/Package", Some("v1.2.3".to_owned()), NOW);
    assert_eq!(
        cache.lookup("VENDOR/package", NOW + CACHE_TTL_SECONDS - 1),
        CacheLookup::Ready(Some("v1.2.3".to_owned()))
    );
    assert_eq!(
        cache.lookup("vendor/package", NOW + CACHE_TTL_SECONDS),
        CacheLookup::Missing
    );
    assert!(cache.entries.is_empty());

    cache.finish("broken/package", None, NOW);
    assert_eq!(
        cache.lookup("broken/package", NOW + ERROR_CACHE_TTL_SECONDS - 1),
        CacheLookup::Ready(None)
    );
    assert_eq!(
        cache.lookup("broken/package", NOW + ERROR_CACHE_TTL_SECONDS),
        CacheLookup::Missing
    );
}

#[test]
fn claims_are_deduplicated_until_they_expire() {
    let mut cache = PersistedCache::default();
    assert_eq!(cache.claim("Vendor/Package", NOW), RequestClaim::Started);
    assert_eq!(
        cache.claim("vendor/PACKAGE", NOW + PENDING_TTL_SECONDS - 1),
        RequestClaim::Pending
    );
    assert_eq!(cache.lookup("vendor/package", NOW), CacheLookup::Pending);
    assert_eq!(
        cache.claim("vendor/package", NOW + PENDING_TTL_SECONDS),
        RequestClaim::Started
    );
    assert_eq!(cache.request_timestamps, vec![NOW, NOW + PENDING_TTL_SECONDS]);
}

#[test]
fn each_package_of_a_row_is_claimed_once() {
    let mut cache = PersistedCache::default();
    let names: Vec<String> = ["A/b", "c/d", "a/B", "C/D", "e/f"]
        .iter()
        .map(|name| name.to_string())
        .collect();
    let claims = cache.claim_each(&names, NOW);
    assert_eq!(
        claims,
        vec![
            ("a/b".to_owned(), RequestClaim::Started),
            ("c/d".to_owned(), RequestClaim::Started),
            ("e/f".to_owned(), RequestClaim::Started),
        ]
    );
    assert!(cache.claim_each(&Vec::new(), NOW).is_empty());
}

#[test]
fn claims_are_made_in_memory_without_a_file() {
    let mut cache = VersionCache::default();
    let names = vec!["a/b".to_owned()];
    assert_eq!(
        cache.claim_requests_at(&names, NOW, None),
        vec![("a/b".to_owned(), RequestClaim::Started)]
    );
    assert_eq!(cache.get_at("a/b", NOW), CacheLookup::Pending);
    cache.finish_request_at("A/B", Some("2.0".to_owned()), NOW, None);
    assert_eq!(
        cache.get_at("a/b", NOW),
        CacheLookup::Ready(Some("2.0".to_owned()))
    );
}

#[test]
fn an_unavailable_file_is_warned_about_once() {
    let mut cache = VersionCache::new_at(None);
    assert!(cache.warn_storage_error());
    assert!(!cache.warn_storage_error());
    assert!(cache.warned_about_storage);
}

#[test]
fn the_place_of_the_cache_depends_on_the_system() {
    let none = SetVariables {
        cache_directory: false,
        local_app_data: false,
        xdg_cache_home: false,
        home: false,
    };
    let all = SetVariables {
        cache_directory: true,
        local_app_data: true,
        xdg_cache_home: true,
        home: true,
    };
    let place = |system, set| {
        default_cache_directory(system, set).map(|place| (place.variable, place.below))
    };
    for system in [System::Windows, System::MacOs, System::OtherUnix, System::Other] {
        assert_eq!(place(system, none), None);
        assert_eq!(
            cache_directory(system, all).map(|place| (place.variable, place.below)),
            Some((CACHE_DIRECTORY_ENV, None))
        );
        assert_eq!(cache_directory(system, none), None);
    }
    assert_eq!(
        place(System::Windows, all),
        Some(("LOCALAPPDATA", Some("composer-language-server")))
    );
    assert_eq!(
        place(System::MacOs, all),
        Some(("HOME", Some("Library/Caches/composer-language-server")))
    );
    assert_eq!(
        place(System::OtherUnix, all),
        Some(("XDG_CACHE_HOME", Some("composer-language-server")))
    );
    let home = SetVariables { home: true, ..none };
    assert_eq!(
        place(System::OtherUnix, home),
        Some(("HOME", Some(".cache/composer-language-server")))
    );
    assert_eq!(cache_directory(System::OtherUnix, home), default_cache_directory(System::OtherUnix, home));
    assert_eq!(place(System::Other, all), None);
    assert_eq!(CACHE_DIRECTORY_ENV, "COMPOSER_LANGUAGE_SERVER_CACHE_DIR");
}
