//! Documents, answers, and what is kept in memory.
use composer_language_server::answers::{
    document_link, document_links, inlay_hint, inlay_hints, page_of,
};
use composer_language_server::backend::{
    Document, VersionCache, MAX_CACHE_ENTRIES, MAX_DOCUMENT_BYTES, PACKAGIST_CACHE_TTL,
    PACKAGIST_ERROR_CACHE_TTL, PACKAGIST_REQUEST_WINDOW,
};
use composer_language_server::entries::EntryMap;
use composer_language_server::installed::{
    can_name_manifest, components_for, composer_path_from_uri, configured_vendor_directory,
    find_manifest, installed_versions_from_json, lacks_component, manifest_path,
    metadata_components, FileStamp, InstalledVersionCache, ManifestSearch, Recall,
    MAX_INSTALLED_METADATA_BYTES,
};
use composer_language_server::json::Json;
use composer_language_server::position::{Position, Range};
use composer_language_server::settings::{
    check_updates, refresh_supported, user_agent, RefreshState,
};
use composer_language_server::version_cache;
use composer_language_server::version_cache::CacheLookup;
use composer_language_server::SERVER_VERSION;
use std::path::PathBuf;

const NOW: u64 = 5_000_000_000;

const COMPOSER_JSON: &str = r#"{
  "require": {
    "laravel/framework": "^12.0",
    "psr/log": "^3.0"
  }
}"#;

fn everywhere() -> Range {
    Range::new(Position::new(0, 0), Position::new(100, 0))
}

#[test]
fn cache_deduplicates_requests_and_expires_failures() {
    let now = NOW;
    let mut cache = VersionCache::new(now);
    assert!(cache.begin_request("Vendor/Package", now));
    assert!(!cache.begin_request("vendor/package", now));
    assert!(matches!(
        cache.get("vendor/package", now),
        CacheLookup::Pending
    ));

    cache.finish_request("vendor/package", Some("v1.2.3".to_owned()), now);
    assert!(matches!(
        cache.get("VENDOR/PACKAGE", now),
        CacheLookup::Ready(Some(version)) if version == "v1.2.3"
    ));

    cache.finish_request("broken/package", None, now);
    assert!(matches!(
        cache.get("broken/package", now + PACKAGIST_ERROR_CACHE_TTL),
        CacheLookup::Missing
    ));
}

#[test]
fn cache_capacity_and_request_budget_prevent_network_churn() {
    let now = NOW;
    let mut cache = VersionCache::new(now);
    for index in 0..MAX_CACHE_ENTRIES {
        let package = format!("vendor/package-{index}");
        assert!(cache.begin_request(&package, now));
        cache.finish_request(&package, None, now);
    }

    let after_failure_expiry = now + PACKAGIST_ERROR_CACHE_TTL;
    assert!(!cache.begin_request("vendor/extra", after_failure_expiry));
    assert!(cache.entries.is_empty());

    let after_budget_reset = now + PACKAGIST_REQUEST_WINDOW;
    assert!(cache.begin_request("vendor/extra", after_budget_reset));
}

#[test]
fn oversized_documents_are_not_parsed_or_retained() {
    let document = Document::new("x".repeat(MAX_DOCUMENT_BYTES + 1));
    assert!(document.text.is_empty());
    assert!(document.dependencies.is_empty());
}

#[test]
fn documents_of_the_largest_size_are_kept() {
    let mut text = COMPOSER_JSON.to_owned();
    text.push_str(&" ".repeat(MAX_DOCUMENT_BYTES - text.len()));
    let document = Document::new(text);
    assert_eq!(document.text.len(), MAX_DOCUMENT_BYTES);
    assert_eq!(document.dependencies.len(), 2);
}

#[test]
fn a_full_memory_cache_starts_no_requests() {
    let mut cache = VersionCache::new(NOW);
    for index in 0..MAX_CACHE_ENTRIES {
        cache.finish_request(&format!("vendor/package-{index}"), Some("1.0".to_owned()), NOW);
    }
    assert!(!cache.begin_request("vendor/extra", NOW));
    assert_eq!(cache.entries.len(), MAX_CACHE_ENTRIES);
    assert_eq!(cache.requests_in_window, 0);
    assert!(cache.begin_request("vendor/extra", NOW + PACKAGIST_CACHE_TTL));
    assert_eq!(cache.entries.len(), 1);
    assert_eq!(cache.request_window_started, NOW + PACKAGIST_CACHE_TTL);
}

#[test]
fn results_are_served_whatever_happens_to_other_packages() {
    let mut cache = VersionCache::new(NOW);
    cache.finish_request("a/b", Some("1.0".to_owned()), NOW);
    let last = NOW + PACKAGIST_CACHE_TTL - 1;
    for index in 0..400u64 {
        let now = NOW + index * (PACKAGIST_CACHE_TTL / 400);
        let other = format!("c/d-{index}");
        cache.begin_request(&other, now);
        cache.finish_request(&other, None, now);
        cache.get(&format!("c/d-{}", index / 2), now);
        cache.prune(now);
    }
    assert!(matches!(
        cache.get("A/B", last),
        CacheLookup::Ready(Some(version)) if version == "1.0"
    ));
    let count = cache.entries.len();
    assert!(matches!(cache.get("a/b", last + 1), CacheLookup::Missing));
    assert_eq!(cache.entries.len(), count - 1);
}

#[test]
fn pruning_keeps_requests_and_current_results() {
    let mut cache = VersionCache::new(NOW);
    assert!(cache.begin_request("a/pending", NOW));
    cache.finish_request("a/version", Some("1.0".to_owned()), NOW);
    cache.finish_request("a/failure", None, NOW);
    cache.prune(NOW + PACKAGIST_ERROR_CACHE_TTL);
    assert!(cache.entries.contains_key("a/pending"));
    assert!(cache.entries.contains_key("a/version"));
    assert!(!cache.entries.contains_key("a/failure"));
    cache.prune(NOW + PACKAGIST_CACHE_TTL);
    assert!(!cache.entries.contains_key("a/version"));
    assert!(matches!(cache.get("A/Pending", u64::MAX), CacheLookup::Pending));
}

#[test]
fn entries_are_replaced_and_removed_by_name() {
    let mut map: EntryMap<String> = EntryMap::new();
    map.insert("a".to_owned(), "1".to_owned());
    map.insert("b".to_owned(), "2".to_owned());
    map.insert("a".to_owned(), "3".to_owned());
    assert_eq!(map.len(), 2);
    assert_eq!(map.get("a").map(String::as_str), Some("3"));
    map.remove("b");
    map.remove("c");
    assert_eq!(map.len(), 1);
    assert_eq!((map.name_at(0), map.entry_at(0).as_str()), ("a", "3"));
    assert!(map.get("b").is_none());
    assert!(!map.clone().is_empty());
}

#[test]
fn dependencies_are_linked_to_their_pages() {
    let document = Document::new(COMPOSER_JSON.to_owned());
    let links = document_links(&document);
    assert_eq!(links.len(), 2);
    assert_eq!(links[1].target, "https://packagist.org/packages/psr/log");
    assert_eq!(links[1].tooltip, "Open psr/log on Packagist");
    assert_eq!(
        links[1].range,
        Range::new(Position::new(3, 5), Position::new(3, 12))
    );
    assert_eq!(page_of("a/b"), "https://packagist.org/packages/a/b");
}

#[test]
fn addresses_that_editors_do_not_accept_are_not_linked() {
    let document = Document::new(COMPOSER_JSON.to_owned());
    let dependency = &document.dependencies[0];
    assert!(document_link(&document.text, dependency, false).is_none());
    let link = document_link(&document.text, dependency, true).expect("a link");
    assert_eq!(link.target, "https://packagist.org/packages/laravel/framework");
}

#[test]
fn every_kind_of_package_name_is_linked() {
    let text = r#"{"suggest":{"a.b-c_d/0":"", "X/..":"", "-/_":""}}"#;
    let links = document_links(&Document::new(text.to_owned()));
    let targets: Vec<_> = links.iter().map(|link| link.target.as_str()).collect();
    assert_eq!(
        targets,
        [
            "https://packagist.org/packages/a.b-c_d/0",
            "https://packagist.org/packages/X/..",
            "https://packagist.org/packages/-/_",
        ]
    );
}

#[test]
fn installed_versions_are_shown_at_once() {
    let document = Document::new(COMPOSER_JSON.to_owned());
    let installed =
        installed_versions_from_json(r#"{"packages":[{"name":"psr/log","version":"3.0.2"}]}"#);
    let mut cache = version_cache::VersionCache::default();
    let (hints, unknown) = inlay_hints(&document, &installed, everywhere(), true, &mut cache, NOW);
    assert_eq!(hints.len(), 1);
    assert_eq!(hints[0].label, "v3.0.2");
    assert_eq!(hints[0].tooltip, "Version currently installed for psr/log");
    assert_eq!(hints[0].position, Position::new(3, 21));
    assert_eq!(unknown, ["psr/log"]);
}

#[test]
fn updates_are_shown_once_they_are_known() {
    let document = Document::new(COMPOSER_JSON.to_owned());
    let installed = installed_versions_from_json(
        r#"[{"name":"PSR/Log","version":"3.0.2"},{"name":"laravel/framework","version":"v12.1.0"}]"#,
    );
    let mut cache = version_cache::VersionCache::default();
    cache.finish_request_at("psr/log", Some("3.1.0".to_owned()), NOW, None);
    cache.finish_request_at("laravel/framework", Some("v12.1.0".to_owned()), NOW, None);
    let (hints, unknown) = inlay_hints(&document, &installed, everywhere(), true, &mut cache, NOW);
    let labels: Vec<_> = hints.iter().map(|hint| hint.label.as_str()).collect();
    assert_eq!(labels, ["v12.1.0", "v3.0.2 → v3.1.0"]);
    assert_eq!(
        hints[1].tooltip,
        "psr/log: v3.0.2 is installed; v3.1.0 is the newest stable release on Packagist"
    );
    assert!(unknown.is_empty());
}

#[test]
fn updates_are_not_looked_for_unasked() {
    let document = Document::new(
        r#"{"require":{"a/b":"1"},"replace":{"c/d":"1"}}"#.to_owned(),
    );
    let installed = installed_versions_from_json(
        r#"[{"name":"a/b","version":"1.0"},{"name":"c/d","version":"1.0"}]"#,
    );
    let mut cache = version_cache::VersionCache::default();
    cache.finish_request_at("a/b", Some("2.0".to_owned()), NOW, None);
    cache.finish_request_at("c/d", Some("2.0".to_owned()), NOW, None);
    let (hints, unknown) = inlay_hints(&document, &installed, everywhere(), false, &mut cache, NOW);
    let labels: Vec<_> = hints.iter().map(|hint| hint.label.as_str()).collect();
    assert_eq!(labels, ["v1.0", "v1.0"]);
    assert!(unknown.is_empty());
    let (hints, unknown) = inlay_hints(&document, &installed, everywhere(), true, &mut cache, NOW);
    let labels: Vec<_> = hints.iter().map(|hint| hint.label.as_str()).collect();
    assert_eq!(labels, ["v1.0 → v2.0", "v1.0"]);
    assert!(unknown.is_empty());
}

#[test]
fn hints_outside_the_range_are_left_out() {
    let document = Document::new(COMPOSER_JSON.to_owned());
    let installed = installed_versions_from_json(
        r#"[{"name":"psr/log","version":"3.0"},{"name":"laravel/framework","version":"12.0"}]"#,
    );
    let mut cache = version_cache::VersionCache::default();
    let range = Range::new(Position::new(3, 0), Position::new(3, 21));
    let (hints, unknown) = inlay_hints(&document, &installed, range, true, &mut cache, NOW);
    assert_eq!(hints.len(), 1);
    assert_eq!(unknown, ["psr/log"]);
    let empty: EntryMap<String> = EntryMap::new();
    let (hints, unknown) = inlay_hints(&document, &empty, everywhere(), true, &mut cache, NOW);
    assert!(hints.is_empty() && unknown.is_empty());
}

#[test]
fn requests_under_way_are_not_asked_for_again() {
    let document = Document::new(
        r#"{"require":{"a/b":"1"},"require-dev":{"A/B":"1"}}"#.to_owned(),
    );
    let installed = installed_versions_from_json(r#"[{"name":"a/b","version":"1.0"}]"#);
    let mut cache = version_cache::VersionCache::default();
    let (hints, unknown) = inlay_hints(&document, &installed, everywhere(), true, &mut cache, NOW);
    assert_eq!((hints.len(), unknown.len()), (2, 2));
    assert_ne!(hints[0].position, hints[1].position);
    let claims = cache.claim_requests_at(&unknown, NOW, None);
    assert_eq!(claims.len(), 1);
    let (hints, unknown) = inlay_hints(&document, &installed, everywhere(), true, &mut cache, NOW);
    assert_eq!((hints.len(), unknown.len()), (2, 0));
}

#[test]
fn versions_that_cannot_be_compared_are_no_updates() {
    let document = Document::new(COMPOSER_JSON.to_owned());
    let dependency = &document.dependencies[1];
    let label = |installed: &str, latest: Option<&str>| {
        inlay_hint(&document.text, dependency, installed, latest.map(str::to_owned)).label
    };
    assert_eq!(label("dev-main", Some("3.0.0")), "dev-main");
    assert_eq!(label("3.0.0", Some("4.0.0-RC1")), "v3.0.0");
    assert_eq!(label("3.0.0", Some("2.9")), "v3.0.0");
    assert_eq!(label("3.0.0", None), "v3.0.0");
    assert_eq!(label(" 3.0.0", Some(" v3.0.0.1 ")), "v3.0.0 → v3.0.0.1");
}

#[test]
fn metadata_of_composer_one_and_two_is_read() {
    let first = installed_versions_from_json(r#"[{"name":"psr/log","version":"3.0.2"}]"#);
    assert_eq!(first.get("psr/log"), Some(&"3.0.2".to_owned()));
    let second = installed_versions_from_json(
        r#"{"packages":[{"name":"psr/log","version":"3.0.1","pretty_version":"v3.0.2"}]}"#,
    );
    assert_eq!(second.get("psr/log"), Some(&"v3.0.2".to_owned()));
}

#[test]
fn malformed_metadata_is_ignored() {
    for contents in ["not json", "", "7", "{}", r#"{"packages":{}}"#, "[1,{},{\"name\":\"a/b\"}]"] {
        assert!(installed_versions_from_json(contents).is_empty(), "{contents}");
    }
    let versions = installed_versions_from_json(
        r#"[{"name":"A/b","version":"1"},{"name":"a/B","version":"2"},{"name":3,"version":"4"}]"#,
    );
    assert_eq!(versions.len(), 1);
    assert_eq!(versions.get("a/b"), Some(&"2".to_owned()));
}

#[test]
fn the_vendor_directory_is_configured() {
    let text = r#"{"config":{"vendor-dir":"dependencies"},"require":{"psr/log":"^3"}}"#;
    assert_eq!(configured_vendor_directory(text).as_deref(), Some("dependencies"));
    assert_eq!(
        configured_vendor_directory(r#"{"config":{"vendor-dir":"  a b\t"}}"#).as_deref(),
        Some("a b")
    );
    for text in [
        "{}",
        "[]",
        "{",
        r#"{"config":{}}"#,
        r#"{"config":{"vendor-dir":" "}}"#,
        r#"{"config":{"vendor-dir":1}}"#,
        r#"{"config":"vendor-dir"}"#,
    ] {
        assert_eq!(configured_vendor_directory(text), None, "{text}");
    }
}

#[test]
fn unchanged_metadata_is_not_read_again() {
    let mut cache = InstalledVersionCache::default();
    let first = FileStamp { is_file: true, bytes: 40, seconds: 7, nanoseconds: 1 };
    let second = FileStamp { nanoseconds: 2, ..first };
    assert!(matches!(cache.recall("p", None), Recall::Omit));
    assert!(matches!(cache.recall("p", Some(first)), Recall::Read));
    let versions = cache.learn_contents("p", first, r#"[{"name":"a/b","version":"1"}]"#.as_bytes());
    assert_eq!(versions.get("a/b"), Some(&"1".to_owned()));
    match cache.recall("p", Some(first)) {
        Recall::Reuse(versions) => assert_eq!(versions.get("a/b"), Some(&"1".to_owned())),
        _ => panic!("not reused"),
    }
    assert!(matches!(cache.recall("q", Some(first)), Recall::Read));
    assert!(matches!(cache.recall("p", Some(second)), Recall::Read));
    assert!(matches!(cache.recall("p", None), Recall::Omit));
    let directory = FileStamp { is_file: false, ..first };
    assert!(matches!(cache.recall("p", Some(directory)), Recall::Omit));
    let oversized = FileStamp { bytes: MAX_INSTALLED_METADATA_BYTES + 1, ..first };
    assert!(matches!(cache.recall("p", Some(oversized)), Recall::Omit));
}

#[test]
fn versions_stay_while_metadata_is_rewritten() {
    let mut cache = InstalledVersionCache::default();
    let first = FileStamp { is_file: true, bytes: 40, seconds: 7, nanoseconds: 1 };
    let second = FileStamp { bytes: 0, ..first };
    let third = FileStamp { bytes: 41, ..first };
    assert!(cache.learn_contents("p", first, "".as_bytes()).is_empty());
    cache.learn_contents("p", first, r#"[{"name":"a/b","version":"1"}]"#.as_bytes());
    let versions = cache.learn_contents("p", second, "".as_bytes());
    assert_eq!(versions.get("a/b"), Some(&"1".to_owned()));
    assert!(matches!(cache.recall("p", Some(second)), Recall::Read));
    let versions = cache.learn_contents("p", third, r#"[{"name":"a/b","version":"2"}]"#.as_bytes());
    assert_eq!(versions.get("a/b"), Some(&"2".to_owned()));
    assert!(cache.learn_contents("q", third, "{".as_bytes()).is_empty());
}

#[test]
fn metadata_cut_inside_a_character_keeps_the_versions() {
    let mut cache = InstalledVersionCache::default();
    let first = FileStamp { is_file: true, bytes: 40, seconds: 7, nanoseconds: 1 };
    let second = FileStamp { bytes: 20, ..first };
    let whole = r#"[{"name":"a/b","version":"1é"}]"#.as_bytes();
    let cut = &whole[..whole.len() - 4];
    assert!(std::str::from_utf8(cut).is_err());
    assert!(cache.learn_contents("p", first, cut).is_empty());
    let versions = cache.learn_contents("p", first, whole);
    assert_eq!(versions.get("a/b"), Some(&"1é".to_owned()));
    let versions = cache.learn_contents("p", second, cut);
    assert_eq!(versions.get("a/b"), Some(&"1é".to_owned()));
}

#[test]
fn metadata_with_too_many_bytes_gives_no_versions() {
    let mut cache = InstalledVersionCache::default();
    let stamp = FileStamp { is_file: true, bytes: 40, seconds: 7, nanoseconds: 1 };
    let mut contents = br#"[{"name":"a/b","version":"1"}]"#.to_vec();
    contents.resize(MAX_INSTALLED_METADATA_BYTES as usize, b' ');
    assert_eq!(cache.learn_contents("p", stamp, &contents).len(), 1);
    contents.push(b' ');
    assert!(cache.learn_contents("p", stamp, &contents).is_empty());
    assert!(matches!(cache.recall("p", Some(stamp)), Recall::Reuse(_)));
    assert!(cache.learn_contents("q", stamp, &contents).is_empty());
    assert!(matches!(cache.recall("q", Some(stamp)), Recall::Read));
}

#[test]
fn metadata_lies_below_the_vendor_directory() {
    assert_eq!(metadata_components("{}"), ["vendor", "composer", "installed.json"]);
    assert_eq!(metadata_components("{"), ["vendor", "composer", "installed.json"]);
    assert_eq!(
        metadata_components(r#"{"config":{"vendor-dir":" lib/php "}}"#),
        ["lib/php", "composer", "installed.json"]
    );
    assert_eq!(
        components_for(Some("x".to_owned())),
        ["x", "composer", "installed.json"]
    );
    assert_eq!(components_for(None), ["vendor", "composer", "installed.json"]);
}

#[test]
fn short_paths_name_no_manifest() {
    assert!(can_name_manifest("/composer.json"));
    assert!(can_name_manifest("/share/composer.json"));
    assert!(!can_name_manifest("/composer.jso"));
    assert!(!can_name_manifest("/C:"));
    assert!(!can_name_manifest(""));
}

#[test]
fn files_on_other_hosts_can_lack_a_component() {
    for path in ["//composer.json", "/\\composer.json", "/%2Fcomposer.json", "/%5ccomposer.json"] {
        assert!(lacks_component("file", path, Some("host")), "{path}");
        assert!(!lacks_component("file", path, Some("localhost")), "{path}");
        assert!(!lacks_component("file", path, None), "{path}");
        assert!(!lacks_component("https", path, Some("host")), "{path}");
    }
    assert!(!lacks_component("file", "/share/composer.json", Some("host")));
    assert!(!lacks_component("file", "/%20/composer.json", Some("host")));
}

#[test]
fn searches_tell_where_a_uri_was_not_looked_at() {
    assert!(matches!(
        find_manifest("file:///home/me/composer.json"),
        ManifestSearch::Found(path) if path == PathBuf::from("/home/me/composer.json")
    ));
    for uri in ["", "file:///home/me/package.json", "https://host//composer.json", "file:///C:"] {
        assert!(matches!(find_manifest(uri), ManifestSearch::Missing), "{uri}");
    }
    for uri in ["file://host/%2Fcomposer.json", "FILE://host/%5ccomposer.json"] {
        assert!(matches!(find_manifest(uri), ManifestSearch::BareHost), "{uri}");
    }
}

#[test]
fn manifests_are_found_by_their_uri() {
    assert_eq!(
        composer_path_from_uri("file:///home/me/project/composer.json"),
        Some(PathBuf::from("/home/me/project/composer.json"))
    );
    assert_eq!(
        composer_path_from_uri("file:///composer.json"),
        Some(PathBuf::from("/composer.json"))
    );
    assert_eq!(
        composer_path_from_uri("file://localhost/%5Cx/%63omposer.json?a#b"),
        Some(PathBuf::from("/\\x/composer.json"))
    );
    assert_eq!(
        composer_path_from_uri("file:///a%20b/Composer.JSON"),
        Some(PathBuf::from("/a b/Composer.JSON"))
    );
    for uri in [
        "",
        "composer.json",
        "/composer.json",
        "file:///home/me/package.json",
        "file:///composer.json.bak",
        "file:///x/mycomposer.json",
        "file:///x/composer.json/%2e%2e",
        "file:///C:",
        "http://localhost/C:",
        "file://host//composer.json",
        "file://host/share/composer.json",
        "https://example.org/composer.json",
        "untitled:composer.json",
    ] {
        assert_eq!(composer_path_from_uri(uri), None, "{uri}");
    }
}

#[test]
fn manifests_are_named_composer_json() {
    let path = PathBuf::from("anything");
    let name = |name: &str| manifest_path(path.clone(), Some(name.to_owned()));
    assert_eq!(name("composer.json"), Some(path.clone()));
    assert_eq!(name("COMPOSER.json"), Some(path.clone()));
    assert_eq!(name("composer.jsön"), None);
    assert_eq!(name("composer.lock"), None);
    assert_eq!(manifest_path(path.clone(), None), None);
}

#[test]
fn json_values_are_read() {
    let json = Json::parse(r#"{"a":[true,null,-1.5,"x"],"b":{"c":"d"},"a2":false}"#).expect("json");
    assert_eq!(json.get("b").and_then(|b| b.get_str("c")), Some("d"));
    assert_eq!(json.get_bool("a2"), Some(false));
    assert_eq!(json.get_bool("a"), None);
    assert_eq!(json.get_str("b"), None);
    let items = json.get("a").and_then(Json::as_array).expect("an array");
    assert!(matches!(items[0], Json::Bool(true)));
    assert!(matches!(items[1], Json::Null));
    assert!(matches!(items[2], Json::Number));
    assert_eq!(items[3].as_str(), Some("x"));
    assert!(items[3].get("x").is_none());
    assert!(Json::parse("{\"a\":").is_none());
    assert!(Json::parse("{} {}").is_none());
    let value = serde_json::Value::Array(vec![serde_json::Value::Bool(true)]);
    let json = Json::from_value(&value);
    assert_eq!(json.as_array().map(Vec::len), Some(1));
}

#[test]
fn updates_are_wanted_unless_the_client_objects() {
    let parse = |text: &str| Json::parse(text).expect("json");
    assert!(check_updates(None));
    assert!(check_updates(Some(&parse("{}"))));
    assert!(check_updates(Some(&parse(r#"{"check_updates":true}"#))));
    assert!(!check_updates(Some(&parse(r#"{"check_updates":false}"#))));
    assert!(check_updates(Some(&parse(r#"{"check_updates":"false"}"#))));
    assert!(check_updates(Some(&parse("false"))));
}

#[test]
fn refreshes_are_supported_where_the_client_says_so() {
    let supported = |text: &str| refresh_supported(&Json::parse(text).expect("json"));
    assert!(supported(r#"{"workspace":{"inlayHint":{"refreshSupport":true}}}"#));
    assert!(!supported(r#"{"workspace":{"inlayHint":{"refreshSupport":false}}}"#));
    assert!(!supported(r#"{"workspace":{"inlayHint":{"refreshSupport":1}}}"#));
    assert!(!supported(r#"{"workspace":{"inlayHint":[]}}"#));
    assert!(!supported(r#"{"workspace":{}}"#));
    assert!(!supported("{}"));
}

#[test]
fn one_refresh_is_scheduled_at_a_time() {
    let mut state = RefreshState::default();
    assert!(!state.schedule_refresh());
    state.supported = true;
    assert!(state.schedule_refresh());
    assert!(!state.schedule_refresh());
    state.refresh_begins();
    assert!(state.schedule_refresh());
}

#[test]
fn requests_name_the_server() {
    assert_eq!(SERVER_VERSION, "0.2.5");
    assert_eq!(
        user_agent(),
        "zed-composer-support/0.2.5 (+https://github.com/BastenIT/zed-composer-support)"
    );
}
