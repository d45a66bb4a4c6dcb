//! Versions and releases.
use composer_language_server::json::Json;
use composer_language_server::packagist::{
    latest_stable_version, metadata_url, newest_stable_version,
};
use composer_language_server::text::{
    contains, is_whitespace, parse_u64, same_text, split_chars, to_ascii_lowercase, trim_chars,
};
use composer_language_server::version::{compare_versions, stable_version_parts, version_label};
use std::cmp::Ordering;

fn chars(text: &str) -> Vec<char> {
    text.chars().collect()
}

#[test]
fn formats_and_compares_stable_versions() {
    assert_eq!(version_label("3.2.1"), "v3.2.1");
    assert_eq!(version_label("v3.2.1"), "v3.2.1");
    assert_eq!(version_label("dev-main"), "dev-main");
    assert_eq!(
        compare_versions("v2.0.0", "1.9.9"),
        Some(std::cmp::Ordering::Greater)
    );
    assert_eq!(
        compare_versions("1.2.3", "v1.2.3"),
        Some(std::cmp::Ordering::Equal)
    );
    assert_eq!(compare_versions("v2.0.0-RC1", "1.9.9"), None);
}

#[test]
fn chooses_the_newest_stable_packagist_release() {
    let metadata = Json::parse(
        r#"{
            "packages": {
                "vendor/package": [
                    {"version": "v3.0.0-RC1", "version_normalized": "3.0.0.0-RC1"},
                    {"version": "v2.4.0", "version_normalized": "2.4.0.0"},
                    {"version": "v2.3.1", "version_normalized": "2.3.1.0"}
                ]
            }
        }"#,
    )
    .expect("metadata");
    assert_eq!(
        newest_stable_version(&metadata, "vendor/package"),
        Some("v2.4.0".to_owned())
    );
}

#[test]
fn releases_of_another_name_stand_in() {
    let body = r#"{"packages":{"other/one":[{"version":"1.0.0"}],"other/two":[{"version":"2.0"}]}}"#;
    assert_eq!(latest_stable_version(body, "vendor/package").as_deref(), Some("1.0.0"));
    assert_eq!(latest_stable_version(body, "other/two").as_deref(), Some("2.0"));
}

#[test]
fn metadata_without_stable_releases_has_no_newest_one() {
    for body in [
        "",
        "not json",
        "[]",
        r#"{"packages":[]}"#,
        r#"{"packages":{}}"#,
        r#"{"packages":{"a/b":{}}}"#,
        r#"{"packages":{"a/b":[]}}"#,
        r#"{"packages":{"a/b":[{"version":"1.0-beta"},{"version":7},{}]}}"#,
    ] {
        assert_eq!(latest_stable_version(body, "a/b"), None, "{body}");
    }
}

#[test]
fn the_last_of_equal_releases_counts() {
    let body = r#"{"packages":{"a/b":[{"version":"1.0"},{"version":"v1.0.0"},{"version":"0.9"}]}}"#;
    assert_eq!(latest_stable_version(body, "a/b").as_deref(), Some("v1.0.0"));
}

#[test]
fn the_normalized_version_orders_releases() {
    let body = r#"{"packages":{"a/b":[
        {"version":"9.9","version_normalized":"1.0.0.0"},
        {"version":"1.1","version_normalized":"2.0.0.0"},
        {"version":"5.0","version_normalized":"dev-main"},
        {"version":"0.1","version_normalized":3}
    ]}}"#;
    assert_eq!(latest_stable_version(body, "a/b").as_deref(), Some("1.1"));
}

#[test]
fn metadata_has_an_address() {
    assert_eq!(metadata_url("psr/log"), "https://repo.packagist.org/p2/psr/log.json");
}

#[test]
fn versions_have_five_numbers() {
    let parts = |version| stable_version_parts(version);
    assert_eq!(parts("1"), Some([1, 0, 0, 0, 0]));
    assert_eq!(parts(" v1.2.3.4.5 "), Some([1, 2, 3, 4, 0]));
    assert_eq!(parts("1.2-p3"), Some([1, 2, 0, 0, 3]));
    assert_eq!(parts("1.2-patch3"), Some([1, 2, 0, 0, 3]));
    assert_eq!(parts("1.2-PATCH4"), Some([1, 2, 0, 0, 4]));
    assert_eq!(parts("1.2.p3"), None);
    assert_eq!(parts("1.2+build"), Some([1, 2, 0, 0, 0]));
    assert_eq!(parts("1.2-pl3"), None);
    assert_eq!(parts("1.2-stable"), Some([1, 2, 0, 0, 0]));
    assert_eq!(parts("18446744073709551615"), Some([u64::MAX, 0, 0, 0, 0]));
    assert_eq!(parts("18446744073709551616"), None);
    assert_eq!(parts("1..2"), None);
    assert_eq!(parts(".1"), None);
    assert_eq!(parts("1."), None);
    assert_eq!(parts("vv1"), None);
    assert_eq!(parts("V1"), None);
    assert_eq!(parts(""), None);
    assert_eq!(parts("main"), None);
}

#[test]
fn prereleases_are_not_stable() {
    for version in [
        "dev-main", "1.x-dev", "dev", "1.0.0-alpha", "1.0.0-Beta2", "1.0_rc1", "1.0.RC1", "rc-1",
        "2.0.0-alpha.1", "1.0-development",
    ] {
        assert_eq!(stable_version_parts(version), None, "{version}");
    }
    assert_eq!(stable_version_parts("1.0beta"), Some([1, 0, 0, 0, 0]));
}

#[test]
fn versions_are_ordered_by_numbers() {
    let sorted = ["1.2", "1.2-p1", "1.2.0.1", "1.10", "v2", "10.0"];
    for (i, left) in sorted.iter().enumerate() {
        for (j, right) in sorted.iter().enumerate() {
            assert_eq!(compare_versions(left, right), Some(i.cmp(&j)));
        }
        assert_eq!(compare_versions(left, &version_label(left)), Some(Ordering::Equal));
    }
    assert_eq!(compare_versions("1.0", "dev-main"), None);
    assert_eq!(compare_versions("dev-main", "dev-main"), None);
}

#[test]
fn labels_are_trimmed() {
    assert_eq!(version_label(" \t3.0 "), "v3.0");
    assert_eq!(version_label("  "), "");
    assert_eq!(version_label("V3.0"), "V3.0");
    assert_eq!(version_label("\u{a0}1\u{2003}"), "v1");
}

#[test]
fn white_space_is_that_of_unicode() {
    for character in '\u{0}'..=char::MAX {
        assert_eq!(is_whitespace(character), character.is_whitespace());
    }
}

#[test]
fn text_is_handled_as_in_the_standard_library() {
    for text in ["", " ", "a", " \u{85}ÄbC\u{3000}", "Vendor/PACKAGE", "a.b..c.", "ß😀Z"] {
        assert_eq!(to_ascii_lowercase(text), text.to_ascii_lowercase());
        assert_eq!(trim_chars(&chars(text)), chars(text.trim()));
        let split: Vec<Vec<char>> = text.split('.').map(chars).collect();
        assert_eq!(split_chars(&chars(text), '.'), split);
        for other in ["", "a", "b.", "ß😀Z", "Package"] {
            assert_eq!(same_text(text, other), text == other);
            assert_eq!(contains(&chars(text), &chars(other)), text.contains(other));
        }
    }
}

#[test]
fn numbers_are_read_as_in_the_standard_library() {
    for text in [
        "", "0", "5", "+5", "-5", "++5", "+", "007", "1a", " 1", "18446744073709551615",
        "18446744073709551616", "99999999999999999999999", "٣",
    ] {
        assert_eq!(parse_u64(&chars(text)), text.parse::<u64>().ok(), "{text}");
    }
}
