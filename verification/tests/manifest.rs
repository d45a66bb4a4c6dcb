//! Manifests: tokens, dependencies and positions.
use composer_language_server::composer::{
    dependency_entries, dependency_position, is_composer_package, is_dependency_section,
    is_package_character, is_update_section, package_range, parse_value, DependencyEntry, NodeKind,
};
use composer_language_server::position::{
    offset_to_position, position_in_range, Position, Range,
};
use composer_language_server::scanner::{tokenize, TokenKind};

const COMPOSER_JSON: &str = r#"{
  "name": "example/project",
  "require": {
    "php": "^8.3",
    "ext-json": "*",
    "laravel/framework": "^12.0",
    "psr/log": "^3.0"
  },
  "require-dev": {
    "phpunit/phpunit": "^12.0"
  },
  "replace": {
    "legacy/package": "self.version"
  }
}"#;

fn names(entries: &[DependencyEntry]) -> Vec<(&str, &str)> {
    entries
        .iter()
        .map(|entry| (entry.section.as_str(), entry.name.as_str()))
        .collect()
}

#[test]
fn finds_composer_dependencies_and_source_ranges() {
    let entries = dependency_entries(COMPOSER_JSON);
    let names: Vec<_> = entries
        .iter()
        .map(|entry| (entry.section.as_str(), entry.name.as_str()))
        .collect();
    assert_eq!(
        names,
        [
            ("require", "laravel/framework"),
            ("require", "psr/log"),
            ("require-dev", "phpunit/phpunit"),
            ("replace", "legacy/package"),
        ]
    );
    assert_eq!(
        package_range(COMPOSER_JSON, &entries[0]),
        Range::new(Position::new(5, 5), Position::new(5, 22))
    );
}

#[test]
fn keeps_entries_available_while_the_document_is_incomplete() {
    let text = r#"{"require":{"psr/log":"^3.0""#;
    let entries = dependency_entries(text);
    assert_eq!(entries.len(), 1);
    assert_eq!(entries[0].name, "psr/log");
}

#[test]
fn uses_utf16_lsp_positions() {
    assert_eq!(offset_to_position("😀x", 4), Position::new(0, 2));
    assert_eq!(offset_to_position("😀\nx", 6), Position::new(1, 1));
}

#[test]
fn offsets_behind_the_end_stand_for_the_end() {
    assert_eq!(offset_to_position("ab\ncd", 5), Position::new(1, 2));
    assert_eq!(offset_to_position("ab\ncd", 500), Position::new(1, 2));
    assert_eq!(offset_to_position("", 0), Position::new(0, 0));
    assert_eq!(offset_to_position("\r\n\r\n", 3), Position::new(1, 1));
}

#[test]
fn positions_follow_offsets() {
    let text = "a😀b\nöc\n\nd";
    let mut last: Option<Position> = None;
    for offset in 0..=text.len() {
        if text.is_char_boundary(offset) {
            let position = offset_to_position(text, offset);
            if let Some(before) = last {
                assert_ne!(before, position);
                assert!(position_in_range(position, Range::new(before, position)));
                assert!(!position_in_range(before, Range::new(position, position)));
            }
            last = Some(position);
        }
    }
}

#[test]
fn ranges_include_both_ends() {
    let range = Range::new(Position::new(1, 4), Position::new(3, 2));
    assert!(position_in_range(Position::new(1, 4), range));
    assert!(position_in_range(Position::new(2, 0), range));
    assert!(position_in_range(Position::new(3, 2), range));
    assert!(!position_in_range(Position::new(1, 3), range));
    assert!(!position_in_range(Position::new(3, 3), range));
    assert!(!position_in_range(Position::new(0, 9), range));
}

#[test]
fn hints_stand_behind_the_constraint() {
    let entries = dependency_entries(COMPOSER_JSON);
    let places: Vec<_> = entries
        .iter()
        .map(|entry| dependency_position(COMPOSER_JSON, entry))
        .collect();
    assert_eq!(
        places,
        [
            Position::new(5, 32),
            Position::new(6, 21),
            Position::new(9, 30),
            Position::new(12, 36),
        ]
    );
}

#[test]
fn tokens_have_kinds_contents_and_places() {
    let tokens = tokenize("{\"k\\u0041\": [1, true, null, word ], // note\n\"é\": {}}");
    let seen: Vec<_> = tokens
        .iter()
        .map(|token| (token.kind.clone(), token.value.as_str(), token.start, token.end))
        .collect();
    assert_eq!(
        seen,
        [
            (TokenKind::ObjectStart, "", 0, 1),
            (TokenKind::String, "kA", 1, 10),
            (TokenKind::Colon, "", 10, 11),
            (TokenKind::ArrayStart, "", 12, 13),
            (TokenKind::Literal, "1", 13, 14),
            (TokenKind::Comma, "", 14, 15),
            (TokenKind::Literal, "true", 16, 20),
            (TokenKind::Comma, "", 20, 21),
            (TokenKind::Literal, "null", 22, 26),
            (TokenKind::Comma, "", 26, 27),
            (TokenKind::Literal, "word", 28, 32),
            (TokenKind::ArrayEnd, "", 33, 34),
            (TokenKind::Comma, "", 34, 35),
            (TokenKind::String, "é", 44, 48),
            (TokenKind::Colon, "", 48, 49),
            (TokenKind::ObjectStart, "", 50, 51),
            (TokenKind::ObjectEnd, "", 51, 52),
            (TokenKind::ObjectEnd, "", 52, 53),
        ]
    );
}

#[test]
fn tokens_end_where_the_text_cannot_be_read() {
    assert_eq!(tokenize("{\"a\": \"b").len(), 3);
    assert_eq!(tokenize("{'a'").len(), 1);
    assert_eq!(tokenize("[0x10").len(), 1);
    assert_eq!(tokenize("[+1").len(), 1);
    assert_eq!(tokenize("[word,").len(), 1);
    assert!(tokenize("").is_empty());
}

#[test]
fn values_are_parsed_with_their_ends() {
    let tokens = tokenize("{\"a\": [1, {\"b\": 2}], \"c\": 3} 4");
    let (root, next) = parse_value(&tokens, 0).expect("a value");
    assert_eq!(root.end, 28);
    assert_eq!(next, tokens.len() - 1);
    match root.kind {
        NodeKind::Object(properties) => {
            assert_eq!(properties.len(), 2);
            assert_eq!(properties[0].key, "a");
            assert_eq!(properties[0].value.end, 19);
            assert!(matches!(properties[0].value.kind, NodeKind::Array));
            assert_eq!(properties[1].key, "c");
            assert!(matches!(properties[1].value.kind, NodeKind::Scalar));
        }
        _ => panic!("not an object"),
    }
    assert!(parse_value(&tokens, tokens.len()).is_none());
}

#[test]
fn values_that_are_not_closed_end_with_their_opening() {
    let tokens = tokenize("{\"a\": [1, 2");
    let (root, next) = parse_value(&tokens, 0).expect("a value");
    assert_eq!((root.end, next), (1, tokens.len()));
    match root.kind {
        NodeKind::Object(properties) => assert_eq!(properties[0].value.end, 7),
        _ => panic!("not an object"),
    }
}

#[test]
fn a_key_without_a_colon_takes_the_next_token() {
    let entries = dependency_entries(r#"{"require":{"a/b" "1", "c/d", "e/f":"3"}}"#);
    assert_eq!(names(&entries), [("require", "a/b"), ("require", "c/d"), ("require", "e/f")]);
    assert_eq!(entries[1].value_end, 29);
}

#[test]
fn a_key_without_a_value_is_left_out() {
    assert!(dependency_entries(r#"{"require":{"psr/log":"#).is_empty());
    assert!(dependency_entries(r#"{"require":{"psr/log""#).is_empty());
    let entries = dependency_entries(r#"{"require":{"psr/log":}}"#);
    assert_eq!(names(&entries), [("require", "psr/log")]);
}

#[test]
fn stray_tokens_in_objects_are_skipped() {
    let entries = dependency_entries(r#"{: [ "require" , 1, "require-dev": {] 7 "a/b": "1"}}"#);
    assert_eq!(names(&entries), [("require-dev", "a/b")]);
}

#[test]
fn only_the_first_value_of_the_text_counts() {
    assert!(dependency_entries(r#"[{"require":{"a/b":"1"}}]"#).is_empty());
    assert!(dependency_entries(r#"1 {"require":{"a/b":"1"}}"#).is_empty());
    assert!(dependency_entries("").is_empty());
}

#[test]
fn sections_that_are_not_objects_are_skipped() {
    let text = r#"{"require":["a/b"],"conflict":"c/d","suggest":{"e/f":"g"}}"#;
    assert_eq!(names(&dependency_entries(text)), [("suggest", "e/f")]);
}

#[test]
fn truncation_keeps_the_dependencies_before_the_cut() {
    let all = dependency_entries(COMPOSER_JSON);
    for cut in 0..=COMPOSER_JSON.len() {
        let some = dependency_entries(&COMPOSER_JSON[..cut]);
        let complete = all.iter().filter(|entry| entry.value_end <= cut).count();
        assert!(some.len() >= complete);
        for (entry, expected) in some.iter().take(complete).zip(&all) {
            assert_eq!(entry.name, expected.name);
            assert_eq!(entry.section, expected.section);
            assert_eq!(entry.value_end, expected.value_end);
        }
    }
}

#[test]
fn every_section_with_packages_is_known() {
    for section in ["require", "require-dev", "conflict", "replace", "provide", "suggest"] {
        assert!(is_dependency_section(section));
        assert_eq!(is_update_section(section), section.starts_with("require"));
    }
    for section in ["Require", "requires", "", "config", "autoload"] {
        assert!(!is_dependency_section(section));
        assert!(!is_update_section(section));
    }
}

#[test]
fn platform_requirements_are_no_packages() {
    for name in ["php", "ext-json", "lib-curl", "", "/", "a/", "/b", "a/b/c", "a b/c", "ä/b"] {
        assert!(!is_composer_package(name), "{name}");
    }
    for name in ["psr/log", "A-1/b_2", "0/.", "symfony/polyfill-mbstring"] {
        assert!(is_composer_package(name), "{name}");
    }
}

#[test]
fn package_characters_are_those_of_ascii_names() {
    for character in '\u{0}'..='\u{200}' {
        assert_eq!(
            is_package_character(character),
            character.is_ascii_alphanumeric() || matches!(character, '_' | '.' | '-')
        );
    }
}

#[test]
fn escaped_names_are_read() {
    let text = r#"{"require":{"psr\u002flog":"^3"}}"#;
    let entries = dependency_entries(text);
    assert_eq!(names(&entries), [("require", "psr/log")]);
    assert_eq!(
        package_range(text, &entries[0]),
        Range::new(Position::new(0, 13), Position::new(0, 25))
    );
}
