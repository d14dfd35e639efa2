use agent_lints::utils::{def_key, normalized_def_path, sanitize, span_location, DefKey, SpanStart};

#[test]
fn sanitize_keeps_plain_characters() {
    assert_eq!(sanitize("abc-XYZ_019"), "abc-XYZ_019");
}

#[test]
fn sanitize_replaces_everything_else() {
    assert_eq!(sanitize("a b/c.d::e"), "a_b_c_d__e");
    assert_eq!(sanitize("größe"), "gr__e");
    assert_eq!(sanitize(""), "");
}

#[test]
fn sanitize_twice_is_sanitize_once() {
    for value in ["a b", "x/y", "---", "_", "ünïcode", "A1-b_2"] {
        let once = sanitize(value);
        assert_eq!(sanitize(&once), once);
        assert_eq!(once.chars().count(), value.chars().count());
    }
}

#[test]
fn normalized_path_gets_the_crate_in_front() {
    assert_eq!(normalized_def_path("api", "Api::always_some"), "api::Api::always_some");
    assert_eq!(normalized_def_path("api", "api::Api"), "api::Api");
    assert_eq!(normalized_def_path("api", "api"), "api");
    assert_eq!(normalized_def_path("api", "apiary::Hive"), "api::apiary::Hive");
}

#[test]
fn normalizing_twice_is_normalizing_once() {
    for path in ["a", "a::b", "b::c", "ab", ""] {
        let once = normalized_def_path("a", path);
        assert_eq!(normalized_def_path("a", &once), once);
        assert!(once.starts_with('a'));
    }
}

#[test]
fn key_holds_the_normalized_path() {
    assert_eq!(def_key("api", "Api"), DefKey { path: "api::Api".to_string() });
    assert_eq!(def_key("api", "Api").clone(), DefKey { path: "api::Api".to_string() });
}

#[test]
fn location_counts_columns_from_one() {
    let start = SpanStart { local_path: Some("src/lib.rs".to_string()), line: 7, column: 0 };
    let location = span_location(&start).unwrap();
    assert_eq!(location.file, "src/lib.rs");
    assert_eq!(location.line, 7);
    assert_eq!(location.column, 1);
}

#[test]
fn no_location_without_a_file_or_with_large_numbers() {
    let start = SpanStart { local_path: None, line: 7, column: 0 };
    assert!(span_location(&start).is_none());
    let start = SpanStart { local_path: Some("a".to_string()), line: 0x1_0000_0000, column: 0 };
    assert!(span_location(&start).is_none());
    let start = SpanStart { local_path: Some("a".to_string()), line: 1, column: 0xffff_ffff };
    assert!(span_location(&start).is_none());
    let start = SpanStart { local_path: Some("a".to_string()), line: 1, column: 0xffff_fffe };
    assert_eq!(span_location(&start).unwrap().column, 0xffff_ffff);
}
