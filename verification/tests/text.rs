use agent_lints::order::{rank_text, Rank};
use agent_lints::strings::{StringMap, StringSet};
use agent_lints::syntax::split_top_level;
use agent_lints::text;

const SAMPLES: [&str; 16] = [
    "",
    " ",
    "a",
    " a ",
    "\t\n a b \r\n",
    "a::b::c",
    "::",
    "a::",
    "::a",
    "x as y as z",
    "line one\nline two\n",
    "line one\r\nline two",
    "\n\n",
    "a\rb\r",
    "größe\u{3000}",
    "aaaa",
];

#[test]
fn white_space_is_that_of_the_standard_library() {
    for c in '\0'..=char::MAX {
        assert_eq!(text::is_white_space(c), c.is_whitespace(), "{:?}", c);
    }
}

#[test]
fn trimming_agrees_with_the_standard_library() {
    for s in SAMPLES {
        assert_eq!(text::trim(s), s.trim());
        assert_eq!(text::trim_start(s), s.trim_start());
        assert_eq!(text::trim_end(s), s.trim_end());
    }
}

#[test]
fn searching_agrees_with_the_standard_library() {
    for s in SAMPLES {
        for p in ["::", "a", " as ", "\n", "aa", "ö"] {
            let first = s.find(p).map(|i| s[..i].chars().count());
            let last = s.rfind(p).map(|i| s[..i].chars().count());
            assert_eq!(text::find(s, p), first, "{:?} {:?}", s, p);
            assert_eq!(text::rfind(s, p), last, "{:?} {:?}", s, p);
            assert_eq!(text::contains(s, p), s.contains(p));
            assert_eq!(text::starts_with(s, p), s.starts_with(p));
            assert_eq!(text::strip_prefix(s, p), s.strip_prefix(p));
            assert_eq!(text::strip_suffix(s, p), s.strip_suffix(p));
            assert_eq!(text::split(s, p), s.split(p).collect::<Vec<_>>());
        }
    }
}

#[test]
fn lines_agree_with_the_standard_library() {
    for s in SAMPLES {
        assert_eq!(text::split_lines(s), s.lines().collect::<Vec<_>>());
        assert_eq!(
            text::split_lines_inclusive(s),
            s.split_inclusive('\n').collect::<Vec<_>>()
        );
        assert_eq!(text::split_lines_inclusive(s).concat(), s);
    }
}

#[test]
fn joining_agrees_with_the_standard_library() {
    let parts = vec!["a", "", "b"];
    assert_eq!(text::join(&parts, "::"), "a::::b");
    assert_eq!(text::join(&vec![], "::"), "");
    let owned = vec!["x".to_string(), "y".to_string()];
    assert_eq!(text::join_owned(&owned, ", "), "x, y");
}

#[test]
fn decimal_notation_is_that_of_the_standard_library() {
    for n in [0, 1, 9, 10, 11, 99, 100, 1234567890, usize::MAX] {
        assert_eq!(text::decimal_string(n), n.to_string());
    }
}

#[test]
fn byte_offsets_are_those_of_character_boundaries() {
    for s in SAMPLES {
        for bytes in 0..=s.len() + 1 {
            let expected = if bytes <= s.len() && s.is_char_boundary(bytes) {
                Some(s[..bytes].chars().count())
            } else {
                None
            };
            assert_eq!(text::count_chars_in_bytes(s, bytes), expected, "{:?} {}", s, bytes);
        }
    }
    assert_eq!(text::count_chars_in_bytes("a\u{10348}b", 5), Some(2));
    assert_eq!(text::count_chars_in_bytes("a\u{10348}b", 4), None);
}

#[test]
fn dashes_become_underscores() {
    assert_eq!(text::dashes_to_underscores("my-crate-name"), "my_crate_name");
    assert_eq!(text::dashes_to_underscores("plain"), "plain");
}

#[test]
fn strings_are_ranked_as_the_standard_library_does() {
    for a in SAMPLES {
        for b in SAMPLES {
            let expected = if a < b {
                Rank::Less
            } else if a == b {
                Rank::Equal
            } else {
                Rank::Greater
            };
            assert_eq!(rank_text(a, b), expected);
            assert_eq!(text::equal(a, b), a == b);
        }
    }
}

#[test]
fn sets_and_maps_keep_their_keys_in_order() {
    let mut set = StringSet::new();
    for key in ["b", "a", "c", "a", ""] {
        set.insert(key.to_string());
    }
    assert_eq!(set.len(), 4);
    assert_eq!(set.get(0), "");
    assert_eq!(set.get(3), "c");
    assert!(set.contains("b"));
    assert!(!set.contains("d"));
    assert!(!set.insert("b".to_string()));

    let mut map = StringMap::<String>::new();
    map.insert("k".to_string(), "one".to_string());
    map.insert("j".to_string(), "two".to_string());
    map.insert("k".to_string(), "three".to_string());
    assert_eq!(map.len(), 2);
    assert_eq!(map.key_at(0), "j");
    assert_eq!(map.get("k").unwrap(), "three");
    assert!(map.get("l").is_none());
}

#[test]
fn top_level_splits_leave_groups_alone() {
    assert_eq!(split_top_level("a, b, c", ','), vec!["a", " b", " c"]);
    assert_eq!(split_top_level("a(b, c), d", ','), vec!["a(b, c)", " d"]);
    assert_eq!(split_top_level("x::{a, b}, [c, d]", ','), vec!["x::{a, b}", " [c, d]"]);
    assert_eq!(split_top_level("a,", ','), vec!["a"]);
    assert_eq!(split_top_level(",a", ','), vec!["", "a"]);
    assert_eq!(split_top_level("", ','), Vec::<&str>::new());
    assert_eq!(split_top_level("a), b", ','), vec!["a)", " b"]);
}

#[test]
fn joined_top_level_parts_give_the_text_back() {
    for s in ["a,b", "a(b,c),d", "{x,y}", "a,b,", "", ",", "a)),b,(c,d"] {
        let whole = split_top_level(s, ',').join(",");
        assert!(whole == s || format!("{},", whole) == s, "{:?}", s);
    }
}
