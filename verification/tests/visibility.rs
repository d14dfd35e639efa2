use agent_lints::unused::UnusedDef;
use agent_lints::utils::DefKey;
use agent_lints::visibility::{
    attached_attributes, attribute_requires_public_visibility, can_fix,
    derive_requires_public_visibility, fix_file, has_ordered_parentheses,
    visibility_fix_skip_reason,
};

fn unused(display_path: &str, line: u32, column: u32) -> UnusedDef {
    UnusedDef {
        def_key: DefKey { path: display_path.to_string() },
        crate_name: "crate_a".to_string(),
        target_name: "crate_a".to_string(),
        kind: "fn".to_string(),
        display_path: display_path.to_string(),
        file: "src/lib.rs".to_string(),
        line,
        column,
    }
}

fn lines(text: &str) -> Vec<String> {
    text.lines().map(String::from).collect()
}

#[test]
fn attributes_above_an_item_are_attached() {
    let source = lines("fn f() {}\n#[inline]\n/// Docs.\n#[must_use]\npub fn g() {}\n");
    assert_eq!(attached_attributes(&source, 4), vec!["#[inline]", "#[must_use]"]);
    assert_eq!(attached_attributes(&source, 1), Vec::<String>::new());
    assert_eq!(attached_attributes(&source, 0), Vec::<String>::new());
}

#[test]
fn empty_lines_between_attributes_are_skipped() {
    let source = lines("#[inline]\n\npub fn g() {}\n");
    assert_eq!(attached_attributes(&source, 2), vec!["#[inline]"]);
}

#[test]
fn unclosed_attributes_take_the_line_above_with_a_bracket() {
    let source = lines("a]\n#[derive(\npub struct S;\n");
    assert_eq!(attached_attributes(&source, 2), vec!["a]\n#[derive("]);
    let source = lines("#[derive(\npub struct S;\n");
    assert_eq!(attached_attributes(&source, 1), Vec::<String>::new());
    let source = lines("a]\n\n#[derive(\npub struct S;\n");
    assert_eq!(attached_attributes(&source, 3), Vec::<String>::new());
}

#[test]
fn harmless_attributes_do_not_require_visibility() {
    for attr in ["#[inline]", "#[allow(dead_code)]", "#[cfg(test)]", "#[repr(C)]", "  #[doc = \"x\"] "] {
        assert!(!attribute_requires_public_visibility(attr), "{}", attr);
    }
    for attr in ["#[test]", "#[no_mangle]", "#[serde(default)]", "#[]"] {
        assert!(attribute_requires_public_visibility(attr), "{}", attr);
    }
    assert!(!attribute_requires_public_visibility("not an attribute"));
}

#[test]
fn only_known_derives_work_at_any_visibility() {
    assert!(!derive_requires_public_visibility("derive(Clone, Copy, Debug, Default, Eq, Hash, Ord, PartialEq, PartialOrd)"));
    assert!(!derive_requires_public_visibility("derive(Clone, )"));
    assert!(derive_requires_public_visibility("derive(Clone, Serialize)"));
    assert!(derive_requires_public_visibility("derive"));
    assert!(derive_requires_public_visibility("derive(Clone"));
    assert!(!attribute_requires_public_visibility("#[derive(Clone, Debug)]"));
    assert!(attribute_requires_public_visibility("#[derive(Clone, PublicFactory)]"));
}

#[test]
fn parentheses_out_of_order_are_noticed() {
    assert!(has_ordered_parentheses("#[derive(Clone)]"));
    assert!(!has_ordered_parentheses("#[derive )(]"));
    assert!(has_ordered_parentheses("#[cfg )(]"));
    assert!(has_ordered_parentheses("none"));
}

#[test]
fn reason_comes_from_the_attributes() {
    let source = lines("#[derive(Clone, PublicFactory)]\npub struct Model;\n#[inline]\npub fn f() {}\n");
    assert_eq!(
        visibility_fix_skip_reason(&source, 1),
        Some("attached attributes may require public visibility")
    );
    assert_eq!(visibility_fix_skip_reason(&source, 3), None);
}

#[test]
fn public_items_become_private_to_the_crate() {
    let source = "pub fn a() {}\n\n    pub fn b() {}\n";
    let a = unused("crate_a::a", 1, 1);
    let b = unused("crate_a::b", 3, 5);
    assert!(can_fix(source, &a) && can_fix(source, &b));
    let fixed = fix_file(source, vec![&a, &b]);
    assert_eq!(fixed.text, "pub(crate) fn a() {}\n\n    pub(crate) fn b() {}\n");
    assert_eq!(fixed.fixed, 2);
    assert_eq!(
        fixed.messages,
        vec![
            "  fixed: crate_a::b (src/lib.rs:3)",
            "  fixed: crate_a::a (src/lib.rs:1)"
        ]
    );
}

#[test]
fn several_items_in_a_line_are_fixed_from_the_right() {
    let source = "pub fn a() {} pub fn b() {}";
    let a = unused("crate_a::a", 1, 1);
    let b = unused("crate_a::b", 1, 15);
    let fixed = fix_file(source, vec![&a, &b]);
    assert_eq!(fixed.text, "pub(crate) fn a() {} pub(crate) fn b() {}");
    assert_eq!(fixed.fixed, 2);
}

#[test]
fn an_item_is_fixed_only_once() {
    let a = unused("crate_a::a", 1, 1);
    let fixed = fix_file("pub fn a() {}\n", vec![&a, &a]);
    assert_eq!(fixed.text, "pub(crate) fn a() {}\n");
    assert_eq!(fixed.fixed, 1);
    assert_eq!(fixed.messages.len(), 1);
}

#[test]
fn items_that_are_elsewhere_are_left_alone() {
    let source = "pub(super) fn a() {}\nfn b() {}\n";
    let restricted = unused("crate_a::a", 1, 1);
    let private = unused("crate_a::b", 2, 1);
    let outside = unused("crate_a::c", 9, 1);
    let unplaced = unused("crate_a::d", 0, 0);
    let fixed = fix_file(source, vec![&restricted, &private, &outside, &unplaced]);
    assert_eq!(fixed.text, source);
    assert_eq!(fixed.fixed, 0);
    assert_eq!(
        fixed.messages,
        vec!["  skipped: crate_a::b (src/lib.rs:2) - unexpected token at pub position"]
    );
}

#[test]
fn columns_count_bytes() {
    let source = "/*ö*/ pub fn a() {}";
    let a = unused("crate_a::a", 1, 8);
    assert!(can_fix(source, &a));
    assert_eq!(fix_file(source, vec![&a]).text, "/*ö*/ pub(crate) fn a() {}");
    assert!(!can_fix(source, &unused("crate_a::a", 1, 4)));
    assert!(!can_fix(source, &unused("crate_a::a", 1, 99)));
    assert!(!can_fix("#[derive )(]\npub struct S;", &unused("crate_a::S", 2, 1)));
    assert!(can_fix("#[odd]\n#[derive )(]\npub struct S;", &unused("crate_a::S", 3, 1)));
}

#[test]
fn without_items_a_file_keeps_its_text() {
    for source in ["", "\n", "a", "a\n", "a\n\n", "a\r", "\n\nb"] {
        assert_eq!(fix_file(source, vec![]).text, source);
    }
    assert_eq!(fix_file("a\r\nb\r\n", vec![]).text, "a\nb\n");
}

#[test]
fn each_item_is_dealt_with_for_itself() {
    let source = "#[serde]\npub struct A;\npub fn b() {} pub fn c() {}\npub fn d() {}\n";
    let defs = [
        unused("crate_a::A", 2, 1),
        unused("crate_a::b", 3, 1),
        unused("crate_a::c", 3, 15),
        unused("crate_a::d", 4, 1),
    ];
    let all = fix_file(source, defs.iter().collect());
    assert_eq!(all.fixed, 3);
    assert_eq!(
        all.text,
        "#[serde]\npub struct A;\npub(crate) fn b() {} pub(crate) fn c() {}\npub(crate) fn d() {}\n"
    );
    let alone: Vec<usize> = defs.iter().map(|def| fix_file(source, vec![def]).fixed).collect();
    assert_eq!(alone, vec![0, 1, 1, 1]);
    let messages: Vec<String> =
        defs.iter().rev().flat_map(|def| fix_file(source, vec![def]).messages).collect();
    assert_eq!(all.messages, messages);
}

#[test]
fn skipped_items_leave_the_text_alone() {
    let source = "#[serde]\npub struct A;\nfn b() {}";
    let defs = [unused("crate_a::A", 2, 1), unused("crate_a::b", 3, 1)];
    let skipped = fix_file(source, defs.iter().collect());
    assert_eq!(skipped.fixed, 0);
    assert_eq!(skipped.messages.len(), 2);
    assert_eq!(skipped.text, source);
}
