use agent_lints::reexports::{
    alias_path, all_braces_ordered, canonicalize_reexport_path, collect_reexport_aliases,
    collect_use_statements, has_ordered_braces, is_rust_file, module_path_for_file, parse_reexport_statement,
    render_reexport_statement, resolve_use_path, rewrite_reexport_statements, split_alias,
    ReexportHint, SourceFile,
};
use agent_lints::strings::StringMap;

fn hints(paths: &[&str]) -> Vec<ReexportHint> {
    paths.iter().map(|path| ReexportHint { path: path.to_string() }).collect()
}

fn file(module: &str, source: &str) -> SourceFile {
    SourceFile { module: module.to_string(), source: source.to_string() }
}

fn components(parts: &[&str]) -> Vec<String> {
    parts.iter().map(|part| part.to_string()).collect()
}

#[test]
fn hints_are_for_items_below_the_root() {
    assert!(ReexportHint::from_display_path("crate_a").is_none());
    assert!(ReexportHint::from_display_path("crate_a::item").is_none());
    let hint = ReexportHint::from_display_path("crate_a::inner::item").unwrap();
    assert_eq!(hint.path, "inner::item");
}

#[test]
fn alias_is_behind_the_last_as() {
    assert_eq!(split_alias("  a::b  "), ("a::b", None));
    assert_eq!(split_alias("a::b as c"), ("a::b", Some("c")));
    assert_eq!(split_alias(" a as b as c "), ("a as b", Some("c")));
}

#[test]
fn alias_paths_end_in_the_bound_name() {
    assert_eq!(alias_path("", "inner::item"), "item");
    assert_eq!(alias_path("outer", "inner::item"), "outer::item");
    assert_eq!(alias_path("outer", "inner::item as thing"), "outer::thing");
    assert_eq!(alias_path("", "item"), "item");
}

#[test]
fn use_paths_are_resolved_from_the_module() {
    assert_eq!(resolve_use_path("a::b", "crate::x::y").as_deref(), Some("x::y"));
    assert_eq!(resolve_use_path("a::b", "self::x").as_deref(), Some("a::b::x"));
    assert_eq!(resolve_use_path("a::b", "super::x").as_deref(), Some("a::x"));
    assert_eq!(resolve_use_path("a::b", "self::super::super::x").as_deref(), Some("x"));
    assert_eq!(resolve_use_path("a::b", "x::y as z").as_deref(), Some("a::b::x::y"));
    assert_eq!(resolve_use_path("", " x :: y ").as_deref(), Some("x::y"));
}

#[test]
fn use_paths_without_an_item_are_not_resolved() {
    assert_eq!(resolve_use_path("a", ""), None);
    assert_eq!(resolve_use_path("a", "crate"), None);
    assert_eq!(resolve_use_path("a", "self"), None);
    assert_eq!(resolve_use_path("a", "super"), None);
    assert_eq!(resolve_use_path("a", "super::super::x"), None);
}

#[test]
fn canonical_paths_follow_the_aliases() {
    let mut aliases = StringMap::<String>::new();
    aliases.insert("a".to_string(), "b".to_string());
    aliases.insert("b".to_string(), "c".to_string());
    assert_eq!(canonicalize_reexport_path("a", &aliases), "c");
    assert_eq!(canonicalize_reexport_path("b", &aliases), "c");
    assert_eq!(canonicalize_reexport_path("c", &aliases), "c");
    assert_eq!(canonicalize_reexport_path("z", &aliases), "z");
}

#[test]
fn canonical_paths_stop_in_a_cycle() {
    let mut aliases = StringMap::<String>::new();
    aliases.insert("p".to_string(), "a".to_string());
    aliases.insert("a".to_string(), "b".to_string());
    aliases.insert("b".to_string(), "a".to_string());
    assert_eq!(canonicalize_reexport_path("p", &aliases), "a");
    assert_eq!(canonicalize_reexport_path("a", &aliases), "a");
    assert_eq!(canonicalize_reexport_path("b", &aliases), "b");
}

#[test]
fn canonical_paths_are_canonical() {
    let mut aliases = StringMap::<String>::new();
    for (from, to) in [("p", "a"), ("a", "b"), ("b", "a"), ("x", "y"), ("y", "z"), ("s", "s")] {
        aliases.insert(from.to_string(), to.to_string());
    }
    for path in ["p", "a", "b", "x", "y", "z", "s", "other"] {
        let once = canonicalize_reexport_path(path, &aliases);
        assert_eq!(canonicalize_reexport_path(&once, &aliases), once);
    }
    assert_eq!(canonicalize_reexport_path("x", &aliases), "z");
    assert_eq!(canonicalize_reexport_path("s", &aliases), "s");
}

#[test]
fn simple_statements_are_parsed() {
    let (is_public, bindings) =
        parse_reexport_statement("pub use inner::item as thing;\n", "outer").unwrap();
    assert!(is_public);
    assert_eq!(bindings.len(), 1);
    assert_eq!(bindings.key_at(0), "outer::thing");
    assert_eq!(bindings.value_at(0).source_path, "outer::inner::item");
    assert_eq!(bindings.value_at(0).rendered, "inner::item as thing");

    let (is_public, _) = parse_reexport_statement("  pub(crate) use x::y;", "").unwrap();
    assert!(!is_public);
}

#[test]
fn grouped_statements_are_parsed() {
    let (is_public, bindings) =
        parse_reexport_statement("pub use inner::{b, a as c, };", "").unwrap();
    assert!(is_public);
    assert_eq!(bindings.len(), 2);
    assert_eq!(bindings.key_at(0), "b");
    assert_eq!(bindings.value_at(0).source_path, "inner::b");
    assert_eq!(bindings.key_at(1), "c");
    assert_eq!(bindings.value_at(1).source_path, "inner::a");
    assert_eq!(bindings.value_at(1).rendered, "a as c");
}

#[test]
fn other_statements_are_not_parsed() {
    assert!(parse_reexport_statement("use inner::a;", "").is_none());
    assert!(parse_reexport_statement("pub use inner::a", "").is_none());
    assert!(parse_reexport_statement("pub use inner::{a, b::{c}};", "").is_none());
    assert!(parse_reexport_statement("pub use super::a;", "").is_none());
    assert!(parse_reexport_statement("pub use inner::{a;", "").is_none());
}

#[test]
fn braces_out_of_order_are_noticed() {
    assert!(has_ordered_braces("pub use a::{b};"));
    assert!(has_ordered_braces("pub use a::b;"));
    assert!(!has_ordered_braces("pub use a::}b{;"));
    assert!(all_braces_ordered("pub use a::{b};\nfn f() {}\n"));
    assert!(!all_braces_ordered("pub use a::{b};\npub use c}{;\n"));
}

#[test]
fn statements_end_with_the_line_of_the_semicolon() {
    let source = "mod a;\npub use a::{\n    b,\n};\npub(crate) use c;\nuse d;\n";
    assert_eq!(
        collect_use_statements(source),
        vec!["pub use a::{\n    b,\n};\n", "pub(crate) use c;\n"]
    );
    assert_eq!(collect_use_statements("pub use a"), vec!["pub use a"]);
    assert!(collect_use_statements("").is_empty());
}

#[test]
fn statements_are_rendered_with_their_indent() {
    let public = vec!["a".to_string()];
    let private = vec!["b".to_string(), "c".to_string()];
    assert_eq!(
        render_reexport_statement("    pub use x::{a, b, c};\n", &public, &private),
        "    pub use x::{a};\n    pub(crate) use x::{b, c};\n"
    );
    assert_eq!(
        render_reexport_statement("pub use x::b;", &vec![], &vec!["x::b".to_string()]),
        "pub(crate) use x::b;"
    );
}

/// The keys and source paths of each statement of `source`.
fn bound(source: &str, module: &str) -> Vec<(bool, Vec<(String, String)>)> {
    let mut found = vec![];
    for statement in collect_use_statements(source) {
        let (is_public, bindings) = parse_reexport_statement(&statement, module).unwrap();
        let mut entries = vec![];
        for i in 0..bindings.len() {
            let source_path = bindings.value_at(i).source_path.to_string();
            entries.push((bindings.key_at(i).to_string(), source_path));
        }
        found.push((is_public, entries));
    }
    found
}

fn pair(key: &str, source_path: &str) -> (String, String) {
    (key.to_string(), source_path.to_string())
}

#[test]
fn a_split_keeps_every_binding() {
    let statement = "\n  pub use inner::{b, a as d, c};\n";
    assert_eq!(
        bound(statement, "m"),
        vec![(
            true,
            vec![
                pair("m::b", "m::inner::b"),
                pair("m::c", "m::inner::c"),
                pair("m::d", "m::inner::a")
            ]
        )]
    );
    let out = render_reexport_statement(
        statement,
        &components(&["b"]),
        &components(&["a as d", "c"]),
    );
    assert_eq!(
        bound(&out, "m"),
        vec![
            (true, vec![pair("m::b", "m::inner::b")]),
            (false, vec![pair("m::c", "m::inner::c"), pair("m::d", "m::inner::a")])
        ]
    );
    let out =
        render_reexport_statement(statement, &vec![], &components(&["c", "a as d", "b"]));
    assert_eq!(
        bound(&out, "m"),
        vec![(
            false,
            vec![
                pair("m::b", "m::inner::b"),
                pair("m::c", "m::inner::c"),
                pair("m::d", "m::inner::a")
            ]
        )]
    );
    let out = render_reexport_statement(
        "pub use inner::a as d;",
        &vec![],
        &components(&["inner::a as d"]),
    );
    assert_eq!(out, "pub(crate) use inner::a as d;");
    assert_eq!(bound(&out, "m"), vec![(false, vec![pair("m::d", "m::inner::a")])]);
}

#[test]
fn aliases_come_from_all_files() {
    let files = vec![
        file("", "mod engine;\npub use engine::{\n    StepStatus,\n    Used,\n};\n"),
        file("engine", "mod inner;\npub use inner::StepStatus;\npub use inner::Used as Other;\n"),
    ];
    let aliases = collect_reexport_aliases(&files);
    assert_eq!(aliases.len(), 4);
    assert_eq!(aliases.get("StepStatus").unwrap(), "engine::StepStatus");
    assert_eq!(aliases.get("Used").unwrap(), "engine::Used");
    assert_eq!(aliases.get("engine::StepStatus").unwrap(), "engine::inner::StepStatus");
    assert_eq!(aliases.get("engine::Other").unwrap(), "engine::inner::Used");
}

#[test]
fn modules_are_named_by_their_files() {
    assert_eq!(module_path_for_file(&components(&["lib.rs"])), "");
    assert_eq!(module_path_for_file(&components(&["main.rs"])), "");
    assert_eq!(module_path_for_file(&components(&["inner.rs"])), "inner");
    assert_eq!(module_path_for_file(&components(&["outer", "mod.rs"])), "outer");
    assert_eq!(module_path_for_file(&components(&["outer", "inner.rs"])), "outer::inner");
    assert_eq!(module_path_for_file(&components(&["outer", "notes"])), "outer::notes");
    assert_eq!(module_path_for_file(&components(&[])), "");
}

#[test]
fn without_hints_nothing_changes() {
    let aliases = StringMap::<String>::new();
    for source in ["", "pub use a::b;\n", "fn f() {}\npub use a::{b, c};", "x\r\ny\n"] {
        let (text, fixed) = rewrite_reexport_statements(source, "", &vec![], &aliases);
        assert_eq!(text, source);
        assert!(fixed.is_empty());
    }
}

#[test]
fn private_statements_stay_as_they_are() {
    let aliases = StringMap::<String>::new();
    let source = "pub(crate) use inner::item;\n";
    let (text, fixed) =
        rewrite_reexport_statements(source, "", &hints(&["inner::item"]), &aliases);
    assert_eq!(text, source);
    assert!(fixed.is_empty());
}

#[test]
fn changed_statements_are_numbered_by_their_first_line() {
    let aliases = StringMap::<String>::new();
    let source = "mod inner;\n\npub use inner::{\n    a,\n    b,\n};\nfn f() {}\npub use inner::c;\n";
    let (text, fixed) =
        rewrite_reexport_statements(source, "", &hints(&["inner::a", "inner::c"]), &aliases);
    assert_eq!(
        text,
        "mod inner;\n\npub use inner::{b};\npub(crate) use inner::{a};\nfn f() {}\npub(crate) use inner::c;\n"
    );
    assert_eq!(fixed, vec![3, 8]);
}

#[test]
fn rewritten_statements_need_no_second_rewrite() {
    let aliases = StringMap::<String>::new();
    let source = "pub use inner::a;\npub use inner::{b, c};\n";
    let wanted = hints(&["inner::a", "inner::b"]);
    let (once, _) = rewrite_reexport_statements(source, "", &wanted, &aliases);
    let (twice, fixed) = rewrite_reexport_statements(&once, "", &wanted, &aliases);
    assert_eq!(twice, once);
    assert!(fixed.is_empty());
}

#[test]
fn rewritten_statements_bring_in_the_same_names() {
    let aliases = StringMap::<String>::new();
    let source = "pub use inner::{a, b as c, d};\n";
    let (_, before) = parse_reexport_statement(source, "outer").unwrap();
    let wanted = hints(&["outer::inner::a", "outer::inner::b"]);
    let (text, _) = rewrite_reexport_statements(source, "outer", &wanted, &aliases);
    let found = collect_use_statements(&text);
    assert_eq!(found.len(), 2);

    let (is_public, public) = parse_reexport_statement(&found[0], "outer").unwrap();
    assert!(is_public);
    assert_eq!(public.len(), 1);
    assert_eq!(public.get("outer::d").unwrap().source_path, "outer::inner::d");

    let (is_public, hidden) = parse_reexport_statement(&found[1], "outer").unwrap();
    assert!(!is_public);
    assert_eq!(hidden.len(), 2);
    for key in ["outer::a", "outer::c"] {
        let then = before.get(key).unwrap();
        let now = hidden.get(key).unwrap();
        assert_eq!(now.source_path, then.source_path);
        assert_eq!(now.rendered, then.rendered);
    }
}

#[test]
fn an_alias_that_begins_with_as_does_not_read_back() {
    let binding = parse_reexport_statement("pub use x as \tas y;", "").unwrap().1;
    assert_eq!(binding.value_at(0).rendered, "x as as y");
    assert_eq!(binding.value_at(0).source_path, "x");
    let again = parse_reexport_statement("pub use x as as y;", "").unwrap().1;
    assert_eq!(again.value_at(0).source_path, "x as");
}

#[test]
fn rust_files_are_known_by_their_extension() {
    assert!(is_rust_file("lib.rs"));
    assert!(is_rust_file("a.b.rs"));
    assert!(!is_rust_file("lib.rs.bak"));
    assert!(!is_rust_file("rs"));
    assert!(!is_rust_file(".rs"));
    assert!(!is_rust_file("lib.RS"));
    assert!(!is_rust_file("lib."));
}

#[test]
fn a_rewritten_crate_has_the_same_aliases_and_needs_no_second_rewrite() {
    let before = vec![
        file("", "mod engine;\npub use engine::{Shown, Hidden as Other};\npub use engine::Hidden;\n"),
        file("engine", "mod inner;\npub use inner::{\n    Hidden,\n    Shown,\n};\n"),
    ];
    let wanted = hints(&["engine::inner::Hidden"]);
    let aliases = collect_reexport_aliases(&before);
    let after: Vec<SourceFile> = before
        .iter()
        .map(|f| {
            let (text, fixed) =
                rewrite_reexport_statements(&f.source, &f.module, &wanted, &aliases);
            assert!(!fixed.is_empty());
            file(&f.module, &text)
        })
        .collect();
    assert_eq!(
        after[0].source,
        "mod engine;\npub use engine::{Shown};\npub(crate) use engine::{Hidden as Other};\npub(crate) use engine::Hidden;\n"
    );

    let again = collect_reexport_aliases(&after);
    assert_eq!(again.len(), aliases.len());
    for i in 0..aliases.len() {
        assert_eq!(again.key_at(i), aliases.key_at(i));
        assert_eq!(again.value_at(i), aliases.value_at(i));
    }
    for f in &after {
        let (text, fixed) = rewrite_reexport_statements(&f.source, &f.module, &wanted, &again);
        assert_eq!(text, f.source);
        assert!(fixed.is_empty());
    }
}

#[test]
fn rewriting_again_changes_nothing_where_only_hidden_names_read_otherwise() {
    let aliases = StringMap::<String>::new();
    let source = "pub use a::{h as \tas y};\n";
    let (out, fixed) = rewrite_reexport_statements(source, "", &hints(&["a::h"]), &aliases);
    assert_eq!(fixed, vec![1]);
    assert_eq!(out, "pub(crate) use a::{h as as y};\n");
    let (again, fixed) = rewrite_reexport_statements(&out, "", &hints(&["a::h"]), &aliases);
    assert_eq!(again, out);
    assert!(fixed.is_empty());
}

#[test]
fn rewriting_again_hides_a_public_name_that_reads_otherwise() {
    let aliases = StringMap::<String>::new();
    let hints = hints(&["h", "x as"]);
    let source = "pub use {h, x as \tas y};\n";
    let (out, fixed) = rewrite_reexport_statements(source, "", &hints, &aliases);
    assert_eq!(fixed, vec![1]);
    assert!(out.starts_with("pub use "));
    let (_, fixed) = rewrite_reexport_statements(&out, "", &hints, &aliases);
    assert_eq!(fixed, vec![1]);
}
