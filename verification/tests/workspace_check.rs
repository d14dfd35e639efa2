use agent_lints::cli::compiler_flags;
use agent_lints::fix_plan::{plan_reexport_fixes, workspace_crate_roots, Package};
use agent_lints::reexports::{collect_reexport_aliases, rewrite_reexport_statements, SourceFile};
use agent_lints::unused::{
    aggregate_artifacts, AggregateError, AggregatedReport, CandidateRecord, TargetArtifact,
    UnusedDef, UseRecord,
};
use agent_lints::utils::DefKey;
use agent_lints::visibility::fix_file;

fn key(path: &str) -> DefKey {
    DefKey { path: path.to_string() }
}

fn candidate(path: &str, line: u32, required: &[&str]) -> CandidateRecord {
    CandidateRecord {
        def_key: key(path),
        kind: "fn".to_string(),
        display_path: path.to_string(),
        file: "src/lib.rs".to_string(),
        line,
        column: 1,
        required_defs: required.iter().map(|path| key(path)).collect(),
    }
}

fn artifact(name: &str, candidates: Vec<CandidateRecord>, uses: &[&str]) -> TargetArtifact {
    TargetArtifact {
        crate_stable_id: name.to_string(),
        crate_name: name.to_string(),
        target_name: name.to_string(),
        target_kind: "lib".to_string(),
        candidates,
        uses: uses.iter().map(|path| UseRecord { def_key: key(path) }).collect(),
    }
}

fn reported(report: &AggregatedReport) -> Vec<&str> {
    report.unused.iter().map(|entry| entry.display_path.as_str()).collect()
}

fn unused(path: &str, file: &str, line: u32) -> UnusedDef {
    UnusedDef {
        def_key: key(path),
        crate_name: "crate_a".to_string(),
        target_name: "crate_a".to_string(),
        kind: "fn".to_string(),
        display_path: path.to_string(),
        file: file.to_string(),
        line,
        column: 1,
    }
}

fn file(module: &str, source: &str) -> SourceFile {
    SourceFile { module: module.to_string(), source: source.to_string() }
}

/// Fixes the reexports of the files of `crate_a`.
fn fix_reexports(unused: &Vec<UnusedDef>, files: Vec<SourceFile>) -> Vec<String> {
    let plans = plan_reexport_fixes(unused);
    assert_eq!(plans.len(), 1);
    assert_eq!(plans[0].crate_name, "crate_a");
    let aliases = collect_reexport_aliases(&files);
    files
        .iter()
        .map(|file| {
            rewrite_reexport_statements(&file.source, &file.module, &plans[0].hints, &aliases).0
        })
        .collect()
}

#[test]
fn detects_unused_public_items_across_workspace_targets() {
    let artifacts = vec![
        artifact(
            "crate_a",
            vec![
                candidate("crate_a::used", 1, &[]),
                candidate("crate_a::unused", 3, &[]),
                candidate("crate_a::PublicType", 5, &[]),
                candidate("crate_a::PublicType::method", 8, &[]),
            ],
            &[],
        ),
        artifact(
            "crate_b",
            vec![],
            &["crate_a::used", "crate_a::PublicType", "crate_a::PublicType::method"],
        ),
    ];
    let report = aggregate_artifacts(&artifacts).unwrap();
    assert_eq!(reported(&report), vec!["crate_a::unused"]);
    assert_eq!(report.unused[0].crate_name, "crate_a");
    assert_eq!(report.unused[0].line, 3);
}

#[test]
fn enables_all_features_for_workspace_analysis() {
    assert_eq!(compiler_flags(true), vec!["--all-features", "--all-targets"]);
    assert_eq!(compiler_flags(false), vec!["--all-targets"]);

    let artifacts = vec![
        artifact("crate_a", vec![candidate("crate_a::only_with_feature", 2, &[])], &[]),
        artifact("crate_b", vec![], &["crate_a::only_with_feature"]),
    ];
    let report = aggregate_artifacts(&artifacts).unwrap();
    assert!(!reported(&report).contains(&"crate_a::only_with_feature"));
}

#[test]
fn treats_reexports_as_uses_of_the_original_public_item() {
    let artifacts = vec![
        artifact(
            "crate_a",
            vec![
                candidate("crate_a::fixtures::used_via_reexport", 2, &[]),
                candidate("crate_a::unused", 7, &[]),
            ],
            &[],
        ),
        artifact("crate_b", vec![], &["crate_a::fixtures::used_via_reexport"]),
    ];
    let report = aggregate_artifacts(&artifacts).unwrap();
    assert!(!reported(&report).contains(&"crate_a::fixtures::used_via_reexport"));
    assert!(!reported(&report).contains(&"crate_a::used_via_reexport"));
    assert!(reported(&report).contains(&"crate_a::unused"));
}

#[test]
fn treats_public_return_types_of_used_functions_as_used() {
    let artifacts = vec![
        artifact(
            "crate_a",
            vec![
                candidate("crate_a::Needed", 1, &[]),
                candidate("crate_a::Unused", 3, &[]),
                candidate("crate_a::setup_lazy_boot", 5, &["crate_a::Needed"]),
            ],
            &[],
        ),
        artifact("crate_b", vec![], &["crate_a::setup_lazy_boot"]),
    ];
    let report = aggregate_artifacts(&artifacts).unwrap();
    assert!(!reported(&report).contains(&"crate_a::Needed"));
    assert!(!reported(&report).contains(&"crate_a::setup_lazy_boot"));
    assert!(reported(&report).contains(&"crate_a::Unused"));
}

#[test]
fn treats_cross_crate_associated_function_calls_as_uses() {
    let artifacts = vec![
        artifact(
            "crate_a",
            vec![
                candidate("crate_a::Builder", 1, &[]),
                candidate("crate_a::Builder::new", 4, &["crate_a::Builder"]),
                candidate("crate_a::unused", 9, &[]),
            ],
            &[],
        ),
        artifact("crate_b", vec![], &["crate_a::Builder", "crate_a::Builder::new"]),
    ];
    let report = aggregate_artifacts(&artifacts).unwrap();
    assert!(!reported(&report).contains(&"crate_a::Builder::new"));
    assert!(!reported(&report).contains(&"crate_a::Builder"));
    assert!(reported(&report).contains(&"crate_a::unused"));
}

#[test]
fn treats_cross_crate_associated_function_items_as_uses() {
    let artifacts = vec![
        artifact(
            "crate_a",
            vec![
                candidate("crate_a::Item", 1, &[]),
                candidate("crate_a::Item::value", 4, &["core::option::Option"]),
                candidate("crate_a::unused", 9, &[]),
            ],
            &[],
        ),
        artifact("crate_b", vec![], &["crate_a::Item", "crate_a::Item::value"]),
    ];
    let report = aggregate_artifacts(&artifacts).unwrap();
    assert!(!reported(&report).contains(&"crate_a::Item::value"));
    assert!(!reported(&report).contains(&"crate_a::Item"));
    assert!(reported(&report).contains(&"crate_a::unused"));
}

#[test]
fn fix_makes_matching_pub_use_reexports_crate_private() {
    let def = unused("crate_a::inner::unused_helper", "crate_a/src/inner.rs", 1);
    let inner = fix_file("pub fn unused_helper() {}\n", vec![&def]);
    assert!(inner.text.contains("pub(crate) fn unused_helper() {}"));

    let sources = fix_reexports(
        &vec![def],
        vec![file("", "mod inner;\n\npub use inner::unused_helper;\n"), file("inner", &inner.text)],
    );
    assert!(sources[0].contains("pub(crate) use inner::unused_helper;"));
    assert_eq!(sources[1], inner.text);
}

#[test]
fn fix_keeps_used_members_public_in_mixed_pub_use_groups() {
    let def = unused("crate_a::inner::unused_helper", "crate_a/src/inner.rs", 1);
    let inner = fix_file("pub fn unused_helper() {}\n\npub fn used_helper() {}\n", vec![&def]);
    assert!(inner.text.contains("pub fn used_helper() {}"));
    assert!(inner.text.contains("pub(crate) fn unused_helper() {}"));

    let sources = fix_reexports(
        &vec![def],
        vec![
            file("", "mod inner;\n\npub use inner::{unused_helper, used_helper};\n"),
            file("inner", &inner.text),
        ],
    );
    assert!(sources[0].contains("pub use inner::{used_helper};"));
    assert!(sources[0].contains("pub(crate) use inner::{unused_helper};"));
}

#[test]
fn fix_keeps_used_members_public_in_nested_mixed_pub_use_groups() {
    let def = unused("crate_a::outer::inner::unused_helper", "crate_a/src/outer/inner.rs", 1);
    let inner = fix_file("pub fn unused_helper() {}\n\npub fn used_helper() {}\n", vec![&def]);
    assert!(inner.text.contains("pub fn used_helper() {}"));
    assert!(inner.text.contains("pub(crate) fn unused_helper() {}"));

    let sources = fix_reexports(
        &vec![def],
        vec![
            file("", "pub mod outer;\n"),
            file("outer", "mod inner;\n\npub use inner::{unused_helper, used_helper};\n"),
            file("outer::inner", &inner.text),
        ],
    );
    assert_eq!(sources[0], "pub mod outer;\n");
    assert!(sources[1].contains("pub use inner::{used_helper};"));
    assert!(sources[1].contains("pub(crate) use inner::{unused_helper};"));
}

#[test]
fn fix_handles_multiline_reexports_through_intermediate_aliases() {
    let def = unused("crate_a::engine::inner::StepStatus", "crate_a/src/engine/inner.rs", 1);
    let inner = fix_file("pub enum StepStatus {\n    Ready,\n}\n\npub struct Used;\n", vec![&def]);
    assert!(inner.text.contains("pub(crate) enum StepStatus"));
    assert!(inner.text.contains("pub struct Used;"));

    let sources = fix_reexports(
        &vec![def],
        vec![
            file("", "mod engine;\n\npub use engine::{\n    StepStatus,\n    Used,\n};\n"),
            file("engine", "mod inner;\n\npub use inner::StepStatus;\npub use inner::Used;\n"),
            file("engine::inner", &inner.text),
        ],
    );
    assert!(sources[0].contains("pub use engine::{Used};"));
    assert!(sources[0].contains("pub(crate) use engine::{StepStatus};"));
    assert!(sources[1].contains("pub(crate) use inner::StepStatus;"));
    assert!(sources[1].contains("pub use inner::Used;"));
}

#[test]
fn fix_skips_items_with_visibility_sensitive_derives() {
    let source = "use derive_macro::PublicFactory;\n\n#[derive(Clone, PublicFactory)]\npub struct Model;\n";
    let def = unused("crate_a::Model", "crate_a/src/lib.rs", 4);
    let fixed = fix_file(source, vec![&def]);
    assert!(fixed.text.contains("pub struct Model;"));
    assert_eq!(fixed.text, source);
    assert_eq!(
        fixed.messages,
        vec!["  skipped: crate_a::Model (crate_a/src/lib.rs:4) - attached attributes may require public visibility"]
    );
}

#[test]
fn no_artifacts_are_an_error() {
    assert_eq!(aggregate_artifacts(&vec![]).unwrap_err(), AggregateError::NoArtifacts);
}

#[test]
fn interfaces_are_followed_to_the_end() {
    let artifacts = vec![
        artifact(
            "a",
            vec![
                candidate("a::f", 1, &["a::A"]),
                candidate("a::A", 2, &["a::B"]),
                candidate("a::B", 3, &[]),
                candidate("a::C", 4, &["a::C"]),
            ],
            &[],
        ),
        artifact("b", vec![], &["a::f"]),
    ];
    assert_eq!(reported(&aggregate_artifacts(&artifacts).unwrap()), vec!["a::C"]);
}

#[test]
fn requirements_of_all_records_of_an_item_count() {
    let artifacts = vec![
        artifact("a", vec![candidate("a::f", 1, &[]), candidate("a::A", 2, &[])], &[]),
        artifact("a", vec![candidate("a::f", 9, &["a::A"])], &[]),
        artifact("b", vec![], &["a::f"]),
    ];
    assert!(aggregate_artifacts(&artifacts).unwrap().unused.is_empty());
}

#[test]
fn report_keeps_the_first_record_and_is_sorted() {
    let mut early = candidate("a::x", 5, &[]);
    early.file = "src/a.rs".to_string();
    let artifacts = vec![
        artifact(
            "a",
            vec![candidate("a::z", 2, &[]), candidate("a::y", 2, &[]), early],
            &[],
        ),
        artifact("a", vec![candidate("a::z", 1, &[])], &[]),
    ];
    let report = aggregate_artifacts(&artifacts).unwrap();
    assert_eq!(reported(&report), vec!["a::x", "a::y", "a::z"]);
    assert_eq!(report.unused[2].line, 2);
}

#[test]
fn more_uses_leave_fewer_items() {
    let candidates = || vec![candidate("a::f", 1, &["a::T"]), candidate("a::T", 2, &[])];
    let few = vec![artifact("a", candidates(), &[])];
    let more = vec![artifact("a", candidates(), &[]), artifact("b", vec![], &["a::f"])];
    assert_eq!(aggregate_artifacts(&few).unwrap().unused.len(), 2);
    assert_eq!(aggregate_artifacts(&more).unwrap().unused.len(), 0);
}

#[test]
fn plans_are_for_crates_with_items_below_the_root() {
    let mut other = unused("b::m::x", "b/src/lib.rs", 1);
    other.crate_name = "b".to_string();
    let mut root = unused("a::x", "a/src/lib.rs", 1);
    root.crate_name = "a".to_string();
    let plans = plan_reexport_fixes(&vec![unused("crate_a::m::y", "f", 1), other, root]);
    assert_eq!(plans.len(), 2);
    assert_eq!(plans[0].crate_name, "b");
    assert_eq!(plans[0].hints[0].path, "m::x");
    assert_eq!(plans[1].crate_name, "crate_a");
    assert_eq!(plans[1].hints[0].path, "m::y");
}

#[test]
fn crates_are_found_by_package_and_target() {
    let packages = vec![
        Package {
            name: "my-tool".to_string(),
            has_root: true,
            targets: vec!["my_tool".to_string(), "tool-bin".to_string()],
        },
        Package { name: "rootless".to_string(), has_root: false, targets: vec![] },
        Package { name: "other".to_string(), has_root: true, targets: vec!["tool-bin".to_string()] },
    ];
    let roots = workspace_crate_roots(&packages);
    assert_eq!(roots.len(), 3);
    assert_eq!(roots.get("my_tool"), Some(&0));
    assert_eq!(roots.get("tool_bin"), Some(&2));
    assert_eq!(roots.get("other"), Some(&2));
    assert!(roots.get("rootless").is_none());
}
