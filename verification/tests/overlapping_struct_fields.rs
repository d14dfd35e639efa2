use agent_lints::hir::{
    DefPath, FieldDef, Item, ItemKind, Span, Ty, TyKind, VariantData,
};
use agent_lints::overlap::{aggregate_artifacts, AggregatedReport, TargetArtifact, OVERLAP_THRESHOLD};
use agent_lints::overlap_lint::{Finish, LintState};
use agent_lints::utils::SpanStart;
use agent_lints::workspace_lint::{CrateInfo, Mode};
use std::path::PathBuf;

fn span(id: usize) -> Span {
    Span {
        id,
        from_expansion: false,
        start: SpanStart { local_path: Some("src/lib.rs".to_string()), line: id, column: 0 },
    }
}

fn record(crate_name: &str, name: &str, id: usize, fields: &[(&str, &str)]) -> Item {
    Item {
        place: DefPath { crate_name: crate_name.to_string(), path: name.to_string() },
        span: span(id),
        is_public: true,
        is_repr_c: false,
        kind: ItemKind::Struct(VariantData::Struct(
            fields
                .iter()
                .map(|(name, ty)| FieldDef {
                    name: name.to_string(),
                    span: span(id),
                    is_public: true,
                    ty: Ty { kind: TyKind::Other, parts: vec![] },
                    ty_text: ty.to_string(),
                    significant_drop: false,
                })
                .collect(),
        )),
    }
}

fn info(name: &str) -> CrateInfo {
    CrateInfo::for_current_crate("id", name, Some(name), None)
}

fn collect(name: &str, items: &[Item]) -> TargetArtifact {
    let mode = Mode::Collect { artifact_dir: PathBuf::from("out") };
    let mut state = LintState::new(mode, info(name));
    for item in items {
        state.check_item(item);
    }
    match state.finish() {
        Finish::Write { artifact_dir, artifact } => {
            assert_eq!(artifact_dir, PathBuf::from("out"));
            artifact
        }
        _ => panic!("expected an artifact"),
    }
}

fn emit(report: AggregatedReport, name: &str, items: &[Item]) -> Vec<(usize, String, String)> {
    let mut state = LintState::new(Mode::Emit { data: report.overlaps }, info(name));
    for item in items {
        state.check_item(item);
    }
    match state.finish() {
        Finish::Warn(found) => {
            found.into_iter().map(|d| (d.span, d.message, d.advice)).collect()
        }
        _ => panic!("expected warnings"),
    }
}

fn crate_a() -> Vec<Item> {
    vec![
        record(
            "crate_a",
            "User",
            1,
            &[("name", "String"), ("email", "String"), ("age", "u32"), ("active", "bool")],
        ),
        record(
            "crate_a",
            "Admin",
            2,
            &[("name", "String"), ("email", "String"), ("age", "u32"), ("role", "String")],
        ),
    ]
}

fn crate_b() -> Vec<Item> {
    vec![
        record(
            "crate_b",
            "Profile",
            3,
            &[("name", "String"), ("email", "String"), ("age", "u32"), ("avatar_url", "String")],
        ),
        record(
            "crate_b",
            "Config",
            4,
            &[("name", "String"), ("email", "String"), ("timeout", "u64")],
        ),
    ]
}

#[test]
fn detects_overlapping_struct_fields_across_workspace() {
    let artifacts = vec![collect("crate_a", &crate_a()), collect("crate_b", &crate_b())];
    let report = aggregate_artifacts(&artifacts);
    let paths: Vec<&str> = report.overlaps.iter().map(|e| e.display_path_a.as_str()).collect();
    assert!(paths.contains(&"crate_a::User"));
    assert!(paths.contains(&"crate_a::Admin"));
    assert!(paths.contains(&"crate_b::Profile"));
    assert!(!paths.contains(&"crate_b::Config"));
    for entry in &report.overlaps {
        let names: Vec<&str> = entry.shared_fields.iter().map(|f| f.name.as_str()).collect();
        assert_eq!(names, vec!["name", "email", "age"]);
    }

    let warnings = emit(report, "crate_b", &crate_b());
    assert_eq!(warnings.len(), 2);
    assert_eq!(
        warnings[0],
        (
            3,
            "struct `crate_b::Profile` shares 3 fields with `crate_a::Admin`: [name: String, email: String, age: u32]".to_string(),
            "consider extracting the shared fields into a common struct and composing it".to_string(),
        )
    );
    assert!(warnings[1].1.contains("`crate_a::User`"));
}

#[test]
fn both_structs_of_an_overlap_are_reported_in_order() {
    let report = aggregate_artifacts(&vec![collect("crate_a", &crate_a())]);
    assert_eq!(report.overlaps.len(), 2);
    assert_eq!(report.overlaps[0].struct_a.path, "crate_a::Admin");
    assert_eq!(report.overlaps[0].struct_b.path, "crate_a::User");
    assert_eq!(report.overlaps[1].struct_a.path, "crate_a::User");
    assert_eq!(report.overlaps[1].struct_b.path, "crate_a::Admin");
    assert_eq!(report.overlaps[0].shared_fields.len(), OVERLAP_THRESHOLD);
}

#[test]
fn no_artifacts_give_an_empty_report() {
    assert!(aggregate_artifacts(&vec![]).overlaps.is_empty());
}

#[test]
fn a_struct_recorded_twice_counts_once() {
    let artifacts = vec![collect("crate_a", &crate_a()), collect("crate_a", &crate_a())];
    assert_eq!(aggregate_artifacts(&artifacts).overlaps.len(), 2);
}

#[test]
fn a_field_of_another_type_is_not_shared() {
    let mut items = crate_a();
    items[1] = record(
        "crate_a",
        "Admin",
        2,
        &[("name", "String"), ("email", "String"), ("age", "u64")],
    );
    assert!(aggregate_artifacts(&vec![collect("crate_a", &items)]).overlaps.is_empty());
}

#[test]
fn structs_that_are_not_compared_are_not_collected() {
    let mut from_macro = record("a", "M", 1, &[("x", "u8")]);
    from_macro.span.from_expansion = true;
    let mut c_layout = record("a", "C", 2, &[("x", "u8")]);
    c_layout.is_repr_c = true;
    let empty = record("a", "E", 3, &[]);
    let plain = record("a", "P", 4, &[("x", "u8")]);
    let artifact = collect("a", &[from_macro, c_layout, empty, plain]);
    assert_eq!(artifact.structs.len(), 1);
    assert_eq!(artifact.structs[0].def_key.path, "a::P");
    assert_eq!(artifact.structs[0].file, "src/lib.rs");
    assert_eq!(artifact.structs[0].line, 4);
    assert_eq!(artifact.structs[0].column, 1);
    assert_eq!(artifact.crate_name, "a");
    assert_eq!(artifact.target_kind, "lib");
}

#[test]
fn structs_without_a_location_are_only_warned_of() {
    let mut item = record("a", "P", 4, &[("x", "u8")]);
    item.span.start.local_path = None;
    assert!(collect("a", &[item]).structs.is_empty());
}

#[test]
fn a_disabled_lint_does_nothing() {
    let mut state = LintState::new(Mode::Disabled, info("a"));
    state.check_item(&crate_a()[0]);
    assert!(state.local_structs.is_empty() && state.struct_records.is_empty());
    assert!(matches!(state.finish(), Finish::Nothing));
}
