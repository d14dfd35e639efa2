use agent_lints::workspace_lint::{
    artifact_file_name, artifact_temp_name, is_artifact_file, CrateInfo, LintEnvConfig, Mode,
};
use std::path::PathBuf;

#[test]
fn variables_are_named_by_the_prefix() {
    let config = LintEnvConfig { prefix: "OPTION_SINGLE_VARIANT" };
    assert_eq!(config.mode_var(), "OPTION_SINGLE_VARIANT_MODE");
    assert_eq!(config.dir_var(), "OPTION_SINGLE_VARIANT_DIR");
    assert_eq!(config.report_var(), "OPTION_SINGLE_VARIANT_REPORT");
}

#[test]
fn collecting_needs_a_directory() {
    match Mode::<u8>::from_env(Some("collect"), Some(PathBuf::from("dir")), None) {
        Mode::Collect { artifact_dir } => assert_eq!(artifact_dir, PathBuf::from("dir")),
        _ => panic!("expected the first phase"),
    }
    assert!(Mode::<u8>::from_env(Some("collect"), None, Some(1)).is_disabled());
}

#[test]
fn emitting_needs_a_report() {
    match Mode::<u8>::from_env(Some("emit"), None, Some(7)) {
        Mode::Emit { data } => assert_eq!(data, 7),
        _ => panic!("expected the second phase"),
    }
    assert!(Mode::<u8>::from_env(Some("emit"), Some(PathBuf::from("dir")), None).is_disabled());
}

#[test]
fn any_other_mode_is_disabled() {
    for mode in [None, Some(""), Some("Collect"), Some("check")] {
        let mode = Mode::<u8>::from_env(mode, Some(PathBuf::from("dir")), Some(1));
        assert!(mode.is_disabled());
    }
    assert!(!Mode::<u8>::Emit { data: 1 }.is_disabled());
}

#[test]
fn crate_information_has_defaults() {
    let info = CrateInfo::for_current_crate("id", "my_crate", None, None);
    assert_eq!(info.crate_stable_id, "id");
    assert_eq!(info.crate_name, "my_crate");
    assert_eq!(info.target_name, "unknown");
    assert_eq!(info.target_kind, "lib");
    let info = CrateInfo::for_current_crate("id", "my_crate", Some("t"), Some("tool"));
    assert_eq!(info.target_name, "t");
    assert_eq!(info.target_kind, "bin");
    let info = CrateInfo::default();
    assert_eq!(info.crate_name, "");
}

#[test]
fn artifacts_are_named_by_crate_target_and_process() {
    assert_eq!(artifact_file_name("my.crate", "a b", 4711), "my_crate-a_b-4711.json");
    assert_eq!(artifact_temp_name("my.crate", "a b", 4711), "my_crate-a_b-4711.json.tmp");
}

#[test]
fn only_json_files_beside_the_report_are_artifacts() {
    assert!(is_artifact_file(true, "a-b-1.json"));
    assert!(!is_artifact_file(false, "a-b-1.json"));
    assert!(!is_artifact_file(true, "a-b-1.json.tmp"));
    assert!(!is_artifact_file(true, "a"));
    assert!(!is_artifact_file(true, ".json"));
    assert!(!is_artifact_file(true, "report.json"));
}

#[test]
fn written_artifacts_are_read() {
    for (name, target, pid) in [("a", "b", 0), ("report", "", 10), ("x.y", "../z", u32::MAX)] {
        assert!(is_artifact_file(true, &artifact_file_name(name, target, pid)));
        assert!(!is_artifact_file(true, &artifact_temp_name(name, target, pid)));
    }
}

#[test]
fn processes_write_to_files_of_their_own() {
    assert_ne!(artifact_file_name("a", "b", 1), artifact_file_name("a", "b", 11));
    assert_ne!(artifact_file_name("a", "b", 1), artifact_file_name("a", "b-1", 2));
    assert_ne!(artifact_temp_name("a", "b", 21), artifact_temp_name("a", "b", 12));
}
