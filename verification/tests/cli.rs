use agent_lints::cli::{
    built_library_name, dylib_extension, dylib_prefix, dylint_toolchain_name, loaded_library_name,
    parse_command, parse_workspace_path, CliError, Command, TargetArch, TargetOs,
};
use agent_lints::samples;

fn words(list: &[&str]) -> Vec<String> {
    list.iter().map(|word| word.to_string()).collect()
}

#[test]
fn check_is_the_default_command() {
    assert_eq!(parse_command(None, true).unwrap(), Command::Check);
    assert_eq!(parse_command(Some("check"), false).unwrap(), Command::Check);
    assert_eq!(parse_command(Some("fix"), true).unwrap(), Command::Fix);
}

#[test]
fn other_commands_are_refused() {
    assert_eq!(
        parse_command(Some("run"), true).unwrap_err().message(),
        "unsupported command `run`; expected `check` or `fix`"
    );
    assert_eq!(
        parse_command(Some("fix"), false).unwrap_err().message(),
        "unsupported command `fix`; expected `check`"
    );
}

#[test]
fn last_path_counts() {
    assert_eq!(parse_workspace_path(&words(&[])).unwrap(), None);
    assert_eq!(parse_workspace_path(&words(&["--path", "a"])).unwrap(), Some(1));
    assert_eq!(parse_workspace_path(&words(&["--path", "a", "--path", "b"])).unwrap(), Some(3));
    assert_eq!(parse_workspace_path(&words(&["--path", "--path"])).unwrap(), Some(1));
}

#[test]
fn other_arguments_are_refused() {
    let error = parse_workspace_path(&words(&["--path"])).unwrap_err();
    assert!(matches!(error, CliError::MissingPath));
    assert_eq!(error.message(), "expected a path after --path");
    let error = parse_workspace_path(&words(&["--path", "a", "-v"])).unwrap_err();
    assert_eq!(error.message(), "unsupported argument `-v`; only --path is supported");
}

#[test]
fn libraries_are_named_for_their_system() {
    assert_eq!(dylib_prefix(TargetOs::Windows), "");
    assert_eq!(dylib_prefix(TargetOs::Linux), "lib");
    assert_eq!(dylib_extension(TargetOs::MacOs), "dylib");
    assert_eq!(built_library_name("my_lint", TargetOs::Windows), "my_lint.dll");
    assert_eq!(built_library_name("my_lint", TargetOs::Linux), "libmy_lint.so");
    assert_eq!(
        loaded_library_name("my_lint", TargetOs::Linux, TargetArch::X86_64).unwrap(),
        "libmy_lint@nightly-2025-09-18-x86_64-unknown-linux-gnu.so"
    );
    assert_eq!(
        dylint_toolchain_name(TargetOs::MacOs, TargetArch::Aarch64),
        Some("nightly-2025-09-18-aarch64-apple-darwin")
    );
    assert_eq!(
        dylint_toolchain_name(TargetOs::MacOs, TargetArch::X86_64),
        Some("nightly-2025-09-18-x86_64-apple-darwin")
    );
    assert_eq!(
        dylint_toolchain_name(TargetOs::Linux, TargetArch::Aarch64),
        Some("nightly-2025-09-18-aarch64-unknown-linux-gnu")
    );
    assert_eq!(
        dylint_toolchain_name(TargetOs::Windows, TargetArch::X86_64),
        Some("nightly-2025-09-18-x86_64-pc-windows-msvc")
    );
    assert!(loaded_library_name("my_lint", TargetOs::Windows, TargetArch::Aarch64).is_none());
}

#[test]
fn samples_compute_what_they_say() {
    assert_eq!(samples::helper(), 42);
    assert_eq!(samples::compute(), 42);
    assert_eq!(samples::make_map().len(), 1);
    assert_eq!(samples::make_map().get(&()), Some(&()));
    assert_eq!(samples::match_str("start"), 1);
    assert_eq!(samples::match_str("stop"), 2);
    assert_eq!(samples::match_str("pause"), 0);
    assert_eq!(samples::forwarding_add(2, 3), 5);
}
