use agent_lints::cli::Command;
use agent_lints::coordination::{
    build_words, dylint_environment, dylint_words, first_step, next_step, Lint, Phase, Setting,
    Step, StepEnd, Word,
};

const LINTS: [Lint; 5] =
    [Lint::UnusedItems, Lint::Overlaps, Lint::Options, Lint::TraitOptions, Lint::DerivedFields];

/// The steps of a run in which the step number `failing` fails.
fn steps(command: Command, has_artifacts: bool, failing: Option<usize>) -> Vec<Step> {
    let mut taken = vec![first_step()];
    loop {
        let last = taken[taken.len() - 1];
        let end = if failing == Some(taken.len() - 1) {
            StepEnd::Failed
        } else if last == Step::LookForArtifacts && !has_artifacts {
            StepEnd::Absent
        } else {
            StepEnd::Done
        };
        match next_step(last, end, command) {
            Some(step) => taken.push(step),
            None => return taken,
        }
    }
}

fn line(words: Vec<Word>) -> Vec<String> {
    words
        .into_iter()
        .map(|word| match word {
            Word::Text(text) => text.to_string(),
            Word::LintLibrary => "<library>".to_string(),
            Word::Manifest => "<manifest>".to_string(),
        })
        .collect()
}

fn settings(lint: Lint, phase: Phase) -> Vec<(String, String)> {
    dylint_environment(&lint.variables(), phase)
        .into_iter()
        .map(|variable| {
            let value = match variable.value {
                Setting::Text(text) => text,
                Setting::BuildDirectory => "<build>",
                Setting::ArtifactDirectory => "<artifacts>",
                Setting::Report => "<report>",
            };
            (variable.name, value.to_string())
        })
        .collect()
}

#[test]
fn checking_ends_with_the_warnings() {
    assert_eq!(
        steps(Command::Check, true, None),
        vec![
            Step::ReadMetadata,
            Step::BuildLibrary,
            Step::LookForArtifacts,
            Step::ClearArtifacts,
            Step::CreateArtifacts,
            Step::Collect,
            Step::WriteReport,
            Step::Emit,
        ]
    );
}

#[test]
fn fixing_ends_with_the_edits() {
    assert_eq!(
        steps(Command::Fix, false, None),
        vec![
            Step::ReadMetadata,
            Step::BuildLibrary,
            Step::LookForArtifacts,
            Step::CreateArtifacts,
            Step::Collect,
            Step::WriteReport,
            Step::ApplyFixes,
        ]
    );
}

#[test]
fn runs_end_where_a_step_fails() {
    let whole = steps(Command::Fix, true, None);
    for failing in 0..whole.len() {
        assert_eq!(steps(Command::Fix, true, Some(failing)), whole[..failing + 1].to_vec());
    }
}

#[test]
fn programs_are_named_by_their_lints() {
    assert_eq!(Lint::named("pubprune"), Lint::UnusedItems);
    for lint in LINTS {
        assert_eq!(Lint::named(lint.crate_name()), lint);
        assert_eq!(lint.has_fix(), lint == Lint::UnusedItems);
        assert_eq!(lint.always_copies(), lint == Lint::UnusedItems);
        for other in LINTS {
            assert_eq!(lint.crate_name() == other.crate_name(), lint == other);
            assert_eq!(lint.directory() == other.directory(), lint == other);
            assert_eq!(lint.variables().prefix == other.variables().prefix, lint == other);
        }
    }
}

#[test]
fn directories_are_named_by_lint_and_phase() {
    assert_eq!(Lint::UnusedItems.directory(), "unused_public_items");
    assert_eq!(Lint::UnusedItems.build_directory(Phase::Collect), "unused_public_items_collect");
    assert_eq!(Lint::Overlaps.directory(), "osf");
    assert_eq!(Lint::Overlaps.build_directory(Phase::Emit), "osf_emit");
}

#[test]
fn library_is_built_with_its_own_toolchain() {
    assert_eq!(
        line(build_words()),
        ["+nightly-2025-09-18", "build", "--release", "--manifest-path", "<manifest>"]
    );
}

#[test]
fn lint_runs_on_all_targets_of_the_workspace() {
    let shared = [
        "dylint",
        "--lib-path",
        "<library>",
        "--manifest-path",
        "<manifest>",
        "--workspace",
        "--",
    ];
    let with = |flags: &[&'static str]| [&shared[..], flags].concat();
    let all = Lint::UnusedItems.uses_all_features();
    assert_eq!(line(dylint_words(all)), with(&["--all-features", "--all-targets"]));
    let all = Lint::Overlaps.uses_all_features();
    assert_eq!(line(dylint_words(all)), with(&["--all-targets"]));
}

#[test]
fn settings_tell_the_lint_its_phase() {
    let pair = |name: &str, value: &str| (name.to_string(), value.to_string());
    let mut wanted = vec![
        pair("CARGO_TARGET_DIR", "<build>"),
        pair("RUSTC_WRAPPER", ""),
        pair("OPTION_SINGLE_VARIANT_MODE", "collect"),
        pair("OPTION_SINGLE_VARIANT_DIR", "<artifacts>"),
    ];
    assert_eq!(settings(Lint::Options, Phase::Collect), wanted);
    wanted[2].1 = "emit".to_string();
    wanted.push(pair("OPTION_SINGLE_VARIANT_REPORT", "<report>"));
    assert_eq!(settings(Lint::Options, Phase::Emit), wanted);
}
