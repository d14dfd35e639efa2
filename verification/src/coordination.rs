//! What a coordinator does: its steps, and the commands that it runs.
use vstd::prelude::*;

use crate::cli;
use crate::cli::Command;
use crate::sorting;
use crate::text;
use crate::workspace_lint;
use crate::workspace_lint::{LintEnvConfig, Mode};

verus! {

/// The lints that look at a whole workspace.
#[derive(Debug, Clone, Copy, PartialEq, Eq, Structural)]
pub enum Lint {
    UnusedItems,
    Overlaps,
    Options,
    TraitOptions,
    DerivedFields,
}

/// The lint that a program of the given name runs.
pub open spec fn lint_for(name: Seq<char>) -> Lint {
    if name == "overlapping_struct_fields"@ {
        Lint::Overlaps
    } else if name == "option_single_variant"@ {
        Lint::Options
    } else if name == "trait_option_single_variant"@ {
        Lint::TraitOptions
    } else if name == "derived_field_should_be_method"@ {
        Lint::DerivedFields
    } else {
        Lint::UnusedItems
    }
}

/// The name of the crate of a lint.
pub open spec fn crate_of(lint: Lint) -> Seq<char> {
    match lint {
        Lint::UnusedItems => "unused_public_items_in_workspace"@,
        Lint::Overlaps => "overlapping_struct_fields"@,
        Lint::Options => "option_single_variant"@,
        Lint::TraitOptions => "trait_option_single_variant"@,
        Lint::DerivedFields => "derived_field_should_be_method"@,
    }
}

/// The name of the directory of the artifacts of a lint.
pub open spec fn directory_of(lint: Lint) -> Seq<char> {
    match lint {
        Lint::UnusedItems => "unused_public_items"@,
        Lint::Overlaps => "osf"@,
        Lint::Options => "option_single_variant"@,
        Lint::TraitOptions => "trait_option_single_variant"@,
        Lint::DerivedFields => "derived_field_should_be_method"@,
    }
}

/// What the names of the variables of a lint begin with.
pub open spec fn prefix_of(lint: Lint) -> Seq<char> {
    match lint {
        Lint::UnusedItems => "UNUSED_PUBLIC_ITEMS"@,
        Lint::Overlaps => "OVERLAPPING_STRUCT_FIELDS"@,
        Lint::Options => "OPTION_SINGLE_VARIANT"@,
        Lint::TraitOptions => "TRAIT_OPTION_SINGLE_VARIANT"@,
        Lint::DerivedFields => "DERIVED_FIELD_SHOULD_BE_METHOD"@,
    }
}

/// The two phases of a run.
#[derive(Debug, Clone, Copy, PartialEq, Eq, Structural)]
pub enum Phase {
    Collect,
    Emit,
}

/// The word for a phase.
pub open spec fn phase_word(phase: Phase) -> Seq<char> {
    match phase {
        Phase::Collect => "collect"@,
        Phase::Emit => "emit"@,
    }
}

impl Phase {
    /// The word for the phase.
    pub fn word(self) -> (r: &'static str)
        ensures
            r@ == phase_word(self),
    {
        match self {
            Phase::Collect => "collect",
            Phase::Emit => "emit",
        }
    }
}

impl Lint {
    /// The lint that the program `name` runs.
    pub fn named(name: &str) -> (r: Lint)
        ensures
            r == lint_for(name@),
    {
        if text::equal(name, "overlapping_struct_fields") {
            Lint::Overlaps
        } else if text::equal(name, "option_single_variant") {
            Lint::Options
        } else if text::equal(name, "trait_option_single_variant") {
            Lint::TraitOptions
        } else if text::equal(name, "derived_field_should_be_method") {
            Lint::DerivedFields
        } else {
            Lint::UnusedItems
        }
    }

    /// The name of the crate of the lint.
    pub fn crate_name(self) -> (r: &'static str)
        ensures
            r@ == crate_of(self),
    {
        match self {
            Lint::UnusedItems => "unused_public_items_in_workspace",
            Lint::Overlaps => "overlapping_struct_fields",
            Lint::Options => "option_single_variant",
            Lint::TraitOptions => "trait_option_single_variant",
            Lint::DerivedFields => "derived_field_should_be_method",
        }
    }

    /// The name of the directory of the artifacts.
    pub fn directory(self) -> (r: &'static str)
        ensures
            r@ == directory_of(self),
    {
        match self {
            Lint::UnusedItems => "unused_public_items",
            Lint::Overlaps => "osf",
            Lint::Options => "option_single_variant",
            Lint::TraitOptions => "trait_option_single_variant",
            Lint::DerivedFields => "derived_field_should_be_method",
        }
    }

    /// The name of the directory that the workspace is built in during `phase`.
    pub fn build_directory(self, phase: Phase) -> (r: String)
        ensures
            r@ == directory_of(self) + "_"@ + phase_word(phase),
    {
        let mut name = self.directory().to_owned();
        name.append("_");
        name.append(phase.word());
        name
    }

    /// The names of the variables of the lint.
    pub fn variables(self) -> (r: LintEnvConfig)
        ensures
            r.prefix@ == prefix_of(self),
    {
        match self {
            Lint::UnusedItems => LintEnvConfig { prefix: "UNUSED_PUBLIC_ITEMS" },
            Lint::Overlaps => LintEnvConfig { prefix: "OVERLAPPING_STRUCT_FIELDS" },
            Lint::Options => LintEnvConfig { prefix: "OPTION_SINGLE_VARIANT" },
            Lint::TraitOptions => LintEnvConfig { prefix: "TRAIT_OPTION_SINGLE_VARIANT" },
            Lint::DerivedFields => LintEnvConfig { prefix: "DERIVED_FIELD_SHOULD_BE_METHOD" },
        }
    }

    /// Whether the coordinator can edit the sources.
    pub fn has_fix(self) -> (b: bool)
        ensures
            b == (self is UnusedItems),
    {
        match self {
            Lint::UnusedItems => true,
            _ => false,
        }
    }

    /// Whether the workspace is looked at with all of its features.
    pub fn uses_all_features(self) -> (b: bool)
        ensures
            b == (self is UnusedItems),
    {
        match self {
            Lint::UnusedItems => true,
            _ => false,
        }
    }

    /// Whether the lint library is copied though its copy is not older.
    pub fn always_copies(self) -> (b: bool)
        ensures
            b == (self is UnusedItems),
    {
        match self {
            Lint::UnusedItems => true,
            _ => false,
        }
    }
}

/// The lints do not share their crates, their directories or their variables.
pub proof fn lemma_lints_apart(a: Lint, b: Lint)
    requires
        a != b,
    ensures
        crate_of(a) != crate_of(b),
        directory_of(a) != directory_of(b),
        prefix_of(a) != prefix_of(b),
{
    reveal_strlit("unused_public_items_in_workspace");
    reveal_strlit("overlapping_struct_fields");
    reveal_strlit("option_single_variant");
    reveal_strlit("trait_option_single_variant");
    reveal_strlit("derived_field_should_be_method");
    reveal_strlit("unused_public_items");
    reveal_strlit("osf");
    reveal_strlit("UNUSED_PUBLIC_ITEMS");
    reveal_strlit("OVERLAPPING_STRUCT_FIELDS");
    reveal_strlit("OPTION_SINGLE_VARIANT");
    reveal_strlit("TRAIT_OPTION_SINGLE_VARIANT");
    reveal_strlit("DERIVED_FIELD_SHOULD_BE_METHOD");
    assert(crate_of(a).len() != crate_of(b).len());
    assert(directory_of(a).len() != directory_of(b).len());
    assert(prefix_of(a).len() != prefix_of(b).len());
}

/// The steps of a run.
#[derive(Debug, Clone, Copy, PartialEq, Eq, Structural)]
pub enum Step {
    /// Read the metadata of the workspace.
    ReadMetadata,
    /// Build the library of the lint.
    BuildLibrary,
    /// See whether there are artifacts of an earlier run.
    LookForArtifacts,
    /// Remove the artifacts of an earlier run.
    ClearArtifacts,
    /// Create the directory of the artifacts.
    CreateArtifacts,
    /// Run the lint to collect artifacts.
    Collect,
    /// Put the artifacts together to a report.
    WriteReport,
    /// Edit the sources.
    ApplyFixes,
    /// Run the lint to give the warnings.
    Emit,
}

/// How a step ended.
#[derive(Debug, Clone, Copy, PartialEq, Eq, Structural)]
pub enum StepEnd {
    /// It is done.
    Done,
    /// What it looked for is not there.
    Absent,
    /// It failed.
    Failed,
}

/// The steps of a whole run: `has_artifacts` if there are artifacts of an earlier
/// one.
pub open spec fn script(command: Command, has_artifacts: bool) -> Seq<Step> {
    let first = seq![Step::ReadMetadata, Step::BuildLibrary, Step::LookForArtifacts];
    let cleared = if has_artifacts {
        first.push(Step::ClearArtifacts)
    } else {
        first
    };
    cleared + seq![
        Step::CreateArtifacts,
        Step::Collect,
        Step::WriteReport,
        match command {
            Command::Check => Step::Emit,
            Command::Fix => Step::ApplyFixes,
        },
    ]
}

/// The step behind `step` in `steps`.
pub open spec fn step_behind(steps: Seq<Step>, step: Step) -> Option<Step>
    decreases steps.len(),
{
    if steps.len() < 2 {
        None
    } else if steps[0] == step {
        Some(steps[1])
    } else {
        step_behind(steps.drop_first(), step)
    }
}

/// The step that follows `step`, which ended as `end` says.
pub open spec fn following(step: Step, end: StepEnd, command: Command) -> Option<Step> {
    if end is Failed {
        None
    } else {
        step_behind(script(command, !(step is LookForArtifacts && end is Absent)), step)
    }
}

/// The first step of a run.
pub fn first_step() -> (r: Step)
    ensures
        forall|command: Command, has_artifacts: bool|
            r == #[trigger] script(command, has_artifacts)[0],
{
    Step::ReadMetadata
}

/// The step that follows `step`, which ended as `end` says.
pub fn next_step(step: Step, end: StepEnd, command: Command) -> (r: Option<Step>)
    ensures
        r == following(step, end, command),
{
    proof {
        lemma_steps_behind(command, true);
        lemma_steps_behind(command, false);
    }
    match end {
        StepEnd::Failed => return None,
        _ => {},
    }
    match step {
        Step::ReadMetadata => Some(Step::BuildLibrary),
        Step::BuildLibrary => Some(Step::LookForArtifacts),
        Step::LookForArtifacts => match end {
            StepEnd::Absent => Some(Step::CreateArtifacts),
            _ => Some(Step::ClearArtifacts),
        },
        Step::ClearArtifacts => Some(Step::CreateArtifacts),
        Step::CreateArtifacts => Some(Step::Collect),
        Step::Collect => Some(Step::WriteReport),
        Step::WriteReport => match command {
            Command::Check => Some(Step::Emit),
            Command::Fix => Some(Step::ApplyFixes),
        },
        Step::ApplyFixes => None,
        Step::Emit => None,
    }
}

proof fn lemma_steps_behind(command: Command, has_artifacts: bool)
    ensures
        ({
            let steps = script(command, has_artifacts);
            let last = steps.last();
            &&& step_behind(steps, Step::ReadMetadata) == Some(Step::BuildLibrary)
            &&& step_behind(steps, Step::BuildLibrary) == Some(Step::LookForArtifacts)
            &&& step_behind(steps, Step::LookForArtifacts) == Some(
                if has_artifacts {
                    Step::ClearArtifacts
                } else {
                    Step::CreateArtifacts
                },
            )
            &&& has_artifacts ==> step_behind(steps, Step::ClearArtifacts) == Some(
                Step::CreateArtifacts,
            )
            &&& step_behind(steps, Step::CreateArtifacts) == Some(Step::Collect)
            &&& step_behind(steps, Step::Collect) == Some(Step::WriteReport)
            &&& step_behind(steps, Step::WriteReport) == Some(last)
            &&& step_behind(steps, Step::ApplyFixes) is None
            &&& step_behind(steps, Step::Emit) is None
        }),
{
    reveal_with_fuel(step_behind, 9);
}

/// A step that was taken, and how it ended.
pub ghost struct Taken {
    pub step: Step,
    pub end: StepEnd,
}

/// Whether `taken` are the first steps of a run: each follows from the one before
/// it.
pub open spec fn is_run(taken: Seq<Taken>, command: Command) -> bool {
    &&& taken.len() > 0 ==> taken[0].step is ReadMetadata
    &&& forall|i: int|
        1 <= i < taken.len() ==> following(taken[i - 1].step, taken[i - 1].end, command) == Some(
            (#[trigger] taken[i]).step,
        )
}

/// Whether a run has artifacts of an earlier one to clear.
pub open spec fn found_artifacts(taken: Seq<Taken>) -> bool {
    !(taken.len() > 2 && taken[2].end is Absent)
}

proof fn lemma_step_in_script(taken: Seq<Taken>, command: Command, i: int)
    requires
        is_run(taken, command),
        0 <= i < taken.len(),
    ensures
        i < script(command, found_artifacts(taken)).len(),
        taken[i].step == script(command, found_artifacts(taken))[i],
    decreases i,
{
    if i > 0 {
        lemma_step_in_script(taken, command, i - 1);
        lemma_steps_behind(command, true);
        lemma_steps_behind(command, false);
    }
}

/// Every run goes through the steps of the script, one after the other, and ends
/// where a step fails. So a report is only written once artifacts were collected,
/// and sources are only edited, or warnings given, once the report is written.
pub proof fn lemma_run_follows_script(taken: Seq<Taken>, command: Command)
    requires
        is_run(taken, command),
    ensures
        taken.len() <= script(command, found_artifacts(taken)).len(),
        forall|i: int|
            0 <= i < taken.len() ==> (#[trigger] taken[i]).step == script(
                command,
                found_artifacts(taken),
            )[i],
        forall|i: int| 0 <= i < taken.len() - 1 ==> !((#[trigger] taken[i]).end is Failed),
{
    assert forall|i: int| 0 <= i < taken.len() implies (#[trigger] taken[i]).step == script(
        command,
        found_artifacts(taken),
    )[i] by {
        lemma_step_in_script(taken, command, i);
    }
    if taken.len() > 0 {
        lemma_step_in_script(taken, command, taken.len() - 1);
    }
    assert forall|i: int| 0 <= i < taken.len() - 1 implies !((
    #[trigger] taken[i]).end is Failed) by {
        assert(following(taken[i].step, taken[i].end, command) == Some(taken[i + 1].step));
    }
}

/// Checking never edits the sources, and editing them gives no warnings.
pub proof fn lemma_check_edits_nothing(taken: Seq<Taken>, command: Command, i: int)
    requires
        is_run(taken, command),
        0 <= i < taken.len(),
    ensures
        command is Check ==> !(taken[i].step is ApplyFixes),
        command is Fix ==> !(taken[i].step is Emit),
{
    lemma_step_in_script(taken, command, i);
}

/// A word of a command line.
#[derive(Debug, Clone, Copy)]
pub enum Word {
    Text(&'static str),
    /// The path of the library of the lint.
    LintLibrary,
    /// The path of a manifest.
    Manifest,
}

/// The value of a word.
pub ghost enum WordText {
    Text(Seq<char>),
    LintLibrary,
    Manifest,
}

impl View for Word {
    type V = WordText;

    open spec fn view(&self) -> WordText {
        match self {
            Word::Text(text) => WordText::Text(text@),
            Word::LintLibrary => WordText::LintLibrary,
            Word::Manifest => WordText::Manifest,
        }
    }
}

/// The words that build the library of a lint, behind `cargo`.
pub open spec fn build_line() -> Seq<WordText> {
    seq![
        WordText::Text("+nightly-2025-09-18"@),
        WordText::Text("build"@),
        WordText::Text("--release"@),
        WordText::Text("--manifest-path"@),
        WordText::Manifest,
    ]
}

/// The words that build the library of a lint, behind `cargo`.
pub fn build_words() -> (r: Vec<Word>)
    ensures
        sorting::views(r@) == build_line(),
{
    let words = vec![
        Word::Text("+nightly-2025-09-18"),
        Word::Text("build"),
        Word::Text("--release"),
        Word::Text("--manifest-path"),
        Word::Manifest,
    ];
    proof {
        assert(sorting::views(words@) =~= build_line());
    }
    words
}

/// The words that run a lint on a workspace, behind `cargo`.
pub open spec fn dylint_line(all_features: bool) -> Seq<WordText> {
    seq![
        WordText::Text("dylint"@),
        WordText::Text("--lib-path"@),
        WordText::LintLibrary,
        WordText::Text("--manifest-path"@),
        WordText::Manifest,
        WordText::Text("--workspace"@),
        WordText::Text("--"@),
    ] + cli::check_flags(all_features).map_values(|flag: Seq<char>| WordText::Text(flag))
}

/// The words that run a lint on a workspace, behind `cargo`.
pub fn dylint_words(all_features: bool) -> (r: Vec<Word>)
    ensures
        sorting::views(r@) == dylint_line(all_features),
{
    let mut words = vec![
        Word::Text("dylint"),
        Word::Text("--lib-path"),
        Word::LintLibrary,
        Word::Text("--manifest-path"),
        Word::Manifest,
        Word::Text("--workspace"),
        Word::Text("--"),
    ];
    let flags = cli::compiler_flags(all_features);
    let ghost wanted = cli::check_flags(all_features);
    let ghost line = dylint_line(all_features);
    let mut i: usize = 0;
    proof {
        assert(sorting::views(words@) =~= line.take(7));
    }
    while i < flags.len()
        invariant
            i <= flags.len(),
            flags.deep_view() == wanted,
            wanted == cli::check_flags(all_features),
            line == dylint_line(all_features),
            sorting::views(words@) == line.take(7 + i),
        decreases flags.len() - i,
    {
        let ghost had = words@;
        words.push(Word::Text(flags[i]));
        proof {
            assert(wanted[i as int] == flags[i as int]@);
            assert(line[7 + i] == WordText::Text(wanted[i as int]));
            assert(sorting::views(words@) =~= sorting::views(had).push(line[7 + i]));
            assert(line.take(8 + i) =~= line.take(7 + i).push(line[7 + i]));
        }
        i = i + 1;
    }
    proof {
        assert(line.take(7 + i) =~= line);
    }
    words
}

/// What a variable of the environment is set to.
#[derive(Debug, Clone, Copy)]
pub enum Setting {
    Text(&'static str),
    /// The directory that the workspace is built in.
    BuildDirectory,
    /// The directory of the artifacts.
    ArtifactDirectory,
    /// The path of the report.
    Report,
}

/// The value of a setting.
pub ghost enum SettingText {
    Text(Seq<char>),
    BuildDirectory,
    ArtifactDirectory,
    Report,
}

impl View for Setting {
    type V = SettingText;

    open spec fn view(&self) -> SettingText {
        match self {
            Setting::Text(text) => SettingText::Text(text@),
            Setting::BuildDirectory => SettingText::BuildDirectory,
            Setting::ArtifactDirectory => SettingText::ArtifactDirectory,
            Setting::Report => SettingText::Report,
        }
    }
}

/// A variable of the environment.
#[derive(Debug)]
pub struct Variable {
    pub name: String,
    pub value: Setting,
}

impl View for Variable {
    type V = (Seq<char>, SettingText);

    open spec fn view(&self) -> (Seq<char>, SettingText) {
        (self.name@, self.value@)
    }
}

/// The variables that are set for the run of a lint.
pub open spec fn environment(prefix: Seq<char>, phase: Phase) -> Seq<(Seq<char>, SettingText)> {
    let shared = seq![
        ("CARGO_TARGET_DIR"@, SettingText::BuildDirectory),
        ("RUSTC_WRAPPER"@, SettingText::Text(""@)),
        (prefix + "_MODE"@, SettingText::Text(phase_word(phase))),
        (prefix + "_DIR"@, SettingText::ArtifactDirectory),
    ];
    match phase {
        Phase::Collect => shared,
        Phase::Emit => shared.push((prefix + "_REPORT"@, SettingText::Report)),
    }
}

/// The variables that are set for the run of a lint with the variables `config`.
pub fn dylint_environment(config: &LintEnvConfig, phase: Phase) -> (r: Vec<Variable>)
    ensures
        sorting::views(r@) == environment(config.prefix@, phase),
{
    let mut variables: Vec<Variable> = Vec::new();
    variables.push(Variable { name: "CARGO_TARGET_DIR".to_owned(), value: Setting::BuildDirectory });
    variables.push(Variable { name: "RUSTC_WRAPPER".to_owned(), value: Setting::Text("") });
    variables.push(Variable { name: config.mode_var(), value: Setting::Text(phase.word()) });
    variables.push(Variable { name: config.dir_var(), value: Setting::ArtifactDirectory });
    match phase {
        Phase::Collect => {},
        Phase::Emit => {
            variables.push(Variable { name: config.report_var(), value: Setting::Report });
        },
    }
    proof {
        assert(sorting::views(variables@) =~= environment(config.prefix@, phase));
    }
    variables
}

/// What the variable `name` is set to: the last of its settings counts.
pub open spec fn setting_of(
    variables: Seq<(Seq<char>, SettingText)>,
    name: Seq<char>,
) -> Option<SettingText>
    decreases variables.len(),
{
    if variables.len() == 0 {
        None
    } else if variables.last().0 == name {
        Some(variables.last().1)
    } else {
        setting_of(variables.drop_last(), name)
    }
}

/// The lint finds in its variables what the coordinator means it to: the phase, the
/// directory of the artifacts and, in the second phase, the report.
pub proof fn lemma_lint_reads_settings(prefix: Seq<char>, phase: Phase)
    ensures
        setting_of(environment(prefix, phase), prefix + "_MODE"@) == Some(
            SettingText::Text(phase_word(phase)),
        ),
        setting_of(environment(prefix, phase), prefix + "_DIR"@) == Some(
            SettingText::ArtifactDirectory,
        ),
        setting_of(environment(prefix, phase), prefix + "_REPORT"@) == match phase {
            Phase::Collect => None::<SettingText>,
            Phase::Emit => Some(SettingText::Report),
        },
{
    reveal_strlit("_MODE");
    reveal_strlit("_DIR");
    reveal_strlit("_REPORT");
    reveal_strlit("CARGO_TARGET_DIR");
    reveal_strlit("RUSTC_WRAPPER");
    let mode = prefix + "_MODE"@;
    let dir = prefix + "_DIR"@;
    let report = prefix + "_REPORT"@;
    assert(mode.last() == 'E' && dir.last() == 'R' && report.last() == 'T');
    assert("CARGO_TARGET_DIR"@.last() == 'R' && "RUSTC_WRAPPER"@.last() == 'R');
    reveal_with_fuel(setting_of, 6);
}

/// With a directory the lint collects in the first phase, and with a report that can
/// be read it gives its warnings in the second.
pub proof fn lemma_phase_sets_mode<E>(artifact_dir: std::path::PathBuf, data: E)
    ensures
        forall|read: Option<E>| #[trigger]
            workspace_lint::mode_of(Some(phase_word(Phase::Collect)), Some(artifact_dir), read) == (
            Mode::<E>::Collect { artifact_dir }),
        forall|dir: Option<std::path::PathBuf>| #[trigger]
            workspace_lint::mode_of(Some(phase_word(Phase::Emit)), dir, Some(data)) == (
            Mode::<E>::Emit { data }),
{
    reveal_strlit("collect");
    reveal_strlit("emit");
    assert("collect"@.len() != "emit"@.len());
}

/// A program named as the crate of a lint runs that lint.
pub proof fn lemma_program_runs_lint(lint: Lint)
    ensures
        lint_for(crate_of(lint)) == lint,
{
    reveal_strlit("unused_public_items_in_workspace");
    reveal_strlit("overlapping_struct_fields");
    reveal_strlit("option_single_variant");
    reveal_strlit("trait_option_single_variant");
    reveal_strlit("derived_field_should_be_method");
    assert("unused_public_items_in_workspace"@.len() == 32);
    assert("overlapping_struct_fields"@.len() == 25);
    assert("option_single_variant"@.len() == 21);
    assert("trait_option_single_variant"@.len() == 27);
    assert("derived_field_should_be_method"@.len() == 30);
}

/// The names of the two phases differ, so a workspace is built in a directory of its own in
/// each.
pub proof fn lemma_phases_apart(a: Phase, b: Phase)
    ensures
        phase_word(a) == phase_word(b) <==> a == b,
{
    reveal_strlit("collect");
    reveal_strlit("emit");
    assert("collect"@.len() != "emit"@.len());
}

/// Whether `step` is the step `i` of `taken`.
pub open spec fn taken_at(taken: Seq<Taken>, i: int, step: Step) -> bool {
    0 <= i < taken.len() && taken[i].step == step
}

/// What a step needs was done before it: the lint runs once its library is built and the
/// directory of the artifacts was created, what was found there of an earlier run was
/// removed before that, the report is written right after artifacts were collected, and
/// right after it the warnings are given or the sources edited, as the command asks.
pub proof fn lemma_steps_in_order(taken: Seq<Taken>, command: Command, i: int)
    requires
        is_run(taken, command),
        0 <= i < taken.len(),
    ensures
        taken[i].step is BuildLibrary ==> taken_at(taken, i - 1, Step::ReadMetadata),
        taken[i].step is LookForArtifacts ==> taken_at(taken, i - 1, Step::BuildLibrary),
        taken[i].step is ClearArtifacts ==> taken_at(taken, i - 1, Step::LookForArtifacts)
            && taken[i - 1].end is Done,
        taken[i].step is CreateArtifacts ==> taken_at(taken, i - 1, Step::ClearArtifacts) || (
        taken_at(taken, i - 1, Step::LookForArtifacts) && taken[i - 1].end is Absent),
        taken[i].step is Collect ==> taken_at(taken, i - 1, Step::CreateArtifacts),
        taken[i].step is WriteReport ==> taken_at(taken, i - 1, Step::Collect),
        taken[i].step is Emit ==> taken_at(taken, i - 1, Step::WriteReport) && command is Check,
        taken[i].step is ApplyFixes ==> taken_at(taken, i - 1, Step::WriteReport) && command is Fix,
{
    lemma_steps_behind(command, true);
    lemma_steps_behind(command, false);
    if i > 0 {
        assert(following(taken[i - 1].step, taken[i - 1].end, command) == Some(taken[i].step));
    }
}

/// A run ends where a step fails or the last one is done, and nowhere else.
pub proof fn lemma_where_a_run_ends(step: Step, end: StepEnd, command: Command)
    ensures
        following(step, end, command) is None <==> end is Failed || step is Emit || step
            is ApplyFixes,
{
    lemma_steps_behind(command, true);
    lemma_steps_behind(command, false);
}

/// Both command lines name a manifest right behind the flag for it; the lint is run with
/// its library right behind the flag for that, on the whole workspace, and what goes to
/// the compiler stands behind the dashes: all targets, and all features if asked for.
pub proof fn lemma_command_lines(all_features: bool)
    ensures
        ({
            let build = build_line();
            let run = dylint_line(all_features);
            let flags = cli::check_flags(all_features);
            &&& build[3] == WordText::Text("--manifest-path"@) && build[4] == WordText::Manifest
            &&& build.contains(WordText::Text("build"@))
            &&& build.contains(WordText::Text("--release"@))
            &&& run[1] == WordText::Text("--lib-path"@) && run[2] == WordText::LintLibrary
            &&& run[3] == WordText::Text("--manifest-path"@) && run[4] == WordText::Manifest
            &&& run[5] == WordText::Text("--workspace"@)
            &&& run[6] == WordText::Text("--"@)
            &&& run.len() == 7 + flags.len()
            &&& forall|i: int|
                0 <= i < flags.len() ==> run[7 + i] == WordText::Text(#[trigger] flags[i])
            &&& run.contains(WordText::Text("--all-features"@)) <==> all_features
        }),
{
    let build = build_line();
    let run = dylint_line(all_features);
    let flags = cli::check_flags(all_features);
    assert(build[1] == WordText::Text("build"@));
    assert(build[2] == WordText::Text("--release"@));
    assert forall|i: int| 0 <= i < flags.len() implies run[7 + i] == WordText::Text(
        #[trigger] flags[i],
    ) by {}
    cli::lemma_flags(all_features);
    reveal_strlit("dylint");
    reveal_strlit("--lib-path");
    reveal_strlit("--manifest-path");
    reveal_strlit("--workspace");
    reveal_strlit("--");
    reveal_strlit("--all-features");
    reveal_strlit("--all-targets");
    let asked = WordText::Text("--all-features"@);
    if all_features {
        assert(run[7] == asked);
    }
    if run.contains(asked) {
        let k = choose|k: int| 0 <= k < run.len() && run[k] == asked;
        assert("--all-features"@.len() == 14);
        assert("--manifest-path"@.len() == 15);
        assert(k >= 7);
        assert(flags[k - 7] == "--all-features"@);
        assert(flags.contains(flags[k - 7]));
    }
}

/// Each lint builds the workspace in the directory for its phase, and no wrapper of the
/// compiler is in its way.
pub proof fn lemma_build_settings(lint: Lint, phase: Phase)
    ensures
        setting_of(environment(prefix_of(lint), phase), "CARGO_TARGET_DIR"@) == Some(
            SettingText::BuildDirectory,
        ),
        setting_of(environment(prefix_of(lint), phase), "RUSTC_WRAPPER"@) == Some(
            SettingText::Text(""@),
        ),
{
    reveal_strlit("_MODE");
    reveal_strlit("_DIR");
    reveal_strlit("_REPORT");
    reveal_strlit("CARGO_TARGET_DIR");
    reveal_strlit("RUSTC_WRAPPER");
    reveal_strlit("UNUSED_PUBLIC_ITEMS");
    reveal_strlit("OVERLAPPING_STRUCT_FIELDS");
    reveal_strlit("OPTION_SINGLE_VARIANT");
    reveal_strlit("TRAIT_OPTION_SINGLE_VARIANT");
    reveal_strlit("DERIVED_FIELD_SHOULD_BE_METHOD");
    let prefix = prefix_of(lint);
    assert(prefix.len() >= 19);
    let mode = prefix + "_MODE"@;
    let dir = prefix + "_DIR"@;
    let report = prefix + "_REPORT"@;
    assert(mode.len() > 16 && dir.len() > 16 && report.len() > 16);
    assert("CARGO_TARGET_DIR"@.len() == 16 && "RUSTC_WRAPPER"@.len() == 13);
    reveal_with_fuel(setting_of, 6);
}

} // verus!
