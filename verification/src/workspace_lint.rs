//! The two phases of a lint that looks at a whole workspace.
use vstd::prelude::*;

use crate::text;
use crate::utils;

verus! {

/// The path type of the standard library; a value of it is only carried along.
#[verifier::external_type_specification]
#[verifier::external_body]
pub struct ExPathBuf(std::path::PathBuf);

/// The names of the environment variables of a workspace lint.
#[derive(Debug)]
pub struct LintEnvConfig {
    /// The prefix of the names, such as `OPTION_SINGLE_VARIANT`.
    ///
    /// From it come `{prefix}_MODE`, `{prefix}_DIR` and `{prefix}_REPORT`.
    pub prefix: &'static str,
}

impl LintEnvConfig {
    /// The variable that selects the phase.
    pub fn mode_var(&self) -> (r: String)
        ensures
            r@ == self.prefix@ + "_MODE"@,
    {
        let mut name = self.prefix.to_owned();
        name.append("_MODE");
        name
    }

    /// The variable with the directory of the artifacts.
    pub fn dir_var(&self) -> (r: String)
        ensures
            r@ == self.prefix@ + "_DIR"@,
    {
        let mut name = self.prefix.to_owned();
        name.append("_DIR");
        name
    }

    /// The variable with the path of the report.
    pub fn report_var(&self) -> (r: String)
        ensures
            r@ == self.prefix@ + "_REPORT"@,
    {
        let mut name = self.prefix.to_owned();
        name.append("_REPORT");
        name
    }
}

/// The phase of a workspace lint, with the data of the second phase.
#[derive(Debug)]
pub enum Mode<E> {
    /// Collect: artifacts are written to the given directory.
    Collect { artifact_dir: std::path::PathBuf },
    /// Emit: the aggregated data says which diagnostics to give.
    Emit { data: E },
    /// The lint is not active.
    Disabled,
}

/// The phase that the value `mode` of the mode variable asks for, where
/// `artifact_dir` is the value of the directory variable and `data` what the report
/// holds, if it could be read.
pub open spec fn mode_of<E>(
    mode: Option<Seq<char>>,
    artifact_dir: Option<std::path::PathBuf>,
    data: Option<E>,
) -> Mode<E> {
    match (mode, artifact_dir, data) {
        (Some(word), Some(artifact_dir), _) if word == "collect"@ => Mode::Collect { artifact_dir },
        (Some(word), _, Some(data)) if word == "emit"@ => Mode::Emit { data },
        _ => Mode::Disabled,
    }
}

impl<E> Mode<E> {
    /// The phase that the environment asks for: `mode` is the value of the mode
    /// variable, `artifact_dir` that of the directory variable, and `data` what
    /// the report holds, if it could be read.
    pub fn from_env(
        mode: Option<&str>,
        artifact_dir: Option<std::path::PathBuf>,
        data: Option<E>,
    ) -> (r: Mode<E>)
        ensures
            mode is None ==> r == mode_of(None, artifact_dir, data),
            mode matches Some(word) ==> r == mode_of(Some(word@), artifact_dir, data),
    {
        proof {
            reveal_strlit("collect");
            reveal_strlit("emit");
            assert("collect"@.len() != "emit"@.len());
        }
        let Some(mode) = mode else {
            return Mode::Disabled;
        };
        if text::equal(mode, "collect") {
            match artifact_dir {
                Some(artifact_dir) => Mode::Collect { artifact_dir },
                None => Mode::Disabled,
            }
        } else if text::equal(mode, "emit") {
            match data {
                Some(data) => Mode::Emit { data },
                None => Mode::Disabled,
            }
        } else {
            Mode::Disabled
        }
    }

    /// Whether the lint is not active.
    pub fn is_disabled(&self) -> (b: bool)
        ensures
            b == (self is Disabled),
    {
        match self {
            Mode::Disabled => true,
            _ => false,
        }
    }
}

/// What is known of the crate being compiled.
#[derive(Debug)]
pub struct CrateInfo {
    pub crate_stable_id: String,
    pub crate_name: String,
    pub target_name: String,
    pub target_kind: String,
}

impl Default for CrateInfo {
    fn default() -> (r: CrateInfo)
        ensures
            r.crate_stable_id@ == Seq::<char>::empty(),
            r.crate_name@ == Seq::<char>::empty(),
            r.target_name@ == Seq::<char>::empty(),
            r.target_kind@ == Seq::<char>::empty(),
    {
        CrateInfo {
            crate_stable_id: String::new(),
            crate_name: String::new(),
            target_name: String::new(),
            target_kind: String::new(),
        }
    }
}

impl CrateInfo {
    /// The information on a crate from its identifier and name and from the
    /// variables `CARGO_CRATE_NAME` and `CARGO_BIN_NAME` of its build.
    pub fn for_current_crate(
        crate_stable_id: &str,
        crate_name: &str,
        cargo_crate_name: Option<&str>,
        cargo_bin_name: Option<&str>,
    ) -> (r: CrateInfo)
        ensures
            r.crate_stable_id@ == crate_stable_id@,
            r.crate_name@ == crate_name@,
            r.target_name@ == (match cargo_crate_name {
                Some(name) => name@,
                None => "unknown"@,
            }),
            r.target_kind@ == (if cargo_bin_name is Some {
                "bin"@
            } else {
                "lib"@
            }),
    {
        let target_name = match cargo_crate_name {
            Some(name) => name,
            None => "unknown",
        };
        let target_kind = match cargo_bin_name {
            Some(_) => "bin",
            None => "lib",
        };
        CrateInfo {
            crate_stable_id: crate_stable_id.to_owned(),
            crate_name: crate_name.to_owned(),
            target_name: target_name.to_owned(),
            target_kind: target_kind.to_owned(),
        }
    }
}

/// The name of the artifact of a target, without its extension.
pub open spec fn artifact_stem(crate_name: Seq<char>, target_name: Seq<char>, pid: nat) -> Seq<
    char,
> {
    utils::sanitized(crate_name) + "-"@ + utils::sanitized(target_name) + "-"@ + text::decimal(pid)
}

/// The name of the file that a process writes the artifact of a target to.
pub fn artifact_file_name(crate_name: &str, target_name: &str, pid: u32) -> (r: String)
    ensures
        r@ == artifact_stem(crate_name@, target_name@, pid as nat) + ".json"@,
{
    let mut name = utils::sanitize(crate_name);
    name.append("-");
    name.append(utils::sanitize(target_name).as_str());
    name.append("-");
    name.append(text::decimal_string(pid as usize).as_str());
    name.append(".json");
    name
}

/// The name of the file that the artifact is written to before it is renamed.
pub fn artifact_temp_name(crate_name: &str, target_name: &str, pid: u32) -> (r: String)
    ensures
        r@ == artifact_stem(crate_name@, target_name@, pid as nat) + ".json.tmp"@,
{
    let mut name = utils::sanitize(crate_name);
    name.append("-");
    name.append(utils::sanitize(target_name).as_str());
    name.append("-");
    name.append(text::decimal_string(pid as usize).as_str());
    name.append(".json.tmp");
    name
}

/// Whether a file of the artifact directory is an artifact: a file with the
/// extension `json` that is not the report.
pub open spec fn is_artifact(is_file: bool, name: Seq<char>) -> bool {
    is_file && utils::extension_of(name) == Some("json"@) && name != "report.json"@
}

/// Whether a file of the artifact directory is an artifact.
pub fn is_artifact_file(is_file: bool, file_name: &str) -> (b: bool)
    ensures
        b == is_artifact(is_file, file_name@),
{
    let Some(extension) = utils::file_extension(file_name) else {
        return false;
    };
    is_file && text::equal(extension, "json") && !text::equal(file_name, "report.json")
}

proof fn lemma_stem(crate_name: Seq<char>, target_name: Seq<char>, pid: nat)
    ensures
        ({
            let stem = artifact_stem(crate_name, target_name, pid);
            &&& stem.len() > 0
            &&& !stem.contains('.')
            &&& stem.contains('-')
            &&& text::last_match(stem, seq!['-']) == Some(stem.len() - text::decimal(pid).len() - 1)
        }),
{
    let digits = text::decimal(pid);
    let front = utils::sanitized(crate_name) + "-"@ + utils::sanitized(target_name);
    let stem = artifact_stem(crate_name, target_name, pid);
    reveal_strlit("-");
    assert("-"@ =~= seq!['-']);
    text::lemma_decimal_digits(pid);
    assert(stem =~= front + seq!['-'] + digits);
    text::lemma_char_before(front, '-', digits);
    assert(stem[front.len() as int] == '-');
    utils::lemma_sanitized(crate_name);
    utils::lemma_sanitized(target_name);
    assert forall|i: int| 0 <= i < stem.len() implies stem[i] != '.' by {
        if i < crate_name.len() {
            assert(stem[i] == utils::sanitized(crate_name)[i]);
        } else if i == crate_name.len() {
        } else if i < front.len() {
            assert(stem[i] == utils::sanitized(target_name)[i - crate_name.len() - 1]);
        } else if i > front.len() {
            assert(stem[i] == digits[i - front.len() - 1]);
        }
    }
}

proof fn lemma_extension(stem: Seq<char>, extension: Seq<char>)
    requires
        stem.len() > 0,
        !extension.contains('.'),
    ensures
        utils::extension_of(stem + seq!['.'] + extension) == Some(extension),
{
    text::lemma_char_before(stem, '.', extension);
    assert((stem + seq!['.'] + extension).skip((stem.len() + 1) as int) =~= extension);
}

/// What a lint writes as an artifact is read as one, but not before it is complete,
/// and the report never is.
pub proof fn lemma_artifacts_are_read(crate_name: Seq<char>, target_name: Seq<char>, pid: nat)
    ensures
        is_artifact(true, artifact_stem(crate_name, target_name, pid) + ".json"@),
        !is_artifact(true, artifact_stem(crate_name, target_name, pid) + ".json.tmp"@),
        !is_artifact(true, "report.json"@),
{
    let stem = artifact_stem(crate_name, target_name, pid);
    lemma_stem(crate_name, target_name, pid);
    reveal_strlit(".json");
    reveal_strlit(".json.tmp");
    reveal_strlit("json");
    reveal_strlit("report.json");
    assert(stem + ".json"@ =~= stem + seq!['.'] + "json"@);
    lemma_extension(stem, "json"@);
    let tmp = seq!['t', 'm', 'p'];
    assert(stem + ".json.tmp"@ =~= stem + ".json"@ + seq!['.'] + tmp);
    lemma_extension(stem + ".json"@, tmp);
    assert(tmp.len() != "json"@.len());
    let dash = choose|i: int| 0 <= i < stem.len() && stem[i] == '-';
    assert((stem + ".json"@)[dash] == '-');
    assert(!"report.json"@.contains('-'));
    assert((stem + ".json"@).contains('-'));
}

/// Two processes never write to the same file.
pub proof fn lemma_processes_apart(
    crate_name: Seq<char>,
    target_name: Seq<char>,
    pid: nat,
    other_crate: Seq<char>,
    other_target: Seq<char>,
    other_pid: nat,
)
    requires
        pid != other_pid,
    ensures
        artifact_stem(crate_name, target_name, pid) + ".json"@ != artifact_stem(
            other_crate,
            other_target,
            other_pid,
        ) + ".json"@,
        artifact_stem(crate_name, target_name, pid) + ".json.tmp"@ != artifact_stem(
            other_crate,
            other_target,
            other_pid,
        ) + ".json.tmp"@,
{
    let a = artifact_stem(crate_name, target_name, pid);
    let b = artifact_stem(other_crate, other_target, other_pid);
    lemma_stem(crate_name, target_name, pid);
    lemma_stem(other_crate, other_target, other_pid);
    text::lemma_decimal_distinct(pid, other_pid);
    let digits = text::decimal(pid);
    let other_digits = text::decimal(other_pid);
    assert(a.skip(a.len() - digits.len()) =~= digits);
    assert(b.skip(b.len() - other_digits.len()) =~= other_digits);
    assert(a != b);
    assert forall|end: Seq<char>| #[trigger] (a + end) != b + end by {
        if a + end == b + end {
            assert(a =~= (a + end).take(a.len() as int));
            assert(b =~= (b + end).take(b.len() as int));
            assert((a + end).len() == (b + end).len());
        }
    }
}

/// Artifacts are collected exactly if the mode variable says so and the directory is
/// known; warnings are given exactly if it says so and the report could be read.
pub proof fn lemma_mode_of<E>(
    mode: Option<Seq<char>>,
    artifact_dir: Option<std::path::PathBuf>,
    data: Option<E>,
)
    ensures
        mode_of(mode, artifact_dir, data) is Collect <==> mode == Some("collect"@) && artifact_dir
            is Some,
        mode_of(mode, artifact_dir, data) is Emit <==> mode == Some("emit"@) && data is Some,
        mode_of(mode, artifact_dir, data) matches Mode::Collect { artifact_dir: dir } ==> Some(dir)
            == artifact_dir,
        mode_of(mode, artifact_dir, data) matches Mode::Emit { data: read } ==> Some(read) == data,
{
    reveal_strlit("collect");
    reveal_strlit("emit");
    assert("collect"@.len() != "emit"@.len());
}

/// The artifacts are the files whose name ends in `.json` and begins with something else,
/// but for the report.
pub proof fn lemma_names_of_artifacts(is_file: bool, name: Seq<char>)
    ensures
        is_artifact(is_file, name) <==> is_file && name.len() > 5 && name.skip(name.len() - 5)
            == seq!['.', 'j', 's', 'o', 'n'] && name != "report.json"@,
{
    reveal_strlit("json");
    let end = seq!['.', 'j', 's', 'o', 'n'];
    assert("json"@ =~= seq!['j', 's', 'o', 'n']);
    assert(!"json"@.contains('.'));
    if name.len() > 5 && name.skip(name.len() - 5) == end {
        let stem = name.take(name.len() - 5);
        assert(name =~= stem + name.skip(name.len() - 5));
        assert(name =~= stem + seq!['.'] + "json"@);
        utils::lemma_extension(stem, "json"@);
    }
    if utils::extension_of(name) == Some("json"@) {
        text::lemma_last_match_greatest(name, seq!['.']);
        let dot = text::last_match(name, seq!['.'])->Some_0;
        assert(name.skip(dot + 1) == "json"@);
        assert(name.skip(dot + 1).len() == 4);
        assert(name.subrange(dot, dot + 1)[0] == '.');
        assert(name.skip(name.len() - 5) =~= end) by {
            assert forall|i: int| 1 <= i < 5 implies name.skip(name.len() - 5)[i] == end[i] by {
                assert(name.skip(dot + 1)[i - 1] == name[dot + i]);
            }
        }
    }
}

/// The name of an artifact begins with that of the crate, made fit, and ends in the number
/// of the process; that of the target stands between them.
pub proof fn lemma_stem_parts(crate_name: Seq<char>, target_name: Seq<char>, pid: nat)
    ensures
        ({
            let stem = artifact_stem(crate_name, target_name, pid);
            let n = crate_name.len() as int;
            let m = target_name.len() as int;
            &&& stem.take(n) == utils::sanitized(crate_name)
            &&& stem.subrange(n + 1, n + 1 + m) == utils::sanitized(target_name)
            &&& stem.skip(n + m + 2) == text::decimal(pid)
        }),
{
    reveal_strlit("-");
    let stem = artifact_stem(crate_name, target_name, pid);
    let n = crate_name.len() as int;
    let m = target_name.len() as int;
    assert(stem.take(n) =~= utils::sanitized(crate_name));
    assert(stem.subrange(n + 1, n + 1 + m) =~= utils::sanitized(target_name));
    assert(stem.skip(n + m + 2) =~= text::decimal(pid));
}

} // verus!
