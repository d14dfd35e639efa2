//! The command line of the coordinators and the names of the files they use.
use vstd::prelude::*;

use crate::text;

verus! {

/// What a coordinator is asked to do.
#[derive(Debug, Clone, Copy, PartialEq, Eq, Structural)]
pub enum Command {
    Check,
    Fix,
}

/// Why a command line is not understood.
#[derive(Debug)]
pub enum CliError {
    /// The command is not known; `with_fix` if `fix` would have been.
    UnsupportedCommand { command: String, with_fix: bool },
    /// Nothing follows `--path`.
    MissingPath,
    /// The argument is not known.
    UnsupportedArgument(String),
}

/// What the error `error` is printed as.
pub open spec fn error_message(error: CliError) -> Seq<char> {
    match error {
        CliError::UnsupportedCommand { command, with_fix } => "unsupported command `"@ + command@
            + if with_fix {
            "`; expected `check` or `fix`"@
        } else {
            "`; expected `check`"@
        },
        CliError::MissingPath => "expected a path after --path"@,
        CliError::UnsupportedArgument(argument) => "unsupported argument `"@ + argument@
            + "`; only --path is supported"@,
    }
}

impl CliError {
    /// What the error is printed as.
    pub fn message(&self) -> (r: String)
        ensures
            r@ == error_message(*self),
    {
        match self {
            CliError::UnsupportedCommand { command, with_fix } => {
                let mut out = "unsupported command `".to_owned();
                out.append(command.as_str());
                if *with_fix {
                    out.append("`; expected `check` or `fix`");
                } else {
                    out.append("`; expected `check`");
                }
                out
            },
            CliError::MissingPath => "expected a path after --path".to_owned(),
            CliError::UnsupportedArgument(argument) => {
                let mut out = "unsupported argument `".to_owned();
                out.append(argument.as_str());
                out.append("`; only --path is supported");
                out
            },
        }
    }
}

/// The command that `word` is; without a word it is `check`.
pub open spec fn command_of(word: Option<Seq<char>>, with_fix: bool) -> Option<Command> {
    match word {
        None => Some(Command::Check),
        Some(word) => if word == "check"@ {
            Some(Command::Check)
        } else if word == "fix"@ && with_fix {
            Some(Command::Fix)
        } else {
            None
        },
    }
}

/// Reads the command `word`, where `fix` is known if `with_fix` is set.
pub fn parse_command(word: Option<&str>, with_fix: bool) -> (r: Result<Command, CliError>)
    ensures
        word is None ==> r == Ok::<Command, CliError>(Command::Check),
        word matches Some(w) ==> match command_of(Some(w@), with_fix) {
            Some(command) => r == Ok::<Command, CliError>(command),
            None => r matches Err(CliError::UnsupportedCommand { command, with_fix: known })
                && command@ == w@ && known == with_fix,
        },
{
    proof {
        reveal_strlit("check");
        reveal_strlit("fix");
        assert("check"@.len() != "fix"@.len());
    }
    let Some(word) = word else {
        return Ok(Command::Check);
    };
    if text::equal(word, "check") {
        Ok(Command::Check)
    } else if with_fix && text::equal(word, "fix") {
        Ok(Command::Fix)
    } else {
        Err(CliError::UnsupportedCommand { command: word.to_owned(), with_fix })
    }
}

/// What arguments say of the path.
pub ghost enum PathChoice {
    /// The path is the argument with the index, or the current directory.
    Chosen(Option<int>),
    /// Nothing follows the last `--path`.
    Missing,
    /// The argument with the index is not known.
    Unsupported(int),
}

/// What the arguments from `i` on say of the path, where `chosen` is the index of the
/// path so far. Of several paths the last counts.
pub open spec fn path_choice(args: Seq<Seq<char>>, i: int, chosen: Option<int>) -> PathChoice
    decreases args.len() - i,
{
    if i >= args.len() {
        PathChoice::Chosen(chosen)
    } else if args[i] != "--path"@ {
        PathChoice::Unsupported(i)
    } else if i + 1 >= args.len() {
        PathChoice::Missing
    } else {
        path_choice(args, i + 2, Some(i + 1))
    }
}

/// The index of the path among `args`, if they name one.
pub fn parse_workspace_path(args: &Vec<String>) -> (r: Result<Option<usize>, CliError>)
    ensures
        match path_choice(args.deep_view(), 0, None) {
            PathChoice::Chosen(None) => r == Ok::<Option<usize>, CliError>(None),
            PathChoice::Chosen(Some(index)) => r matches Ok(Some(found)) && found == index && found
                < args.len(),
            PathChoice::Missing => r matches Err(CliError::MissingPath),
            PathChoice::Unsupported(index) => r matches Err(CliError::UnsupportedArgument(word))
                && word@ == args.deep_view()[index],
        },
{
    let ghost all = args.deep_view();
    let mut chosen: Option<usize> = None;
    let mut i: usize = 0;
    let ghost mut choice: Option<int> = None;
    while i < args.len()
        invariant
            i <= args.len(),
            all == args.deep_view(),
            match chosen {
                Some(found) => choice == Some(found as int) && found < args.len(),
                None => choice is None,
            },
            path_choice(all, 0, None) == path_choice(all, i as int, choice),
        decreases args.len() - i,
    {
        proof {
            assert(all[i as int] == args[i as int]@);
        }
        if !text::equal(args[i].as_str(), "--path") {
            return Err(CliError::UnsupportedArgument(args[i].clone()));
        }
        if args.len() - i < 2 {
            return Err(CliError::MissingPath);
        }
        chosen = Some(i + 1);
        proof {
            choice = Some(i + 1);
        }
        i = i + 2;
    }
    Ok(chosen)
}

/// The systems that a lint library is built for.
#[derive(Debug, Clone, Copy, PartialEq, Eq, Structural)]
pub enum TargetOs {
    Linux,
    MacOs,
    Windows,
}

/// The machines that a lint library is built for.
#[derive(Debug, Clone, Copy, PartialEq, Eq, Structural)]
pub enum TargetArch {
    X86_64,
    Aarch64,
}

/// What the name of a dynamic library begins with.
pub open spec fn library_prefix(os: TargetOs) -> Seq<char> {
    if os is Windows {
        ""@
    } else {
        "lib"@
    }
}

/// What the name of a dynamic library begins with on `os`.
pub fn dylib_prefix(os: TargetOs) -> (r: &'static str)
    ensures
        r@ == library_prefix(os),
{
    match os {
        TargetOs::Windows => "",
        _ => "lib",
    }
}

/// The extension of a dynamic library.
pub open spec fn library_extension(os: TargetOs) -> Seq<char> {
    match os {
        TargetOs::MacOs => "dylib"@,
        TargetOs::Linux => "so"@,
        TargetOs::Windows => "dll"@,
    }
}

/// The extension of a dynamic library on `os`.
pub fn dylib_extension(os: TargetOs) -> (r: &'static str)
    ensures
        r@ == library_extension(os),
{
    match os {
        TargetOs::MacOs => "dylib",
        TargetOs::Linux => "so",
        TargetOs::Windows => "dll",
    }
}

/// The toolchain that a lint library is built with. There is none for Windows on
/// `aarch64`.
pub open spec fn toolchain(os: TargetOs, arch: TargetArch) -> Option<Seq<char>> {
    match (arch, os) {
        (
            TargetArch::Aarch64,
            TargetOs::MacOs,
        ) => Some("nightly-2025-09-18-aarch64-apple-darwin"@),
        (TargetArch::X86_64, TargetOs::MacOs) => Some("nightly-2025-09-18-x86_64-apple-darwin"@),
        (
            TargetArch::X86_64,
            TargetOs::Linux,
        ) => Some("nightly-2025-09-18-x86_64-unknown-linux-gnu"@),
        (
            TargetArch::Aarch64,
            TargetOs::Linux,
        ) => Some("nightly-2025-09-18-aarch64-unknown-linux-gnu"@),
        (
            TargetArch::X86_64,
            TargetOs::Windows,
        ) => Some("nightly-2025-09-18-x86_64-pc-windows-msvc"@),
        (TargetArch::Aarch64, TargetOs::Windows) => None,
    }
}

/// The toolchain that a lint library is built with for `os` and `arch`.
pub fn dylint_toolchain_name(os: TargetOs, arch: TargetArch) -> (r: Option<&'static str>)
    ensures
        r is Some <==> toolchain(os, arch) is Some,
        r matches Some(name) ==> toolchain(os, arch) == Some(name@),
{
    match (arch, os) {
        (TargetArch::Aarch64, TargetOs::MacOs) => Some("nightly-2025-09-18-aarch64-apple-darwin"),
        (TargetArch::X86_64, TargetOs::MacOs) => Some("nightly-2025-09-18-x86_64-apple-darwin"),
        (
            TargetArch::X86_64,
            TargetOs::Linux,
        ) => Some("nightly-2025-09-18-x86_64-unknown-linux-gnu"),
        (
            TargetArch::Aarch64,
            TargetOs::Linux,
        ) => Some("nightly-2025-09-18-aarch64-unknown-linux-gnu"),
        (
            TargetArch::X86_64,
            TargetOs::Windows,
        ) => Some("nightly-2025-09-18-x86_64-pc-windows-msvc"),
        (TargetArch::Aarch64, TargetOs::Windows) => None,
    }
}

/// The name of the library of the lint crate `lint` as it is built.
pub fn built_library_name(lint: &str, os: TargetOs) -> (r: String)
    ensures
        r@ == library_prefix(os) + lint@ + "."@ + library_extension(os),
{
    let mut name = dylib_prefix(os).to_owned();
    name.append(lint);
    name.append(".");
    name.append(dylib_extension(os));
    name
}

/// The name of the library of the lint crate `lint` as it is loaded: with the
/// toolchain in it.
pub fn loaded_library_name(lint: &str, os: TargetOs, arch: TargetArch) -> (r: Option<String>)
    ensures
        r is Some <==> toolchain(os, arch) is Some,
        r matches Some(name) ==> (toolchain(os, arch) matches Some(chain) && name@
            == library_prefix(os) + lint@ + "@"@ + chain + "."@ + library_extension(os)),
{
    let Some(chain) = dylint_toolchain_name(os, arch) else {
        return None;
    };
    let mut name = dylib_prefix(os).to_owned();
    name.append(lint);
    name.append("@");
    name.append(chain);
    name.append(".");
    name.append(dylib_extension(os));
    Some(name)
}

/// What is handed on to the compiler: all targets, with all features if that is
/// asked for.
pub open spec fn check_flags(all_features: bool) -> Seq<Seq<char>> {
    if all_features {
        seq!["--all-features"@, "--all-targets"@]
    } else {
        seq!["--all-targets"@]
    }
}

/// What is handed on to the compiler.
pub fn compiler_flags(all_features: bool) -> (r: Vec<&'static str>)
    ensures
        r.deep_view() == check_flags(all_features),
{
    let mut flags: Vec<&'static str> = Vec::new();
    if all_features {
        flags.push("--all-features");
    }
    flags.push("--all-targets");
    proof {
        assert(flags.deep_view() =~= check_flags(all_features));
    }
    flags
}

/// Without a word and with `check` the sources are checked; with `fix` they are edited
/// where that is known, and no other word is.
pub proof fn lemma_commands(word: Seq<char>, with_fix: bool)
    ensures
        command_of(None, with_fix) == Some(Command::Check),
        command_of(Some(word), with_fix) == Some(Command::Check) <==> word == "check"@,
        command_of(Some(word), with_fix) == Some(Command::Fix) <==> word == "fix"@ && with_fix,
{
    reveal_strlit("check");
    reveal_strlit("fix");
    assert("check"@.len() != "fix"@.len());
}

proof fn lemma_choice_of_longer(
    args: Seq<Seq<char>>,
    more: Seq<Seq<char>>,
    i: int,
    chosen: Option<int>,
)
    requires
        0 <= i <= args.len(),
    ensures
        path_choice(args, i, chosen) matches PathChoice::Chosen(found) ==> path_choice(
            args + more,
            i,
            chosen,
        ) == path_choice(args + more, args.len() as int, found),
        path_choice(args, i, chosen) matches PathChoice::Unsupported(index) ==> path_choice(
            args + more,
            i,
            chosen,
        ) == PathChoice::Unsupported(index) && i <= index < args.len(),
    decreases args.len() - i,
{
    if i < args.len() {
        assert((args + more)[i] == args[i]);
        if args[i] == "--path"@ && i + 1 < args.len() {
            lemma_choice_of_longer(args, more, i + 2, Some(i + 1));
        }
    }
}

/// Without arguments no path is chosen. After arguments that choose one or none, `--path`
/// and an argument choose that argument, `--path` alone lacks one, and any other argument
/// is not known. An argument that is not known stays so, whatever follows.
pub proof fn lemma_path_arguments(args: Seq<Seq<char>>, path: Seq<char>, more: Seq<Seq<char>>)
    ensures
        path_choice(Seq::empty(), 0, None) == PathChoice::Chosen(None),
        path_choice(args, 0, None) is Chosen ==> {
            &&& path_choice(args + seq!["--path"@, path], 0, None) == PathChoice::Chosen(
                Some(args.len() as int + 1),
            )
            &&& path_choice(args + seq!["--path"@], 0, None) is Missing
            &&& path != "--path"@ ==> path_choice(args + seq![path], 0, None)
                == PathChoice::Unsupported(args.len() as int)
        },
        path_choice(args, 0, None) matches PathChoice::Unsupported(index) ==> path_choice(
            args + more,
            0,
            None,
        ) == PathChoice::Unsupported(index),
{
    lemma_choice_of_longer(args, more, 0, None);
    let two = seq!["--path"@, path];
    let one = seq!["--path"@];
    lemma_choice_of_longer(args, two, 0, None);
    lemma_choice_of_longer(args, one, 0, None);
    lemma_choice_of_longer(args, seq![path], 0, None);
    let n = args.len() as int;
    assert((args + two)[n] == "--path"@);
    assert((args + one)[n] == "--path"@);
    assert((args + seq![path])[n] == path);
    reveal_with_fuel(path_choice, 2);
}

/// An error that is about a word names that word.
pub proof fn lemma_error_names_word(word: String, with_fix: bool)
    ensures
        error_message(CliError::UnsupportedCommand { command: word, with_fix }).subrange(
            21,
            21 + word@.len() as int,
        ) == word@,
        error_message(CliError::UnsupportedArgument(word)).subrange(22, 22 + word@.len() as int)
            == word@,
{
    reveal_strlit("unsupported command `");
    reveal_strlit("unsupported argument `");
    assert(error_message(CliError::UnsupportedCommand { command: word, with_fix }).subrange(
        21,
        21 + word@.len() as int,
    ) =~= word@);
    assert(error_message(CliError::UnsupportedArgument(word)).subrange(
        22,
        22 + word@.len() as int,
    ) =~= word@);
}

/// No two systems share the extension of their libraries; only on Windows has the name no
/// prefix.
pub proof fn lemma_library_names(a: TargetOs, b: TargetOs)
    ensures
        library_extension(a) == library_extension(b) <==> a == b,
        library_prefix(a).len() == 0 <==> a == TargetOs::Windows,
        a != TargetOs::Windows ==> library_prefix(a) == "lib"@,
{
    reveal_strlit("dylib");
    reveal_strlit("so");
    reveal_strlit("dll");
    reveal_strlit("lib");
    reveal_strlit("");
    assert(library_extension(a).len() != library_extension(b).len() || a == b);
}

/// There is a toolchain for each system and machine but Windows on `aarch64`, it is of the
/// one release, and no two of them share one.
pub proof fn lemma_toolchains(os: TargetOs, arch: TargetArch, other: TargetOs, machine: TargetArch)
    ensures
        toolchain(os, arch) is None <==> os == TargetOs::Windows && arch == TargetArch::Aarch64,
        toolchain(os, arch) is Some && toolchain(os, arch) == toolchain(other, machine) ==> os
            == other && arch == machine,
        toolchain(os, arch) matches Some(name) ==> {
            &&& "nightly-2025-09-18-"@.is_prefix_of(name)
            &&& arch == TargetArch::X86_64 <==> name[19] == 'x'
        },
{
    reveal_strlit("nightly-2025-09-18-");
    reveal_strlit("nightly-2025-09-18-aarch64-apple-darwin");
    reveal_strlit("nightly-2025-09-18-x86_64-apple-darwin");
    reveal_strlit("nightly-2025-09-18-x86_64-unknown-linux-gnu");
    reveal_strlit("nightly-2025-09-18-aarch64-unknown-linux-gnu");
    reveal_strlit("nightly-2025-09-18-x86_64-pc-windows-msvc");
    if toolchain(os, arch) is Some {
        let name = toolchain(os, arch)->Some_0;
        assert(name.subrange(0, 19) =~= "nightly-2025-09-18-"@);
        if toolchain(os, arch) == toolchain(other, machine) {
            let same = toolchain(other, machine)->Some_0;
            assert(name.len() == same.len());
        }
    }
}

/// All targets are always looked at, and all features exactly if that is asked for.
pub proof fn lemma_flags(all_features: bool)
    ensures
        check_flags(all_features).contains("--all-targets"@),
        check_flags(all_features).contains("--all-features"@) <==> all_features,
        check_flags(all_features).len() == if all_features {
            2nat
        } else {
            1
        },
{
    reveal_strlit("--all-targets");
    reveal_strlit("--all-features");
    assert("--all-targets"@.len() != "--all-features"@.len());
    let flags = check_flags(all_features);
    assert(flags[flags.len() - 1] == "--all-targets"@);
    if all_features {
        assert(flags[0] == "--all-features"@);
    }
}

} // verus!
