//! The decisions of the CRLF to LF converter's command line: what the
//! arguments ask for, what each input is, what is reported, and the exit
//! status. Reading, writing and printing are left to the caller.

use vstd::prelude::*;
use crate::crlf::{crlf_to_lf, has_crlf, memory, lemma_unchanged_iff_no_crlf, lemma_has_crlf_concat};
use crate::text::{str_eq, starts_with_char};

verus! {

/// The texts of a list of strings.
pub open spec fn strings_view(v: Seq<String>) -> Seq<Seq<char>> {
    v.map_values(|s: String| s@)
}

/// What a command line asks for, over the texts of its arguments.
pub enum ArgsModel {
    Help,
    Version,
    Convert { files: Seq<Seq<char>>, quiet: bool, check_only: bool },
    Unknown(Seq<char>),
}

/// The arguments `args` read from left to right, after the files `files`
/// and the flags `quiet` and `check_only` were collected: help and version
/// end the reading, `--` takes every later argument as a file, `-` is a
/// file, any other argument that starts with `-` is an unknown option.
pub open spec fn parse_from(
    args: Seq<Seq<char>>,
    files: Seq<Seq<char>>,
    quiet: bool,
    check_only: bool,
) -> ArgsModel
    decreases args.len(),
{
    if args.len() == 0 {
        ArgsModel::Convert { files, quiet, check_only }
    } else {
        let a = args[0];
        let rest = args.skip(1);
        if a == "-h"@ || a == "--help"@ {
            ArgsModel::Help
        } else if a == "-v"@ || a == "--version"@ || a == "-V"@ {
            ArgsModel::Version
        } else if a == "-q"@ || a == "--quiet"@ {
            parse_from(rest, files, true, check_only)
        } else if a == "-c"@ || a == "--check"@ {
            parse_from(rest, files, quiet, true)
        } else if a == "--"@ {
            ArgsModel::Convert { files: files + rest, quiet, check_only }
        } else if a != "-"@ && a.len() > 0 && a[0] == '-' {
            ArgsModel::Unknown(a)
        } else {
            parse_from(rest, files.push(a), quiet, check_only)
        }
    }
}

/// What the command line `args` (the program name left out) asks for.
pub open spec fn parse_args_model(args: Seq<Seq<char>>) -> ArgsModel {
    parse_from(args, seq![], false, false)
}

/// `m` with quiet mode switched on, where it asks for a conversion.
pub open spec fn with_quiet(m: ArgsModel) -> ArgsModel {
    match m {
        ArgsModel::Convert { files, quiet: _, check_only } => ArgsModel::Convert {
            files,
            quiet: true,
            check_only,
        },
        other => other,
    }
}

/// `m` with check mode switched on, where it asks for a conversion.
pub open spec fn with_check(m: ArgsModel) -> ArgsModel {
    match m {
        ArgsModel::Convert { files, quiet, check_only: _ } => ArgsModel::Convert {
            files,
            quiet,
            check_only: true,
        },
        other => other,
    }
}

/// The characters of the option texts.
proof fn reveal_option_texts()
    ensures
        "-h"@ == seq!['-', 'h'],
        "--help"@ == seq!['-', '-', 'h', 'e', 'l', 'p'],
        "-v"@ == seq!['-', 'v'],
        "--version"@ == seq!['-', '-', 'v', 'e', 'r', 's', 'i', 'o', 'n'],
        "-V"@ == seq!['-', 'V'],
        "-q"@ == seq!['-', 'q'],
        "--quiet"@ == seq!['-', '-', 'q', 'u', 'i', 'e', 't'],
        "-c"@ == seq!['-', 'c'],
        "--check"@ == seq!['-', '-', 'c', 'h', 'e', 'c', 'k'],
        "--"@ == seq!['-', '-'],
        "-"@ == seq!['-'],
{
    reveal_strlit("-h");
    reveal_strlit("--help");
    reveal_strlit("-v");
    reveal_strlit("--version");
    reveal_strlit("-V");
    reveal_strlit("-q");
    reveal_strlit("--quiet");
    reveal_strlit("-c");
    reveal_strlit("--check");
    reveal_strlit("--");
    reveal_strlit("-");
}

proof fn lemma_parse_from_flags(args: Seq<Seq<char>>, files: Seq<Seq<char>>, quiet: bool, check_only: bool)
    ensures
        parse_from(args, files, true, check_only) == with_quiet(parse_from(args, files, quiet, check_only)),
        parse_from(args, files, quiet, true) == with_check(parse_from(args, files, quiet, check_only)),
    decreases args.len(),
{
    if args.len() > 0 {
        let rest = args.skip(1);
        lemma_parse_from_flags(rest, files, true, check_only);
        lemma_parse_from_flags(rest, files, quiet, true);
        lemma_parse_from_flags(rest, files, quiet, check_only);
        lemma_parse_from_flags(rest, files.push(args[0]), quiet, check_only);
        lemma_parse_from_flags(rest, files.push(args[0]), true, check_only);
        lemma_parse_from_flags(rest, files.push(args[0]), quiet, true);
    }
}

/// Quiet mode (`-q` or `--quiet`) and check mode (`-c` or `--check`) each
/// change only their own flag: with one of them in front, a command line
/// asks for what the rest of it asks for, with that flag switched on and
/// every file and the other flag as the rest sets them.
pub proof fn lemma_flag_options(rest: Seq<Seq<char>>)
    ensures
        parse_args_model(seq!["-q"@] + rest) == with_quiet(parse_args_model(rest)),
        parse_args_model(seq!["--quiet"@] + rest) == with_quiet(parse_args_model(rest)),
        parse_args_model(seq!["-c"@] + rest) == with_check(parse_args_model(rest)),
        parse_args_model(seq!["--check"@] + rest) == with_check(parse_args_model(rest)),
        parse_args_model(seq!["-h"@] + rest) == ArgsModel::Help,
        parse_args_model(seq!["--help"@] + rest) == ArgsModel::Help,
        parse_args_model(seq!["-v"@] + rest) == ArgsModel::Version,
        parse_args_model(seq!["--version"@] + rest) == ArgsModel::Version,
        parse_args_model(seq!["-V"@] + rest) == ArgsModel::Version,
{
    reveal_option_texts();
    lemma_parse_from_flags(rest, seq![], false, false);
    let e: Seq<Seq<char>> = seq![];
    assert((seq!["-q"@] + rest).skip(1) =~= rest);
    assert((seq!["--quiet"@] + rest).skip(1) =~= rest);
    assert((seq!["-c"@] + rest).skip(1) =~= rest);
    assert((seq!["--check"@] + rest).skip(1) =~= rest);
    assert((seq!["-q"@] + rest)[0] == "-q"@);
    assert((seq!["--quiet"@] + rest)[0] == "--quiet"@);
    assert((seq!["-c"@] + rest)[0] == "-c"@);
    assert((seq!["--check"@] + rest)[0] == "--check"@);
    assert((seq!["-h"@] + rest)[0] == "-h"@);
    assert((seq!["--help"@] + rest)[0] == "--help"@);
    assert((seq!["-v"@] + rest)[0] == "-v"@);
    assert((seq!["--version"@] + rest)[0] == "--version"@);
    assert((seq!["-V"@] + rest)[0] == "-V"@);
}

proof fn lemma_parse_from_long_quiet(
    pre: Seq<Seq<char>>,
    post: Seq<Seq<char>>,
    files: Seq<Seq<char>>,
    quiet: bool,
    check_only: bool,
)
    requires
        forall|i: int| 0 <= i < pre.len() ==> pre[i] != "--"@,
    ensures
        parse_from(pre + seq!["--quiet"@] + post, files, quiet, check_only)
            == parse_from(pre + seq!["-q"@] + post, files, quiet, check_only),
    decreases pre.len(),
{
    reveal_option_texts();
    let a1 = pre + seq!["--quiet"@] + post;
    let a2 = pre + seq!["-q"@] + post;
    if pre.len() == 0 {
        assert(a1[0] == "--quiet"@);
        assert(a2[0] == "-q"@);
        assert(a1.skip(1) =~= post);
        assert(a2.skip(1) =~= post);
    } else {
        let a = pre[0];
        let tail = pre.skip(1);
        assert(a1[0] == a);
        assert(a2[0] == a);
        assert(a1.skip(1) =~= tail + seq!["--quiet"@] + post);
        assert(a2.skip(1) =~= tail + seq!["-q"@] + post);
        assert(a != "--"@);
        assert forall|i: int| 0 <= i < tail.len() implies tail[i] != "--"@ by {
            assert(tail[i] == pre[i + 1]);
        }
        lemma_parse_from_long_quiet(tail, post, files, true, check_only);
        lemma_parse_from_long_quiet(tail, post, files, quiet, true);
        lemma_parse_from_long_quiet(tail, post, files.push(a), quiet, check_only);
    }
}

/// `--quiet` means the same as `-q` wherever it stands before a `--`:
/// writing one for the other leaves what the command line asks for
/// unchanged.
pub proof fn lemma_long_quiet_is_short_quiet(pre: Seq<Seq<char>>, post: Seq<Seq<char>>)
    requires
        forall|i: int| 0 <= i < pre.len() ==> pre[i] != "--"@,
    ensures
        parse_args_model(pre + seq!["--quiet"@] + post) == parse_args_model(pre + seq!["-q"@] + post),
{
    lemma_parse_from_long_quiet(pre, post, seq![], false, false);
}

/// The options of a conversion run.
pub struct ConvertOptions {
    /// The inputs, in order; `-` stands for standard input.
    pub files: Vec<String>,
    /// Print less.
    pub quiet: bool,
    /// Only report which inputs hold CRLF pairs.
    pub check_only: bool,
}

/// What a command line asks for.
pub enum Command {
    /// Print the help text.
    Help,
    /// Print the version.
    Version,
    /// Convert, or check, the inputs.
    Convert(ConvertOptions),
}

/// An argument that starts with `-` and is no known option.
pub struct UnknownOption {
    pub option: String,
}

/// The model of a parse result.
pub open spec fn command_model(r: Result<Command, UnknownOption>) -> ArgsModel {
    match r {
        Ok(Command::Help) => ArgsModel::Help,
        Ok(Command::Version) => ArgsModel::Version,
        Ok(Command::Convert(o)) => ArgsModel::Convert {
            files: strings_view(o.files@),
            quiet: o.quiet,
            check_only: o.check_only,
        },
        Err(e) => ArgsModel::Unknown(e.option@),
    }
}

/// Reads the command line `args`, the program name left out.
pub fn parse_args(args: &Vec<String>) -> (r: Result<Command, UnknownOption>)
    ensures
        command_model(r) == parse_args_model(strings_view(args@)),
{
    let ghost all = strings_view(args@);
    let n = args.len();
    let mut files: Vec<String> = Vec::new();
    let mut quiet = false;
    let mut check_only = false;
    let mut i: usize = 0;
    assert(all.skip(0) =~= all);
    assert(strings_view(files@) =~= Seq::<Seq<char>>::empty());
    while i < n
        invariant
            n == args@.len(),
            all == strings_view(args@),
            i <= n,
            parse_from(all.skip(i as int), strings_view(files@), quiet, check_only)
                == parse_args_model(all),
        decreases n - i,
    {
        let a = args[i].as_str();
        let ghost rest = all.skip(i as int);
        assert(rest[0] == a@);
        assert(rest.skip(1) =~= all.skip(i + 1));
        if str_eq(a, "-h") || str_eq(a, "--help") {
            return Ok(Command::Help);
        } else if str_eq(a, "-v") || str_eq(a, "--version") || str_eq(a, "-V") {
            return Ok(Command::Version);
        } else if str_eq(a, "-q") || str_eq(a, "--quiet") {
            quiet = true;
        } else if str_eq(a, "-c") || str_eq(a, "--check") {
            check_only = true;
        } else if str_eq(a, "--") {
            let ghost before = strings_view(files@);
            let mut j = i + 1;
            while j < n
                invariant
                    n == args@.len(),
                    all == strings_view(args@),
                    i < j <= n,
                    strings_view(files@) == before + all.subrange(i + 1, j as int),
                decreases n - j,
            {
                let ghost prev = strings_view(files@);
                assert(all[j as int] == args@[j as int]@);
                files.push(args[j].clone());
                assert(strings_view(files@) =~= prev.push(all[j as int]));
                assert(strings_view(files@) =~= before + all.subrange(i + 1, j + 1));
                j = j + 1;
            }
            assert(all.subrange(i + 1, n as int) =~= rest.skip(1));
            return Ok(Command::Convert(ConvertOptions { files, quiet, check_only }));
        } else if !str_eq(a, "-") && starts_with_char(a, '-') {
            return Err(UnknownOption { option: a.to_owned() });
        } else {
            let ghost before = strings_view(files@);
            files.push(a.to_owned());
            assert(strings_view(files@) =~= before.push(a@));
        }
        i = i + 1;
    }
    assert(all.skip(n as int) =~= Seq::<Seq<char>>::empty());
    Ok(Command::Convert(ConvertOptions { files, quiet, check_only }))
}

/// What to do with input read from standard input.
pub struct StdinOutcome {
    /// The input with CRLF pairs converted.
    pub converted: Vec<u8>,
    /// The conversion changed the input.
    pub has_crlf: bool,
    /// Print `-` as the name of an input with CRLF pairs (check mode).
    pub print_dash: bool,
    /// Tell that no CRLF pair was found.
    pub print_notice: bool,
    /// Write the converted input to standard output.
    pub write_converted: bool,
}

/// Whether `a` and `b` hold the same bytes.
fn bytes_eq(a: &[u8], b: &[u8]) -> (r: bool)
    ensures
        r == (a@ == b@),
{
    let n = a.len();
    if n != b.len() {
        return false;
    }
    let mut i: usize = 0;
    while i < n
        invariant
            n == a@.len(),
            n == b@.len(),
            i <= n,
            forall|k: int| 0 <= k < i ==> a@[k] == b@[k],
        decreases n - i,
    {
        if a[i] != b[i] {
            return false;
        }
        i = i + 1;
    }
    assert(a@ =~= b@);
    true
}

/// Decides what to do with the bytes `buf` read from standard input: the
/// input has CRLF pairs when its conversion differs from it.
pub fn stdin_outcome(buf: &[u8], quiet: bool, check_only: bool) -> (r: StdinOutcome)
    ensures
        r.converted@ == crlf_to_lf(buf@),
        r.has_crlf == (crlf_to_lf(buf@) != buf@),
        r.has_crlf == has_crlf(buf@),
        r.print_dash == (check_only && r.has_crlf && !quiet),
        r.print_notice == (!check_only && !quiet && !r.has_crlf),
        r.write_converted == !check_only,
{
    let converted = memory(buf);
    let changed = !bytes_eq(converted.as_slice(), buf);
    proof {
        lemma_unchanged_iff_no_crlf(buf@);
    }
    StdinOutcome {
        converted,
        has_crlf: changed,
        print_dash: check_only && changed && !quiet,
        print_notice: !check_only && !quiet && !changed,
        write_converted: !check_only,
    }
}

/// The number of bytes a file is first sampled with.
pub const SAMPLE_SIZE: usize = 4096;

/// The size of the buffer a stream is read with.
pub const READ_BUFFER_SIZE: usize = 8192;

/// What has been learnt about a file.
pub enum FileEvent {
    /// The first bytes were read; `has_crlf` tells whether they hold a CRLF pair.
    Sampled { has_crlf: bool },
    /// The whole file was read; `has_crlf` tells whether it holds a CRLF pair.
    WholeChecked { has_crlf: bool },
    /// The file was converted into its temporary file; `has_crlf` tells
    /// whether a CRLF pair was seen.
    Streamed { has_crlf: bool },
}

/// A line to print about a file.
#[derive(Debug, Clone, Copy, PartialEq, Eq, Structural)]
pub enum FileMessage {
    /// Nothing.
    Silent,
    /// The file's path (check mode).
    Path,
    /// The file was left as it was.
    Unchanged,
    /// The file was converted.
    Converted,
}

/// What to do next with a file.
pub enum FileAction {
    /// Print `message`; the file's answer is `has_crlf`.
    Finish { message: FileMessage, has_crlf: bool },
    /// Read the rest of the file and check it whole.
    ReadWhole,
    /// Write the conversion of the whole file over it, then print `message`;
    /// the answer is that it held CRLF pairs.
    Rewrite { message: FileMessage },
    /// Convert the file as a stream into its temporary file.
    StreamToTemp,
    /// Put the temporary file in place of the file, then print `message`;
    /// the answer is that it held CRLF pairs.
    ReplaceWithTemp { message: FileMessage },
    /// Remove the temporary file, then print `message`; the answer is that
    /// the file held no CRLF pair.
    DropTemp { message: FileMessage },
}

/// `m`, or nothing in quiet mode.
pub open spec fn unless_quiet(quiet: bool, m: FileMessage) -> FileMessage {
    if quiet {
        FileMessage::Silent
    } else {
        m
    }
}

/// What a check prints about a file: its path when it holds a CRLF pair,
/// unless quiet.
pub open spec fn check_message(quiet: bool, has_crlf: bool) -> FileMessage {
    if has_crlf && !quiet {
        FileMessage::Path
    } else {
        FileMessage::Silent
    }
}

fn check_report(quiet: bool, has_crlf: bool) -> (r: FileMessage)
    ensures
        r == check_message(quiet, has_crlf),
{
    if has_crlf && !quiet {
        FileMessage::Path
    } else {
        FileMessage::Silent
    }
}

/// A CRLF pair in the first bytes of a file is one of the whole file: a
/// sample that holds a pair settles a check.
pub proof fn lemma_sample_settles_check(sample: Seq<u8>, rest: Seq<u8>)
    requires
        has_crlf(sample),
    ensures
        has_crlf(sample + rest),
{
    lemma_has_crlf_concat(sample, rest);
}

fn quiet_or(quiet: bool, m: FileMessage) -> (r: FileMessage)
    ensures
        r == unless_quiet(quiet, m),
{
    if quiet {
        FileMessage::Silent
    } else {
        m
    }
}

/// Decides the next step for a file after `event`. A sample without CRLF
/// pairs leads to a check of the whole file; a check answers from the whole
/// file then, and a conversion rewrites the file in place when it holds a
/// pair. A sample with a CRLF pair settles a check, since the sample starts
/// the file (see [`lemma_sample_settles_check`]), and leads a conversion to a
/// stream conversion through a temporary file.
pub fn file_action(event: FileEvent, quiet: bool, check_only: bool) -> (r: FileAction)
    ensures
        match event {
            FileEvent::Sampled { has_crlf } => if has_crlf && check_only {
                r == (FileAction::Finish { message: check_message(quiet, true), has_crlf: true })
            } else if has_crlf {
                r is StreamToTemp
            } else {
                r is ReadWhole
            },
            FileEvent::WholeChecked { has_crlf } => if check_only {
                r == (FileAction::Finish { message: check_message(quiet, has_crlf), has_crlf })
            } else if has_crlf {
                r == (FileAction::Rewrite { message: unless_quiet(quiet, FileMessage::Converted) })
            } else {
                r == (FileAction::Finish {
                    message: unless_quiet(quiet, FileMessage::Unchanged),
                    has_crlf: false,
                })
            },
            FileEvent::Streamed { has_crlf } => if has_crlf {
                r == (FileAction::ReplaceWithTemp {
                    message: unless_quiet(quiet, FileMessage::Converted),
                })
            } else {
                r == (FileAction::DropTemp { message: unless_quiet(quiet, FileMessage::Unchanged) })
            },
        },
{
    match event {
        FileEvent::Sampled { has_crlf } => {
            if has_crlf && check_only {
                FileAction::Finish { message: check_report(quiet, true), has_crlf: true }
            } else if has_crlf {
                FileAction::StreamToTemp
            } else {
                FileAction::ReadWhole
            }
        },
        FileEvent::WholeChecked { has_crlf } => {
            if check_only {
                FileAction::Finish { message: check_report(quiet, has_crlf), has_crlf }
            } else if has_crlf {
                FileAction::Rewrite { message: quiet_or(quiet, FileMessage::Converted) }
            } else {
                FileAction::Finish {
                    message: quiet_or(quiet, FileMessage::Unchanged),
                    has_crlf: false,
                }
            }
        },
        FileEvent::Streamed { has_crlf } => {
            if has_crlf {
                FileAction::ReplaceWithTemp { message: quiet_or(quiet, FileMessage::Converted) }
            } else {
                FileAction::DropTemp { message: quiet_or(quiet, FileMessage::Unchanged) }
            }
        },
    }
}

/// One input of a run.
pub enum Target {
    /// Standard input, converted to standard output.
    Stdin,
    /// A file, converted in place.
    File(String),
}

/// The model of a target: `None` for standard input, the path otherwise.
pub open spec fn target_model(t: Target) -> Option<Seq<char>> {
    match t {
        Target::Stdin => None,
        Target::File(p) => Some(p@),
    }
}

/// The inputs of a run: standard input when no file is named; otherwise
/// each named file in order, `-` standing for standard input.
pub fn targets(files: &Vec<String>) -> (r: Vec<Target>)
    ensures
        files@.len() == 0 ==> r@.len() == 1 && r@[0] is Stdin,
        files@.len() > 0 ==> r@.len() == files@.len() && forall|i: int|
            0 <= i < files@.len() ==> target_model(#[trigger] r@[i]) == if files@[i]@ == "-"@ {
                None::<Seq<char>>
            } else {
                Some(files@[i]@)
            },
{
    let mut r: Vec<Target> = Vec::new();
    let n = files.len();
    if n == 0 {
        r.push(Target::Stdin);
        return r;
    }
    let mut i: usize = 0;
    while i < n
        invariant
            n == files@.len(),
            i <= n,
            r@.len() == i,
            forall|k: int|
                0 <= k < i ==> target_model(#[trigger] r@[k]) == if files@[k]@ == "-"@ {
                    None::<Seq<char>>
                } else {
                    Some(files@[k]@)
                },
        decreases n - i,
    {
        let f = files[i].as_str();
        if str_eq(f, "-") {
            r.push(Target::Stdin);
        } else {
            r.push(Target::File(f.to_owned()));
        }
        i = i + 1;
    }
    r
}

/// The exit status of a run: 2 when checking found CRLF pairs, 0 otherwise.
pub fn exit_code(check_only: bool, found_crlf: bool) -> (r: i32)
    ensures
        r == if check_only && found_crlf {
            2i32
        } else {
            0i32
        },
{
    if check_only && found_crlf {
        2
    } else {
        0
    }
}

} // verus!
