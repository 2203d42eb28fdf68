//! Hand-rolled CLI: `scan`, `checks`, `help`, `version`. No parser
//! dependency; exit codes are the contract (0 = pass, 1 = findings at or
//! above `--fail-on`, 2 = usage or read/parse error). Reading archives and
//! writing to the terminal is left to the caller.
use vstd::prelude::*;
use vstd::string::*;

use crate::findings;
use crate::findings::{Check, Severity};
use crate::format::Format;
use crate::paths;
use crate::report;
use crate::report::{FailureView, ScanFailure};
use crate::scan;
use crate::scan::{ArchiveReport, OptionsView, ReportView, ScanOptions};
use crate::text;
use crate::VERSION;

verus! {

/// What `slipcheck help` prints.
pub const USAGE: &'static str = "\
slipcheck — audit archives for extraction hazards before extracting

USAGE:
    slipcheck <COMMAND> [OPTIONS]

COMMANDS:
    scan <ARCHIVE>...   Audit tar / tar.gz / zip archives ('-' reads stdin)
    checks              List every check with its id, severity and meaning
    help                Show this help
    version             Show version

SCAN OPTIONS:
    --json                Machine-readable report on stdout
    --quiet               No output; the exit code is the answer
    --fail-on <LEVEL>     Exit 1 threshold: critical (default), warning, never
    --allow <CHECK>       Suppress a check by id (repeatable)
    --format <FMT>        Force format: tar, tar.gz, zip (default: detect)
    --max-unpacked <N>    Decompression cap, e.g. 512M, 2G (default: 1G)

EXIT CODES:
    0   no findings at or above the --fail-on level
    1   findings at or above the --fail-on level
    2   usage error, unreadable file, or malformed archive
";

/// What `--fail-on` accepts.
#[derive(Debug, Clone, Copy, PartialEq, Eq, Structural)]
pub enum FailOn {
    /// Critical findings fail.
    Critical,
    /// Any finding fails.
    Warning,
    /// No finding fails.
    Never,
}

/// The parsed arguments of `scan`.
#[derive(Debug)]
pub struct ScanArgs {
    /// The archives to scan.
    pub paths: Vec<String>,
    /// Print JSON.
    pub json: bool,
    /// Print nothing.
    pub quiet: bool,
    /// Exit 1 threshold.
    pub fail_on: FailOn,
    /// How to scan.
    pub opts: ScanOptions,
}

/// [`ScanArgs`] with its texts as character sequences.
#[verifier::ext_equal]
pub struct ArgsView {
    /// The archives to scan.
    pub paths: Seq<Seq<char>>,
    /// Print JSON.
    pub json: bool,
    /// Print nothing.
    pub quiet: bool,
    /// Exit 1 threshold.
    pub fail_on: FailOn,
    /// How to scan.
    pub opts: OptionsView,
}

impl View for ScanArgs {
    type V = ArgsView;

    open spec fn view(&self) -> ArgsView {
        ArgsView {
            paths: paths::texts(self.paths@),
            json: self.json,
            quiet: self.quiet,
            fail_on: self.fail_on,
            opts: self.opts@,
        }
    }
}

/// Nothing given yet.
pub open spec fn default_args() -> ArgsView {
    ArgsView {
        paths: seq![],
        json: false,
        quiet: false,
        fail_on: FailOn::Critical,
        opts: scan::default_options(),
    }
}

/// The binary unit that a size ends in: how many characters it takes, and
/// what it stands for.
pub open spec fn unit(text: Seq<char>) -> (int, nat) {
    let c = text.last();
    if c == 'K' || c == 'k' {
        (1, 0x400)
    } else if c == 'M' || c == 'm' {
        (1, 0x10_0000)
    } else if c == 'G' || c == 'g' {
        (1, 0x4000_0000)
    } else {
        (0, 1)
    }
}

/// The size that `text` writes, such as `4096`, `64K`, `512M` or `2G`.
pub open spec fn size_value(text: Seq<char>) -> Option<nat> {
    if text.len() == 0 {
        None
    } else {
        let (suffix, factor) = unit(text);
        match text::decimal_value(text.take(text.len() - suffix)) {
            Some(n) => Some(n * factor),
            None => None,
        }
    }
}

/// Parse sizes like `4096`, `64K`, `512M`, `2G` (binary units).
pub fn parse_size(text: &str) -> (r: Option<usize>)
    ensures
        r == (match size_value(text@) {
            Some(n) if n <= usize::MAX => Some(n as usize),
            _ => None,
        }),
{
    let chars = text::chars_of(text);
    let len: usize = chars.len();
    if len == 0 {
        return None;
    }
    let c: char = chars[len - 1];
    let (digits, factor): (usize, u64) = if c == 'K' || c == 'k' {
        (len - 1, 0x400)
    } else if c == 'M' || c == 'm' {
        (len - 1, 0x10_0000)
    } else if c == 'G' || c == 'g' {
        (len - 1, 0x4000_0000)
    } else {
        (len, 1)
    };
    let body = vstd::slice::slice_subrange(chars.as_slice(), 0, digits);
    assert(body@ =~= text@.take(digits as int));
    let ghost goal = text::decimal_value(body@);
    assert(size_value(text@) == (match goal {
        Some(n) => Some(n * factor as nat),
        None => None,
    }));
    match text::parse_decimal(body) {
        Some(value) => {
            let most: u64 = usize::MAX as u64 / factor;
            if value > most {
                proof {
                    lemma_too_large(value as int, factor as int, usize::MAX as int);
                }
                return None;
            }
            proof {
                lemma_fits(value as int, factor as int, usize::MAX as int);
            }
            Some((value * factor) as usize)
        },
        None => {
            proof {
                if let Some(n) = goal {
                    assert(n * factor as nat >= n) by (nonlinear_arith)
                        requires
                            factor >= 1,
                            n >= 0,
                    ;
                }
            }
            None
        },
    }
}

proof fn lemma_too_large(value: int, factor: int, max: int)
    requires
        factor >= 1,
        value > max / factor,
    ensures
        value * factor > max,
{
    assert(value * factor > max) by (nonlinear_arith)
        requires
            factor >= 1,
            value > max / factor,
    ;
}

proof fn lemma_fits(value: int, factor: int, max: int)
    requires
        factor >= 1,
        0 <= value <= max / factor,
    ensures
        0 <= value * factor <= max,
{
    assert(0 <= value * factor <= max) by (nonlinear_arith)
        requires
            factor >= 1,
            0 <= value <= max / factor,
    ;
}

/// Does `arg` look like an option?
pub open spec fn option_like(arg: Seq<char>) -> bool {
    arg.len() >= 2 && arg[0] == '-' && arg[1] == '-'
}

/// The level that a `--fail-on` value names.
pub open spec fn level(value: Seq<char>) -> Option<FailOn> {
    if value == "critical"@ {
        Some(FailOn::Critical)
    } else if value == "warning"@ {
        Some(FailOn::Warning)
    } else if value == "never"@ {
        Some(FailOn::Never)
    } else {
        None
    }
}

/// Does the option take a value?
pub open spec fn takes_value(arg: Seq<char>) -> bool {
    arg == "--fail-on"@ || arg == "--allow"@ || arg == "--format"@ || arg == "--max-unpacked"@
}

/// What is said where the value of an option is missing.
pub open spec fn missing_value(arg: Seq<char>) -> Seq<char> {
    if arg == "--fail-on"@ {
        "--fail-on needs a value"@
    } else if arg == "--allow"@ {
        "--allow needs a check id"@
    } else if arg == "--format"@ {
        "--format needs a value"@
    } else {
        "--max-unpacked needs a size"@
    }
}

/// `a` with the option `arg` set to `value`.
pub open spec fn with_value(a: ArgsView, arg: Seq<char>, value: Seq<char>) -> Result<
    ArgsView,
    Seq<char>,
> {
    if arg == "--fail-on"@ {
        match level(value) {
            Some(fail_on) => Ok(ArgsView { fail_on, ..a }),
            None => Err("unknown --fail-on level '"@ + value + "'"@),
        }
    } else if arg == "--allow"@ {
        match findings::named_check(value) {
            Some(check) => Ok(
                ArgsView { opts: OptionsView { allow: a.opts.allow.push(check), ..a.opts }, ..a },
            ),
            None => Err("unknown check '"@ + value + "' (see 'slipcheck checks')"@),
        }
    } else if arg == "--format"@ {
        match crate::format::flag_format(value) {
            Some(f) => Ok(ArgsView { opts: OptionsView { format: Some(f), ..a.opts }, ..a }),
            None => Err("unknown format '"@ + value + "' (tar, tar.gz, zip)"@),
        }
    } else {
        match size_value(value) {
            Some(n) if n <= usize::MAX => Ok(
                ArgsView { opts: OptionsView { max_unpacked: n, ..a.opts }, ..a },
            ),
            _ => Err("invalid size '"@ + value + "' (try 512M or 2G)"@),
        }
    }
}

/// `a` with the argument `arg`, which takes no value.
pub open spec fn with_word(a: ArgsView, arg: Seq<char>) -> Result<ArgsView, Seq<char>> {
    if arg == "--json"@ {
        Ok(ArgsView { json: true, ..a })
    } else if arg == "--quiet"@ {
        Ok(ArgsView { quiet: true, ..a })
    } else if option_like(arg) {
        Err("unknown option '"@ + arg + "'"@)
    } else {
        Ok(ArgsView { paths: a.paths.push(arg), ..a })
    }
}

/// `a` with all arguments from `i` on.
pub open spec fn args_from(args: Seq<Seq<char>>, i: int, a: ArgsView) -> Result<
    ArgsView,
    Seq<char>,
>
    decreases args.len() - i,
{
    if i < 0 || i >= args.len() {
        if a.paths.len() == 0 {
            Err("scan needs at least one archive path (or '-')"@)
        } else {
            Ok(a)
        }
    } else if takes_value(args[i]) {
        if i + 1 >= args.len() {
            Err(missing_value(args[i]))
        } else {
            match with_value(a, args[i], args[i + 1]) {
                Ok(b) => args_from(args, i + 2, b),
                Err(e) => Err(e),
            }
        }
    } else {
        match with_word(a, args[i]) {
            Ok(b) => args_from(args, i + 1, b),
            Err(e) => Err(e),
        }
    }
}

/// The arguments of `scan`, or what is wrong with them.
pub open spec fn parsed_args(args: Seq<Seq<char>>) -> Result<ArgsView, Seq<char>> {
    args_from(args, 0, default_args())
}

/// `head`, `value` and `tail` in a row.
fn quoted(head: &str, value: &str, tail: &str) -> (r: String)
    ensures
        r@ == head@ + value@ + tail@,
{
    let mut s = head.to_owned();
    s.append(value);
    s.append(tail);
    s
}

fn is_value_option(arg: &str) -> (r: bool)
    ensures
        r == takes_value(arg@),
{
    text::same(arg, "--fail-on") || text::same(arg, "--allow") || text::same(arg, "--format")
        || text::same(arg, "--max-unpacked")
}

fn missing(arg: &str) -> (r: String)
    ensures
        r@ == missing_value(arg@),
{
    if text::same(arg, "--fail-on") {
        "--fail-on needs a value".to_owned()
    } else if text::same(arg, "--allow") {
        "--allow needs a check id".to_owned()
    } else if text::same(arg, "--format") {
        "--format needs a value".to_owned()
    } else {
        "--max-unpacked needs a size".to_owned()
    }
}

fn parse_level(value: &str) -> (r: Option<FailOn>)
    ensures
        r == level(value@),
{
    if text::same(value, "critical") {
        Some(FailOn::Critical)
    } else if text::same(value, "warning") {
        Some(FailOn::Warning)
    } else if text::same(value, "never") {
        Some(FailOn::Never)
    } else {
        None
    }
}

impl ScanArgs {
    fn set_value(&mut self, arg: &str, value: &str) -> (r: Result<(), String>)
        ensures
            match r {
                Ok(()) => with_value(old(self)@, arg@, value@) == Ok::<ArgsView, Seq<char>>(
                    final(self)@,
                ),
                Err(e) => with_value(old(self)@, arg@, value@) == Err::<ArgsView, Seq<char>>(e@),
            },
    {
        let ghost a = self@;
        if text::same(arg, "--fail-on") {
            match parse_level(value) {
                Some(fail_on) => {
                    self.fail_on = fail_on;
                },
                None => return Err(quoted("unknown --fail-on level '", value, "'")),
            }
        } else if text::same(arg, "--allow") {
            match Check::from_id(value) {
                Some(check) => {
                    self.opts.allow.push(check);
                    assert(self.opts.allow@ =~= a.opts.allow.push(check));
                },
                None => return Err(
                    quoted("unknown check '", value, "' (see 'slipcheck checks')"),
                ),
            }
        } else if text::same(arg, "--format") {
            match Format::from_flag(value) {
                Some(f) => {
                    self.opts.format = Some(f);
                },
                None => return Err(quoted("unknown format '", value, "' (tar, tar.gz, zip)")),
            }
        } else {
            match parse_size(value) {
                Some(n) => {
                    self.opts.max_unpacked = n;
                },
                None => return Err(quoted("invalid size '", value, "' (try 512M or 2G)")),
            }
        }
        Ok(())
    }

    fn set_word(&mut self, arg: &str) -> (r: Result<(), String>)
        ensures
            match r {
                Ok(()) => with_word(old(self)@, arg@) == Ok::<ArgsView, Seq<char>>(final(self)@),
                Err(e) => with_word(old(self)@, arg@) == Err::<ArgsView, Seq<char>>(e@),
            },
    {
        let ghost a = self@;
        if text::same(arg, "--json") {
            self.json = true;
        } else if text::same(arg, "--quiet") {
            self.quiet = true;
        } else if arg.unicode_len() >= 2 && arg.get_char(0) == '-' && arg.get_char(1) == '-' {
            return Err(quoted("unknown option '", arg, "'"));
        } else {
            let path = arg.to_owned();
            let ghost before = self.paths@;
            self.paths.push(path);
            assert(paths::texts(self.paths@) =~= paths::texts(before).push(path@));
        }
        Ok(())
    }
}

/// Parse the arguments of `scan`.
pub fn parse_scan_args(args: &[String]) -> (r: Result<ScanArgs, String>)
    ensures
        match r {
            Ok(a) => parsed_args(paths::texts(args@)) == Ok::<ArgsView, Seq<char>>(a@),
            Err(e) => parsed_args(paths::texts(args@)) == Err::<ArgsView, Seq<char>>(e@),
        },
{
    let ghost all = paths::texts(args@);
    let mut parsed = ScanArgs {
        paths: Vec::new(),
        json: false,
        quiet: false,
        fail_on: FailOn::Critical,
        opts: ScanOptions::default(),
    };
    let mut i: usize = 0;
    let total: usize = args.len();
    assert(parsed@ =~= default_args());
    while i < total
        invariant
            i <= total == args@.len(),
            all == paths::texts(args@),
            parsed_args(all) == args_from(all, i as int, parsed@),
        decreases total - i,
    {
        let arg = args[i].as_str();
        assert(all[i as int] == arg@);
        if is_value_option(arg) {
            if total - i < 2 {
                return Err(missing(arg));
            }
            assert(all[i + 1] == args@[i + 1]@);
            parsed.set_value(arg, args[i + 1].as_str())?;
            i = i + 2;
        } else {
            parsed.set_word(arg)?;
            i = i + 1;
        }
    }
    if parsed.paths.len() == 0 {
        return Err("scan needs at least one archive path (or '-')".to_owned());
    }
    Ok(parsed)
}

/// What a finished command prints and returns.
#[derive(Debug)]
pub struct Output {
    /// For stdout.
    pub stdout: String,
    /// For stderr.
    pub stderr: String,
    /// The process exit code.
    pub code: i32,
}

/// An [`Output`] with its texts as character sequences.
#[verifier::ext_equal]
pub struct OutputView {
    /// For stdout.
    pub stdout: Seq<char>,
    /// For stderr.
    pub stderr: Seq<char>,
    /// The process exit code.
    pub code: int,
}

impl View for Output {
    type V = OutputView;

    open spec fn view(&self) -> OutputView {
        OutputView { stdout: self.stdout@, stderr: self.stderr@, code: self.code as int }
    }
}

/// What a command line asks for.
#[derive(Debug)]
pub enum Action {
    /// Print and exit.
    Exit(Output),
    /// Read the archives and feed them to a [`ScanRun`].
    Scan(ScanArgs),
}

/// An [`Action`] with its texts as character sequences.
#[verifier::ext_equal]
pub enum ActionView {
    /// Print and exit.
    Exit(OutputView),
    /// Scan.
    Scan(ArgsView),
}

impl View for Action {
    type V = ActionView;

    open spec fn view(&self) -> ActionView {
        match *self {
            Action::Exit(output) => ActionView::Exit(output@),
            Action::Scan(args) => ActionView::Scan(args@),
        }
    }
}

/// Print `text` and exit with `code`.
pub open spec fn print_and_exit(text: Seq<char>, code: int) -> ActionView {
    ActionView::Exit(OutputView { stdout: text, stderr: ""@, code })
}

/// Complain on stderr and exit with 2.
pub open spec fn usage_failure(message: Seq<char>) -> ActionView {
    ActionView::Exit(
        OutputView {
            stdout: ""@,
            stderr: "slipcheck: "@ + message + "\nRun 'slipcheck help' for usage.\n"@,
            code: 2,
        },
    )
}

/// The line on a check in the reference table.
pub open spec fn check_row(check: Check) -> Seq<char> {
    text::padded(findings::check_id(check), 18) + " "@ + text::padded(
        findings::severity_label(findings::usual_severity(check)),
        9,
    ) + " "@ + findings::check_meaning(check) + "\n"@
}

/// The lines on the first `n` checks.
pub open spec fn check_rows(n: nat) -> Seq<char>
    decreases n,
{
    if n == 0 {
        seq![]
    } else {
        check_rows((n - 1) as nat) + check_row(Check::ALL[n - 1])
    }
}

/// The reference table of all checks.
pub open spec fn checks_table() -> Seq<char> {
    text::padded("ID"@, 18) + " "@ + text::padded("SEVERITY"@, 9) + " DESCRIPTION\n"@ + check_rows(
        12,
    )
}

/// What the command line `args` asks for.
pub open spec fn action(args: Seq<Seq<char>>) -> ActionView {
    if args.len() == 0 {
        print_and_exit(USAGE@, 2)
    } else if args[0] == "help"@ || args[0] == "--help"@ || args[0] == "-h"@ {
        print_and_exit(USAGE@, 0)
    } else if args[0] == "version"@ || args[0] == "--version"@ || args[0] == "-V"@ {
        print_and_exit("slipcheck "@ + VERSION@ + "\n"@, 0)
    } else if args[0] == "scan"@ {
        match parsed_args(args.skip(1)) {
            Ok(a) => ActionView::Scan(a),
            Err(message) => usage_failure(message),
        }
    } else if args[0] == "checks"@ {
        print_and_exit(checks_table(), 0)
    } else {
        usage_failure("unknown command '"@ + args[0] + "'"@)
    }
}

fn exit_with(stdout: String, code: i32) -> (r: Action)
    ensures
        r@ == print_and_exit(stdout@, code as int),
{
    Action::Exit(Output { stdout, stderr: "".to_owned(), code })
}

fn usage_error(message: &str) -> (r: Action)
    ensures
        r@ == usage_failure(message@),
{
    let mut stderr = "slipcheck: ".to_owned();
    stderr.append(message);
    stderr.append("\nRun 'slipcheck help' for usage.\n");
    Action::Exit(Output { stdout: "".to_owned(), stderr, code: 2 })
}

fn run_checks() -> (r: String)
    ensures
        r@ == checks_table(),
{
    let mut table = String::new();
    text::push_padded(&mut table, "ID", 18);
    table.append(" ");
    text::push_padded(&mut table, "SEVERITY", 9);
    table.append(" DESCRIPTION\n");
    let ghost head = table@;
    assert(head =~= text::padded("ID"@, 18) + " "@ + text::padded("SEVERITY"@, 9)
        + " DESCRIPTION\n"@);
    let mut i: usize = 0;
    assert(table@ =~= head + check_rows(0));
    while i < 12
        invariant
            i <= 12,
            table@ == head + check_rows(i as nat),
        decreases 12 - i,
    {
        let check = Check::ALL[i];
        let ghost before = table@;
        text::push_padded(&mut table, check.id(), 18);
        table.append(" ");
        text::push_padded(&mut table, check.default_severity().label(), 9);
        table.append(" ");
        table.append(check.describe());
        table.append("\n");
        i = i + 1;
        assert(table@ =~= before + check_row(check));
        assert(table@ =~= head + check_rows(i as nat));
    }
    table
}

/// Entry point: what to do for the given arguments.
pub fn run(args: &[String]) -> (r: Action)
    ensures
        r@ == action(paths::texts(args@)),
{
    if args.len() == 0 {
        return exit_with(USAGE.to_owned(), 2);
    }
    let command = args[0].as_str();
    assert(paths::texts(args@)[0] == command@);
    if text::same(command, "help") || text::same(command, "--help") || text::same(command, "-h") {
        exit_with(USAGE.to_owned(), 0)
    } else if text::same(command, "version") || text::same(command, "--version") || text::same(
        command,
        "-V",
    ) {
        exit_with(quoted("slipcheck ", VERSION, "\n"), 0)
    } else if text::same(command, "scan") {
        let rest = vstd::slice::slice_subrange(args, 1, args.len());
        assert(paths::texts(rest@) =~= paths::texts(args@).skip(1));
        match parse_scan_args(rest) {
            Ok(parsed) => Action::Scan(parsed),
            Err(message) => usage_error(message.as_str()),
        }
    } else if text::same(command, "checks") {
        exit_with(run_checks(), 0)
    } else {
        usage_error(quoted("unknown command '", command, "'").as_str())
    }
}

/// A scan in progress: it names the archive to read next, takes what reading
/// it gave, and in the end says what to print and return.
pub struct ScanRun {
    args: ScanArgs,
    done: usize,
    reports: Vec<ArchiveReport>,
    failures: Vec<ScanFailure>,
    inputs: Ghost<Seq<Result<Seq<u8>, Seq<char>>>>,
}

/// The results of a run.
#[verifier::ext_equal]
pub struct RunView {
    /// The archives that were scanned.
    pub reports: Seq<ReportView>,
    /// The archives that could not be.
    pub failures: Seq<FailureView>,
}

/// How the archive is called in the report.
pub open spec fn display_name(path: Seq<char>) -> Seq<char> {
    if path == "-"@ {
        "(stdin)"@
    } else {
        path
    }
}

/// What comes of one archive, given what reading it gave: its bytes, or the
/// error.
pub open spec fn outcome(
    path: Seq<char>,
    input: Result<Seq<u8>, Seq<char>>,
    opts: OptionsView,
) -> Result<ReportView, FailureView> {
    match input {
        Err(error) => Err(FailureView { path, error }),
        Ok(data) => match scan::scanned(display_name(path), data, opts) {
            Ok(r) => Ok(r),
            Err(e) => Err(FailureView { path: display_name(path), error: scan::scan_message(e) }),
        },
    }
}

/// `run` with one more archive.
pub open spec fn fed(
    run: RunView,
    path: Seq<char>,
    input: Result<Seq<u8>, Seq<char>>,
    opts: OptionsView,
) -> RunView {
    match outcome(path, input, opts) {
        Ok(r) => RunView { reports: run.reports.push(r), ..run },
        Err(f) => RunView { failures: run.failures.push(f), ..run },
    }
}

/// The results of scanning the first archives of `args`, one for each of the
/// `inputs`.
pub open spec fn results(args: ArgsView, inputs: Seq<Result<Seq<u8>, Seq<char>>>) -> RunView
    decreases inputs.len(),
{
    if inputs.len() == 0 {
        RunView { reports: seq![], failures: seq![] }
    } else {
        fed(
            results(args, inputs.drop_last()),
            args.paths[inputs.len() - 1],
            inputs.last(),
            args.opts,
        )
    }
}

/// The human-readable reports in a row.
pub open spec fn human_texts(reports: Seq<ReportView>) -> Seq<char>
    decreases reports.len(),
{
    if reports.len() == 0 {
        seq![]
    } else {
        human_texts(reports.drop_last()) + report::human_text(reports.last())
    }
}

/// The failures as lines for stderr.
pub open spec fn failure_lines(failures: Seq<FailureView>) -> Seq<char>
    decreases failures.len(),
{
    if failures.len() == 0 {
        seq![]
    } else {
        failure_lines(failures.drop_last()) + "slipcheck: "@ + failures.last().path + ": "@
            + failures.last().error + "\n"@
    }
}

/// Does a finding of this severity fail the run?
pub open spec fn fails(severity: Severity, fail_on: FailOn) -> bool {
    match fail_on {
        FailOn::Never => false,
        FailOn::Warning => true,
        FailOn::Critical => severity == Severity::Critical,
    }
}

/// Does any finding fail the run?
pub open spec fn triggered(reports: Seq<ReportView>, fail_on: FailOn) -> bool {
    exists|i: int, k: int|
        0 <= i < reports.len() && 0 <= k < reports[i].findings.len() && fails(
            (#[trigger] reports[i].findings[k]).severity,
            fail_on,
        )
}

/// The exit code of a run: 2 if an archive could not be scanned, otherwise 1
/// if a finding reaches the threshold, otherwise 0.
pub open spec fn exit_code(run: RunView, fail_on: FailOn) -> int {
    if run.failures.len() > 0 {
        2
    } else if triggered(run.reports, fail_on) {
        1
    } else {
        0
    }
}

/// What a run prints and returns. Errors always reach stderr, even under
/// `--quiet`; in JSON mode they are part of the document instead.
pub open spec fn run_output(run: RunView, args: ArgsView) -> OutputView {
    OutputView {
        stdout: if args.quiet {
            ""@
        } else if args.json {
            report::json_text(run.reports, run.failures) + "\n"@
        } else {
            human_texts(run.reports) + report::summary_text(run.reports, run.failures) + "\n"@
        },
        stderr: if args.json {
            ""@
        } else {
            failure_lines(run.failures)
        },
        code: exit_code(run, args.fail_on),
    }
}

/// What reading an archive gave, as sequences.
pub open spec fn input_view(input: Result<Vec<u8>, String>) -> Result<Seq<u8>, Seq<char>> {
    match input {
        Ok(data) => Ok(data@),
        Err(error) => Err(error@),
    }
}

/// Scan one archive, given what reading it gave.
fn scan_one(path: &str, input: Result<Vec<u8>, String>, opts: &ScanOptions) -> (r: Result<
    ArchiveReport,
    ScanFailure,
>)
    ensures
        outcome(path@, input_view(input), opts@) == (match r {
            Ok(report) => Ok::<ReportView, FailureView>(report@),
            Err(failure) => Err(failure@),
        }),
{
    match input {
        Err(error) => Err(ScanFailure { path: path.to_owned(), error }),
        Ok(data) => {
            let name: &str = if text::same(path, "-") {
                "(stdin)"
            } else {
                path
            };
            match scan::scan_bytes(name, data.as_slice(), opts) {
                Ok(report) => Ok(report),
                Err(e) => Err(ScanFailure { path: name.to_owned(), error: e.message() }),
            }
        },
    }
}

impl ScanRun {
    /// What to scan, and how.
    pub closed spec fn args(&self) -> ArgsView {
        self.args@
    }

    /// What reading the archives so far gave.
    pub closed spec fn inputs(&self) -> Seq<Result<Seq<u8>, Seq<char>>> {
        self.inputs@
    }

    closed spec fn results(&self) -> RunView {
        RunView {
            reports: report::report_views(self.reports@),
            failures: report::failure_views(self.failures@),
        }
    }

    /// One input was taken for each archive done, and the results are theirs.
    pub closed spec fn wf(&self) -> bool {
        &&& self.inputs@.len() == self.done <= self.args.paths@.len()
        &&& self.results() == results(self.args@, self.inputs@)
    }

    /// Start: no archive yet.
    pub fn new(args: ScanArgs) -> (r: ScanRun)
        ensures
            r.wf(),
            r.args() == args@,
            r.inputs().len() == 0,
    {
        let r = ScanRun {
            args,
            done: 0,
            reports: Vec::new(),
            failures: Vec::new(),
            inputs: Ghost(Seq::empty()),
        };
        assert(r.results() =~= RunView { reports: seq![], failures: seq![] });
        r
    }

    /// The archive to read next; `None` once all are done.
    pub fn next_path(&self) -> (r: Option<&str>)
        requires
            self.wf(),
        ensures
            match r {
                Some(path) => self.inputs().len() < self.args().paths.len() && path@
                    == self.args().paths[self.inputs().len() as int],
                None => self.inputs().len() == self.args().paths.len(),
            },
    {
        if self.done < self.args.paths.len() {
            Some(self.args.paths[self.done].as_str())
        } else {
            None
        }
    }

    /// Scan one more archive: `input` is what reading the next path gave.
    pub fn feed(&mut self, input: Result<Vec<u8>, String>)
        requires
            old(self).wf(),
            old(self).inputs().len() < old(self).args().paths.len(),
        ensures
            final(self).wf(),
            final(self).args() == old(self).args(),
            final(self).inputs() == old(self).inputs().push(input_view(input)),
    {
        let ghost view = input_view(input);
        let ghost before = self.results();
        let total: usize = self.args.paths.len();
        match scan_one(self.args.paths[self.done].as_str(), input, &self.args.opts) {
            Ok(r) => {
                self.reports.push(r);
            },
            Err(f) => {
                self.failures.push(f);
            },
        }
        self.done = self.done + 1;
        self.inputs = Ghost(self.inputs@.push(view));
        proof {
            assert(self.results() =~= fed(
                before,
                self.args@.paths[self.done - 1],
                view,
                self.args@.opts,
            ));
            assert(self.inputs@.drop_last() =~= old(self).inputs@);
        }
    }

    /// Does any finding fail the run?
    fn triggered(&self, fail_on: FailOn) -> (r: bool)
        ensures
            r == triggered(self.results().reports, fail_on),
    {
        let ghost views = self.results().reports;
        let mut i: usize = 0;
        while i < self.reports.len()
            invariant
                i <= self.reports@.len(),
                views == self.results().reports,
                forall|x: int, y: int|
                    0 <= x < i && 0 <= y < views[x].findings.len() ==> !fails(
                        (#[trigger] views[x].findings[y]).severity,
                        fail_on,
                    ),
            decreases self.reports@.len() - i,
        {
            let found = &self.reports[i].findings;
            let mut k: usize = 0;
            assert(views[i as int].findings == findings::finding_views(found@));
            while k < found.len()
                invariant
                    i < self.reports@.len(),
                    k <= found@.len(),
                    views == self.results().reports,
                    views[i as int].findings == findings::finding_views(found@),
                    forall|y: int|
                        0 <= y < k ==> !fails(
                            (#[trigger] views[i as int].findings[y]).severity,
                            fail_on,
                        ),
                decreases found@.len() - k,
            {
                let hit: bool = match fail_on {
                    FailOn::Never => false,
                    FailOn::Warning => true,
                    FailOn::Critical => found[k].severity == Severity::Critical,
                };
                if hit {
                    assert(fails(views[i as int].findings[k as int].severity, fail_on));
                    return true;
                }
                k = k + 1;
            }
            i = i + 1;
        }
        false
    }

    fn reports_text(&self) -> (r: String)
        ensures
            r@ == human_texts(self.results().reports) + report::summary_text(
                self.results().reports,
                self.results().failures,
            ) + "\n"@,
    {
        let ghost views = self.results().reports;
        let mut out = String::new();
        let mut i: usize = 0;
        assert(views.take(0) =~= seq![]);
        while i < self.reports.len()
            invariant
                i <= self.reports@.len(),
                views == self.results().reports,
                out@ == human_texts(views.take(i as int)),
            decreases self.reports@.len() - i,
        {
            proof {
                let longer = views.take(i + 1);
                assert(longer.drop_last() =~= views.take(i as int));
                assert(longer.last() == self.reports@[i as int]@);
            }
            out.append(report::human(&self.reports[i]).as_str());
            i = i + 1;
        }
        assert(views.take(i as int) =~= views);
        out.append(
            report::summary(self.reports.as_slice(), self.failures.as_slice()).as_str(),
        );
        out.append("\n");
        out
    }

    fn errors_text(&self) -> (r: String)
        ensures
            r@ == failure_lines(self.results().failures),
    {
        let ghost views = self.results().failures;
        let mut out = String::new();
        let mut i: usize = 0;
        assert(views.take(0) =~= seq![]);
        while i < self.failures.len()
            invariant
                i <= self.failures@.len(),
                views == self.results().failures,
                out@ == failure_lines(views.take(i as int)),
            decreases self.failures@.len() - i,
        {
            proof {
                let longer = views.take(i + 1);
                assert(longer.drop_last() =~= views.take(i as int));
                assert(longer.last() == self.failures@[i as int]@);
            }
            out.append("slipcheck: ");
            out.append(self.failures[i].path.as_str());
            out.append(": ");
            out.append(self.failures[i].error.as_str());
            out.append("\n");
            i = i + 1;
        }
        assert(views.take(i as int) =~= views);
        out
    }

    /// What to print and return, once every archive has been fed.
    pub fn finish(&self) -> (r: Output)
        requires
            self.wf(),
            self.inputs().len() == self.args().paths.len(),
        ensures
            r@ == run_output(results(self.args(), self.inputs()), self.args()),
    {
        let stdout: String = if self.args.quiet {
            "".to_owned()
        } else if self.args.json {
            let mut doc = report::json(self.reports.as_slice(), self.failures.as_slice());
            doc.append("\n");
            doc
        } else {
            self.reports_text()
        };
        let stderr: String = if self.args.json {
            "".to_owned()
        } else {
            self.errors_text()
        };
        let code: i32 = if self.failures.len() > 0 {
            2
        } else if self.triggered(self.args.fail_on) {
            1
        } else {
            0
        };
        Output { stdout, stderr, code }
    }
}

} // verus!
