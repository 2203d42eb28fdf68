//! What holds of the command line as a whole: the exit-code contract, and
//! how arguments are read.
use vstd::prelude::*;

use crate::audit;
use crate::audit_laws;
use crate::cli;
use crate::cli::{ArgsView, FailOn, RunView};
use crate::entry::EntryView;
use crate::findings;
use crate::findings::{Check, FindingView, Severity};
use crate::report;
use crate::scan;
use crate::scan::{OptionsView, ReportView};
use crate::text;

verus! {

/// The exit-code contract: 2 exactly for a run with an error, 1 exactly for
/// one without errors but with a finding at or above the threshold, 0
/// otherwise; how the result is printed has no say in it.
pub proof fn law_exit_codes(run: RunView, args: ArgsView)
    ensures
        ({
            let code = cli::run_output(run, args).code;
            &&& code == 2 <==> run.failures.len() > 0
            &&& code == 1 <==> run.failures.len() == 0 && cli::triggered(run.reports, args.fail_on)
            &&& code == 0 || code == 1 || code == 2
            &&& code == cli::run_output(
                run,
                ArgsView { json: !args.json, quiet: !args.quiet, ..args },
            ).code
        }),
{
}

/// `--quiet` silences stdout; it never silences errors outside JSON mode.
pub proof fn law_quiet_is_quiet(run: RunView, args: ArgsView)
    requires
        args.quiet,
    ensures
        cli::run_output(run, args).stdout.len() == 0,
        !args.json ==> cli::run_output(run, args).stderr == cli::failure_lines(run.failures),
{
    reveal_strlit("");
}

/// Thresholds are ordered: what passes at `warning` passes at `critical`, and
/// what passes at `critical` passes at `never`.
pub proof fn law_thresholds_are_ordered(run: RunView)
    ensures
        cli::exit_code(run, FailOn::Never) <= cli::exit_code(run, FailOn::Critical)
            <= cli::exit_code(run, FailOn::Warning),
        run.failures.len() == 0 ==> cli::exit_code(run, FailOn::Never) == 0,
{
    if cli::triggered(run.reports, FailOn::Critical) {
        let (i, k) = choose|i: int, k: int|
            0 <= i < run.reports.len() && 0 <= k < run.reports[i].findings.len() && cli::fails(
                (#[trigger] run.reports[i].findings[k]).severity,
                FailOn::Critical,
            );
        assert(cli::fails(run.reports[i].findings[k].severity, FailOn::Warning));
    }
}

/// Every archive is accounted for: it adds one report or one failure, and
/// takes nothing from what was there.
pub proof fn law_every_archive_is_accounted_for(
    run: RunView,
    path: Seq<char>,
    input: Result<Seq<u8>, Seq<char>>,
    opts: OptionsView,
)
    ensures
        ({
            let next = cli::fed(run, path, input, opts);
            &&& next.reports.len() + next.failures.len() == run.reports.len() + run.failures.len()
                + 1
            &&& run.reports.is_prefix_of(next.reports)
            &&& run.failures.is_prefix_of(next.failures)
        }),
{
}

/// An archive that cannot be read or parsed makes the run exit with 2,
/// whatever else it holds.
pub proof fn law_any_failure_wins(
    run: RunView,
    path: Seq<char>,
    input: Result<Seq<u8>, Seq<char>>,
    opts: OptionsView,
    fail_on: FailOn,
)
    requires
        input matches Ok(data) ==> scan::scanned(cli::display_name(path), data, opts) is Err,
    ensures
        cli::exit_code(cli::fed(run, path, input, opts), fail_on) == 2,
{
}

proof fn lemma_kept_all(found: Seq<FindingView>, i: int)
    requires
        0 <= i < found.len(),
    ensures
        audit::kept(seq![], found).contains(found[i]),
{
    audit_laws::law_allowed_checks_are_left_out(seq![], found, found[i]);
}

/// Every archive of a run is accounted for, by one report or one failure.
pub proof fn law_results_account_for_every_archive(
    args: ArgsView,
    inputs: Seq<Result<Seq<u8>, Seq<char>>>,
)
    ensures
        ({
            let run = cli::results(args, inputs);
            run.reports.len() + run.failures.len() == inputs.len()
        }),
    decreases inputs.len(),
{
    if inputs.len() > 0 {
        law_results_account_for_every_archive(args, inputs.drop_last());
    }
}

proof fn lemma_no_failures(args: ArgsView, inputs: Seq<Result<Seq<u8>, Seq<char>>>, k: int)
    requires
        0 <= k < inputs.len(),
        cli::results(args, inputs).failures.len() == 0,
    ensures
        cli::results(args, inputs).reports.len() == inputs.len(),
        cli::outcome(args.paths[k], inputs[k], args.opts) == Ok::<
            ReportView,
            crate::report::FailureView,
        >(cli::results(args, inputs).reports[k]),
    decreases inputs.len(),
{
    let front = inputs.drop_last();
    law_results_account_for_every_archive(args, inputs);
    law_results_account_for_every_archive(args, front);
    if k < front.len() {
        lemma_no_failures(args, front, k);
    }
}

/// Passing means contained: if a run exits with 0, with a threshold and
/// nothing allowed, then every entry of every archive stays inside the
/// extraction root — by its normalized name, with that name followed through
/// every link planted before it, and in what it links to — and none is a
/// device node or carries setuid or setgid. A name is normalized first: a
/// `..` takes back the component in front of it, be that a link or not.
pub proof fn law_exit_zero_means_contained(
    args: ArgsView,
    inputs: Seq<Result<Seq<u8>, Seq<char>>>,
    k: int,
    data: Seq<u8>,
    entries: Seq<EntryView>,
    i: int,
)
    requires
        args.opts.allow.len() == 0,
        args.fail_on != FailOn::Never,
        cli::run_output(cli::results(args, inputs), args).code == 0,
        0 <= k < inputs.len(),
        inputs[k] == Ok::<Seq<u8>, Seq<char>>(data),
        scan::chosen_format(data, args.opts) matches Some(format) && (scan::contents(
            data,
            format,
            args.opts.max_unpacked,
        ) matches scan::Contents::Listed { entries: listed, .. } && listed == entries),
        0 <= i < entries.len(),
    ensures
        audit_laws::contained(audit::track_after(entries.take(i)), entries[i]),
        audit_laws::unprivileged(entries[i]),
{
    let run = cli::results(args, inputs);
    let opts = args.opts;
    let format = scan::chosen_format(data, opts)->0;
    let pre = scan::contents(data, format, opts.max_unpacked)->pre;
    let report = run.reports[k];
    let raised = audit::raised(entries);
    lemma_no_failures(args, inputs, k);
    assert(opts.allow =~= seq![]);
    assert(audit_laws::none_critical(raised)) by {
        assert forall|j: int| 0 <= j < raised.len() implies (#[trigger] raised[j]).severity
            != Severity::Critical by {
            let all = pre + raised;
            assert(all[pre.len() + j] == raised[j]);
            lemma_kept_all(all, pre.len() + j);
            let at = report.findings.index_of(raised[j]);
            assert(run.reports[k].findings[at] == raised[j]);
            if raised[j].severity == Severity::Critical {
                assert(cli::fails(run.reports[k].findings[at].severity, args.fail_on));
            }
        }
    }
    audit_laws::law_no_critical_finding_means_contained(entries, i);
}

proof fn lemma_words(args: Seq<Seq<char>>, i: int, a: ArgsView)
    requires
        0 <= i <= args.len(),
        forall|j: int| i <= j < args.len() ==> !cli::option_like(#[trigger] args[j]),
        a.paths.len() + args.len() - i > 0,
    ensures
        cli::args_from(args, i, a) == Ok::<ArgsView, Seq<char>>(
            ArgsView { paths: a.paths + args.skip(i), ..a },
        ),
    decreases args.len() - i,
{
    if i < args.len() {
        let arg = args[i];
        reveal_strlit("--json");
        reveal_strlit("--quiet");
        reveal_strlit("--fail-on");
        reveal_strlit("--allow");
        reveal_strlit("--format");
        reveal_strlit("--max-unpacked");
        assert(!cli::option_like(arg));
        lemma_words(args, i + 1, ArgsView { paths: a.paths.push(arg), ..a });
        assert(a.paths.push(arg) + args.skip(i + 1) =~= a.paths + args.skip(i));
    } else {
        assert(a.paths + args.skip(i) =~= a.paths);
    }
}

/// Arguments that do not start with two dashes are archive paths, in the
/// order given, and everything else keeps its default.
pub proof fn law_plain_words_are_paths(args: Seq<Seq<char>>)
    requires
        args.len() > 0,
        forall|j: int| 0 <= j < args.len() ==> !cli::option_like(#[trigger] args[j]),
    ensures
        cli::parsed_args(args) == Ok::<ArgsView, Seq<char>>(
            ArgsView { paths: args, ..cli::default_args() },
        ),
{
    lemma_words(args, 0, cli::default_args());
    assert(cli::default_args().paths + args.skip(0) =~= args);
}

proof fn lemma_paths_needed(args: Seq<Seq<char>>, i: int, a: ArgsView)
    ensures
        cli::args_from(args, i, a) matches Ok(b) ==> b.paths.len() > 0,
    decreases args.len() - i,
{
    if 0 <= i < args.len() {
        if cli::takes_value(args[i]) {
            if i + 1 < args.len() {
                if let Ok(b) = cli::with_value(a, args[i], args[i + 1]) {
                    lemma_paths_needed(args, i + 2, b);
                }
            }
        } else if let Ok(b) = cli::with_word(a, args[i]) {
            lemma_paths_needed(args, i + 1, b);
        }
    }
}

/// A scan never starts without an archive to scan.
pub proof fn law_a_scan_has_a_path(args: Seq<Seq<char>>)
    ensures
        cli::parsed_args(args) matches Ok(a) ==> a.paths.len() > 0,
{
    lemma_paths_needed(args, 0, cli::default_args());
}

/// A size in decimal is read as that many bytes, and a unit behind it
/// multiplies it.
pub proof fn law_sizes_are_binary_units(n: nat)
    ensures
        cli::size_value(text::decimal(n)) == Some(n),
        cli::size_value(text::decimal(n).push('K')) == Some(n * 0x400),
        cli::size_value(text::decimal(n).push('M')) == Some(n * 0x10_0000),
        cli::size_value(text::decimal(n).push('G')) == Some(n * 0x4000_0000),
{
    let d = text::decimal(n);
    text::law_decimal_round_trips(n);
    assert(text::is_digit(d[d.len() - 1])) by {
        assert(text::decimal_value(d) is Some);
    }
    assert(d.take(d.len() - 0) =~= d);
    assert(cli::unit(d) == (0int, 1nat));
    assert(n * cli::unit(d).1 == n);
    assert(d.push('K').take(d.len() as int) =~= d);
    assert(d.push('M').take(d.len() as int) =~= d);
    assert(d.push('G').take(d.len() as int) =~= d);
}

proof fn lemma_row_in_table(n: nat, i: int)
    requires
        0 <= i < n <= 12,
    ensures
        exists|above: Seq<char>, below: Seq<char>|
            cli::check_rows(n) == #[trigger] (above + cli::check_row(Check::ALL[i]) + below),
    decreases n,
{
    let row = cli::check_row(Check::ALL[i]);
    let before = cli::check_rows((n - 1) as nat);
    if i == n - 1 {
        let none = Seq::<char>::empty();
        assert(cli::check_rows(n) =~= before + row + none);
    } else {
        lemma_row_in_table((n - 1) as nat, i);
        let (above, below) = choose|above: Seq<char>, below: Seq<char>|
            before == #[trigger] (above + row + below);
        let last = cli::check_row(Check::ALL[n - 1]);
        assert(cli::check_rows(n) =~= above + row + (below + last));
    }
}

/// The reference table has a line for every check.
pub proof fn law_table_lists_every_check(check: Check)
    ensures
        exists|above: Seq<char>, below: Seq<char>|
            cli::checks_table() == #[trigger] (above + cli::check_row(check) + below),
{
    let i = findings::check_index(check);
    findings::law_all_is_complete(check);
    lemma_row_in_table(12, i);
    let row = cli::check_row(check);
    let (above, below) = choose|above: Seq<char>, below: Seq<char>|
        cli::check_rows(12) == #[trigger] (above + row + below);
    let head = text::padded("ID"@, 18) + " "@ + text::padded("SEVERITY"@, 9) + " DESCRIPTION\n"@;
    assert(cli::checks_table() =~= (head + above) + row + below);
}

/// A run without errors fails exactly if some finding is severe enough: any
/// critical one at `critical`, any at all at `warning`, none at `never`.
pub proof fn law_findings_fail_the_run(run: RunView, args: ArgsView)
    requires
        run.failures.len() == 0,
    ensures
        cli::run_output(run, args).code == 1 <==> exists|i: int, k: int|
            0 <= i < run.reports.len() && 0 <= k < run.reports[i].findings.len() && (match args.fail_on {
                FailOn::Critical => (#[trigger] run.reports[i].findings[k]).severity
                    == Severity::Critical,
                FailOn::Warning => true,
                FailOn::Never => false,
            }),
        cli::run_output(run, args).code == 0 || cli::run_output(run, args).code == 1,
{
    let fail_on = args.fail_on;
    if cli::triggered(run.reports, fail_on) {
        let (i, k) = choose|i: int, k: int|
            0 <= i < run.reports.len() && 0 <= k < run.reports[i].findings.len() && cli::fails(
                (#[trigger] run.reports[i].findings[k]).severity,
                fail_on,
            );
        assert(0 <= k < run.reports[i].findings.len());
    } else {
        assert forall|i: int, k: int|
            0 <= i < run.reports.len() && 0 <= k < run.reports[i].findings.len() implies !(
        match fail_on {
            FailOn::Critical => (#[trigger] run.reports[i].findings[k]).severity
                == Severity::Critical,
            FailOn::Warning => true,
            FailOn::Never => false,
        }) by {
            assert(!cli::fails(run.reports[i].findings[k].severity, fail_on));
        }
    }
}

/// What is printed: the JSON document alone, or the reports and the summary
/// with errors on stderr; nothing on stdout where it is quiet.
pub proof fn law_output_follows_the_mode(run: RunView, args: ArgsView)
    ensures
        ({
            let out = cli::run_output(run, args);
            &&& args.json && !args.quiet ==> out.stdout == report::json_text(
                run.reports,
                run.failures,
            ) + "\n"@
            &&& !args.json && !args.quiet ==> out.stdout == cli::human_texts(run.reports)
                + report::summary_text(run.reports, run.failures) + "\n"@
            &&& args.json ==> out.stderr.len() == 0
            &&& !args.json ==> out.stderr == cli::failure_lines(run.failures)
        }),
{
    reveal_strlit("");
}

proof fn lemma_option_names()
    ensures
        "--json"@.len() == 6,
        "--json"@[2] == 'j',
        "--quiet"@.len() == 7,
        "--quiet"@[2] == 'q',
        "--allow"@.len() == 7,
        "--allow"@[2] == 'a',
        "--format"@.len() == 8,
        "--fail-on"@.len() == 9,
        "--max-unpacked"@.len() == 14,
        cli::option_like("--json"@),
        cli::option_like("--quiet"@),
{
    reveal_strlit("--json");
    reveal_strlit("--quiet");
    reveal_strlit("--allow");
    reveal_strlit("--format");
    reveal_strlit("--fail-on");
    reveal_strlit("--max-unpacked");
}

/// What each option does to the arguments in front of it, wherever it stands:
/// `--json` and `--quiet` switch on, `--allow` adds a check to those already
/// allowed, and `--format`, `--max-unpacked` and `--fail-on` take the last
/// value given. Everything else stays as it was, and reading goes on behind
/// the option.
pub proof fn law_options_are_read(args: Seq<Seq<char>>, i: int, a: ArgsView)
    requires
        0 <= i < args.len(),
    ensures
        args[i] == "--json"@ ==> cli::args_from(args, i, a) == cli::args_from(
            args,
            i + 1,
            ArgsView { json: true, ..a },
        ),
        args[i] == "--quiet"@ ==> cli::args_from(args, i, a) == cli::args_from(
            args,
            i + 1,
            ArgsView { quiet: true, ..a },
        ),
        i + 1 < args.len() ==> {
            let v = args[i + 1];
            &&& forall|check: Check|
                args[i] == "--allow"@ && v == #[trigger] findings::check_id(check)
                    ==> cli::args_from(args, i, a) == cli::args_from(
                    args,
                    i + 2,
                    ArgsView {
                        opts: OptionsView { allow: a.opts.allow.push(check), ..a.opts },
                        ..a
                    },
                )
            &&& forall|format: crate::format::Format|
                args[i] == "--format"@ && v == #[trigger] crate::format::format_label(format)
                    ==> cli::args_from(args, i, a) == cli::args_from(
                    args,
                    i + 2,
                    ArgsView { opts: OptionsView { format: Some(format), ..a.opts }, ..a },
                )
            &&& forall|n: nat|
                args[i] == "--max-unpacked"@ && n <= usize::MAX && v == #[trigger] text::decimal(n)
                    ==> cli::args_from(args, i, a) == cli::args_from(
                    args,
                    i + 2,
                    ArgsView { opts: OptionsView { max_unpacked: n, ..a.opts }, ..a },
                )
            &&& args[i] == "--fail-on"@ && v == "critical"@ ==> cli::args_from(args, i, a)
                == cli::args_from(args, i + 2, ArgsView { fail_on: FailOn::Critical, ..a })
            &&& args[i] == "--fail-on"@ && v == "warning"@ ==> cli::args_from(args, i, a)
                == cli::args_from(args, i + 2, ArgsView { fail_on: FailOn::Warning, ..a })
            &&& args[i] == "--fail-on"@ && v == "never"@ ==> cli::args_from(args, i, a)
                == cli::args_from(args, i + 2, ArgsView { fail_on: FailOn::Never, ..a })
        },
{
    lemma_option_names();
    if i + 1 < args.len() {
        let v = args[i + 1];
        reveal_strlit("critical");
        reveal_strlit("warning");
        reveal_strlit("never");
        assert forall|check: Check|
            args[i] == "--allow"@ && v == #[trigger] findings::check_id(check) implies cli::args_from(
            args,
            i,
            a,
        ) == cli::args_from(
            args,
            i + 2,
            ArgsView { opts: OptionsView { allow: a.opts.allow.push(check), ..a.opts }, ..a },
        ) by {
            findings::law_id_names_its_check(check, v);
        }
        assert forall|format: crate::format::Format|
            args[i] == "--format"@ && v == #[trigger] crate::format::format_label(
                format,
            ) implies cli::args_from(args, i, a) == cli::args_from(
            args,
            i + 2,
            ArgsView { opts: OptionsView { format: Some(format), ..a.opts }, ..a },
        ) by {
            crate::format::law_label_selects_the_format(format);
        }
        assert forall|n: nat|
            args[i] == "--max-unpacked"@ && n <= usize::MAX && v == #[trigger] text::decimal(
                n,
            ) implies cli::args_from(args, i, a) == cli::args_from(
            args,
            i + 2,
            ArgsView { opts: OptionsView { max_unpacked: n, ..a.opts }, ..a },
        ) by {
            law_sizes_are_binary_units(n);
        }
    }
}

/// Without options, nothing is forced or allowed, output is human-readable,
/// critical findings fail the run, and the cap is one gibibyte.
pub proof fn law_defaults()
    ensures
        ({
            let a = cli::default_args();
            &&& !a.json
            &&& !a.quiet
            &&& a.fail_on == FailOn::Critical
            &&& a.opts.format is None
            &&& a.opts.allow.len() == 0
            &&& a.opts.max_unpacked == 1024 * 1024 * 1024
        }),
{
}

/// Every archive is scanned under the options given, and what it is called in
/// the output is its path, or the name of standard input for a dash.
pub proof fn law_archives_are_scanned_as_asked(
    args: ArgsView,
    path: Seq<char>,
    data: Seq<u8>,
)
    ensures
        ({
            let name = if path == seq!['-'] {
                "(stdin)"@
            } else {
                path
            };
            match scan::scanned(name, data, args.opts) {
                Ok(report) => cli::outcome(path, Ok(data), args.opts) == Ok::<
                    ReportView,
                    crate::report::FailureView,
                >(report),
                Err(e) => cli::outcome(path, Ok(data), args.opts) matches Err(f) && f.path == name
                    && f.error == scan::scan_message(e),
            }
        }),
{
    reveal_strlit("-");
    assert("-"@ =~= seq!['-']);
}

/// Units may be written small.
pub proof fn law_small_units_count_alike(n: nat)
    ensures
        cli::size_value(text::decimal(n).push('k')) == Some(n * 1024),
        cli::size_value(text::decimal(n).push('m')) == Some(n * 1048576),
        cli::size_value(text::decimal(n).push('g')) == Some(n * 1073741824),
{
    let d = text::decimal(n);
    text::law_decimal_round_trips(n);
    assert(d.push('k').take(d.len() as int) =~= d);
    assert(d.push('m').take(d.len() as int) =~= d);
    assert(d.push('g').take(d.len() as int) =~= d);
}

/// An option that is not known, an option without its value, and a value that
/// names nothing are errors, wherever they stand.
pub proof fn law_bad_options_are_errors(args: Seq<Seq<char>>, i: int, a: ArgsView)
    requires
        0 <= i < args.len(),
    ensures
        ({
            let known = args[i] == "--allow"@ || args[i] == "--format"@ || args[i]
                == "--max-unpacked"@ || args[i] == "--fail-on"@;
            let dashed = args[i].len() >= 2 && args[i][0] == '-' && args[i][1] == '-';
            &&& dashed && !known && args[i] != "--json"@ && args[i] != "--quiet"@
                ==> cli::args_from(args, i, a) is Err
            &&& known && i + 1 == args.len() ==> cli::args_from(args, i, a) is Err
            &&& args[i] == "--allow"@ && i + 1 < args.len() && (forall|c: Check|
                #[trigger] findings::check_id(c) != args[i + 1]) ==> cli::args_from(args, i, a)
                is Err
            &&& args[i] == "--fail-on"@ && i + 1 < args.len() && args[i + 1] != "critical"@
                && args[i + 1] != "warning"@ && args[i + 1] != "never"@ ==> cli::args_from(
                args,
                i,
                a,
            ) is Err
        }),
{
    lemma_option_names();
}

proof fn lemma_command_names()
    ensures
        "scan"@ == seq!['s', 'c', 'a', 'n'],
        "help"@.len() == 4 && "help"@[0] == 'h',
        "--help"@.len() == 6 && "--help"@[0] == '-',
        "-h"@.len() == 2 && "-h"@[1] == 'h',
        "version"@.len() == 7,
        "--version"@.len() == 9,
        "-V"@.len() == 2 && "-V"@[1] == 'V',
        "checks"@.len() == 6 && "checks"@[0] == 'c',
{
    reveal_strlit("scan");
    reveal_strlit("help");
    reveal_strlit("--help");
    reveal_strlit("-h");
    reveal_strlit("version");
    reveal_strlit("--version");
    reveal_strlit("-V");
    reveal_strlit("checks");
    assert("scan"@ =~= seq!['s', 'c', 'a', 'n']);
}

/// What a command line does: `scan` scans what its arguments say, or complains
/// about them; help, version and the table of checks are printed and succeed;
/// no command prints the usage, and an unknown one complains, and both fail.
pub proof fn law_commands(args: Seq<Seq<char>>)
    ensures
        args.len() == 0 ==> (cli::action(args) matches cli::ActionView::Exit(out) && out.code == 2
            && out.stdout == cli::USAGE@),
        args.len() > 0 && args[0] == "scan"@ ==> (match cli::parsed_args(args.skip(1)) {
            Ok(a) => cli::action(args) == cli::ActionView::Scan(a),
            Err(_) => cli::action(args) matches cli::ActionView::Exit(out) && out.code == 2
                && out.stdout.len() == 0 && out.stderr.len() > 0,
        }),
        args.len() > 0 && (args[0] == "help"@ || args[0] == "--help"@ || args[0] == "-h"@) ==> (
        cli::action(args) matches cli::ActionView::Exit(out) && out.code == 0 && out.stdout
            == cli::USAGE@ && out.stderr.len() == 0),
        args.len() > 0 && (args[0] == "version"@ || args[0] == "--version"@ || args[0] == "-V"@)
            ==> (cli::action(args) matches cli::ActionView::Exit(out) && out.code == 0
            && out.stdout == "slipcheck "@ + crate::VERSION@ + "\n"@ && out.stderr.len() == 0),
        args.len() > 0 && args[0] == "checks"@ ==> (cli::action(args) matches cli::ActionView::Exit(
            out,
        ) && out.code == 0 && out.stdout == cli::checks_table() && out.stderr.len() == 0),
        args.len() > 0 && args[0] != "scan"@ && args[0] != "help"@ && args[0] != "--help"@
            && args[0] != "-h"@ && args[0] != "version"@ && args[0] != "--version"@ && args[0]
            != "-V"@ && args[0] != "checks"@ ==> (cli::action(args) matches cli::ActionView::Exit(
            out,
        ) && out.code == 2 && out.stdout.len() == 0 && out.stderr.len() > 0),
{
    lemma_command_names();
    reveal_strlit("");
    reveal_strlit("slipcheck: ");
}

} // verus!
