//! Output rendering: aligned human text and a hand-rolled JSON document
//! (std-only, so the escaper lives here too). Rendering is pure —
//! everything returns `String`s the CLI prints.
use vstd::prelude::*;
use vstd::string::*;

use crate::findings;
use crate::findings::{Finding, FindingView, Severity};
use crate::scan;
use crate::scan::{ArchiveReport, ReportView};
use crate::text;
use crate::VERSION;

verus! {

/// One archive that failed to scan at all (I/O or parse error).
#[derive(Debug)]
pub struct ScanFailure {
    /// What the archive is called.
    pub path: String,
    /// What went wrong.
    pub error: String,
}

/// A [`ScanFailure`] with its texts as character sequences.
#[verifier::ext_equal]
pub struct FailureView {
    /// What the archive is called.
    pub path: Seq<char>,
    /// What went wrong.
    pub error: Seq<char>,
}

impl View for ScanFailure {
    type V = FailureView;

    open spec fn view(&self) -> FailureView {
        FailureView { path: self.path@, error: self.error@ }
    }
}

/// The reports as views.
pub open spec fn report_views(reports: Seq<ArchiveReport>) -> Seq<ReportView> {
    reports.map_values(|r: ArchiveReport| r@)
}

/// The failures as views.
pub open spec fn failure_views(failures: Seq<ScanFailure>) -> Seq<FailureView> {
    failures.map_values(|f: ScanFailure| f@)
}

/// `1 warning` / `3 warnings` — count plus a regular noun, pluralized.
pub open spec fn counted_text(n: nat, noun: Seq<char>) -> Seq<char> {
    text::decimal(n) + " "@ + noun + (if n == 1 {
        ""@
    } else {
        "s"@
    })
}

/// The verdict on an archive.
pub open spec fn verdict(critical: nat, warnings: nat) -> Seq<char> {
    if critical > 0 {
        text::decimal(critical) + " critical, "@ + counted_text(warnings, "warning"@)
    } else if warnings > 0 {
        counted_text(warnings, "warning"@)
    } else {
        "clean"@
    }
}

/// The first line on an archive.
pub open spec fn headline(r: ReportView) -> Seq<char> {
    r.path + ": "@ + crate::format::format_label(r.format) + ", "@ + text::decimal(r.entries)
        + " entr"@ + (if r.entries == 1 {
        "y"@
    } else {
        "ies"@
    }) + ", "@ + verdict(
        scan::count_of(r.findings, Severity::Critical),
        scan::count_of(r.findings, Severity::Warning),
    ) + "\n"@
}

/// The line on a finding.
pub open spec fn finding_line(f: FindingView) -> Seq<char> {
    "  "@ + (match f.severity {
        Severity::Critical => "CRITICAL"@,
        Severity::Warning => "warning "@,
    }) + " "@ + text::padded(findings::check_id(f.check), 16) + " "@ + f.path + " — "@ + f.detail
        + "\n"@
}

/// The lines on findings.
pub open spec fn finding_lines(found: Seq<FindingView>) -> Seq<char>
    decreases found.len(),
{
    if found.len() == 0 {
        seq![]
    } else {
        finding_lines(found.drop_last()) + finding_line(found.last())
    }
}

/// An archive's report as human-readable lines.
pub open spec fn human_text(r: ReportView) -> Seq<char> {
    headline(r) + finding_lines(r.findings)
}

/// How many findings of the given severity all reports hold.
pub open spec fn total(reports: Seq<ReportView>, severity: Severity) -> nat
    decreases reports.len(),
{
    if reports.len() == 0 {
        0
    } else {
        total(reports.drop_last(), severity) + scan::count_of(reports.last().findings, severity)
    }
}

/// The closing line across all archives.
pub open spec fn summary_text(reports: Seq<ReportView>, failures: Seq<FailureView>) -> Seq<char> {
    counted_text(reports.len(), "archive"@) + " scanned: "@ + text::decimal(
        total(reports, Severity::Critical),
    ) + " critical, "@ + counted_text(total(reports, Severity::Warning), "warning"@) + (
    if failures.len() > 0 {
        ", "@ + counted_text(failures.len(), "error"@)
    } else {
        ""@
    })
}

/// `c` as it stands in a JSON string literal.
pub open spec fn escaped_char(c: char) -> Seq<char> {
    if c == '"' {
        "\\\""@
    } else if c == '\\' {
        "\\\\"@
    } else if c == '\n' {
        "\\n"@
    } else if c == '\r' {
        "\\r"@
    } else if c == '\t' {
        "\\t"@
    } else if (c as u32) < 0x20 {
        "\\u"@ + text::four_digits(c as u32 as nat, 16)
    } else {
        seq![c]
    }
}

/// `s` as it stands in a JSON string literal.
pub open spec fn escaped(s: Seq<char>) -> Seq<char>
    decreases s.len(),
{
    if s.len() == 0 {
        seq![]
    } else {
        escaped(s.drop_last()) + escaped_char(s.last())
    }
}

/// A comma, unless the item is the last one.
pub open spec fn comma(more: bool) -> Seq<char> {
    if more {
        ","@
    } else {
        ""@
    }
}

/// A finding as a JSON line.
pub open spec fn json_finding(f: FindingView, more: bool) -> Seq<char> {
    "        {\"check\": \""@ + findings::check_id(f.check) + "\", \"severity\": \""@
        + findings::severity_label(f.severity) + "\", \"path\": \""@ + escaped(f.path)
        + "\", \"detail\": \""@ + escaped(f.detail) + "\"}"@ + comma(more) + "\n"@
}

/// The first `n` findings as JSON lines.
pub open spec fn json_findings(found: Seq<FindingView>, n: nat) -> Seq<char>
    decreases n,
{
    if n == 0 {
        seq![]
    } else {
        json_findings(found, (n - 1) as nat) + json_finding(found[n - 1], n < found.len())
    }
}

/// A report as JSON lines.
pub open spec fn json_report(r: ReportView, more: bool) -> Seq<char> {
    "    {\n      \"path\": \""@ + escaped(r.path) + "\",\n      \"format\": \""@
        + crate::format::format_label(r.format) + "\",\n      \"entries\": "@ + text::decimal(
        r.entries,
    ) + ",\n      \"critical\": "@ + text::decimal(
        scan::count_of(r.findings, Severity::Critical),
    ) + ",\n      \"warnings\": "@ + text::decimal(
        scan::count_of(r.findings, Severity::Warning),
    ) + ",\n      \"findings\": [\n"@ + json_findings(r.findings, r.findings.len())
        + "      ]\n    }"@ + comma(more) + "\n"@
}

/// The first `n` reports as JSON lines.
pub open spec fn json_reports(reports: Seq<ReportView>, n: nat) -> Seq<char>
    decreases n,
{
    if n == 0 {
        seq![]
    } else {
        json_reports(reports, (n - 1) as nat) + json_report(reports[n - 1], n < reports.len())
    }
}

/// A failure as a JSON line.
pub open spec fn json_failure(f: FailureView, more: bool) -> Seq<char> {
    "    {\"path\": \""@ + escaped(f.path) + "\", \"error\": \""@ + escaped(f.error) + "\"}"@
        + comma(more) + "\n"@
}

/// The first `n` failures as JSON lines.
pub open spec fn json_failures(failures: Seq<FailureView>, n: nat) -> Seq<char>
    decreases n,
{
    if n == 0 {
        seq![]
    } else {
        json_failures(failures, (n - 1) as nat) + json_failure(failures[n - 1], n < failures.len())
    }
}

/// The whole run as a JSON document.
pub open spec fn json_text(reports: Seq<ReportView>, failures: Seq<FailureView>) -> Seq<char> {
    "{\n  \"slipcheck\": \""@ + escaped(VERSION@) + "\",\n  \"archives\": [\n"@ + json_reports(
        reports,
        reports.len(),
    ) + "  ],\n  \"errors\": [\n"@ + json_failures(failures, failures.len())
        + "  ],\n  \"critical\": "@ + text::decimal(total(reports, Severity::Critical))
        + ",\n  \"warnings\": "@ + text::decimal(total(reports, Severity::Warning)) + "\n}"@
}

fn push_counted(out: &mut String, n: u128, noun: &str)
    ensures
        final(out)@ == old(out)@ + counted_text(n as nat, noun@),
{
    let ghost before = out@;
    text::push_decimal(out, n);
    out.append(" ");
    out.append(noun);
    proof {
        reveal_strlit("");
    }
    if n != 1 {
        out.append("s");
    }
    assert(out@ =~= before + counted_text(n as nat, noun@));
}

fn push_line(out: &mut String, f: &Finding)
    ensures
        final(out)@ == old(out)@ + finding_line(f@),
{
    let ghost before = out@;
    out.append("  ");
    out.append(
        match f.severity {
            Severity::Critical => "CRITICAL",
            Severity::Warning => "warning ",
        },
    );
    out.append(" ");
    text::push_padded(out, f.check.id(), 16);
    out.append(" ");
    out.append(f.path.as_str());
    out.append(" — ");
    out.append(f.detail.as_str());
    out.append("\n");
    assert(out@ =~= before + finding_line(f@));
}

/// Render one archive's report as human-readable lines.
pub fn human(report: &ArchiveReport) -> (r: String)
    ensures
        r@ == human_text(report@),
{
    let critical: usize = report.count(Severity::Critical);
    let warnings: usize = report.count(Severity::Warning);
    let mut out = report.path.clone();
    out.append(": ");
    out.append(report.format.label());
    out.append(", ");
    text::push_decimal(&mut out, report.entries as u128);
    out.append(" entr");
    out.append(
        if report.entries == 1 {
            "y"
        } else {
            "ies"
        },
    );
    out.append(", ");
    let ghost head = out@;
    if critical > 0 {
        text::push_decimal(&mut out, critical as u128);
        out.append(" critical, ");
        push_counted(&mut out, warnings as u128, "warning");
    } else if warnings > 0 {
        push_counted(&mut out, warnings as u128, "warning");
    } else {
        out.append("clean");
    }
    assert(out@ =~= head + verdict(critical as nat, warnings as nat));
    out.append("\n");
    assert(out@ =~= headline(report@));
    let ghost all = report@.findings;
    let mut i: usize = 0;
    assert(all.take(0) =~= seq![]);
    assert(headline(report@) + finding_lines(all.take(0)) =~= out@);
    while i < report.findings.len()
        invariant
            i <= report.findings@.len(),
            all == report@.findings,
            out@ == headline(report@) + finding_lines(all.take(i as int)),
        decreases report.findings@.len() - i,
    {
        push_line(&mut out, &report.findings[i]);
        proof {
            let longer = all.take(i + 1);
            assert(longer.drop_last() =~= all.take(i as int));
            assert(longer.last() == report.findings@[i as int]@);
            assert(out@ =~= headline(report@) + finding_lines(longer));
        }
        i = i + 1;
    }
    assert(all.take(i as int) =~= all);
    out
}

/// Add up the findings of one severity.
fn sum(reports: &[ArchiveReport], severity: Severity) -> (r: u128)
    ensures
        r == total(report_views(reports@), severity),
{
    let ghost views = report_views(reports@);
    let mut n: u128 = 0;
    let mut i: usize = 0;
    let most: usize = reports.len();
    assert(views.take(0) =~= seq![]);
    while i < most
        invariant
            i <= most == reports@.len(),
            views == report_views(reports@),
            n == total(views.take(i as int), severity),
            n <= i * 0x1_0000_0000_0000_0000,
        decreases reports@.len() - i,
    {
        proof {
            let longer = views.take(i + 1);
            assert(longer.drop_last() =~= views.take(i as int));
            assert(longer.last() == reports@[i as int]@);
        }
        n = n + reports[i].count(severity) as u128;
        i = i + 1;
    }
    assert(views.take(i as int) =~= views);
    n
}

/// Render the closing summary line across all archives.
pub fn summary(reports: &[ArchiveReport], failures: &[ScanFailure]) -> (r: String)
    ensures
        r@ == summary_text(report_views(reports@), failure_views(failures@)),
{
    let critical: u128 = sum(reports, Severity::Critical);
    let warnings: u128 = sum(reports, Severity::Warning);
    let mut line = String::new();
    push_counted(&mut line, reports.len() as u128, "archive");
    line.append(" scanned: ");
    text::push_decimal(&mut line, critical);
    line.append(" critical, ");
    push_counted(&mut line, warnings, "warning");
    proof {
        reveal_strlit("");
    }
    if failures.len() > 0 {
        let ghost before = line@;
        line.append(", ");
        push_counted(&mut line, failures.len() as u128, "error");
        assert(line@ =~= before + (", "@ + counted_text(failures@.len(), "error"@)));
    }
    assert(line@ =~= summary_text(report_views(reports@), failure_views(failures@)));
    line
}

/// Escape a string for a JSON string literal.
pub fn json_escape(s: &str) -> (r: String)
    ensures
        r@ == escaped(s@),
{
    let mut out = String::new();
    assert(s@.take(0) =~= seq![]);
    for c in it: s.chars()
        invariant
            it.seq() == s@,
            out@ == escaped(s@.take(it.index() as int)),
    {
        let ghost before = out@;
        proof {
            let i: int = it.index() as int;
            let longer = s@.take(i + 1);
            assert(longer.drop_last() =~= s@.take(i));
            assert(longer.last() == c);
        }
        if c == '"' {
            out.append("\\\"");
        } else if c == '\\' {
            out.append("\\\\");
        } else if c == '\n' {
            out.append("\\n");
        } else if c == '\r' {
            out.append("\\r");
        } else if c == '\t' {
            out.append("\\t");
        } else if (c as u32) < 0x20 {
            out.append("\\u");
            text::push_four_digits(&mut out, c as u32, 16);
        } else {
            out.push(c);
        }
        assert(out@ =~= before + escaped_char(c));
    }
    assert(s@.take(s@.len() as int) =~= s@);
    out
}

fn push_comma(out: &mut String, more: bool)
    ensures
        final(out)@ == old(out)@ + comma(more),
{
    let ghost before = out@;
    proof {
        reveal_strlit("");
    }
    if more {
        out.append(",");
    }
    assert(out@ =~= before + comma(more));
}

fn push_finding(out: &mut String, f: &Finding, more: bool)
    ensures
        final(out)@ == old(out)@ + json_finding(f@, more),
{
    let ghost before = out@;
    out.append("        {\"check\": \"");
    out.append(f.check.id());
    out.append("\", \"severity\": \"");
    out.append(f.severity.label());
    out.append("\", \"path\": \"");
    out.append(json_escape(f.path.as_str()).as_str());
    out.append("\", \"detail\": \"");
    out.append(json_escape(f.detail.as_str()).as_str());
    out.append("\"}");
    push_comma(out, more);
    out.append("\n");
    assert(out@ =~= before + json_finding(f@, more));
}

fn push_findings(out: &mut String, found: &[Finding])
    ensures
        final(out)@ == old(out)@ + json_findings(
            findings::finding_views(found@),
            found@.len(),
        ),
{
    let ghost before = out@;
    let ghost views = findings::finding_views(found@);
    let mut i: usize = 0;
    assert(out@ =~= before + json_findings(views, 0));
    while i < found.len()
        invariant
            i <= found@.len(),
            views == findings::finding_views(found@),
            out@ == before + json_findings(views, i as nat),
        decreases found@.len() - i,
    {
        let ghost here = out@;
        push_finding(out, &found[i], i + 1 < found.len());
        i = i + 1;
        assert(out@ =~= before + json_findings(views, i as nat));
    }
}

fn push_report(out: &mut String, r: &ArchiveReport, more: bool)
    ensures
        final(out)@ == old(out)@ + json_report(r@, more),
{
    let ghost before = out@;
    out.append("    {\n      \"path\": \"");
    out.append(json_escape(r.path.as_str()).as_str());
    out.append("\",\n      \"format\": \"");
    out.append(r.format.label());
    out.append("\",\n      \"entries\": ");
    text::push_decimal(out, r.entries as u128);
    out.append(",\n      \"critical\": ");
    text::push_decimal(out, r.count(Severity::Critical) as u128);
    out.append(",\n      \"warnings\": ");
    text::push_decimal(out, r.count(Severity::Warning) as u128);
    out.append(",\n      \"findings\": [\n");
    push_findings(out, r.findings.as_slice());
    out.append("      ]\n    }");
    push_comma(out, more);
    out.append("\n");
    assert(out@ =~= before + json_report(r@, more));
}

fn push_failure(out: &mut String, f: &ScanFailure, more: bool)
    ensures
        final(out)@ == old(out)@ + json_failure(f@, more),
{
    let ghost before = out@;
    out.append("    {\"path\": \"");
    out.append(json_escape(f.path.as_str()).as_str());
    out.append("\", \"error\": \"");
    out.append(json_escape(f.error.as_str()).as_str());
    out.append("\"}");
    push_comma(out, more);
    out.append("\n");
    assert(out@ =~= before + json_failure(f@, more));
}

/// Render the whole run as a JSON document.
pub fn json(reports: &[ArchiveReport], failures: &[ScanFailure]) -> (r: String)
    ensures
        r@ == json_text(report_views(reports@), failure_views(failures@)),
{
    let ghost rs = report_views(reports@);
    let ghost fs = failure_views(failures@);
    let mut out = "{\n  \"slipcheck\": \"".to_owned();
    out.append(json_escape(VERSION).as_str());
    out.append("\",\n  \"archives\": [\n");
    let ghost head = out@;
    let mut i: usize = 0;
    assert(out@ =~= head + json_reports(rs, 0));
    while i < reports.len()
        invariant
            i <= reports@.len(),
            rs == report_views(reports@),
            out@ == head + json_reports(rs, i as nat),
        decreases reports@.len() - i,
    {
        push_report(&mut out, &reports[i], i + 1 < reports.len());
        i = i + 1;
        assert(out@ =~= head + json_reports(rs, i as nat));
    }
    out.append("  ],\n  \"errors\": [\n");
    let ghost middle = out@;
    let mut k: usize = 0;
    assert(out@ =~= middle + json_failures(fs, 0));
    while k < failures.len()
        invariant
            k <= failures@.len(),
            fs == failure_views(failures@),
            out@ == middle + json_failures(fs, k as nat),
        decreases failures@.len() - k,
    {
        push_failure(&mut out, &failures[k], k + 1 < failures.len());
        k = k + 1;
        assert(out@ =~= middle + json_failures(fs, k as nat));
    }
    out.append("  ],\n  \"critical\": ");
    text::push_decimal(&mut out, sum(reports, Severity::Critical));
    out.append(",\n  \"warnings\": ");
    text::push_decimal(&mut out, sum(reports, Severity::Warning));
    out.append("\n}");
    assert(out@ =~= json_text(rs, fs));
    out
}

} // verus!
