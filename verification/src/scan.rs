//! Orchestration: bytes in, audited report out. Detects the format,
//! decodes entries with the right reader and hands everything to the
//! auditor. One archive = one [`ArchiveReport`].
use vstd::prelude::*;
use vstd::string::*;

use crate::audit;
use crate::audit::Auditor;
use crate::bytes;
use crate::entry;
use crate::entry::{Entry, EntryView};
use crate::findings;
use crate::findings::{Check, Finding, FindingView, Severity};
use crate::format::Format;
use crate::gzip;
use crate::gzip::GzipError;
use crate::inflate::InflateError;
use crate::tar;
use crate::text;
use crate::zip;

verus! {

/// Default cap on decompressed bytes: 1 GiB.
pub const DEFAULT_MAX_UNPACKED: usize = 0x4000_0000;

/// How to scan.
#[derive(Debug, Clone)]
pub struct ScanOptions {
    /// Force a format instead of magic-byte detection.
    pub format: Option<Format>,
    /// Checks suppressed via `--allow`.
    pub allow: Vec<Check>,
    /// Cap on total decompressed bytes (bomb guard).
    pub max_unpacked: usize,
}

/// [`ScanOptions`] with the list as a sequence.
#[verifier::ext_equal]
pub struct OptionsView {
    /// Forced format.
    pub format: Option<Format>,
    /// Suppressed checks.
    pub allow: Seq<Check>,
    /// Decompression cap.
    pub max_unpacked: nat,
}

impl View for ScanOptions {
    type V = OptionsView;

    open spec fn view(&self) -> OptionsView {
        OptionsView {
            format: self.format,
            allow: self.allow@,
            max_unpacked: self.max_unpacked as nat,
        }
    }
}

/// Detect the format, suppress nothing, cap at 1 GiB.
pub open spec fn default_options() -> OptionsView {
    OptionsView { format: None, allow: seq![], max_unpacked: DEFAULT_MAX_UNPACKED as nat }
}

impl Default for ScanOptions {
    fn default() -> (r: ScanOptions)
        ensures
            r@ == default_options(),
    {
        let r = ScanOptions {
            format: None,
            allow: Vec::new(),
            max_unpacked: DEFAULT_MAX_UNPACKED,
        };
        assert(r.allow@ =~= seq![]);
        r
    }
}

/// The audited result for one archive.
#[derive(Debug)]
pub struct ArchiveReport {
    /// What the archive is called.
    pub path: String,
    /// Its format.
    pub format: Format,
    /// How many entries were audited.
    pub entries: usize,
    /// What is wrong with them.
    pub findings: Vec<Finding>,
}

/// An [`ArchiveReport`] with its texts as character sequences.
#[verifier::ext_equal]
pub struct ReportView {
    /// What the archive is called.
    pub path: Seq<char>,
    /// Its format.
    pub format: Format,
    /// How many entries were audited.
    pub entries: nat,
    /// What is wrong with them.
    pub findings: Seq<FindingView>,
}

impl View for ArchiveReport {
    type V = ReportView;

    open spec fn view(&self) -> ReportView {
        ReportView {
            path: self.path@,
            format: self.format,
            entries: self.entries as nat,
            findings: findings::finding_views(self.findings@),
        }
    }
}

/// How many of `found` have the given severity.
pub open spec fn count_of(found: Seq<FindingView>, severity: Severity) -> nat
    decreases found.len(),
{
    if found.len() == 0 {
        0
    } else {
        count_of(found.drop_last(), severity) + (if found.last().severity == severity {
            1nat
        } else {
            0nat
        })
    }
}

/// Criticals and warnings together are all findings.
pub proof fn law_severities_add_up(found: Seq<FindingView>)
    ensures
        count_of(found, Severity::Critical) + count_of(found, Severity::Warning) == found.len(),
    decreases found.len(),
{
    if found.len() > 0 {
        law_severities_add_up(found.drop_last());
    }
}

impl ArchiveReport {
    /// How many findings have the given severity.
    pub fn count(&self, severity: Severity) -> (r: usize)
        ensures
            r == count_of(self@.findings, severity),
    {
        let ghost all = self@.findings;
        let mut n: usize = 0;
        let mut i: usize = 0;
        assert(all.take(0) =~= seq![]);
        while i < self.findings.len()
            invariant
                i <= self.findings@.len(),
                n <= i,
                all == self@.findings,
                n == count_of(all.take(i as int), severity),
            decreases self.findings@.len() - i,
        {
            proof {
                let longer = all.take(i + 1);
                assert(longer.drop_last() =~= all.take(i as int));
                assert(longer.last() == self.findings@[i as int]@);
            }
            if self.findings[i].severity == severity {
                n = n + 1;
            }
            i = i + 1;
        }
        assert(all.take(i as int) =~= all);
        n
    }
}

/// Why an archive could not be scanned.
#[derive(Debug, Clone, PartialEq, Eq)]
pub enum ScanError {
    /// The bytes match no supported format.
    UnknownFormat,
    /// The archive is structurally broken; the string names how.
    Malformed(String),
}

/// A [`ScanError`] with its text as a character sequence.
#[verifier::ext_equal]
pub enum ScanErrorView {
    /// No supported format.
    UnknownFormat,
    /// Broken, and how.
    Malformed(Seq<char>),
}

impl View for ScanError {
    type V = ScanErrorView;

    open spec fn view(&self) -> ScanErrorView {
        match *self {
            ScanError::UnknownFormat => ScanErrorView::UnknownFormat,
            ScanError::Malformed(detail) => ScanErrorView::Malformed(detail@),
        }
    }
}

/// What [`ScanError::message`] says of each error.
pub open spec fn scan_message(e: ScanErrorView) -> Seq<char> {
    match e {
        ScanErrorView::UnknownFormat => {
            "unrecognized format (tar, tar.gz and zip are supported)"@
        },
        ScanErrorView::Malformed(detail) => "malformed archive: "@ + detail,
    }
}

impl ScanError {
    /// Human-readable description.
    pub fn message(&self) -> (r: String)
        ensures
            r@ == scan_message(self@),
    {
        match self {
            ScanError::UnknownFormat => {
                "unrecognized format (tar, tar.gz and zip are supported)".to_owned()
            },
            ScanError::Malformed(detail) => {
                let mut s = "malformed archive: ".to_owned();
                s.append(detail.as_str());
                s
            },
        }
    }
}

/// What a reader makes of an archive.
#[verifier::ext_equal]
pub enum Contents {
    /// Its entries, and the findings on its structure.
    Listed {
        /// The entries.
        entries: Seq<EntryView>,
        /// The findings.
        pre: Seq<FindingView>,
    },
    /// It decompresses past the cap.
    Bomb,
    /// It is broken.
    Broken(Seq<char>),
}

/// The contents of a plain tar archive; `label` goes before the error.
pub open spec fn tar_contents(data: Seq<u8>, label: Seq<char>) -> Contents {
    match tar::tar_entries(data) {
        Ok(entries) => Contents::Listed { entries, pre: seq![] },
        Err(e) => Contents::Broken(label + tar::tar_message(e)),
    }
}

/// The contents of an archive of the given format.
pub open spec fn contents(data: Seq<u8>, format: Format, limit: nat) -> Contents {
    match format {
        Format::Tar => tar_contents(data, seq![]),
        Format::TarGz => match gzip::decompressed(data, limit as int) {
            Ok(inner) => if !bytes::all_zero(inner) && crate::format::detected(inner) != Some(
                Format::Tar,
            ) {
                Contents::Broken("gzip payload is not a tar archive"@)
            } else {
                tar_contents(inner, "inner tar: "@)
            },
            Err(GzipError::Inflate(InflateError::OutputLimit)) => Contents::Bomb,
            Err(e) => Contents::Broken(gzip::gzip_message(e)),
        },
        Format::Zip => match zip::zip_entries(data) {
            Ok((entries, pre)) => Contents::Listed { entries, pre },
            Err(e) => Contents::Broken(zip::zip_message(e)),
        },
    }
}

/// The finding on a stream that decompresses past the cap.
pub open spec fn bomb_finding(name: Seq<char>, limit: nat) -> FindingView {
    findings::critical(
        Check::UnpackLimit,
        name,
        "stream inflates past the "@ + text::decimal(limit)
            + " byte cap; possible decompression bomb (raise with --max-unpacked to scan anyway)"@,
    )
}

/// The report on an archive with the given contents.
pub open spec fn report_on(
    name: Seq<char>,
    format: Format,
    contents: Contents,
    opts: OptionsView,
) -> Result<ReportView, ScanErrorView> {
    match contents {
        Contents::Broken(detail) => Err(ScanErrorView::Malformed(detail)),
        Contents::Bomb => Ok(
            ReportView {
                path: name,
                format,
                entries: 0,
                findings: audit::kept(opts.allow, seq![bomb_finding(name, opts.max_unpacked)]),
            },
        ),
        Contents::Listed { entries, pre } => Ok(
            ReportView {
                path: name,
                format,
                entries: entries.len(),
                findings: audit::kept(opts.allow, pre + audit::raised(entries)),
            },
        ),
    }
}

/// The format to read `data` as: the forced one, or the detected one.
pub open spec fn chosen_format(data: Seq<u8>, opts: OptionsView) -> Option<Format> {
    match opts.format {
        Some(forced) => Some(forced),
        None => crate::format::detected(data),
    }
}

/// The report on an archive.
pub open spec fn scanned(name: Seq<char>, data: Seq<u8>, opts: OptionsView) -> Result<
    ReportView,
    ScanErrorView,
> {
    match chosen_format(data, opts) {
        None => Err(ScanErrorView::UnknownFormat),
        Some(format) => report_on(name, format, contents(data, format, opts.max_unpacked), opts),
    }
}

/// What [`read_contents`] hands to the auditor.
enum Loaded {
    Listed { entries: Vec<Entry>, pre: Vec<Finding> },
    Bomb,
    Broken(String),
}

spec fn loaded_view(l: Loaded) -> Contents {
    match l {
        Loaded::Listed { entries, pre } => Contents::Listed {
            entries: entry::entry_views(entries@),
            pre: findings::finding_views(pre@),
        },
        Loaded::Bomb => Contents::Bomb,
        Loaded::Broken(detail) => Contents::Broken(detail@),
    }
}

fn read_tar(data: &[u8], label: &str) -> (r: Loaded)
    ensures
        loaded_view(r) == tar_contents(data@, label@),
{
    match tar::read_entries(data) {
        Ok(entries) => {
            let pre: Vec<Finding> = Vec::new();
            assert(findings::finding_views(pre@) =~= seq![]);
            Loaded::Listed { entries, pre }
        },
        Err(e) => {
            let mut detail = label.to_owned();
            detail.append(e.message().as_str());
            Loaded::Broken(detail)
        },
    }
}

fn read_contents(data: &[u8], format: Format, limit: usize) -> (r: Loaded)
    ensures
        loaded_view(r) == contents(data@, format, limit as nat),
{
    match format {
        Format::Tar => {
            proof {
                reveal_strlit("");
                assert(""@ =~= seq![]);
            }
            read_tar(data, "")
        },
        Format::TarGz => match gzip::decompress(data, limit) {
            Ok(inner) => {
                // A .gz of something that is not a tarball must not pass
                // as a "clean tar.gz with zero entries".
                let blank: bool = bytes::only_zeros(inner.as_slice());
                if !blank && crate::format::detect(inner.as_slice()) != Some(Format::Tar) {
                    return Loaded::Broken("gzip payload is not a tar archive".to_owned());
                }
                read_tar(inner.as_slice(), "inner tar: ")
            },
            // Not an error: this is exactly what the bomb guard is for, and
            // it must fail the scan, not crash it.
            Err(GzipError::Inflate(InflateError::OutputLimit)) => Loaded::Bomb,
            Err(other) => Loaded::Broken(other.message()),
        },
        Format::Zip => match zip::read_entries(data) {
            Ok((entries, pre)) => Loaded::Listed { entries, pre },
            Err(e) => Loaded::Broken(e.message()),
        },
    }
}

/// Scan one archive held in memory.
pub fn scan_bytes(name: &str, data: &[u8], opts: &ScanOptions) -> (r: Result<
    ArchiveReport,
    ScanError,
>)
    ensures
        match r {
            Ok(report) => scanned(name@, data@, opts@) == Ok::<ReportView, ScanErrorView>(report@),
            Err(e) => scanned(name@, data@, opts@) == Err::<ReportView, ScanErrorView>(e@),
        },
{
    let format = match opts.format {
        Some(forced) => forced,
        None => match crate::format::detect(data) {
            Some(found) => found,
            None => return Err(ScanError::UnknownFormat),
        },
    };
    let (entries, pre) = match read_contents(data, format, opts.max_unpacked) {
        Loaded::Listed { entries, pre } => (entries, pre),
        Loaded::Broken(detail) => return Err(ScanError::Malformed(detail)),
        Loaded::Bomb => {
            let mut detail = "stream inflates past the ".to_owned();
            text::push_decimal(&mut detail, opts.max_unpacked as u128);
            detail.append(
                " byte cap; possible decompression bomb (raise with --max-unpacked to scan anyway)",
            );
            let mut pre: Vec<Finding> = Vec::new();
            pre.push(Finding::critical(Check::UnpackLimit, name, detail.as_str()));
            let none: Vec<Entry> = Vec::new();
            proof {
                assert(findings::finding_views(pre@) =~= seq![
                    bomb_finding(name@, opts@.max_unpacked),
                ]);
                assert(entry::entry_views(none@) =~= seq![]);
                assert(findings::finding_views(pre@) + audit::raised(seq![])
                    =~= findings::finding_views(pre@));
            }
            (none, pre)
        },
    };
    let (found, count) = Auditor::run(entries.as_slice(), pre, opts.allow.as_slice());
    Ok(ArchiveReport { path: name.to_owned(), format, entries: count, findings: found })
}

} // verus!
