//! What holds of a scan as a whole: suppression, the bomb guard, and
//! compressed archives.
use vstd::prelude::*;

use crate::audit;
use crate::audit_laws;
use crate::bytes;
use crate::entry::EntryView;
use crate::findings::{Check, FindingView, Severity};
use crate::format::Format;
use crate::gzip;
use crate::gzip_laws;
use crate::inflate::InflateError;
use crate::scan;
use crate::scan::{OptionsView, ReportView, ScanErrorView};
use crate::tar;
use crate::zip;

verus! {

proof fn lemma_nothing_allowed(found: Seq<FindingView>)
    ensures
        audit::kept(seq![], found) == found,
    decreases found.len(),
{
    reveal_with_fuel(Seq::filter, 1);
    if found.len() > 0 {
        lemma_nothing_allowed(found.drop_last());
        assert(found.drop_last().push(found.last()) =~= found);
    } else {
        assert(audit::kept(seq![], found) =~= found);
    }
}

/// Allowing checks only removes findings: the report is the one without
/// allowed checks, less the findings of those checks.
pub proof fn law_allow_only_filters(name: Seq<char>, data: Seq<u8>, opts: OptionsView)
    ensures
        scan::scanned(name, data, opts) == (match scan::scanned(
            name,
            data,
            OptionsView { allow: seq![], ..opts },
        ) {
            Ok(report) => Ok::<ReportView, ScanErrorView>(
                ReportView { findings: audit::kept(opts.allow, report.findings), ..report },
            ),
            Err(e) => Err(e),
        }),
{
    if let Some(format) = scan::chosen_format(data, opts) {
        match scan::contents(data, format, opts.max_unpacked) {
            scan::Contents::Listed { entries, pre } => {
                lemma_nothing_allowed(pre + audit::raised(entries));
            },
            scan::Contents::Bomb => {
                lemma_nothing_allowed(seq![scan::bomb_finding(name, opts.max_unpacked)]);
            },
            _ => {},
        }
    }
}

/// No finding of an allowed check is ever reported.
pub proof fn law_allowed_checks_never_appear(
    name: Seq<char>,
    data: Seq<u8>,
    opts: OptionsView,
    f: FindingView,
)
    requires
        scan::scanned(name, data, opts) matches Ok(report) && report.findings.contains(f),
    ensures
        !opts.allow.contains(f.check),
{
    let format = scan::chosen_format(data, opts)->0;
    match scan::contents(data, format, opts.max_unpacked) {
        scan::Contents::Listed { entries, pre } => {
            audit_laws::law_allowed_checks_are_left_out(
                opts.allow,
                pre + audit::raised(entries),
                f,
            );
        },
        _ => {
            audit_laws::law_allowed_checks_are_left_out(
                opts.allow,
                seq![scan::bomb_finding(name, opts.max_unpacked)],
                f,
            );
        },
    }
}

/// The bomb guard: a gzip file that decompresses to more than the cap is
/// reported as a critical unpack-limit finding, not as an error and not as
/// clean.
pub proof fn law_bomb_is_a_critical_finding(
    name: Seq<char>,
    data: Seq<u8>,
    opts: OptionsView,
    enough: nat,
)
    requires
        scan::chosen_format(data, opts) == Some(Format::TarGz),
        gzip::decompressed(data, enough as int) matches Ok(out) && out.len() > opts.max_unpacked,
        !opts.allow.contains(Check::UnpackLimit),
    ensures
        scan::scanned(name, data, opts) == Ok::<ReportView, ScanErrorView>(
            ReportView {
                path: name,
                format: Format::TarGz,
                entries: 0,
                findings: seq![scan::bomb_finding(name, opts.max_unpacked)],
            },
        ),
        scan::count_of(
            seq![scan::bomb_finding(name, opts.max_unpacked)],
            Severity::Critical,
        ) == 1,
{
    let out = gzip::decompressed(data, enough as int)->Ok_0;
    let bomb = scan::bomb_finding(name, opts.max_unpacked);
    gzip_laws::law_output_is_capped(data, enough);
    gzip_laws::law_limit_is_exact(data, opts.max_unpacked, enough);
    reveal_with_fuel(Seq::filter, 2);
    reveal_with_fuel(scan::count_of, 2);
    assert(seq![bomb].drop_last() =~= Seq::<FindingView>::empty());
    assert(audit::kept(opts.allow, seq![bomb]) =~= seq![bomb]);
}

/// Compression is transparent: a gzip file that holds a tar archive within
/// the cap gets the findings and the entry count of that archive.
pub proof fn law_gzip_is_transparent(
    name: Seq<char>,
    data: Seq<u8>,
    inner: Seq<u8>,
    opts: OptionsView,
)
    requires
        scan::chosen_format(data, opts) == Some(Format::TarGz),
        gzip::decompressed(data, opts.max_unpacked as int) == Ok::<Seq<u8>, gzip::GzipError>(inner),
        bytes::all_zero(inner) || crate::format::detected(inner) == Some(Format::Tar),
        tar::tar_entries(inner) is Ok,
    ensures
        ({
            let plain = OptionsView { format: Some(Format::Tar), ..opts };
            &&& scan::scanned(name, data, opts) matches Ok(outer)
            &&& scan::scanned(name, inner, plain) matches Ok(report)
            &&& outer == (ReportView { format: Format::TarGz, ..report })
        }),
{
}

/// Without a forced format, bytes that match none are an error and nothing
/// else is.
pub proof fn law_unknown_format(name: Seq<char>, data: Seq<u8>, opts: OptionsView)
    ensures
        scan::scanned(name, data, opts) == Err::<ReportView, ScanErrorView>(
            ScanErrorView::UnknownFormat,
        ) <==> opts.format is None && crate::format::detected(data) is None,
{
}

/// What an archive is called has no say in how it is read: under another name
/// the scan fails or succeeds alike, with the same format, the same number
/// of entries and, unless it is a bomb, the same findings.
pub proof fn law_name_has_no_say(a: Seq<char>, b: Seq<char>, data: Seq<u8>, opts: OptionsView)
    ensures
        match (scan::scanned(a, data, opts), scan::scanned(b, data, opts)) {
            (Ok(x), Ok(y)) => {
                &&& x.format == y.format
                &&& x.entries == y.entries
                &&& (x.findings == y.findings || scan::contents(
                    data,
                    x.format,
                    opts.max_unpacked,
                ) is Bomb)
            },
            (Err(x), Err(y)) => x == y,
            _ => false,
        },
{
}

/// A tar archive is reported by what its entries raise, every one of them.
pub proof fn law_tar_is_audited(
    name: Seq<char>,
    data: Seq<u8>,
    opts: OptionsView,
    entries: Seq<EntryView>,
)
    requires
        scan::chosen_format(data, opts) == Some(Format::Tar),
        tar::tar_entries(data) == Ok::<Seq<EntryView>, tar::TarError>(entries),
        opts.allow.len() == 0,
    ensures
        scan::scanned(name, data, opts) == Ok::<ReportView, ScanErrorView>(
            ReportView {
                path: name,
                format: Format::Tar,
                entries: entries.len(),
                findings: audit::raised(entries),
            },
        ),
{
    assert(opts.allow =~= seq![]);
    assert(Seq::<FindingView>::empty() + audit::raised(entries) =~= audit::raised(entries));
    lemma_nothing_allowed(audit::raised(entries));
}

/// A zip archive is reported by what is wrong with its structure, and then by
/// what its entries raise.
pub proof fn law_zip_is_audited(
    name: Seq<char>,
    data: Seq<u8>,
    opts: OptionsView,
    entries: Seq<EntryView>,
    structural: Seq<FindingView>,
)
    requires
        scan::chosen_format(data, opts) == Some(Format::Zip),
        zip::zip_entries(data) == Ok::<(Seq<EntryView>, Seq<FindingView>), zip::ZipError>(
            (entries, structural),
        ),
        opts.allow.len() == 0,
    ensures
        scan::scanned(name, data, opts) == Ok::<ReportView, ScanErrorView>(
            ReportView {
                path: name,
                format: Format::Zip,
                entries: entries.len(),
                findings: structural + audit::raised(entries),
            },
        ),
{
    assert(opts.allow =~= seq![]);
    lemma_nothing_allowed(structural + audit::raised(entries));
}

/// An archive that its reader refuses is an error, never a report: tar and zip
/// archives, gzip files that are broken for another reason than the cap, and
/// gzip files whose payload is neither a tar archive nor empty.
pub proof fn law_broken_archives_are_errors(name: Seq<char>, data: Seq<u8>, opts: OptionsView)
    requires
        match scan::chosen_format(data, opts) {
            Some(Format::Tar) => tar::tar_entries(data) is Err,
            Some(Format::Zip) => zip::zip_entries(data) is Err,
            Some(Format::TarGz) => match gzip::decompressed(data, opts.max_unpacked as int) {
                Ok(inner) => tar::tar_entries(inner) is Err || (!bytes::all_zero(inner)
                    && crate::format::detected(inner) != Some(Format::Tar)),
                Err(e) => e != gzip::GzipError::Inflate(InflateError::OutputLimit),
            },
            None => true,
        },
    ensures
        scan::scanned(name, data, opts) is Err,
        scan::chosen_format(data, opts) is Some ==> scan::scanned(name, data, opts)->Err_0
            is Malformed,
{
}

/// A forced format is used whatever the content looks like; otherwise the
/// content decides.
pub proof fn law_forced_format_wins(name: Seq<char>, data: Seq<u8>, opts: OptionsView)
    ensures
        scan::scanned(name, data, opts) matches Ok(report) ==> {
            &&& (opts.format matches Some(f) ==> report.format == f)
            &&& (opts.format is None ==> crate::format::detected(data) == Some(report.format))
            &&& report.path == name
        },
{
}

/// Counting findings of a severity counts each of them once, and no other.
pub proof fn law_counts_are_exact(found: Seq<FindingView>, f: FindingView, severity: Severity)
    ensures
        scan::count_of(Seq::empty(), severity) == 0,
        scan::count_of(found.push(f), severity) == scan::count_of(found, severity) + (
        if f.severity == severity {
            1int
        } else {
            0
        }),
{
    assert(found.push(f).drop_last() =~= found);
}

} // verus!
