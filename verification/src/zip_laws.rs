//! What holds of the zip reader as a whole: which end record counts, that no
//! header is skipped, and that nothing it cannot decode passes in silence.
use vstd::prelude::*;

use crate::entry::{EntryKind, EntryView};
use crate::findings;
use crate::findings::{Check, FindingView};
use crate::inflate_laws;
use crate::text;
use crate::zip;
use crate::zip::Central;

verus! {

proof fn lemma_last_eocd(data: Seq<u8>, pos: int)
    ensures
        match zip::last_eocd(data, pos) {
            Some(p) => zip::eocd_at(data, p) && p <= pos && forall|q: int|
                p < q <= pos ==> !zip::eocd_at(data, q),
            None => forall|q: int| q <= pos ==> !zip::eocd_at(data, q),
        },
    decreases pos + 1,
{
    if pos >= 0 && !zip::eocd_at(data, pos) {
        lemma_last_eocd(data, pos - 1);
    }
}

/// The end record that counts is the last one in the input whose comment
/// length is consistent; there is none only if no position has one.
pub proof fn law_eocd_is_the_last_consistent_one(data: Seq<u8>, q: int)
    requires
        zip::eocd_at(data, q),
    ensures
        zip::last_eocd(data, data.len() - 22) matches Some(p) && q <= p && zip::eocd_at(data, p),
{
    lemma_last_eocd(data, data.len() - 22);
}

/// Where two headers disagree on a name, the archive gets a name-mismatch
/// finding, and both names are audited.
pub proof fn law_mismatch_surfaces_both_names(data: Seq<u8>, c: Central)
    requires
        zip::local_at(data, c.extents.local_offset as int) matches Some((name, _)) && name
            != c.name,
    ensures
        ({
            let (local, _) = zip::local_at(data, c.extents.local_offset as int)->0;
            let entries = zip::record_entries(data, c);
            &&& entries.len() == 2
            &&& entries[0].path == local
            &&& entries[1].path == c.name
            &&& zip::record_findings(data, c)[0] == findings::warning(
                Check::NameMismatch,
                c.name,
                zip::mismatch_detail(c.name, local),
            )
        }),
{
}

/// A local header that is missing or corrupt is a finding, not an error, and
/// the entry is audited all the same.
pub proof fn law_corrupt_local_header_is_a_finding(data: Seq<u8>, c: Central)
    requires
        zip::local_at(data, c.extents.local_offset as int) is None,
    ensures
        zip::record_findings(data, c) == seq![
            findings::warning(
                Check::NameMismatch,
                c.name,
                zip::corrupt_detail(c.extents.local_offset),
            ),
        ],
        zip::record_entries(data, c).len() == 1,
        zip::record_entries(data, c)[0].path == c.name,
{
}

/// A symlink whose target cannot be decoded is a critical finding.
pub proof fn law_undecodable_link_is_critical(data: Seq<u8>, c: Central)
    requires
        zip::kind_and_mode(c).0 == EntryKind::Symlink,
        zip::local_at(data, c.extents.local_offset as int) matches Some((_, at))
            && zip::link_target(data, at, c) is None,
    ensures
        zip::record_findings(data, c).last() == findings::critical(
            Check::LinkEscape,
            c.name,
            zip::undecodable_detail(),
        ),
{
}

/// An encrypted target, one past the cap, or one compressed by an unknown
/// method is never decoded; what is decoded stands for at most 4096 bytes.
pub proof fn law_link_targets_are_bounded(data: Seq<u8>, at: int, c: Central)
    requires
        0 <= at,
    ensures
        c.flags % 2 == 1 ==> zip::link_target(data, at, c) is None,
        c.method != 0 && c.method != 8 ==> zip::link_target(data, at, c) is None,
        c.method == 0 && c.extents.csize > 4096 ==> zip::link_target(data, at, c) is None,
        zip::link_target(data, at, c) matches Some(target) ==> exists|raw: Seq<u8>|
            raw.len() <= 4096 && #[trigger] text::decoded(raw) == target,
{
    let raw = data.subrange(at, at + c.extents.csize);
    inflate_laws::law_output_is_capped(raw, 4096);
    if zip::link_target(data, at, c) is Some && at + c.extents.csize <= data.len() {
        if c.method == 0 {
            assert(text::decoded(raw) == zip::link_target(data, at, c)->0);
        } else {
            let target = crate::inflate::inflated(raw, 4096)->Ok_0.0;
            assert(text::decoded(target) == zip::link_target(data, at, c)->0);
        }
    }
}

/// Where the header that comes `i` behind the one at `pos` starts.
pub open spec fn header_pos(data: Seq<u8>, pos: int, i: nat) -> int
    decreases i,
{
    if i == 0 {
        pos
    } else {
        match zip::central_at(data, pos) {
            Ok(c) => header_pos(data, zip::clamp(data, pos + c.header_len), (i - 1) as nat),
            Err(_) => pos,
        }
    }
}

proof fn lemma_walk_keeps(
    data: Seq<u8>,
    pos: int,
    n: nat,
    entries: Seq<EntryView>,
    found: Seq<FindingView>,
)
    ensures
        zip::walk(data, pos, n, entries, found) matches Ok((all, all_found)) ==> {
            &&& entries.is_prefix_of(all)
            &&& found.is_prefix_of(all_found)
            &&& entries.len() + n <= all.len() <= entries.len() + 2 * n
        },
    decreases n,
{
    if n > 0 {
        if let Ok(c) = zip::central_at(data, pos) {
            lemma_walk_keeps(
                data,
                zip::clamp(data, pos + c.header_len),
                (n - 1) as nat,
                entries + zip::record_entries(data, c),
                found + zip::record_findings(data, c),
            );
        }
    }
}

proof fn lemma_walk_visits(
    data: Seq<u8>,
    pos: int,
    n: nat,
    entries: Seq<EntryView>,
    found: Seq<FindingView>,
    i: nat,
)
    requires
        i < n,
        zip::walk(data, pos, n, entries, found) is Ok,
    ensures
        ({
            let (all, all_found) = zip::walk(data, pos, n, entries, found)->Ok_0;
            &&& zip::central_at(data, header_pos(data, pos, i)) matches Ok(c)
            &&& forall|k: int|
                0 <= k < zip::record_entries(data, c).len() ==> all.contains(
                    #[trigger] zip::record_entries(data, c)[k],
                )
            &&& forall|k: int|
                0 <= k < zip::record_findings(data, c).len() ==> all_found.contains(
                    #[trigger] zip::record_findings(data, c)[k],
                )
        }),
    decreases n,
{
    let (all, all_found) = zip::walk(data, pos, n, entries, found)->Ok_0;
    let c = zip::central_at(data, pos)->Ok_0;
    let more = entries + zip::record_entries(data, c);
    let more_found = found + zip::record_findings(data, c);
    let next = zip::clamp(data, pos + c.header_len);
    if i == 0 {
        lemma_walk_keeps(data, next, (n - 1) as nat, more, more_found);
        assert forall|k: int| 0 <= k < zip::record_entries(data, c).len() implies all.contains(
            #[trigger] zip::record_entries(data, c)[k],
        ) by {
            assert(all[entries.len() + k] == more[entries.len() + k]);
        }
        assert forall|k: int|
            0 <= k < zip::record_findings(data, c).len() implies all_found.contains(
            #[trigger] zip::record_findings(data, c)[k],
        ) by {
            assert(all_found[found.len() + k] == more_found[found.len() + k]);
        }
    } else {
        lemma_walk_visits(data, next, (n - 1) as nat, more, more_found, (i - 1) as nat);
    }
}

/// No header is skipped: of a readable archive, every header that the
/// directory announces is readable, and all its entries and findings are in
/// the result.
pub proof fn law_no_header_is_skipped(data: Seq<u8>, i: nat)
    requires
        zip::zip_entries(data) is Ok,
        i < zip::directory(data)->Ok_0.entries,
    ensures
        ({
            let (all, all_found) = zip::zip_entries(data)->Ok_0;
            let start = zip::clamp(data, zip::directory(data)->Ok_0.offset as int);
            &&& zip::central_at(data, header_pos(data, start, i)) matches Ok(c)
            &&& forall|k: int|
                0 <= k < zip::record_entries(data, c).len() ==> all.contains(
                    #[trigger] zip::record_entries(data, c)[k],
                )
            &&& forall|k: int|
                0 <= k < zip::record_findings(data, c).len() ==> all_found.contains(
                    #[trigger] zip::record_findings(data, c)[k],
                )
        }),
{
    let d = zip::directory(data)->Ok_0;
    lemma_walk_visits(
        data,
        zip::clamp(data, d.offset as int),
        d.entries,
        seq![],
        seq![],
        i,
    );
}

/// Every header gives one entry, or two where the local name differs.
pub proof fn law_entry_count(data: Seq<u8>)
    requires
        zip::zip_entries(data) is Ok,
    ensures
        ({
            let n = zip::directory(data)->Ok_0.entries;
            n <= zip::zip_entries(data)->Ok_0.0.len() <= 2 * n
        }),
{
    let d = zip::directory(data)->Ok_0;
    lemma_walk_keeps(data, zip::clamp(data, d.offset as int), d.entries, seq![], seq![]);
}

} // verus!
