//! The format-agnostic auditor. Entries are replayed in archive order —
//! the order an extractor would create them — against a virtual extraction
//! root, tracking every symlink the archive plants so that later entries
//! writing *through* those links are caught (the modern zip-slip variant
//! that pure name checks miss).
use vstd::hash_map::StringHashMap;
use vstd::prelude::*;
use vstd::string::*;

use crate::entry;
use crate::entry::{Entry, EntryKind, EntryView};
use crate::findings;
use crate::findings::{Check, Finding, FindingView};
use crate::paths;
use crate::paths::{Components, PathCheck, PathView};
use crate::text;

verus! {

/// Longest in-archive symlink chain the resolver will follow before it
/// gives up and treats the path as hostile (loops included).
pub const MAX_LINK_HOPS: usize = 40;

/// Where a recorded symlink ultimately points, with in-archive chains
/// already followed at the time the link was recorded.
#[verifier::ext_equal]
pub enum LinkView {
    /// Inside the root.
    Inside(Components),
    /// Out of the root, or nowhere.
    Escaped,
}

/// Normalized symlink path -> resolved target state.
pub type Links = Map<Seq<char>, LinkView>;

/// What the auditor remembers of the entries so far.
#[verifier::ext_equal]
pub struct Track {
    /// Normalized symlink path -> resolved target state.
    pub links: Links,
    /// Normalized path -> (occurrences, any occurrence was a non-directory).
    pub seen: Map<Seq<char>, (nat, bool)>,
    /// Case-folded path -> first original spelling.
    pub folded: Map<Seq<char>, Seq<char>>,
}

/// Nothing seen yet.
pub open spec fn no_track() -> Track {
    Track { links: Map::empty(), seen: Map::empty(), folded: Map::empty() }
}

/// Outcome of resolving a normalized path through the recorded symlinks.
#[verifier::ext_equal]
pub enum Resolved {
    /// It ends inside the root.
    Inside {
        /// Where.
        comps: Components,
        /// The links crossed on the way.
        crossed: Seq<Seq<char>>,
    },
    /// It leads out, or round and round.
    Escaped {
        /// The link to blame.
        via: Seq<char>,
    },
}

/// How far a resolution has come.
pub struct Walked {
    /// The directory reached.
    pub out: Components,
    /// The links crossed.
    pub crossed: Seq<Seq<char>>,
}

/// Walk the components `rest` from the path reached, as the kernel would:
/// where the walk comes upon a link, it starts over with the link's target
/// in front of what is left, so that links on the way to the target count
/// too. A link that leads out, or one too many, ends the walk.
pub open spec fn resolve_from(
    links: Links,
    rest: Components,
    w: Walked,
) -> Resolved
    decreases MAX_LINK_HOPS + 1 - w.crossed.len(), rest.len(),
{
    if rest.len() == 0 {
        Resolved::Inside { comps: w.out, crossed: w.crossed }
    } else {
        let out = w.out.push(rest[0]);
        let key = paths::joined(out);
        if !links.contains_key(key) {
            resolve_from(links, rest.skip(1), Walked { out, crossed: w.crossed })
        } else {
            match links[key] {
                LinkView::Escaped => Resolved::Escaped { via: key },
                LinkView::Inside(target) => if w.crossed.len() >= MAX_LINK_HOPS {
                    Resolved::Escaped { via: key }
                } else {
                    resolve_from(
                        links,
                        target + rest.skip(1),
                        Walked { out: seq![], crossed: w.crossed.push(key) },
                    )
                },
            }
        }
    }
}

/// Resolve normalized components through the recorded symlinks.
pub open spec fn resolution(links: Links, comps: Components) -> Resolved {
    resolve_from(links, comps, Walked { out: seq![], crossed: seq![] })
}

/// The findings on the mode bits of `e`.
pub open spec fn mode_findings(e: EntryView) -> Seq<FindingView> {
    if e.kind == EntryKind::File || e.kind == EntryKind::Dir {
        match e.mode {
            None => seq![],
            Some(mode) => {
                let octal = "mode "@ + text::four_digits(mode as nat, 8);
                let setuid = findings::critical(
                    Check::Setuid,
                    e.path,
                    octal
                        + " carries the setuid bit; runs as the owner after extraction by root"@,
                );
                let setgid = findings::critical(
                    Check::Setgid,
                    e.path,
                    octal + " carries the setgid bit"@,
                );
                let writable = findings::warning(
                    Check::WorldWritable,
                    e.path,
                    octal + " is world-writable"@,
                );
                only(mode & 0o4000 != 0, setuid) + only(mode & 0o2000 != 0, setgid) + only(
                    mode & 0o002 != 0,
                    writable,
                )
            },
        }
    } else {
        seq![]
    }
}

/// `f`, if `raised`.
pub open spec fn only(raised: bool, f: FindingView) -> Seq<FindingView> {
    if raised {
        seq![f]
    } else {
        seq![]
    }
}

/// The findings on the kind of `e`.
pub open spec fn kind_findings(e: EntryView) -> Seq<FindingView> {
    match e.kind {
        EntryKind::CharDevice | EntryKind::BlockDevice => seq![
            findings::critical(
                Check::SpecialFile,
                e.path,
                entry::kind_label(e.kind)
                    + " node in the archive; extraction as root creates a device"@,
            ),
        ],
        EntryKind::Fifo => seq![
            findings::warning(
                Check::SpecialFile,
                e.path,
                "fifo (named pipe) in the archive"@,
            ),
        ],
        EntryKind::Other(flag) => seq![
            findings::warning(
                Check::SpecialFile,
                e.path,
                "unrecognized entry type '"@ + seq![flag] + "'; slipcheck cannot vouch for it"@,
            ),
        ],
        _ => seq![],
    }
}

/// How often the path was seen before, and whether as a non-directory.
pub open spec fn seen_before(t: Track, path: Seq<char>) -> (nat, bool) {
    if t.seen.contains_key(path) {
        t.seen[path]
    } else {
        (0, false)
    }
}

/// The finding on a path seen before. Repeated directories are normal (zip
/// writes them liberally): a non-directory must be involved on either side.
pub open spec fn duplicate_findings(t: Track, e: EntryView, path: Seq<char>) -> Seq<FindingView> {
    let (count, non_dir) = seen_before(t, path);
    only(
        count >= 1 && (non_dir || e.kind != EntryKind::Dir),
        findings::warning(
            Check::DuplicatePath,
            e.path,
            "path appears "@ + text::decimal(count + 1)
                + " times; the last entry silently wins on extraction"@,
        ),
    )
}

/// The finding on a path whose case-folded form was first seen spelled
/// otherwise.
pub open spec fn case_findings(t: Track, e: EntryView, comps: Components) -> Seq<FindingView> {
    let key = paths::folded(comps);
    only(
        t.folded.contains_key(key) && t.folded[key] != paths::joined(comps),
        findings::warning(
            Check::CaseCollision,
            e.path,
            "collides with '"@ + t.folded[key] + "' on case-insensitive filesystems"@,
        ),
    )
}

/// The finding on an entry whose parent directory is reached through links.
pub open spec fn parent_findings(
    links: Links,
    e: EntryView,
    comps: Components,
) -> Seq<FindingView> {
    match resolution(links, comps.drop_last()) {
        Resolved::Escaped { via } => seq![
            findings::critical(
                Check::LinkIndirection,
                e.path,
                "written through symlink '"@ + via
                    + "', which points outside the extraction root"@,
            ),
        ],
        Resolved::Inside { comps: lands, crossed } => only(
            crossed.len() > 0,
            findings::warning(
                Check::LinkIndirection,
                e.path,
                "written through in-archive symlink '"@ + crossed.last()
                    + "'; extraction lands at '"@ + paths::joined(lands) + "/"@ + comps.last()
                    + "'"@,
            ),
        ),
    }
}

/// The finding on an entry that overwrites a path which is already a symlink:
/// extractors that do not unlink first will follow it.
pub open spec fn overwrite_findings(
    links: Links,
    e: EntryView,
    path: Seq<char>,
) -> Seq<FindingView> {
    if e.kind == EntryKind::Symlink || !links.contains_key(path) {
        seq![]
    } else {
        match links[path] {
            LinkView::Escaped => seq![
                findings::critical(
                    Check::LinkIndirection,
                    e.path,
                    "overwrites earlier symlink '"@ + path
                        + "' that points outside the root; extractors that follow existing links write outside"@,
                ),
            ],
            LinkView::Inside(target) => seq![
                findings::warning(
                    Check::LinkIndirection,
                    e.path,
                    "overwrites earlier symlink '"@ + path + "' (resolves to '"@ + paths::joined(
                        target,
                    ) + "')"@,
                ),
            ],
        }
    }
}

/// The link target of `e`; a missing one counts as empty.
pub open spec fn target_of(e: EntryView) -> Seq<char> {
    match e.link_target {
        Some(target) => target,
        None => seq![],
    }
}

/// The directory that a symlink at `comps` actually lives in, once earlier
/// symlinks are honored; where they lead out, the directory that its name
/// says.
pub open spec fn link_base(links: Links, comps: Components) -> Components {
    match resolution(links, comps.drop_last()) {
        Resolved::Inside { comps: lands, .. } => lands,
        Resolved::Escaped { .. } => comps.drop_last(),
    }
}

/// Where the symlink `e` at `comps` points, as it is remembered.
pub open spec fn symlink_state(links: Links, e: EntryView, comps: Components) -> LinkView {
    match paths::resolved(link_base(links, comps), target_of(e)) {
        PathView::Inside(target) => match resolution(links, target) {
            Resolved::Inside { comps: lands, .. } => LinkView::Inside(lands),
            Resolved::Escaped { .. } => LinkView::Escaped,
        },
        _ => LinkView::Escaped,
    }
}

/// The finding on the target of the symlink `e` at `comps`.
pub open spec fn symlink_findings(
    links: Links,
    e: EntryView,
    comps: Components,
) -> Seq<FindingView> {
    let target = target_of(e);
    match paths::resolved(link_base(links, comps), target) {
        PathView::Empty => seq![
            findings::warning(Check::LinkEscape, e.path, "symlink has an empty target"@),
        ],
        PathView::Absolute { kind } => seq![
            findings::critical(
                Check::LinkEscape,
                e.path,
                "symlink target '"@ + target + "' is absolute ("@ + kind + ")"@,
            ),
        ],
        PathView::Escapes => seq![
            findings::critical(
                Check::LinkEscape,
                e.path,
                "symlink target '"@ + target + "' escapes the extraction root"@,
            ),
        ],
        PathView::Inside(inner) => match resolution(links, inner) {
            Resolved::Escaped { via } => seq![
                findings::critical(
                    Check::LinkEscape,
                    e.path,
                    "symlink target '"@ + target + "' resolves through symlink '"@ + via
                        + "' to outside the root"@,
                ),
            ],
            Resolved::Inside { .. } => seq![],
        },
    }
}

/// The finding on the target of the hard link `e`, which is archive-root
/// relative (tar semantics).
pub open spec fn hardlink_findings(links: Links, e: EntryView) -> Seq<FindingView> {
    let target = target_of(e);
    match paths::classified(target) {
        PathView::Empty => seq![
            findings::warning(Check::LinkEscape, e.path, "hard link has an empty target"@),
        ],
        PathView::Absolute { kind } => seq![
            findings::critical(
                Check::LinkEscape,
                e.path,
                "hard link target '"@ + target + "' is absolute ("@ + kind
                    + "); links to a file outside the root"@,
            ),
        ],
        PathView::Escapes => seq![
            findings::critical(
                Check::LinkEscape,
                e.path,
                "hard link target '"@ + target + "' escapes the extraction root"@,
            ),
        ],
        PathView::Inside(inner) => match resolution(links, inner) {
            Resolved::Escaped { via } => seq![
                findings::critical(
                    Check::LinkEscape,
                    e.path,
                    "hard link target '"@ + target + "' resolves through symlink '"@ + via
                        + "' to outside the root"@,
                ),
            ],
            Resolved::Inside { .. } => seq![],
        },
    }
}

/// The finding on where `e`, named `comps`, links to, if it is a link.
pub open spec fn link_findings(
    links: Links,
    e: EntryView,
    comps: Components,
) -> Seq<FindingView> {
    if e.kind == EntryKind::Symlink {
        symlink_findings(links, e, comps)
    } else if e.kind == EntryKind::Hardlink {
        hardlink_findings(links, e)
    } else {
        seq![]
    }
}

/// The findings on where `e`, named `comps`, is written and links to.
pub open spec fn inside_findings(t: Track, e: EntryView, comps: Components) -> Seq<FindingView> {
    if comps.len() == 0 {
        seq![]
    } else {
        let path = paths::joined(comps);
        duplicate_findings(t, e, path) + case_findings(t, e, comps) + parent_findings(
            t.links,
            e,
            comps,
        ) + overwrite_findings(t.links, e, path) + link_findings(t.links, e, comps)
    }
}

/// The findings on the name of `e`, and on where it leads.
pub open spec fn name_findings(t: Track, e: EntryView) -> Seq<FindingView> {
    match paths::classified(e.path) {
        PathView::Empty => seq![
            findings::warning(
                Check::Traversal,
                "(empty)"@,
                "entry has an empty name; extractors disagree on what to do with it"@,
            ),
        ],
        PathView::Absolute { kind } => seq![
            findings::critical(
                Check::AbsolutePath,
                e.path,
                "entry name is absolute ("@ + kind + "); extraction can write anywhere"@,
            ),
        ],
        PathView::Escapes => seq![
            findings::critical(
                Check::Traversal,
                e.path,
                "entry name climbs above the extraction root via '..'"@,
            ),
        ],
        PathView::Inside(comps) => inside_findings(t, e, comps),
    }
}

/// All findings that `e` raises, coming behind what `t` remembers.
pub open spec fn entry_findings(t: Track, e: EntryView) -> Seq<FindingView> {
    mode_findings(e) + kind_findings(e) + name_findings(t, e)
}

/// What is remembered once `e` was seen at `path`.
pub open spec fn seen_next(t: Track, e: EntryView, path: Seq<char>) -> Track {
    let (count, non_dir) = seen_before(t, path);
    Track { seen: t.seen.insert(path, (count + 1, non_dir || e.kind != EntryKind::Dir)), ..t }
}

/// What is remembered once the path of `comps` was seen spelled that way.
pub open spec fn folded_next(t: Track, comps: Components) -> Track {
    let key = paths::folded(comps);
    if t.folded.contains_key(key) {
        t
    } else {
        Track { folded: t.folded.insert(key, paths::joined(comps)), ..t }
    }
}

/// What is remembered once `e`, named `comps`, has come.
pub open spec fn inside_next(t: Track, e: EntryView, comps: Components) -> Track {
    if comps.len() == 0 {
        t
    } else {
        let path = paths::joined(comps);
        Track {
            links: if e.kind == EntryKind::Symlink {
                t.links.insert(path, symlink_state(t.links, e, comps))
            } else {
                t.links
            },
            ..folded_next(seen_next(t, e, path), comps)
        }
    }
}

/// What is remembered once `e` has come.
pub open spec fn track_next(t: Track, e: EntryView) -> Track {
    match paths::classified(e.path) {
        PathView::Inside(comps) => inside_next(t, e, comps),
        _ => t,
    }
}

/// What is remembered after `entries`.
pub open spec fn track_after(entries: Seq<EntryView>) -> Track
    decreases entries.len(),
{
    if entries.len() == 0 {
        no_track()
    } else {
        track_next(track_after(entries.drop_last()), entries.last())
    }
}

/// All findings that `entries` raise, in archive order.
pub open spec fn raised(entries: Seq<EntryView>) -> Seq<FindingView>
    decreases entries.len(),
{
    if entries.len() == 0 {
        seq![]
    } else {
        raised(entries.drop_last()) + entry_findings(
            track_after(entries.drop_last()),
            entries.last(),
        )
    }
}

/// `found` without the findings of allowed checks.
pub open spec fn kept(allowed: Seq<Check>, found: Seq<FindingView>) -> Seq<FindingView> {
    found.filter(|f: FindingView| !allowed.contains(f.check))
}

/// Where a recorded symlink ultimately points.
enum LinkState {
    Inside(Vec<String>),
    Escaped,
}

/// Outcome of resolving a normalized path through the recorded symlinks.
enum Resolution {
    Inside { comps: Vec<String>, crossed: Vec<String> },
    Escaped { via: String },
}

spec fn link_view(s: LinkState) -> LinkView {
    match s {
        LinkState::Inside(comps) => LinkView::Inside(paths::texts(comps@)),
        LinkState::Escaped => LinkView::Escaped,
    }
}

spec fn link_views(links: Map<Seq<char>, LinkState>) -> Links {
    links.map_values(|s: LinkState| link_view(s))
}

spec fn resolution_view(r: Resolution) -> Resolved {
    match r {
        Resolution::Inside { comps, crossed } => Resolved::Inside {
            comps: paths::texts(comps@),
            crossed: paths::texts(crossed@),
        },
        Resolution::Escaped { via } => Resolved::Escaped { via: via@ },
    }
}

/// Replays entries in archive order and collects what is wrong with them.
pub struct Auditor {
    /// Findings suppressed via `--allow`.
    allowed: Vec<Check>,
    findings: Vec<Finding>,
    entries: usize,
    /// Normalized symlink path -> resolved target state.
    links: StringHashMap<LinkState>,
    /// Normalized path -> (occurrences, any occurrence was a non-directory).
    seen: StringHashMap<(usize, bool)>,
    /// Case-folded path -> first original spelling.
    folded: StringHashMap<String>,
}

/// Permission bits are only meaningful for files and directories.
fn check_mode(e: &Entry, found: &mut Vec<Finding>)
    ensures
        findings::finding_views(final(found)@) == findings::finding_views(old(found)@)
            + mode_findings(e@),
{
    let ghost before = findings::finding_views(found@);
    let mode: u32 = match e.mode {
        Some(mode) => mode,
        None => {
            assert(before + mode_findings(e@) =~= before);
            return ;
        },
    };
    if !(e.kind == EntryKind::File || e.kind == EntryKind::Dir) {
        assert(before + mode_findings(e@) =~= before);
        return ;
    }
    let mut octal = "mode ".to_owned();
    text::push_four_digits(&mut octal, mode, 8);
    if mode & 0o4000 != 0 {
        let mut detail = octal.clone();
        detail.append(" carries the setuid bit; runs as the owner after extraction by root");
        found.push(Finding::critical(Check::Setuid, e.path.as_str(), detail.as_str()));
    }
    if mode & 0o2000 != 0 {
        let mut detail = octal.clone();
        detail.append(" carries the setgid bit");
        found.push(Finding::critical(Check::Setgid, e.path.as_str(), detail.as_str()));
    }
    if mode & 0o002 != 0 {
        let mut detail = octal;
        detail.append(" is world-writable");
        found.push(Finding::warning(Check::WorldWritable, e.path.as_str(), detail.as_str()));
    }
    assert(findings::finding_views(found@) =~= before + mode_findings(e@));
}

fn check_kind(e: &Entry, found: &mut Vec<Finding>)
    ensures
        findings::finding_views(final(found)@) == findings::finding_views(old(found)@)
            + kind_findings(e@),
{
    let ghost before = findings::finding_views(found@);
    match e.kind {
        EntryKind::CharDevice | EntryKind::BlockDevice => {
            let mut detail = e.kind.label().to_owned();
            detail.append(" node in the archive; extraction as root creates a device");
            found.push(Finding::critical(Check::SpecialFile, e.path.as_str(), detail.as_str()));
        },
        EntryKind::Fifo => {
            found.push(
                Finding::warning(
                    Check::SpecialFile,
                    e.path.as_str(),
                    "fifo (named pipe) in the archive",
                ),
            );
        },
        EntryKind::Other(flag) => {
            let mut detail = "unrecognized entry type '".to_owned();
            let ghost head = detail@;
            detail.push(flag);
            assert(detail@ =~= head + seq![flag]);
            detail.append("'; slipcheck cannot vouch for it");
            found.push(Finding::warning(Check::SpecialFile, e.path.as_str(), detail.as_str()));
        },
        _ => {},
    }
    assert(findings::finding_views(found@) =~= before + kind_findings(e@));
}

proof fn lemma_in_order(
    before: Seq<FindingView>,
    a: Seq<FindingView>,
    b: Seq<FindingView>,
    c: Seq<FindingView>,
    d: Seq<FindingView>,
    e: Seq<FindingView>,
)
    ensures
        before + a + b + c + d + e == before + (a + b + c + d + e),
        e.len() == 0 ==> before + a + b + c + d == before + (a + b + c + d + e),
{
    assert(before + a + b + c + d + e =~= before + (a + b + c + d + e));
    if e.len() == 0 {
        assert(before + a + b + c + d =~= before + (a + b + c + d + e));
    }
}

impl Auditor {
    /// What is remembered of the entries so far.
    pub closed spec fn track(&self) -> Track {
        Track {
            links: link_views(self.links@),
            seen: self.seen@.map_values(|p: (usize, bool)| (p.0 as nat, p.1)),
            folded: self.folded@.map_values(|s: String| s@),
        }
    }

    /// The findings so far, allowed checks left out.
    pub closed spec fn found(&self) -> Seq<FindingView> {
        findings::finding_views(self.findings@)
    }

    /// How many entries have come.
    pub closed spec fn count(&self) -> nat {
        self.entries as nat
    }

    /// The checks left out.
    pub closed spec fn allowed(&self) -> Seq<Check> {
        self.allowed@
    }

    /// No path was seen more often than there were entries.
    pub closed spec fn wf(&self) -> bool {
        forall|path: Seq<char>| #[trigger]
            self.seen@.contains_key(path) ==> self.seen@[path].0 <= self.entries
    }

    /// An auditor that has seen nothing.
    pub fn new(allowed: &[Check]) -> (r: Auditor)
        ensures
            r.wf(),
            r.track() == no_track(),
            r.found() == Seq::<FindingView>::empty(),
            r.count() == 0,
            r.allowed() == allowed@,
    {
        let mut list: Vec<Check> = Vec::new();
        list.extend_from_slice(allowed);
        let r = Auditor {
            allowed: list,
            findings: Vec::new(),
            entries: 0,
            links: StringHashMap::new(),
            seen: StringHashMap::new(),
            folded: StringHashMap::new(),
        };
        assert(r.allowed@ =~= allowed@);
        assert(r.track() =~= no_track());
        assert(r.found() =~= Seq::<FindingView>::empty());
        r
    }

    fn is_allowed(&self, check: Check) -> (r: bool)
        ensures
            r == self.allowed@.contains(check),
    {
        let mut i: usize = 0;
        while i < self.allowed.len()
            invariant
                i <= self.allowed@.len(),
                forall|j: int| 0 <= j < i ==> #[trigger] self.allowed@[j] != check,
            decreases self.allowed@.len() - i,
        {
            if self.allowed[i] == check {
                return true;
            }
            i = i + 1;
        }
        false
    }

    fn push(&mut self, finding: Finding)
        ensures
            final(self).found() == old(self).found() + kept(old(self).allowed(), seq![finding@]),
            final(self).allowed() == old(self).allowed(),
            final(self).track() == old(self).track(),
            final(self).count() == old(self).count(),
            old(self).wf() ==> final(self).wf(),
    {
        proof {
            reveal_with_fuel(Seq::filter, 2);
            assert(seq![finding@].drop_last() =~= Seq::<FindingView>::empty());
        }
        if !self.is_allowed(finding.check) {
            self.findings.push(finding);
        }
        assert(self.found() =~= old(self).found() + kept(old(self).allowed(), seq![finding@]));
    }

    /// Resolve normalized components through the recorded symlinks, the way
    /// the kernel would walk the extracted tree at this point in time.
    fn resolve(&self, comps: &[String]) -> (r: Resolution)
        ensures
            resolution_view(r) == resolution(self.track().links, paths::texts(comps@)),
    {
        let ghost links = self.track().links;
        let ghost goal = resolution(links, paths::texts(comps@));
        let mut out: Vec<String> = Vec::new();
        let mut crossed: Vec<String> = Vec::new();
        let mut rest: Vec<String> = paths::copies(comps);
        let mut i: usize = 0;
        proof {
            assert(paths::texts(out@) =~= seq![]);
            assert(paths::texts(crossed@) =~= seq![]);
            assert(paths::texts(rest@).skip(0) =~= paths::texts(comps@));
        }
        while i < rest.len()
            invariant
                i <= rest@.len(),
                links == self.track().links,
                goal == resolution(self.track().links, paths::texts(comps@)),
                crossed@.len() <= MAX_LINK_HOPS,
                goal == resolve_from(
                    links,
                    paths::texts(rest@).skip(i as int),
                    Walked { out: paths::texts(out@), crossed: paths::texts(crossed@) },
                ),
            decreases MAX_LINK_HOPS - crossed@.len(), rest@.len() - i,
        {
            let ghost left = paths::texts(rest@).skip(i as int);
            let ghost before = out@;
            let comp = rest[i].clone();
            out.push(comp);
            proof {
                assert(left[0] == comp@);
                assert(left.skip(1) =~= paths::texts(rest@).skip(i + 1));
                assert(paths::texts(out@) =~= paths::texts(before).push(comp@));
            }
            i = i + 1;
            let key = paths::join(out.as_slice());
            match self.links.get(key.as_str()) {
                None => {},
                Some(LinkState::Escaped) => {
                    return Resolution::Escaped { via: key };
                },
                Some(LinkState::Inside(target)) => {
                    if crossed.len() >= MAX_LINK_HOPS {
                        // Loop or absurd chain: treat as hostile.
                        return Resolution::Escaped { via: key };
                    }
                    // Follow chains: the target's own path may cross links.
                    let ghost so_far = crossed@;
                    crossed.push(key);
                    let again = spliced(target.as_slice(), rest.as_slice(), i);
                    proof {
                        assert(paths::texts(crossed@) =~= paths::texts(so_far).push(key@));
                        assert(paths::texts(again@).skip(0) =~= paths::texts(again@));
                    }
                    rest = again;
                    out = Vec::new();
                    i = 0;
                    assert(paths::texts(out@) =~= seq![]);
                },
            }
        }
        assert(paths::texts(rest@).skip(i as int).len() == 0);
        Resolution::Inside { comps: out, crossed }
    }

    /// Count `path`, and add the finding on it if it was seen before.
    pub(crate) fn check_duplicate(&mut self, e: &Entry, path: &str, found: &mut Vec<Finding>)
        requires
            seen_before(old(self).track(), path@).0 < usize::MAX,
        ensures
            findings::finding_views(final(found)@) == findings::finding_views(old(found)@)
                + duplicate_findings(old(self).track(), e@, path@),
            final(self).track() == seen_next(old(self).track(), e@, path@),
            forall|n: nat| old(self).seen_within(n) ==> final(self).seen_within(n + 1),
            final(self).found() == old(self).found(),
            final(self).count() == old(self).count(),
            final(self).allowed() == old(self).allowed(),
    {
        let non_dir: bool = e.kind != EntryKind::Dir;
        let (before, was_non_dir): (usize, bool) = match self.seen.get(path) {
            Some(slot) => *slot,
            None => (0, false),
        };
        let ghost found_before = findings::finding_views(found@);
        let ghost t = self.track();
        assert(seen_before(t, path@) == (before as nat, was_non_dir));
        self.seen.insert(path.to_owned(), (before + 1, was_non_dir || non_dir));
        assert(self.track().seen =~= t.seen.insert(
            path@,
            ((before + 1) as nat, was_non_dir || non_dir),
        ));
        // Repeated directories are normal (zip writes them liberally);
        // flag only when a non-directory is involved on either side.
        if before >= 1 && (non_dir || was_non_dir) {
            let mut detail = "path appears ".to_owned();
            text::push_decimal(&mut detail, before as u128 + 1);
            detail.append(" times; the last entry silently wins on extraction");
            found.push(Finding::warning(Check::DuplicatePath, e.path.as_str(), detail.as_str()));
        }
        assert(findings::finding_views(found@) =~= found_before + duplicate_findings(t, e@, path@));
    }

    /// No path was seen more than `n` times.
    pub(crate) closed spec fn seen_within(&self, n: nat) -> bool {
        forall|path: Seq<char>| #[trigger]
            self.seen@.contains_key(path) ==> self.seen@[path].0 <= n
    }

    /// Remember the spelling, and add the finding on it if the path was first
    /// spelled otherwise.
    pub(crate) fn check_case_collision(
        &mut self,
        e: &Entry,
        comps: &[String],
        path: &str,
        found: &mut Vec<Finding>,
    )
        requires
            path@ == paths::joined(paths::texts(comps@)),
        ensures
            findings::finding_views(final(found)@) == findings::finding_views(old(found)@)
                + case_findings(old(self).track(), e@, paths::texts(comps@)),
            final(self).track() == folded_next(old(self).track(), paths::texts(comps@)),
            forall|n: nat| old(self).seen_within(n) ==> final(self).seen_within(n),
            final(self).found() == old(self).found(),
            final(self).count() == old(self).count(),
            final(self).allowed() == old(self).allowed(),
    {
        let ghost before = findings::finding_views(found@);
        let ghost t = self.track();
        let key = paths::fold_case(comps);
        let mut unseen: bool = false;
        match self.folded.get(key.as_str()) {
            None => {
                unseen = true;
            },
            Some(first) => {
                assert(t.folded[key@] == first@);
                // The exact same path is left to the duplicate check.
                if !text::same(first.as_str(), path) {
                    let mut detail = "collides with '".to_owned();
                    detail.append(first.as_str());
                    detail.append("' on case-insensitive filesystems");
                    found.push(
                        Finding::warning(Check::CaseCollision, e.path.as_str(), detail.as_str()),
                    );
                }
            },
        }
        if unseen {
            self.folded.insert(key, path.to_owned());
            assert(self.track().folded =~= t.folded.insert(key@, path@));
        }
        assert(findings::finding_views(found@) =~= before + case_findings(
            t,
            e@,
            paths::texts(comps@),
        ));
    }

    /// Where does the *parent directory* of this entry actually land, once
    /// in-archive symlinks are honored?
    fn check_parent(&self, e: &Entry, comps: &[String], found: &mut Vec<Finding>) -> (r: Vec<
        String,
    >)
        requires
            comps@.len() > 0,
        ensures
            findings::finding_views(final(found)@) == findings::finding_views(old(found)@)
                + parent_findings(self.track().links, e@, paths::texts(comps@)),
            paths::texts(r@) == link_base(self.track().links, paths::texts(comps@)),
    {
        let ghost before = findings::finding_views(found@);
        let ghost t = self.track();
        let ghost all = paths::texts(comps@);
        let last: usize = comps.len() - 1;
        let parent = vstd::slice::slice_subrange(comps, 0, last);
        assert(paths::texts(parent@) =~= all.drop_last());
        let base = match self.resolve(parent) {
            Resolution::Escaped { via } => {
                let mut detail = "written through symlink '".to_owned();
                detail.append(via.as_str());
                detail.append("', which points outside the extraction root");
                found.push(
                    Finding::critical(Check::LinkIndirection, e.path.as_str(), detail.as_str()),
                );
                paths::copies(parent)
            },
            Resolution::Inside { comps: lands, crossed } => {
                if crossed.len() > 0 {
                    let mut detail = "written through in-archive symlink '".to_owned();
                    detail.append(crossed[crossed.len() - 1].as_str());
                    detail.append("'; extraction lands at '");
                    detail.append(paths::join(lands.as_slice()).as_str());
                    detail.append("/");
                    detail.append(comps[last].as_str());
                    detail.append("'");
                    found.push(
                        Finding::warning(Check::LinkIndirection, e.path.as_str(), detail.as_str()),
                    );
                }
                lands
            },
        };
        assert(findings::finding_views(found@) =~= before + parent_findings(t.links, e@, all));
        base
    }

    /// Does this entry overwrite a path that is already a symlink?
    /// Extractors that do not unlink first will follow it.
    fn check_overwrite(&self, e: &Entry, path: &str, found: &mut Vec<Finding>)
        ensures
            findings::finding_views(final(found)@) == findings::finding_views(old(found)@)
                + overwrite_findings(self.track().links, e@, path@),
    {
        let ghost before = findings::finding_views(found@);
        if e.kind != EntryKind::Symlink {
            match self.links.get(path) {
                None => {},
                Some(LinkState::Escaped) => {
                    let mut detail = "overwrites earlier symlink '".to_owned();
                    detail.append(path);
                    detail.append(
                        "' that points outside the root; extractors that follow existing links write outside",
                    );
                    found.push(
                        Finding::critical(Check::LinkIndirection, e.path.as_str(), detail.as_str()),
                    );
                },
                Some(LinkState::Inside(target)) => {
                    let mut detail = "overwrites earlier symlink '".to_owned();
                    detail.append(path);
                    detail.append("' (resolves to '");
                    detail.append(paths::join(target.as_slice()).as_str());
                    detail.append("')");
                    found.push(
                        Finding::warning(Check::LinkIndirection, e.path.as_str(), detail.as_str()),
                    );
                },
            }
        }
        assert(findings::finding_views(found@) =~= before + overwrite_findings(
            self.track().links,
            e@,
            path@,
        ));
    }

    /// Resolve a symlink's target relative to where the link *actually*
    /// lives (`base`: the parent already resolved through earlier symlinks).
    fn check_symlink(&self, e: &Entry, base: &[String], found: &mut Vec<Finding>) -> (r: LinkState)
        ensures
            forall|comps: Components|
                paths::texts(base@) == #[trigger] link_base(self.track().links, comps) ==> {
                    &&& findings::finding_views(final(found)@) == findings::finding_views(
                        old(found)@,
                    ) + symlink_findings(self.track().links, e@, comps)
                    &&& link_view(r) == symlink_state(self.track().links, e@, comps)
                },
    {
        let target: &str = link_text(e);
        match paths::resolve_relative(base, target) {
            PathCheck::Empty => {
                found.push(
                    Finding::warning(
                        Check::LinkEscape,
                        e.path.as_str(),
                        "symlink has an empty target",
                    ),
                );
                LinkState::Escaped
            },
            PathCheck::Absolute { kind } => {
                let mut detail = "symlink target '".to_owned();
                detail.append(target);
                detail.append("' is absolute (");
                detail.append(kind);
                detail.append(")");
                found.push(Finding::critical(Check::LinkEscape, e.path.as_str(), detail.as_str()));
                LinkState::Escaped
            },
            PathCheck::Escapes => {
                let mut detail = "symlink target '".to_owned();
                detail.append(target);
                detail.append("' escapes the extraction root");
                found.push(Finding::critical(Check::LinkEscape, e.path.as_str(), detail.as_str()));
                LinkState::Escaped
            },
            PathCheck::Inside(inner) => match self.resolve(inner.as_slice()) {
                Resolution::Escaped { via } => {
                    let mut detail = "symlink target '".to_owned();
                    detail.append(target);
                    detail.append("' resolves through symlink '");
                    detail.append(via.as_str());
                    detail.append("' to outside the root");
                    found.push(
                        Finding::critical(Check::LinkEscape, e.path.as_str(), detail.as_str()),
                    );
                    LinkState::Escaped
                },
                Resolution::Inside { comps: lands, .. } => LinkState::Inside(lands),
            },
        }
    }

    /// Hard-link targets are archive-root relative (tar semantics).
    fn check_hardlink(&self, e: &Entry, found: &mut Vec<Finding>)
        ensures
            findings::finding_views(final(found)@) == findings::finding_views(old(found)@)
                + hardlink_findings(self.track().links, e@),
    {
        let ghost before = findings::finding_views(found@);
        let target: &str = link_text(e);
        match paths::classify(target) {
            PathCheck::Empty => {
                found.push(
                    Finding::warning(
                        Check::LinkEscape,
                        e.path.as_str(),
                        "hard link has an empty target",
                    ),
                );
            },
            PathCheck::Absolute { kind } => {
                let mut detail = "hard link target '".to_owned();
                detail.append(target);
                detail.append("' is absolute (");
                detail.append(kind);
                detail.append("); links to a file outside the root");
                found.push(Finding::critical(Check::LinkEscape, e.path.as_str(), detail.as_str()));
            },
            PathCheck::Escapes => {
                let mut detail = "hard link target '".to_owned();
                detail.append(target);
                detail.append("' escapes the extraction root");
                found.push(Finding::critical(Check::LinkEscape, e.path.as_str(), detail.as_str()));
            },
            PathCheck::Inside(inner) => {
                if let Resolution::Escaped { via } = self.resolve(inner.as_slice()) {
                    let mut detail = "hard link target '".to_owned();
                    detail.append(target);
                    detail.append("' resolves through symlink '");
                    detail.append(via.as_str());
                    detail.append("' to outside the root");
                    found.push(
                        Finding::critical(Check::LinkEscape, e.path.as_str(), detail.as_str()),
                    );
                }
            },
        }
        assert(findings::finding_views(found@) =~= before + hardlink_findings(
            self.track().links,
            e@,
        ));
    }

    /// Audit and remember an entry named `comps`.
    pub(crate) fn record_inside(&mut self, e: &Entry, comps: Vec<String>, found: &mut Vec<Finding>)
        requires
            old(self).wf(),
            old(self).count() < usize::MAX,
        ensures
            findings::finding_views(final(found)@) == findings::finding_views(old(found)@)
                + inside_findings(old(self).track(), e@, paths::texts(comps@)),
            final(self).track() == inside_next(old(self).track(), e@, paths::texts(comps@)),
            final(self).seen_within(old(self).count() + 1),
            final(self).found() == old(self).found(),
            final(self).count() == old(self).count(),
            final(self).allowed() == old(self).allowed(),
    {
        let ghost before = findings::finding_views(found@);
        let ghost t = self.track();
        let ghost all = paths::texts(comps@);
        if comps.len() == 0 {
            // the "." entry: the root itself, nothing to track
            assert(before + inside_findings(t, e@, all) =~= before);
            return ;
        }
        let path = paths::join(comps.as_slice());
        assert(self.seen_within(self.count()));
        self.check_duplicate(e, path.as_str(), found);
        self.check_case_collision(e, comps.as_slice(), path.as_str(), found);
        assert(self.track().links == t.links);
        let base = self.check_parent(e, comps.as_slice(), found);
        self.check_overwrite(e, path.as_str(), found);
        match e.kind {
            EntryKind::Symlink => {
                let state = self.check_symlink(e, base.as_slice(), found);
                let ghost links = self.links@;
                self.links.insert(path, state);
                assert(link_views(self.links@) =~= link_views(links).insert(
                    path@,
                    link_view(state),
                ));
            },
            EntryKind::Hardlink => {
                self.check_hardlink(e, found);
            },
            _ => {},
        }
        proof {
            lemma_in_order(
                before,
                duplicate_findings(t, e@, path@),
                case_findings(t, e@, all),
                parent_findings(t.links, e@, all),
                overwrite_findings(t.links, e@, path@),
                link_findings(t.links, e@, all),
            );
        }
        assert(self.track() =~= inside_next(t, e@, all));
    }

    /// Feed one entry, in archive order.
    pub fn record(&mut self, e: &Entry)
        requires
            old(self).wf(),
            old(self).count() < usize::MAX,
        ensures
            final(self).wf(),
            final(self).track() == track_next(old(self).track(), e@),
            final(self).found() == old(self).found() + kept(
                old(self).allowed(),
                entry_findings(old(self).track(), e@),
            ),
            final(self).count() == old(self).count() + 1,
            final(self).allowed() == old(self).allowed(),
    {
        let ghost t = self.track();
        let mut found: Vec<Finding> = Vec::new();
        assert(findings::finding_views(found@) =~= seq![]);
        check_mode(e, &mut found);
        check_kind(e, &mut found);
        match paths::classify(e.path.as_str()) {
            PathCheck::Empty => {
                found.push(
                    Finding::warning(
                        Check::Traversal,
                        "(empty)",
                        "entry has an empty name; extractors disagree on what to do with it",
                    ),
                );
            },
            PathCheck::Absolute { kind } => {
                let mut detail = "entry name is absolute (".to_owned();
                detail.append(kind);
                detail.append("); extraction can write anywhere");
                found.push(
                    Finding::critical(Check::AbsolutePath, e.path.as_str(), detail.as_str()),
                );
            },
            PathCheck::Escapes => {
                found.push(
                    Finding::critical(
                        Check::Traversal,
                        e.path.as_str(),
                        "entry name climbs above the extraction root via '..'",
                    ),
                );
            },
            PathCheck::Inside(comps) => {
                self.record_inside(e, comps, &mut found);
            },
        }
        self.entries = self.entries + 1;
        assert(findings::finding_views(found@) =~= entry_findings(t, e@));
        self.push_all(found);
    }

    /// Add findings, allowed checks left out.
    fn push_all(&mut self, found: Vec<Finding>)
        ensures
            final(self).found() == old(self).found() + kept(
                old(self).allowed(),
                findings::finding_views(found@),
            ),
            final(self).allowed() == old(self).allowed(),
            final(self).track() == old(self).track(),
            final(self).count() == old(self).count(),
            old(self).wf() ==> final(self).wf(),
    {
        let ghost views = findings::finding_views(found@);
        let ghost allowed = self.allowed();
        proof {
            assert(views.take(0) =~= seq![]);
            reveal_with_fuel(Seq::filter, 2);
            assert(self.found() + kept(allowed, views.take(0)) =~= self.found());
        }
        for finding in it: found
            invariant
                it.seq() == found@,
                views == findings::finding_views(found@),
                allowed == old(self).allowed(),
                self.allowed() == allowed,
                self.found() == old(self).found() + kept(allowed, views.take(it.index() as int)),
                self.track() == old(self).track(),
                self.count() == old(self).count(),
                old(self).wf() ==> self.wf(),
        {
            let ghost i: int = it.index() as int;
            proof {
                let pred = |f: FindingView| !allowed.contains(f.check);
                assert(views.take(i + 1) =~= views.take(i) + seq![views[i]]);
                Seq::filter_distributes_over_add(views.take(i), seq![views[i]], pred);
                assert(finding@ == views[i]);
            }
            self.push(finding);
            assert(self.found() =~= old(self).found() + kept(allowed, views.take(i + 1)));
        }
        assert(views.take(views.len() as int) =~= views);
    }

    /// Run the full pipeline over `entries` (plus any findings the format
    /// reader already produced, e.g. zip name mismatches).
    pub fn run(entries: &[Entry], pre: Vec<Finding>, allowed: &[Check]) -> (r: (
        Vec<Finding>,
        usize,
    ))
        ensures
            findings::finding_views(r.0@) == kept(
                allowed@,
                findings::finding_views(pre@) + raised(entry::entry_views(entries@)),
            ),
            r.1 == entries@.len(),
    {
        let ghost views = entry::entry_views(entries@);
        let ghost first = findings::finding_views(pre@);
        let mut auditor = Auditor::new(allowed);
        auditor.push_all(pre);
        let mut i: usize = 0;
        proof {
            assert(views.take(0) =~= seq![]);
            assert(first + raised(views.take(0)) =~= first);
            assert(auditor.found() =~= kept(allowed@, first));
        }
        while i < entries.len()
            invariant
                i <= entries@.len(),
                views == entry::entry_views(entries@),
                auditor.wf(),
                auditor.allowed() == allowed@,
                auditor.count() == i,
                auditor.track() == track_after(views.take(i as int)),
                auditor.found() == kept(allowed@, first + raised(views.take(i as int))),
            decreases entries@.len() - i,
        {
            proof {
                let longer = views.take(i + 1);
                let pred = |f: FindingView| !allowed@.contains(f.check);
                assert(longer.drop_last() =~= views.take(i as int));
                assert(longer.last() == entries@[i as int]@);
                let new = entry_findings(auditor.track(), entries@[i as int]@);
                assert(first + raised(longer) =~= (first + raised(views.take(i as int))) + new);
                Seq::filter_distributes_over_add(
                    first + raised(views.take(i as int)),
                    new,
                    pred,
                );
            }
            auditor.record(&entries[i]);
            i = i + 1;
        }
        assert(views.take(i as int) =~= views);
        (auditor.findings, auditor.entries)
    }
}

/// `head`, followed by `rest` from `i` on.
fn spliced(head: &[String], rest: &[String], i: usize) -> (r: Vec<String>)
    requires
        i <= rest@.len(),
    ensures
        paths::texts(r@) == paths::texts(head@) + paths::texts(rest@).skip(i as int),
{
    let mut out = paths::copies(head);
    let tail = vstd::slice::slice_subrange(rest, i, rest.len());
    let ghost before = out@;
    let mut more = paths::copies(tail);
    let ghost added = more@;
    out.append(&mut more);
    proof {
        assert(paths::texts(tail@) =~= paths::texts(rest@).skip(i as int));
        assert(paths::texts(out@) =~= paths::texts(before) + paths::texts(added));
    }
    out
}

/// The link target of `e`; a missing one counts as empty.
fn link_text(e: &Entry) -> (r: &str)
    ensures
        r@ == target_of(e@),
{
    match &e.link_target {
        Some(target) => target.as_str(),
        None => {
            proof {
                reveal_strlit("");
                assert(""@ =~= seq![]);
            }
            ""
        },
    }
}

} // verus!
