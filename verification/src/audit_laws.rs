//! What holds of the audit as a whole: which findings are reported, what a
//! clean audit means, how planted links are remembered, and how paths are
//! counted.
use vstd::prelude::*;

use crate::audit;
use crate::audit::{LinkView, Links, Resolved, Track, Walked};
use crate::entry::{EntryKind, EntryView};
use crate::findings;
use crate::findings::{Check, FindingView, Severity};
use crate::paths;
use crate::paths::{Components, PathView};
use crate::paths_laws;
use crate::text;

verus! {

/// Exactly the findings of checks that are not allowed are reported.
pub proof fn law_allowed_checks_are_left_out(
    allowed: Seq<Check>,
    found: Seq<FindingView>,
    f: FindingView,
)
    ensures
        audit::kept(allowed, found).contains(f) <==> found.contains(f) && !allowed.contains(
            f.check,
        ),
    decreases found.len(),
{
    reveal_with_fuel(Seq::filter, 1);
    if found.len() > 0 {
        let front = found.drop_last();
        let last = found.last();
        law_allowed_checks_are_left_out(allowed, front, f);
        let k = audit::kept(allowed, found);
        let kf = audit::kept(allowed, front);
        assert(found =~= front.push(last));
        if found.contains(f) && f != last {
            let i = found.index_of(f);
            assert(front[i] == f);
        }
        if front.contains(f) {
            let i = front.index_of(f);
            assert(found[i] == f);
        }
        if allowed.contains(last.check) {
            assert(k == kf);
        } else {
            assert(k == kf.push(last));
            assert(k[kf.len() as int] == last);
            assert(found[front.len() as int] == last);
            if kf.contains(f) {
                let i = kf.index_of(f);
                assert(k[i] == f);
            }
            if k.contains(f) && f != last {
                let i = k.index_of(f);
                assert(kf[i] == f);
            }
        }
        if found.contains(f) && f == last {
            assert(found[front.len() as int] == f);
        }
    }
}

proof fn lemma_raised_prefix(entries: Seq<EntryView>, n: int)
    requires
        0 <= n <= entries.len(),
    ensures
        audit::raised(entries.take(n)).is_prefix_of(audit::raised(entries)),
    decreases entries.len(),
{
    if n < entries.len() {
        lemma_raised_prefix(entries.drop_last(), n);
        assert(entries.drop_last().take(n) =~= entries.take(n));
    } else {
        assert(entries.take(n) =~= entries);
    }
}

/// What comes later in the archive neither adds to nor takes from the
/// findings on what came before.
pub proof fn law_earlier_findings_stand(entries: Seq<EntryView>, more: Seq<EntryView>)
    ensures
        audit::raised(entries).is_prefix_of(audit::raised(entries + more)),
{
    lemma_raised_prefix(entries + more, entries.len() as int);
    assert((entries + more).take(entries.len() as int) =~= entries);
}

/// Every finding on an entry, seen behind the entries before it, is among
/// the findings on the archive.
pub proof fn law_every_entry_is_audited(entries: Seq<EntryView>, i: int, k: int)
    requires
        0 <= i < entries.len(),
        0 <= k < audit::entry_findings(audit::track_after(entries.take(i)), entries[i]).len(),
    ensures
        audit::raised(entries).contains(
            audit::entry_findings(audit::track_after(entries.take(i)), entries[i])[k],
        ),
{
    let upto = entries.take(i + 1);
    assert(upto.drop_last() =~= entries.take(i));
    assert(upto.last() == entries[i]);
    lemma_raised_prefix(entries, i + 1);
    let here = audit::raised(entries.take(i));
    let all = audit::raised(entries);
    assert(all[here.len() + k] == audit::raised(upto)[here.len() + k]);
}

/// An absolute name, a name that climbs out of the root, and an empty name
/// are reported whatever else is true of the entry.
pub proof fn law_hostile_names_are_reported(t: Track, e: EntryView)
    ensures
        ({
            let found = audit::entry_findings(t, e);
            match paths::classified(e.path) {
                PathView::Absolute { .. } => found.len() > 0 && found.last().check
                    == Check::AbsolutePath && found.last().severity == Severity::Critical
                    && found.last().path == e.path,
                PathView::Escapes => found.len() > 0 && found.last().check == Check::Traversal
                    && found.last().severity == Severity::Critical && found.last().path == e.path,
                PathView::Empty => found.len() > 0 && found.last().check == Check::Traversal
                    && found.last().severity == Severity::Warning,
                PathView::Inside(_) => true,
            }
        }),
{
}

/// Is no finding critical?
pub open spec fn none_critical(found: Seq<FindingView>) -> bool {
    forall|i: int| 0 <= i < found.len() ==> (#[trigger] found[i]).severity != Severity::Critical
}

/// Does `e` stay inside the root: its name, the directory it is written to
/// once links are honored, what it overwrites, and what it links to? An
/// empty name or target leads nowhere.
pub open spec fn contained(t: Track, e: EntryView) -> bool {
    match paths::classified(e.path) {
        PathView::Empty => true,
        PathView::Inside(comps) => comps.len() == 0 || {
            &&& audit::resolution(t.links, comps.drop_last()) is Inside
            &&& (e.kind != EntryKind::Symlink && t.links.contains_key(paths::joined(comps))
                ==> t.links[paths::joined(comps)] is Inside)
            &&& (e.kind == EntryKind::Symlink ==> audit::target_of(e).len() == 0
                || audit::symlink_state(t.links, e, comps) is Inside)
            &&& (e.kind == EntryKind::Hardlink ==> (match paths::classified(audit::target_of(e)) {
                PathView::Empty => true,
                PathView::Inside(inner) => audit::resolution(t.links, inner) is Inside,
                _ => false,
            }))
        },
        _ => false,
    }
}

/// Are the mode bits of `e` harmless, and is it no device node?
pub open spec fn unprivileged(e: EntryView) -> bool {
    &&& e.kind != EntryKind::CharDevice
    &&& e.kind != EntryKind::BlockDevice
    &&& ((e.kind == EntryKind::File || e.kind == EntryKind::Dir) ==> (e.mode matches Some(mode)
        ==> mode & 0o4000 == 0 && mode & 0o2000 == 0))
}

proof fn lemma_no_critical_finding(t: Track, e: EntryView)
    requires
        none_critical(audit::entry_findings(t, e)),
    ensures
        contained(t, e),
        unprivileged(e),
{
    let m = audit::mode_findings(e);
    let k = audit::kind_findings(e);
    let n = audit::name_findings(t, e);
    let all = audit::entry_findings(t, e);
    assert(all =~= m + k + n);
    assert forall|i: int| 0 <= i < m.len() implies (#[trigger] m[i]).severity
        != Severity::Critical by {
        assert(all[i] == m[i]);
    }
    assert forall|i: int| 0 <= i < k.len() implies (#[trigger] k[i]).severity
        != Severity::Critical by {
        assert(all[m.len() + i] == k[i]);
    }
    assert forall|i: int| 0 <= i < n.len() implies (#[trigger] n[i]).severity
        != Severity::Critical by {
        assert(all[m.len() + k.len() + i] == n[i]);
    }
    lemma_modes(e);
    if e.kind == EntryKind::CharDevice || e.kind == EntryKind::BlockDevice {
        assert(k[0].severity == Severity::Critical);
    }
    match paths::classified(e.path) {
        PathView::Inside(comps) => {
            if comps.len() > 0 {
                lemma_inside_parts(t, e, comps);
            }
        },
        PathView::Empty => {},
        _ => {
            assert(n[0].severity == Severity::Critical);
        },
    }
}

proof fn lemma_modes(e: EntryView)
    requires
        none_critical(audit::mode_findings(e)),
    ensures
        (e.kind == EntryKind::File || e.kind == EntryKind::Dir) ==> (e.mode matches Some(mode)
            ==> mode & 0o4000 == 0 && mode & 0o2000 == 0),
{
    if e.kind == EntryKind::File || e.kind == EntryKind::Dir {
        if let Some(mode) = e.mode {
            let m = audit::mode_findings(e);
            if mode & 0o4000 != 0 {
                assert(m[0].severity == Severity::Critical);
            } else if mode & 0o2000 != 0 {
                assert(m[0].severity == Severity::Critical);
            }
        }
    }
}

proof fn lemma_inside_parts(t: Track, e: EntryView, comps: Components)
    requires
        comps.len() > 0,
        paths::classified(e.path) == PathView::Inside(comps),
        none_critical(audit::inside_findings(t, e, comps)),
    ensures
        contained(t, e),
{
    let path = paths::joined(comps);
    let a = audit::duplicate_findings(t, e, path);
    let b = audit::case_findings(t, e, comps);
    let c = audit::parent_findings(t.links, e, comps);
    let d = audit::overwrite_findings(t.links, e, path);
    let l = audit::link_findings(t.links, e, comps);
    let all = audit::inside_findings(t, e, comps);
    assert(all =~= a + b + c + d + l);
    if audit::resolution(t.links, comps.drop_last()) is Escaped {
        assert(all[a.len() + b.len() as int] == c[0]);
    }
    if e.kind != EntryKind::Symlink && t.links.contains_key(path) && t.links[path] is Escaped {
        assert(all[a.len() + b.len() + c.len() as int] == d[0]);
    }
    if l.len() > 0 {
        assert(all[a.len() + b.len() + c.len() + d.len() as int] == l[0]);
    }
}

/// What passing means: if an archive raises no critical finding, every entry
/// stays inside the root — by its normalized name, with that name followed
/// through every link planted before it, and in what it links to — and none
/// is a device or carries setuid or setgid. A name is normalized first: a
/// `..` takes back the component in front of it, be that a link or not.
pub proof fn law_no_critical_finding_means_contained(entries: Seq<EntryView>, i: int)
    requires
        0 <= i < entries.len(),
        none_critical(audit::raised(entries)),
    ensures
        contained(audit::track_after(entries.take(i)), entries[i]),
        unprivileged(entries[i]),
{
    let t = audit::track_after(entries.take(i));
    let found = audit::entry_findings(t, entries[i]);
    let all = audit::raised(entries);
    assert forall|k: int| 0 <= k < found.len() implies (#[trigger] found[k]).severity
        != Severity::Critical by {
        law_every_entry_is_audited(entries, i, k);
        let j = all.index_of(found[k]);
        assert(all[j].severity != Severity::Critical);
    }
    lemma_no_critical_finding(t, entries[i]);
}

proof fn lemma_resolve_grows(links: Links, rest: Components, w: Walked)
    ensures
        audit::resolve_from(links, rest, w) matches Resolved::Inside { comps, crossed } ==> {
            &&& w.crossed.len() <= crossed.len()
            &&& (crossed.len() == w.crossed.len() ==> comps == w.out + rest)
            &&& (w.crossed.len() <= audit::MAX_LINK_HOPS ==> crossed.len()
                <= audit::MAX_LINK_HOPS)
        },
    decreases audit::MAX_LINK_HOPS + 1 - w.crossed.len(), rest.len(),
{
    if rest.len() > 0 {
        let out = w.out.push(rest[0]);
        let key = paths::joined(out);
        if !links.contains_key(key) {
            lemma_resolve_grows(links, rest.skip(1), Walked { out, crossed: w.crossed });
            assert(out + rest.skip(1) =~= w.out + rest);
        } else if let LinkView::Inside(target) = links[key] {
            if w.crossed.len() < audit::MAX_LINK_HOPS {
                lemma_resolve_grows(
                    links,
                    target + rest.skip(1),
                    Walked { out: seq![], crossed: w.crossed.push(key) },
                );
            }
        }
    } else {
        assert(w.out + rest =~= w.out);
    }
}

/// The loop guard: however links point at each other, no more than 40 are
/// followed before the path counts as hostile; and a path that crosses none
/// ends where its name says.
pub proof fn law_hops_are_bounded(links: Links, path: Components)
    ensures
        audit::resolution(links, path) matches Resolved::Inside { comps, crossed } ==> {
            &&& crossed.len() <= 40
            &&& (crossed.len() == 0 ==> comps == path)
        },
{
    lemma_resolve_grows(links, path, Walked { out: seq![], crossed: seq![] });
    assert(Components::empty() + path =~= path);
}

/// Is no leading part of `path` a link?
pub open spec fn link_free(links: Links, path: Components) -> bool {
    forall|k: int|
        0 < k <= path.len() ==> !links.contains_key(#[trigger] paths::joined(path.take(k)))
}

proof fn lemma_resolve_link_free(links: Links, rest: Components, w: Walked)
    requires
        link_free(links, w.out),
    ensures
        audit::resolve_from(links, rest, w) matches Resolved::Inside { comps, .. } ==> link_free(
            links,
            comps,
        ),
    decreases audit::MAX_LINK_HOPS + 1 - w.crossed.len(), rest.len(),
{
    if rest.len() > 0 {
        let out = w.out.push(rest[0]);
        let key = paths::joined(out);
        if !links.contains_key(key) {
            assert forall|k: int| 0 < k <= out.len() implies !links.contains_key(
                #[trigger] paths::joined(out.take(k)),
            ) by {
                if k < out.len() {
                    assert(out.take(k) =~= w.out.take(k));
                } else {
                    assert(out.take(k) =~= out);
                }
            }
            lemma_resolve_link_free(links, rest.skip(1), Walked { out, crossed: w.crossed });
        } else if let LinkView::Inside(target) = links[key] {
            if w.crossed.len() < audit::MAX_LINK_HOPS {
                lemma_resolve_link_free(
                    links,
                    target + rest.skip(1),
                    Walked { out: seq![], crossed: w.crossed.push(key) },
                );
            }
        }
    }
}

/// Links are followed to their end: where a path resolves to inside the
/// root, no part of the place it ends at is a link planted so far.
pub proof fn law_resolved_paths_cross_no_link(links: Links, path: Components)
    ensures
        audit::resolution(links, path) matches Resolved::Inside { comps, .. } ==> link_free(
            links,
            comps,
        ),
{
    lemma_resolve_link_free(links, path, Walked { out: seq![], crossed: seq![] });
}

/// A clean audit means all of this: the name stays inside; the entry is
/// written exactly where the name says, through no link and over none; a
/// symlink or hard link leads to a place inside; mode bits and kind are
/// harmless.
pub proof fn law_clean_audit(entries: Seq<EntryView>, i: int)
    requires
        0 <= i < entries.len(),
        audit::raised(entries).len() == 0,
    ensures
        ({
            let t = audit::track_after(entries.take(i));
            let e = entries[i];
            &&& paths::classified(e.path) matches PathView::Inside(comps)
            &&& (comps.len() > 0 ==> {
                &&& audit::resolution(t.links, comps.drop_last()) == (Resolved::Inside {
                    comps: comps.drop_last(),
                    crossed: seq![],
                })
                &&& (e.kind == EntryKind::Symlink ==> audit::symlink_state(t.links, e, comps)
                    is Inside)
                &&& (e.kind != EntryKind::Symlink ==> !t.links.contains_key(paths::joined(comps)))
            })
            &&& contained(t, e)
            &&& unprivileged(e)
            &&& !(e.kind is Fifo)
            &&& !(e.kind is Other)
        }),
{
    let t = audit::track_after(entries.take(i));
    let e = entries[i];
    let found = audit::entry_findings(t, e);
    if found.len() > 0 {
        law_every_entry_is_audited(entries, i, 0);
    }
    lemma_no_critical_finding(t, e);
    assert(audit::kind_findings(e).len() == 0);
    assert(audit::name_findings(t, e).len() == 0);
    if let PathView::Inside(comps) = paths::classified(e.path) {
        if comps.len() > 0 {
            let path = paths::joined(comps);
            assert(audit::parent_findings(t.links, e, comps).len() == 0);
            assert(audit::overwrite_findings(t.links, e, path).len() == 0);
            assert(audit::link_findings(t.links, e, comps).len() == 0);
            law_hops_are_bounded(t.links, comps.drop_last());
            let r = audit::resolution(t.links, comps.drop_last());
            if let Resolved::Inside { comps: lands, crossed } = r {
                assert(crossed =~= seq![]);
            }
        }
    }
}

/// A symlink whose target is empty, absolute, climbs out, or leads out
/// through earlier links is reported, and remembered as escaped.
pub proof fn law_escaping_symlink_is_remembered(t: Track, e: EntryView, comps: Components)
    requires
        e.kind == EntryKind::Symlink,
        paths::classified(e.path) == PathView::Inside(comps),
        comps.len() > 0,
        match paths::resolved(audit::link_base(t.links, comps), audit::target_of(e)) {
            PathView::Inside(inner) => audit::resolution(t.links, inner) is Escaped,
            _ => true,
        },
    ensures
        audit::track_next(t, e).links.contains_key(paths::joined(comps)),
        audit::track_next(t, e).links[paths::joined(comps)] is Escaped,
        audit::entry_findings(t, e).len() > 0,
        audit::entry_findings(t, e).last().check == Check::LinkEscape,
        audit::entry_findings(t, e).last().path == e.path,
{
    let l = audit::link_findings(t.links, e, comps);
    assert(l.len() == 1);
    assert(audit::inside_findings(t, e, comps).last() == l[0]);
}

proof fn lemma_first_link(
    links: Links,
    path: Components,
    at: int,
    k: int,
)
    requires
        0 <= at < k <= path.len(),
        links.contains_key(paths::joined(path.take(k))),
        links[paths::joined(path.take(k))] is Escaped,
        forall|j: int| 0 < j < k ==> !links.contains_key(#[trigger] paths::joined(path.take(j))),
    ensures
        audit::resolve_from(
            links,
            path.skip(at),
            Walked { out: path.take(at), crossed: seq![] },
        ) == (Resolved::Escaped { via: paths::joined(path.take(k)) }),
    decreases k - at,
{
    let rest = path.skip(at);
    assert(rest[0] == path[at]);
    assert(path.take(at).push(path[at]) =~= path.take(at + 1));
    assert(rest.skip(1) =~= path.skip(at + 1));
    if at + 1 < k {
        assert(!links.contains_key(paths::joined(path.take(at + 1))));
        lemma_first_link(links, path, at + 1, k);
    }
}

/// The two-step slip: whatever is written below an escaped link, with no
/// other link before it on the path, is a critical finding that names the
/// link.
pub proof fn law_write_through_escaped_link_is_critical(
    t: Track,
    e: EntryView,
    comps: Components,
    k: int,
)
    requires
        paths::classified(e.path) == PathView::Inside(comps),
        0 < k < comps.len(),
        t.links.contains_key(paths::joined(comps.take(k))),
        t.links[paths::joined(comps.take(k))] is Escaped,
        forall|j: int| 0 < j < k ==> !t.links.contains_key(#[trigger] paths::joined(comps.take(j))),
    ensures
        audit::entry_findings(t, e).contains(
            findings::critical(
                Check::LinkIndirection,
                e.path,
                "written through symlink '"@ + paths::joined(comps.take(k))
                    + "', which points outside the extraction root"@,
            ),
        ),
{
    let parent = comps.drop_last();
    assert(parent.take(k) =~= comps.take(k));
    assert forall|j: int| 0 < j < k implies !t.links.contains_key(
        #[trigger] paths::joined(parent.take(j)),
    ) by {
        assert(parent.take(j) =~= comps.take(j));
    }
    lemma_first_link(t.links, parent, 0, k);
    assert(parent.skip(0) =~= parent);
    assert(parent.take(0) =~= seq![]);
    let path = paths::joined(comps);
    let a = audit::duplicate_findings(t, e, path);
    let b = audit::case_findings(t, e, comps);
    let c = audit::parent_findings(t.links, e, comps);
    let before = audit::mode_findings(e).len() + audit::kind_findings(e).len();
    assert(audit::inside_findings(t, e, comps)[a.len() + b.len() as int] == c[0]);
    assert(audit::entry_findings(t, e)[before + a.len() + b.len() as int] == c[0]);
}

proof fn lemma_no_links(rest: Components, out: Components)
    ensures
        audit::resolve_from(Map::empty(), rest, Walked { out, crossed: seq![] }) == (
        Resolved::Inside { comps: out + rest, crossed: seq![] }),
    decreases rest.len(),
{
    if rest.len() == 0 {
        assert(out + rest =~= out);
    } else {
        lemma_no_links(rest.skip(1), out.push(rest[0]));
        assert(out.push(rest[0]) + rest.skip(1) =~= out + rest);
    }
}

proof fn lemma_one_link(links: Links, at: Components, path: Components, i: int)
    requires
        0 <= i < at.len() <= path.len(),
        path.take(at.len() as int) == at,
        links == Map::<Seq<char>, LinkView>::empty().insert(paths::joined(at), LinkView::Escaped),
    ensures
        audit::resolve_from(
            links,
            path.skip(i),
            Walked { out: path.take(i), crossed: seq![] },
        ) == (Resolved::Escaped { via: paths::joined(at) }),
    decreases at.len() - i,
{
    assert(path.skip(i)[0] == path[i]);
    assert(path.take(i).push(path[i]) =~= path.take(i + 1));
    assert(path.skip(i).skip(1) =~= path.skip(i + 1));
    if paths::joined(path.take(i + 1)) != paths::joined(at) {
        lemma_one_link(links, at, path, i + 1);
    }
}

/// The two-step slip from the start: once a symlink `s` at `at`, whose target
/// is empty, absolute or climbs out, has come first, whatever is written below
/// it is a critical finding, whatever its kind and however its name is
/// spelled.
pub proof fn law_first_link_traps_writes_below(
    s: EntryView,
    at: Components,
    e: EntryView,
    comps: Components,
)
    requires
        s.kind == EntryKind::Symlink,
        paths::classified(s.path) == PathView::Inside(at),
        0 < at.len() < comps.len(),
        paths::resolved(at.drop_last(), audit::target_of(s)) !is Inside,
        comps.take(at.len() as int) == at,
    ensures
        ({
            let f = findings::critical(
                Check::LinkIndirection,
                e.path,
                "written through symlink '"@ + paths::joined(at)
                    + "', which points outside the extraction root"@,
            );
            let t = audit::track_next(audit::no_track(), s);
            &&& audit::inside_findings(t, e, comps).contains(f)
            &&& paths::classified(e.path) == PathView::Inside(comps) ==> audit::raised(
                seq![s, e],
            ).contains(f)
        }),
{
    let none = audit::no_track();
    let t = audit::track_next(none, s);
    lemma_no_links(at.drop_last(), seq![]);
    assert(seq![] + at.drop_last() =~= at.drop_last());
    let parent = comps.drop_last();
    assert(parent.take(at.len() as int) =~= at);
    lemma_one_link(t.links, at, parent, 0);
    assert(parent.skip(0) =~= parent);
    assert(parent.take(0) =~= seq![]);
    let path = paths::joined(comps);
    let a = audit::duplicate_findings(t, e, path);
    let b = audit::case_findings(t, e, comps);
    let c = audit::parent_findings(t.links, e, comps);
    assert(audit::inside_findings(t, e, comps)[a.len() + b.len() as int] == c[0]);
    if paths::classified(e.path) == PathView::Inside(comps) {
        let both = seq![s, e];
        let one = both.drop_last();
        assert(one =~= seq![s]);
        assert(one.drop_last() =~= seq![]);
        reveal_with_fuel(audit::track_after, 2);
        assert(audit::track_after(one) == t);
        let before = audit::raised(one).len() + audit::mode_findings(e).len()
            + audit::kind_findings(e).len();
        assert(audit::raised(both)[before + a.len() + b.len() as int] == c[0]);
    }
}

/// The same path twice, first as an escaped link: overwriting it with
/// anything but a symlink is a critical finding.
pub proof fn law_overwriting_escaped_link_is_critical(t: Track, e: EntryView, comps: Components)
    requires
        paths::classified(e.path) == PathView::Inside(comps),
        comps.len() > 0,
        e.kind != EntryKind::Symlink,
        t.links.contains_key(paths::joined(comps)),
        t.links[paths::joined(comps)] is Escaped,
    ensures
        exists|i: int|
            0 <= i < audit::entry_findings(t, e).len() && (#[trigger] audit::entry_findings(
                t,
                e,
            )[i]).check == Check::LinkIndirection && audit::entry_findings(t, e)[i].severity
                == Severity::Critical,
{
    let path = paths::joined(comps);
    let a = audit::duplicate_findings(t, e, path);
    let b = audit::case_findings(t, e, comps);
    let c = audit::parent_findings(t.links, e, comps);
    let d = audit::overwrite_findings(t.links, e, path);
    let before = audit::mode_findings(e).len() + audit::kind_findings(e).len();
    let at = a.len() + b.len() + c.len() as int;
    assert(audit::inside_findings(t, e, comps)[at] == d[0]);
    assert(audit::entry_findings(t, e)[before + at] == d[0]);
}

/// The normalized components of the name of `e`; `None` where it has no
/// place of its own inside the root.
pub open spec fn place(e: EntryView) -> Option<Components> {
    match paths::classified(e.path) {
        PathView::Inside(comps) if comps.len() > 0 => Some(comps),
        _ => None,
    }
}

/// Is `e` written at the normalized path `path`?
pub open spec fn written_at(e: EntryView, path: Seq<char>) -> bool {
    place(e) matches Some(comps) && paths::joined(comps) == path
}

/// How many of `entries` are written at `path`.
pub open spec fn occurrences(entries: Seq<EntryView>, path: Seq<char>) -> nat
    decreases entries.len(),
{
    if entries.len() == 0 {
        0
    } else {
        occurrences(entries.drop_last(), path) + (if written_at(entries.last(), path) {
            1nat
        } else {
            0nat
        })
    }
}

/// Is one of `entries` written at `path` as something other than a
/// directory?
pub open spec fn taken(entries: Seq<EntryView>, path: Seq<char>) -> bool {
    exists|i: int|
        0 <= i < entries.len() && #[trigger] written_at(entries[i], path) && entries[i].kind
            != EntryKind::Dir
}

/// The duplicate check counts right: a path was seen as often as it occurs,
/// equivalent spellings included, and the auditor knows whether a
/// non-directory was among them.
pub proof fn law_occurrences_are_counted(entries: Seq<EntryView>, path: Seq<char>)
    ensures
        audit::seen_before(audit::track_after(entries), path) == (
            occurrences(entries, path),
            taken(entries, path),
        ),
    decreases entries.len(),
{
    if entries.len() > 0 {
        let front = entries.drop_last();
        let e = entries.last();
        law_occurrences_are_counted(front, path);
        if taken(front, path) {
            let i = choose|i: int|
                0 <= i < front.len() && #[trigger] written_at(front[i], path) && front[i].kind
                    != EntryKind::Dir;
            assert(written_at(entries[i], path));
        }
        if written_at(e, path) && e.kind != EntryKind::Dir {
            assert(written_at(entries[entries.len() - 1], path));
        }
        if taken(entries, path) {
            let i = choose|i: int|
                0 <= i < entries.len() && #[trigger] written_at(entries[i], path)
                    && entries[i].kind != EntryKind::Dir;
            if i < front.len() {
                assert(written_at(front[i], path));
            }
        }
    }
}

/// An entry is reported as a duplicate exactly if its path occurred before
/// and it or an earlier occurrence is not a directory.
pub proof fn law_duplicates_are_reported(entries: Seq<EntryView>, i: int, comps: Components)
    requires
        0 <= i < entries.len(),
        place(entries[i]) == Some(comps),
    ensures
        ({
            let e = entries[i];
            let path = paths::joined(comps);
            let earlier = entries.take(i);
            audit::duplicate_findings(audit::track_after(earlier), e, path).len() == 1 <==> (
            occurrences(earlier, path) > 0 && (e.kind != EntryKind::Dir || taken(earlier, path)))
        }),
{
    law_occurrences_are_counted(entries.take(i), paths::joined(comps));
}

/// What is remembered after the duplicate check was made on each of `calls`:
/// an entry and the path it is written at.
pub open spec fn after_paths(calls: Seq<(EntryView, Seq<char>)>) -> Track
    decreases calls.len(),
{
    if calls.len() == 0 {
        audit::no_track()
    } else {
        let (e, path) = calls.last();
        audit::seen_next(after_paths(calls.drop_last()), e, path)
    }
}

/// How many of `calls` were made on `path`.
pub open spec fn times(calls: Seq<(EntryView, Seq<char>)>, path: Seq<char>) -> nat
    decreases calls.len(),
{
    if calls.len() == 0 {
        0
    } else {
        times(calls.drop_last(), path) + (if calls.last().1 == path {
            1nat
        } else {
            0nat
        })
    }
}

/// Was one of `calls` made on `path`?
pub open spec fn repeats(calls: Seq<(EntryView, Seq<char>)>, path: Seq<char>) -> bool {
    exists|i: int| 0 <= i < calls.len() && (#[trigger] calls[i]).1 == path
}

/// Was one of `calls` made on `path` for something other than a directory?
pub open spec fn non_dir_at(calls: Seq<(EntryView, Seq<char>)>, path: Seq<char>) -> bool {
    exists|i: int|
        0 <= i < calls.len() && (#[trigger] calls[i]).1 == path && calls[i].0.kind
            != EntryKind::Dir
}

proof fn lemma_calls_are_counted(calls: Seq<(EntryView, Seq<char>)>, path: Seq<char>)
    ensures
        audit::seen_before(after_paths(calls), path) == (
            times(calls, path),
            non_dir_at(calls, path),
        ),
        times(calls, path) > 0 <==> repeats(calls, path),
    decreases calls.len(),
{
    if calls.len() > 0 {
        let front = calls.drop_last();
        lemma_calls_are_counted(front, path);
        let last = calls.len() - 1;
        assert(calls.last() == calls[last]);
        if repeats(front, path) {
            let i = choose|i: int| 0 <= i < front.len() && (#[trigger] front[i]).1 == path;
            assert(calls[i].1 == path);
        }
        if non_dir_at(front, path) {
            let i = choose|i: int|
                0 <= i < front.len() && (#[trigger] front[i]).1 == path && front[i].0.kind
                    != EntryKind::Dir;
            assert(calls[i].1 == path);
        }
        if repeats(calls, path) {
            let i = choose|i: int| 0 <= i < calls.len() && (#[trigger] calls[i]).1 == path;
            if i < last {
                assert(front[i].1 == path);
            }
        }
        if non_dir_at(calls, path) {
            let i = choose|i: int|
                0 <= i < calls.len() && (#[trigger] calls[i]).1 == path && calls[i].0.kind
                    != EntryKind::Dir;
            if i < last {
                assert(front[i].1 == path);
            }
        }
    }
}

/// Over any sequence of duplicate checks, the check on `calls[n]` raises one
/// finding exactly if an earlier one was made on the same path, and it or one
/// up to it was for something other than a directory; and none otherwise.
pub proof fn law_duplicate_checks_in_sequence(calls: Seq<(EntryView, Seq<char>)>, n: int)
    requires
        0 <= n < calls.len(),
    ensures
        ({
            let (e, path) = calls[n];
            let found = audit::duplicate_findings(after_paths(calls.take(n)), e, path);
            if repeats(calls.take(n), path) && non_dir_at(calls.take(n + 1), path) {
                found == seq![
                    findings::warning(
                        Check::DuplicatePath,
                        e.path,
                        "path appears "@ + text::decimal(times(calls.take(n + 1), path))
                            + " times; the last entry silently wins on extraction"@,
                    ),
                ]
            } else {
                found == Seq::<FindingView>::empty()
            }
        }),
{
    let (e, path) = calls[n];
    let earlier = calls.take(n);
    let upto = calls.take(n + 1);
    assert(upto.drop_last() =~= earlier);
    assert(upto.last() == calls[n]);
    lemma_calls_are_counted(earlier, path);
    lemma_calls_are_counted(upto, path);
}

/// The first spelling among `entries` of the path whose case-folded form is
/// `key`.
pub open spec fn first_spelling(entries: Seq<EntryView>, key: Seq<char>) -> Option<Seq<char>>
    decreases entries.len(),
{
    if entries.len() == 0 {
        None
    } else {
        match first_spelling(entries.drop_last(), key) {
            Some(first) => Some(first),
            None => match place(entries.last()) {
                Some(comps) if paths::folded(comps) == key => Some(paths::joined(comps)),
                _ => None,
            },
        }
    }
}

/// The case check compares with the first spelling: it is the one that is
/// remembered for each case-folded path.
pub proof fn law_first_spelling_is_remembered(entries: Seq<EntryView>, key: Seq<char>)
    ensures
        ({
            let folded = audit::track_after(entries).folded;
            first_spelling(entries, key) == (if folded.contains_key(key) {
                Some(folded[key])
            } else {
                None
            })
        }),
    decreases entries.len(),
{
    if entries.len() > 0 {
        law_first_spelling_is_remembered(entries.drop_last(), key);
    }
}

/// Do all remembered links that stay inside lead to proper paths?
pub open spec fn targets_proper(links: Links) -> bool {
    forall|key: Seq<char>| #[trigger]
        links.contains_key(key) ==> (links[key] matches LinkView::Inside(target)
            ==> paths_laws::clean(target))
}

proof fn lemma_resolve_proper(links: Links, rest: Components, w: Walked)
    requires
        targets_proper(links),
        paths_laws::clean(w.out),
        paths_laws::clean(rest),
    ensures
        audit::resolve_from(links, rest, w) matches Resolved::Inside { comps, .. }
            ==> paths_laws::clean(comps),
    decreases audit::MAX_LINK_HOPS + 1 - w.crossed.len(), rest.len(),
{
    if rest.len() > 0 {
        let left = rest.skip(1);
        let out = w.out.push(rest[0]);
        let key = paths::joined(out);
        assert(paths_laws::clean(out));
        assert(paths_laws::clean(left)) by {
            assert forall|i: int| 0 <= i < left.len() implies paths_laws::proper(
                #[trigger] left[i],
            ) by {
                assert(left[i] == rest[i + 1]);
            }
        }
        if !links.contains_key(key) {
            lemma_resolve_proper(links, left, Walked { out, crossed: w.crossed });
        } else if let LinkView::Inside(target) = links[key] {
            if w.crossed.len() < audit::MAX_LINK_HOPS {
                assert(paths_laws::clean(target + left));
                lemma_resolve_proper(
                    links,
                    target + left,
                    Walked { out: seq![], crossed: w.crossed.push(key) },
                );
            }
        }
    }
}

/// However links are chained, what the auditor remembers of one that stays
/// inside is a proper path below the root.
pub proof fn law_link_targets_are_proper(entries: Seq<EntryView>)
    ensures
        targets_proper(audit::track_after(entries).links),
    decreases entries.len(),
{
    if entries.len() > 0 {
        let front = entries.drop_last();
        let e = entries.last();
        law_link_targets_are_proper(front);
        let t = audit::track_after(front);
        if let Some(comps) = place(e) {
            if e.kind == EntryKind::Symlink {
                let none = Walked { out: seq![], crossed: seq![] };
                paths_laws::law_components_are_proper(seq![], e.path);
                let parent = comps.drop_last();
                assert(paths_laws::clean(parent)) by {
                    assert forall|i: int| 0 <= i < parent.len() implies paths_laws::proper(
                        #[trigger] parent[i],
                    ) by {
                        assert(parent[i] == comps[i]);
                    }
                }
                lemma_resolve_proper(t.links, parent, none);
                let base = audit::link_base(t.links, comps);
                paths_laws::law_components_are_proper(base, audit::target_of(e));
                if let PathView::Inside(inner) = paths::resolved(base, audit::target_of(e)) {
                    lemma_resolve_proper(t.links, inner, none);
                }
            }
        }
    }
}

/// The case check reports an entry exactly if an earlier one has the same
/// case-folded path and the first such was spelled otherwise.
pub proof fn law_case_collisions_are_reported(entries: Seq<EntryView>, i: int, comps: Components)
    requires
        0 <= i < entries.len(),
        place(entries[i]) == Some(comps),
    ensures
        audit::case_findings(audit::track_after(entries.take(i)), entries[i], comps).len() == 1
            <==> (first_spelling(entries.take(i), paths::folded(comps)) matches Some(first)
            && first != paths::joined(comps)),
{
    law_first_spelling_is_remembered(entries.take(i), paths::folded(comps));
}

/// What is remembered after the case check was made on each of `calls`: an
/// entry and the components of its name.
pub open spec fn after_spellings(calls: Seq<(EntryView, Components)>) -> Track
    decreases calls.len(),
{
    if calls.len() == 0 {
        audit::no_track()
    } else {
        audit::folded_next(after_spellings(calls.drop_last()), calls.last().1)
    }
}

/// `calls[f]` is the first of `calls` whose case-folded path is `key`.
pub open spec fn first_at(calls: Seq<(EntryView, Components)>, key: Seq<char>, f: int) -> bool {
    &&& 0 <= f < calls.len()
    &&& paths::folded(calls[f].1) == key
    &&& forall|i: int| 0 <= i < f ==> paths::folded((#[trigger] calls[i]).1) != key
}

proof fn lemma_first_call_is_remembered(calls: Seq<(EntryView, Components)>, key: Seq<char>)
    ensures
        ({
            let folded = after_spellings(calls).folded;
            if folded.contains_key(key) {
                exists|f: int| #[trigger]
                    first_at(calls, key, f) && folded[key] == paths::joined(calls[f].1)
            } else {
                forall|i: int|
                    0 <= i < calls.len() ==> paths::folded((#[trigger] calls[i]).1) != key
            }
        }),
    decreases calls.len(),
{
    if calls.len() > 0 {
        let front = calls.drop_last();
        let last = calls.len() - 1;
        lemma_first_call_is_remembered(front, key);
        let before = after_spellings(front).folded;
        if before.contains_key(key) {
            let f = choose|f: int| #[trigger]
                first_at(front, key, f) && before[key] == paths::joined(front[f].1);
            assert(first_at(calls, key, f)) by {
                assert forall|i: int| 0 <= i < f implies paths::folded((#[trigger] calls[i]).1)
                    != key by {
                    assert(front[i] == calls[i]);
                }
            }
        } else {
            assert forall|i: int| 0 <= i < last implies paths::folded((#[trigger] calls[i]).1)
                != key by {
                assert(front[i] == calls[i]);
            }
            if paths::folded(calls[last].1) == key {
                assert(first_at(calls, key, last));
            }
        }
    }
}

/// Over any sequence of case checks, the check on `calls[n]` raises one
/// finding, which names the spelling of the first earlier one with the same
/// case-folded path, exactly if there is such a one and its spelling differs;
/// and none otherwise.
pub proof fn law_case_checks_in_sequence(calls: Seq<(EntryView, Components)>, n: int)
    requires
        0 <= n < calls.len(),
    ensures
        ({
            let (e, comps) = calls[n];
            let key = paths::folded(comps);
            let found = audit::case_findings(after_spellings(calls.take(n)), e, comps);
            &&& (forall|f: int| !first_at(calls.take(n), key, f)) ==> found == Seq::<
                FindingView,
            >::empty()
            &&& forall|f: int| #[trigger]
                first_at(calls.take(n), key, f) ==> found == (if paths::joined(calls[f].1)
                    != paths::joined(comps) {
                    seq![
                        findings::warning(
                            Check::CaseCollision,
                            e.path,
                            "collides with '"@ + paths::joined(calls[f].1)
                                + "' on case-insensitive filesystems"@,
                        ),
                    ]
                } else {
                    seq![]
                })
        }),
{
    let (e, comps) = calls[n];
    let key = paths::folded(comps);
    let earlier = calls.take(n);
    let folded = after_spellings(earlier).folded;
    lemma_first_call_is_remembered(earlier, key);
    if folded.contains_key(key) {
        let g = choose|f: int| #[trigger]
            first_at(earlier, key, f) && folded[key] == paths::joined(earlier[f].1);
        assert forall|f: int| #[trigger] first_at(earlier, key, f) implies f == g by {
            if f < g {
                assert(paths::folded(earlier[f].1) != key);
            } else if g < f {
                assert(paths::folded(earlier[g].1) != key);
            }
        }
    }
}

/// Does a finding of this check stand among `found`?
pub open spec fn reported(found: Seq<FindingView>, check: Check) -> bool {
    exists|i: int| 0 <= i < found.len() && (#[trigger] found[i]).check == check
}

/// The mode checks report exactly the bits that are set, on files and
/// directories alone: what a symlink or any other kind carries is ignored.
pub proof fn law_mode_bits_are_reported(e: EntryView, mode: u32)
    requires
        e.mode == Some(mode),
    ensures
        ({
            let found = audit::mode_findings(e);
            let counts = e.kind == EntryKind::File || e.kind == EntryKind::Dir;
            &&& reported(found, Check::Setuid) <==> counts && mode & 0o4000 != 0
            &&& reported(found, Check::Setgid) <==> counts && mode & 0o2000 != 0
            &&& reported(found, Check::WorldWritable) <==> counts && mode & 0o002 != 0
        }),
{
    let found = audit::mode_findings(e);
    if e.kind == EntryKind::File || e.kind == EntryKind::Dir {
        let a: int = if mode & 0o4000 != 0 {
            1
        } else {
            0
        };
        let b: int = if mode & 0o2000 != 0 {
            1
        } else {
            0
        };
        if mode & 0o4000 != 0 {
            assert(found[0].check == Check::Setuid);
        }
        if mode & 0o2000 != 0 {
            assert(found[a].check == Check::Setgid);
        }
        if mode & 0o002 != 0 {
            assert(found[a + b].check == Check::WorldWritable);
        }
    }
}

/// Device nodes are critical; fifos and unknown types are warnings; nothing
/// else is a special file.
pub proof fn law_special_files_are_reported(e: EntryView)
    ensures
        ({
            let found = audit::kind_findings(e);
            match e.kind {
                EntryKind::CharDevice | EntryKind::BlockDevice => found.len() == 1
                    && found[0].check == Check::SpecialFile && found[0].severity
                    == Severity::Critical,
                EntryKind::Fifo | EntryKind::Other(_) => found.len() == 1 && found[0].check
                    == Check::SpecialFile && found[0].severity == Severity::Warning,
                _ => found.len() == 0,
            }
        }),
{
}

/// A hard link whose target is empty, absolute, climbs out of the archive
/// root, or leads out through links is reported, wherever the link itself
/// stands.
pub proof fn law_escaping_hardlink_is_reported(t: Track, e: EntryView, comps: Components)
    requires
        e.kind == EntryKind::Hardlink,
        paths::classified(e.path) == PathView::Inside(comps),
        comps.len() > 0,
        match paths::classified(audit::target_of(e)) {
            PathView::Inside(inner) => audit::resolution(t.links, inner) is Escaped,
            _ => true,
        },
    ensures
        audit::entry_findings(t, e).len() > 0,
        audit::entry_findings(t, e).last().check == Check::LinkEscape,
        audit::entry_findings(t, e).last().path == e.path,
{
    let l = audit::link_findings(t.links, e, comps);
    assert(l.len() == 1);
    assert(audit::inside_findings(t, e, comps).last() == l[0]);
}

/// Every finding on an archive is a finding on one of its entries, seen behind
/// the entries before it.
pub proof fn law_every_finding_is_on_an_entry(entries: Seq<EntryView>, f: FindingView)
    requires
        audit::raised(entries).contains(f),
    ensures
        exists|i: int|
            0 <= i < entries.len() && (#[trigger] audit::entry_findings(
                audit::track_after(entries.take(i)),
                entries[i],
            )).contains(f),
    decreases entries.len(),
{
    let all = audit::raised(entries);
    let k = all.index_of(f);
    if entries.len() > 0 {
        let n = entries.len() - 1;
        let front = entries.drop_last();
        let before = audit::raised(front);
        let own = audit::entry_findings(audit::track_after(front), entries.last());
        if k < before.len() {
            assert(before[k] == f);
            law_every_finding_is_on_an_entry(front, f);
            let i = choose|i: int|
                0 <= i < front.len() && (#[trigger] audit::entry_findings(
                    audit::track_after(front.take(i)),
                    front[i],
                )).contains(f);
            assert(front.take(i) =~= entries.take(i));
            assert(audit::entry_findings(
                audit::track_after(entries.take(i)),
                entries[i],
            ).contains(f));
        } else {
            assert(own[k - before.len()] == f);
            assert(entries.take(n) =~= front);
            assert(audit::entry_findings(
                audit::track_after(entries.take(n)),
                entries[n],
            ).contains(f));
        }
    }
}

} // verus!
