//! What holds of links: how a path is followed through them, where a link
//! target is judged from, and which findings links raise.
use vstd::prelude::*;

use crate::audit;
use crate::audit::{LinkView, Links, Resolved, Track, Walked};
use crate::audit_laws;
use crate::entry::{EntryKind, EntryView};
use crate::findings;
use crate::findings::{Check, FindingView, Severity};
use crate::paths;
use crate::paths::{Components, PathView};

verus! {

/// Is no leading part of `path` with fewer than `k` components a link?
pub open spec fn free_before(links: Links, path: Components, k: int) -> bool {
    forall|j: int| 0 < j < k ==> !links.contains_key(#[trigger] paths::joined(path.take(j)))
}

proof fn lemma_walk_to_link(links: Links, path: Components, crossed: Seq<Seq<char>>, at: int, k: int)
    requires
        0 <= at < k <= path.len(),
        free_before(links, path, k),
    ensures
        audit::resolve_from(links, path.skip(at), Walked { out: path.take(at), crossed })
            == audit::resolve_from(
            links,
            path.skip(k - 1),
            Walked { out: path.take(k - 1), crossed },
        ),
    decreases k - at,
{
    if at < k - 1 {
        let rest = path.skip(at);
        assert(rest[0] == path[at]);
        assert(path.take(at).push(path[at]) =~= path.take(at + 1));
        assert(rest.skip(1) =~= path.skip(at + 1));
        assert(!links.contains_key(paths::joined(path.take(at + 1))));
        lemma_walk_to_link(links, path, crossed, at + 1, k);
    }
}

proof fn lemma_at_link(links: Links, path: Components, crossed: Seq<Seq<char>>, k: int)
    requires
        0 < k <= path.len(),
        free_before(links, path, k),
        links.contains_key(paths::joined(path.take(k))),
    ensures
        ({
            let key = paths::joined(path.take(k));
            audit::resolve_from(links, path, Walked { out: seq![], crossed }) == (
            match links[key] {
                LinkView::Escaped => Resolved::Escaped { via: key },
                LinkView::Inside(target) => if crossed.len() >= 40 {
                    Resolved::Escaped { via: key }
                } else {
                    audit::resolve_from(
                        links,
                        target + path.skip(k),
                        Walked { out: seq![], crossed: crossed.push(key) },
                    )
                },
            })
        }),
{
    lemma_walk_to_link(links, path, crossed, 0, k);
    assert(path.skip(0) =~= path);
    assert(path.take(0) =~= seq![]);
    let rest = path.skip(k - 1);
    assert(rest[0] == path[k - 1]);
    assert(path.take(k - 1).push(path[k - 1]) =~= path.take(k));
    assert(rest.skip(1) =~= path.skip(k));
}

/// How far a resolution comes with one more link behind it than `less` says:
/// the same, but for that link, as long as a hop is left.
spec fn one_hop_more(key: Seq<char>, less: Resolved, more: Resolved) -> bool {
    match less {
        Resolved::Inside { comps, crossed } => if crossed.len() < 40 {
            more == (Resolved::Inside { comps, crossed: seq![key] + crossed })
        } else {
            more is Escaped
        },
        Resolved::Escaped { .. } => more is Escaped,
    }
}

proof fn lemma_one_hop_more(
    links: Links,
    rest: Components,
    out: Components,
    key: Seq<char>,
    crossed: Seq<Seq<char>>,
)
    requires
        crossed.len() < 40,
    ensures
        one_hop_more(
            key,
            audit::resolve_from(links, rest, Walked { out, crossed }),
            audit::resolve_from(links, rest, Walked { out, crossed: seq![key] + crossed }),
        ),
    decreases 40 - crossed.len(), rest.len(),
{
    if rest.len() > 0 {
        let longer = out.push(rest[0]);
        let at = paths::joined(longer);
        if !links.contains_key(at) {
            lemma_one_hop_more(links, rest.skip(1), longer, key, crossed);
        } else if let LinkView::Inside(target) = links[at] {
            let next = crossed.push(at);
            assert((seq![key] + crossed).push(at) =~= seq![key] + next);
            if crossed.len() + 1 < 40 {
                lemma_one_hop_more(links, target + rest.skip(1), seq![], key, next);
            } else {
                lemma_last_hop(links, target + rest.skip(1), seq![], key, next);
            }
        }
    }
}

/// Once every hop is used up, one more is one too many.
proof fn lemma_last_hop(
    links: Links,
    rest: Components,
    out: Components,
    key: Seq<char>,
    crossed: Seq<Seq<char>>,
)
    requires
        crossed.len() == 40,
    ensures
        ({
            let less = audit::resolve_from(links, rest, Walked { out, crossed });
            less matches Resolved::Inside { crossed: all, .. } ==> all.len() == 40
        }),
    decreases rest.len(),
{
    if rest.len() > 0 {
        let longer = out.push(rest[0]);
        if !links.contains_key(paths::joined(longer)) {
            lemma_last_hop(links, rest.skip(1), longer, key, crossed);
        }
    }
}

/// A path on which no link was planted ends where it says.
pub proof fn law_path_without_links_ends_where_it_says(links: Links, path: Components)
    requires
        audit_laws::link_free(links, path),
    ensures
        audit::resolution(links, path) == (Resolved::Inside { comps: path, crossed: seq![] }),
{
    if path.len() > 0 {
        let n = path.len() as int;
        assert(path.take(n) =~= path);
        assert(!links.contains_key(paths::joined(path.take(n))));
        lemma_walk_to_link(links, path, seq![], 0, n);
        assert(path.skip(0) =~= path);
        assert(path.take(0) =~= seq![]);
        let rest = path.skip(n - 1);
        assert(path.take(n - 1).push(rest[0]) =~= path);
        assert(rest.skip(1) =~= seq![]);
        reveal_with_fuel(audit::resolve_from, 2);
    }
}

/// The first link on a path decides: where it leads out, the path does, and
/// that link is to blame.
pub proof fn law_first_link_out_decides(links: Links, path: Components, k: int)
    requires
        0 < k <= path.len(),
        free_before(links, path, k),
        links.contains_key(paths::joined(path.take(k))),
        links[paths::joined(path.take(k))] is Escaped,
    ensures
        audit::resolution(links, path) == (Resolved::Escaped {
            via: paths::joined(path.take(k)),
        }),
{
    lemma_at_link(links, path, seq![], k);
}

/// Crossing a link keeps what is left of the path: where the first link on it
/// leads to `target`, the path ends where `target` followed by the rest of the
/// path ends, one hop later, and leads out exactly if that does or the hops
/// run out.
pub proof fn law_crossing_keeps_the_rest(
    links: Links,
    path: Components,
    k: int,
    target: Components,
)
    requires
        0 < k <= path.len(),
        free_before(links, path, k),
        links.contains_key(paths::joined(path.take(k))),
        links[paths::joined(path.take(k))] == LinkView::Inside(target),
    ensures
        match audit::resolution(links, target + path.skip(k)) {
            Resolved::Inside { comps, crossed } => if crossed.len() < 40 {
                audit::resolution(links, path) == (Resolved::Inside {
                    comps,
                    crossed: seq![paths::joined(path.take(k))] + crossed,
                })
            } else {
                audit::resolution(links, path) is Escaped
            },
            Resolved::Escaped { .. } => audit::resolution(links, path) is Escaped,
        },
        audit_laws::link_free(links, target + path.skip(k)) ==> audit::resolution(links, path) == (
        Resolved::Inside {
            comps: target + path.skip(k),
            crossed: seq![paths::joined(path.take(k))],
        }),
{
    let key = paths::joined(path.take(k));
    let on = target + path.skip(k);
    lemma_at_link(links, path, seq![], k);
    lemma_one_hop_more(links, on, seq![], key, seq![]);
    assert(Seq::<Seq<char>>::empty().push(key) =~= seq![key] + Seq::<Seq<char>>::empty());
    if audit_laws::link_free(links, on) {
        law_path_without_links_ends_where_it_says(links, on);
        assert(seq![key] + Seq::<Seq<char>>::empty() =~= seq![key]);
    }
}

proof fn lemma_blame(links: Links, rest: Components, w: Walked)
    ensures
        audit::resolve_from(links, rest, w) matches Resolved::Escaped { via } ==> links.contains_key(
            via,
        ),
    decreases audit::MAX_LINK_HOPS + 1 - w.crossed.len(), rest.len(),
{
    if rest.len() > 0 {
        let out = w.out.push(rest[0]);
        let key = paths::joined(out);
        if !links.contains_key(key) {
            lemma_blame(links, rest.skip(1), Walked { out, crossed: w.crossed });
        } else if let LinkView::Inside(target) = links[key] {
            if w.crossed.len() < audit::MAX_LINK_HOPS {
                lemma_blame(
                    links,
                    target + rest.skip(1),
                    Walked { out: seq![], crossed: w.crossed.push(key) },
                );
            }
        }
    }
}

/// What is blamed for a path that leads out is a link that was planted.
pub proof fn law_blame_falls_on_a_planted_link(links: Links, path: Components)
    ensures
        audit::resolution(links, path) matches Resolved::Escaped { via } ==> links.contains_key(
            via,
        ),
{
    lemma_blame(links, path, Walked { out: seq![], crossed: seq![] });
}

/// Does a finding of this check and severity stand among `found`?
pub open spec fn holds(found: Seq<FindingView>, check: Check, severity: Severity) -> bool {
    exists|i: int|
        0 <= i < found.len() && (#[trigger] found[i]).check == check && found[i].severity
            == severity
}

proof fn lemma_has_sum(
    a: Seq<FindingView>,
    b: Seq<FindingView>,
    check: Check,
    severity: Severity,
)
    ensures
        holds(a + b, check, severity) <==> holds(a, check, severity) || holds(b, check, severity),
{
    let all = a + b;
    if holds(a, check, severity) {
        let i = choose|i: int|
            0 <= i < a.len() && (#[trigger] a[i]).check == check && a[i].severity == severity;
        assert(all[i] == a[i]);
    }
    if holds(b, check, severity) {
        let i = choose|i: int|
            0 <= i < b.len() && (#[trigger] b[i]).check == check && b[i].severity == severity;
        assert(all[a.len() + i] == b[i]);
    }
    if holds(all, check, severity) {
        let i = choose|i: int|
            0 <= i < all.len() && (#[trigger] all[i]).check == check && all[i].severity
                == severity;
        if i < a.len() {
            assert(a[i] == all[i]);
        } else {
            assert(b[i - a.len()] == all[i]);
        }
    }
}

proof fn lemma_has_one(f: FindingView, check: Check, severity: Severity)
    ensures
        holds(seq![f], check, severity) <==> f.check == check && f.severity == severity,
        !holds(Seq::<FindingView>::empty(), check, severity),
{
    assert(seq![f][0] == f);
}

/// Where the findings on an entry come from.
proof fn lemma_has_parts(
    t: Track,
    e: EntryView,
    comps: Components,
    check: Check,
    severity: Severity,
)
    requires
        paths::classified(e.path) == PathView::Inside(comps),
        comps.len() > 0,
    ensures
        ({
            let path = paths::joined(comps);
            holds(audit::entry_findings(t, e), check, severity) <==> {
                ||| holds(audit::mode_findings(e), check, severity)
                ||| holds(audit::kind_findings(e), check, severity)
                ||| holds(audit::duplicate_findings(t, e, path), check, severity)
                ||| holds(audit::case_findings(t, e, comps), check, severity)
                ||| holds(audit::parent_findings(t.links, e, comps), check, severity)
                ||| holds(audit::overwrite_findings(t.links, e, path), check, severity)
                ||| holds(audit::link_findings(t.links, e, comps), check, severity)
            }
        }),
{
    let path = paths::joined(comps);
    let m = audit::mode_findings(e);
    let k = audit::kind_findings(e);
    let a = audit::duplicate_findings(t, e, path);
    let b = audit::case_findings(t, e, comps);
    let c = audit::parent_findings(t.links, e, comps);
    let d = audit::overwrite_findings(t.links, e, path);
    let l = audit::link_findings(t.links, e, comps);
    lemma_has_sum(m, k, check, severity);
    lemma_has_sum(a, b, check, severity);
    lemma_has_sum(a + b, c, check, severity);
    lemma_has_sum(a + b + c, d, check, severity);
    lemma_has_sum(a + b + c + d, l, check, severity);
    lemma_has_sum(m + k, a + b + c + d + l, check, severity);
}

/// Findings of the mode and kind checks are of those checks.
proof fn lemma_mode_checks(e: EntryView, check: Check, severity: Severity)
    ensures
        ({
            let counts = e.kind == EntryKind::File || e.kind == EntryKind::Dir;
            let mode = e.mode->0;
            holds(audit::mode_findings(e), check, severity) <==> counts && e.mode is Some && {
                ||| check == Check::Setuid && severity == Severity::Critical && mode & 0o4000 != 0
                ||| check == Check::Setgid && severity == Severity::Critical && mode & 0o2000 != 0
                ||| check == Check::WorldWritable && severity == Severity::Warning && mode & 0o002
                    != 0
            }
        }),
{
    let found = audit::mode_findings(e);
    if e.kind == EntryKind::File || e.kind == EntryKind::Dir {
        if let Some(mode) = e.mode {
            let octal = "mode "@ + crate::text::four_digits(mode as nat, 8);
            let u = findings::critical(
                Check::Setuid,
                e.path,
                octal + " carries the setuid bit; runs as the owner after extraction by root"@,
            );
            let g = findings::critical(
                Check::Setgid,
                e.path,
                octal + " carries the setgid bit"@,
            );
            let w = findings::warning(
                Check::WorldWritable,
                e.path,
                octal + " is world-writable"@,
            );
            lemma_has_one(u, check, severity);
            lemma_has_one(g, check, severity);
            lemma_has_one(w, check, severity);
            let a = audit::only(mode & 0o4000 != 0, u);
            let b = audit::only(mode & 0o2000 != 0, g);
            let c = audit::only(mode & 0o002 != 0, w);
            lemma_has_sum(a, b, check, severity);
            lemma_has_sum(a + b, c, check, severity);
        }
    }
}

proof fn lemma_kind_checks(e: EntryView, check: Check, severity: Severity)
    ensures
        holds(audit::kind_findings(e), check, severity) <==> check == Check::SpecialFile && (
        match e.kind {
            EntryKind::CharDevice | EntryKind::BlockDevice => severity == Severity::Critical,
            EntryKind::Fifo | EntryKind::Other(_) => severity == Severity::Warning,
            _ => false,
        }),
{
    let found = audit::kind_findings(e);
    if found.len() > 0 {
        assert(found =~= seq![found[0]]);
        lemma_has_one(found[0], check, severity);
    }
}

proof fn lemma_path_checks(
    t: Track,
    e: EntryView,
    comps: Components,
    check: Check,
    severity: Severity,
)
    ensures
        holds(audit::duplicate_findings(t, e, paths::joined(comps)), check, severity) ==> check
            == Check::DuplicatePath && severity == Severity::Warning,
        holds(audit::case_findings(t, e, comps), check, severity) ==> check
            == Check::CaseCollision && severity == Severity::Warning,
{
}

/// The target of a link; a missing one is empty.
pub open spec fn written_target(e: EntryView) -> Seq<char> {
    match e.link_target {
        Some(target) => target,
        None => seq![],
    }
}

/// The directory that an entry named `comps` is written to: the parent that
/// its name says, followed through the links planted so far; where they lead
/// out, the parent as it is named.
pub open spec fn home(links: Links, comps: Components) -> Components {
    let parent = comps.drop_last();
    match audit::resolution(links, parent) {
        Resolved::Inside { comps: lands, .. } => lands,
        Resolved::Escaped { .. } => parent,
    }
}

/// Does `target`, walked from the directory `base`, lead out of the root: by
/// being absolute, by climbing above the root, or through a planted link?
pub open spec fn leads_out(links: Links, base: Components, target: Seq<char>) -> bool {
    paths::absolute(target) is Some || (match paths::walk(base, paths::parts(target)) {
        None => true,
        Some(inner) => audit::resolution(links, inner) is Escaped,
    })
}

/// A link escape is reported exactly where a link leads out: a symlink target
/// is walked from the directory that the link actually lives in, a hard-link
/// target from the root. An empty target is a warning.
pub proof fn law_link_escapes_are_exact(t: Track, e: EntryView, comps: Components)
    requires
        paths::classified(e.path) == PathView::Inside(comps),
        comps.len() > 0,
    ensures
        ({
            let found = audit::entry_findings(t, e);
            let target = written_target(e);
            &&& holds(found, Check::LinkEscape, Severity::Critical) <==> target.len() > 0 && {
                ||| e.kind == EntryKind::Symlink && leads_out(
                    t.links,
                    home(t.links, comps),
                    target,
                )
                ||| e.kind == EntryKind::Hardlink && leads_out(t.links, seq![], target)
            }
            &&& holds(found, Check::LinkEscape, Severity::Warning) <==> target.len() == 0 && (
            e.kind == EntryKind::Symlink || e.kind == EntryKind::Hardlink)
        }),
{
    let c = Check::LinkEscape;
    let l = audit::link_findings(t.links, e, comps);
    let p = audit::parent_findings(t.links, e, comps);
    let o = audit::overwrite_findings(t.links, e, paths::joined(comps));
    if l.len() > 0 {
        assert(l =~= seq![l[0]]);
        lemma_has_one(l[0], c, Severity::Critical);
        lemma_has_one(l[0], c, Severity::Warning);
    }
    assert(!holds(p, c, Severity::Critical) && !holds(p, c, Severity::Warning));
    assert(!holds(o, c, Severity::Critical) && !holds(o, c, Severity::Warning));
    lemma_mode_checks(e, c, Severity::Critical);
    lemma_mode_checks(e, c, Severity::Warning);
    lemma_kind_checks(e, c, Severity::Critical);
    lemma_kind_checks(e, c, Severity::Warning);
    lemma_path_checks(t, e, comps, c, Severity::Critical);
    lemma_path_checks(t, e, comps, c, Severity::Warning);
    lemma_has_parts(t, e, comps, c, Severity::Critical);
    lemma_has_parts(t, e, comps, c, Severity::Warning);
}

/// What is remembered of a symlink: where its target, walked from the
/// directory that the link actually lives in, ends once the links planted
/// before it are followed; or that it leads nowhere or out.
pub proof fn law_symlink_is_remembered_by_its_end(t: Track, e: EntryView, comps: Components)
    requires
        e.kind == EntryKind::Symlink,
        paths::classified(e.path) == PathView::Inside(comps),
        comps.len() > 0,
    ensures
        ({
            let target = written_target(e);
            let base = home(t.links, comps);
            let path = paths::joined(comps);
            let links = audit::track_next(t, e).links;
            &&& links.contains_key(path)
            &&& links[path] is Escaped <==> target.len() == 0 || leads_out(t.links, base, target)
            &&& links[path] matches LinkView::Inside(end) ==> {
                &&& paths::walk(base, paths::parts(target)) matches Some(inner)
                &&& audit::resolution(t.links, inner) matches Resolved::Inside { comps: ends, .. }
                &&& end == ends
            }
        }),
{
}

/// Links are remembered under their own path alone, and nothing but a symlink
/// changes what is remembered.
pub proof fn law_only_symlinks_change_links(t: Track, e: EntryView, key: Seq<char>)
    requires
        e.kind != EntryKind::Symlink || !(paths::classified(e.path) matches PathView::Inside(comps)
            && comps.len() > 0 && paths::joined(comps) == key),
    ensures
        audit::track_next(t, e).links.contains_key(key) == t.links.contains_key(key),
        t.links.contains_key(key) ==> audit::track_next(t, e).links[key] == t.links[key],
{
}

/// Writing through or over a link is reported exactly where it happens: the
/// parent directory crosses a planted link, or the path itself is one. It is
/// critical exactly where the link leads out.
pub proof fn law_indirections_are_exact(t: Track, e: EntryView, comps: Components)
    requires
        paths::classified(e.path) == PathView::Inside(comps),
        comps.len() > 0,
    ensures
        ({
            let found = audit::entry_findings(t, e);
            let parent = audit::resolution(t.links, comps.drop_last());
            let path = paths::joined(comps);
            let over = e.kind != EntryKind::Symlink && t.links.contains_key(path);
            &&& holds(found, Check::LinkIndirection, Severity::Critical) <==> parent is Escaped || (
            over && t.links[path] is Escaped)
            &&& holds(found, Check::LinkIndirection, Severity::Warning) <==> (parent matches
                Resolved::Inside { crossed, .. } && crossed.len() > 0) || (over && t.links[path]
                is Inside)
        }),
{
    let c = Check::LinkIndirection;
    let l = audit::link_findings(t.links, e, comps);
    let p = audit::parent_findings(t.links, e, comps);
    let o = audit::overwrite_findings(t.links, e, paths::joined(comps));
    if p.len() > 0 {
        assert(p =~= seq![p[0]]);
        lemma_has_one(p[0], c, Severity::Critical);
        lemma_has_one(p[0], c, Severity::Warning);
    }
    if o.len() > 0 {
        assert(o =~= seq![o[0]]);
        lemma_has_one(o[0], c, Severity::Critical);
        lemma_has_one(o[0], c, Severity::Warning);
    }
    assert(!holds(l, c, Severity::Critical) && !holds(l, c, Severity::Warning));
    lemma_mode_checks(e, c, Severity::Critical);
    lemma_mode_checks(e, c, Severity::Warning);
    lemma_kind_checks(e, c, Severity::Critical);
    lemma_kind_checks(e, c, Severity::Warning);
    lemma_path_checks(t, e, comps, c, Severity::Critical);
    lemma_path_checks(t, e, comps, c, Severity::Warning);
    lemma_has_parts(t, e, comps, c, Severity::Critical);
    lemma_has_parts(t, e, comps, c, Severity::Warning);
}

/// A write through links that stay inside is a warning that names the last
/// link crossed and the place where the entry lands: its last component, in
/// the directory where the parent ends.
pub proof fn law_landing_place_is_named(t: Track, e: EntryView, comps: Components)
    requires
        paths::classified(e.path) == PathView::Inside(comps),
        comps.len() > 0,
        audit::resolution(t.links, comps.drop_last()) matches Resolved::Inside { crossed, .. }
            && crossed.len() > 0,
    ensures
        ({
            let ends = audit::resolution(t.links, comps.drop_last());
            audit::entry_findings(t, e).contains(
                findings::warning(
                    Check::LinkIndirection,
                    e.path,
                    "written through in-archive symlink '"@ + ends->crossed.last()
                        + "'; extraction lands at '"@ + paths::joined(ends->comps) + "/"@
                        + comps.last() + "'"@,
                ),
            )
        }),
{
    let path = paths::joined(comps);
    let a = audit::duplicate_findings(t, e, path);
    let b = audit::case_findings(t, e, comps);
    let c = audit::parent_findings(t.links, e, comps);
    let before = audit::mode_findings(e).len() + audit::kind_findings(e).len();
    assert(audit::inside_findings(t, e, comps)[a.len() + b.len() as int] == c[0]);
    assert(audit::entry_findings(t, e)[before + a.len() + b.len() as int] == c[0]);
}

/// Modes, kinds and names are reported exactly where they are dangerous,
/// whatever else is true of the entry and of those before it.
pub proof fn law_modes_kinds_and_names_are_exact(t: Track, e: EntryView)
    ensures
        ({
            let found = audit::entry_findings(t, e);
            let counts = (e.kind == EntryKind::File || e.kind == EntryKind::Dir) && e.mode is Some;
            let mode = e.mode->0;
            let name = paths::classified(e.path);
            &&& holds(found, Check::Setuid, Severity::Critical) <==> counts && mode & 0o4000 != 0
            &&& holds(found, Check::Setgid, Severity::Critical) <==> counts && mode & 0o2000 != 0
            &&& holds(found, Check::WorldWritable, Severity::Warning) <==> counts && mode & 0o002
                != 0
            &&& holds(found, Check::SpecialFile, Severity::Critical) <==> e.kind
                == EntryKind::CharDevice || e.kind == EntryKind::BlockDevice
            &&& holds(found, Check::SpecialFile, Severity::Warning) <==> e.kind == EntryKind::Fifo
                || e.kind is Other
            &&& holds(found, Check::AbsolutePath, Severity::Critical) <==> name is Absolute
            &&& holds(found, Check::Traversal, Severity::Critical) <==> name is Escapes
            &&& holds(found, Check::Traversal, Severity::Warning) <==> name is Empty
        }),
{
    lemma_general_checks(t, e, Check::Setuid, Severity::Critical);
    lemma_mode_checks(e, Check::Setuid, Severity::Critical);
    lemma_kind_checks(e, Check::Setuid, Severity::Critical);
    lemma_general_checks(t, e, Check::Setgid, Severity::Critical);
    lemma_mode_checks(e, Check::Setgid, Severity::Critical);
    lemma_kind_checks(e, Check::Setgid, Severity::Critical);
    lemma_general_checks(t, e, Check::WorldWritable, Severity::Warning);
    lemma_mode_checks(e, Check::WorldWritable, Severity::Warning);
    lemma_kind_checks(e, Check::WorldWritable, Severity::Warning);
    lemma_general_checks(t, e, Check::SpecialFile, Severity::Critical);
    lemma_mode_checks(e, Check::SpecialFile, Severity::Critical);
    lemma_kind_checks(e, Check::SpecialFile, Severity::Critical);
    lemma_general_checks(t, e, Check::SpecialFile, Severity::Warning);
    lemma_mode_checks(e, Check::SpecialFile, Severity::Warning);
    lemma_kind_checks(e, Check::SpecialFile, Severity::Warning);
    lemma_general_checks(t, e, Check::AbsolutePath, Severity::Critical);
    lemma_mode_checks(e, Check::AbsolutePath, Severity::Critical);
    lemma_kind_checks(e, Check::AbsolutePath, Severity::Critical);
    lemma_general_checks(t, e, Check::Traversal, Severity::Critical);
    lemma_mode_checks(e, Check::Traversal, Severity::Critical);
    lemma_kind_checks(e, Check::Traversal, Severity::Critical);
    lemma_general_checks(t, e, Check::Traversal, Severity::Warning);
    lemma_mode_checks(e, Check::Traversal, Severity::Warning);
    lemma_kind_checks(e, Check::Traversal, Severity::Warning);
}

proof fn lemma_general_checks(t: Track, e: EntryView, check: Check, severity: Severity)
    requires
        check != Check::DuplicatePath,
        check != Check::CaseCollision,
        check != Check::LinkEscape,
        check != Check::LinkIndirection,
    ensures
        holds(audit::entry_findings(t, e), check, severity) <==> {
            ||| holds(audit::mode_findings(e), check, severity)
            ||| holds(audit::kind_findings(e), check, severity)
            ||| (match paths::classified(e.path) {
                PathView::Absolute { .. } => check == Check::AbsolutePath && severity
                    == Severity::Critical,
                PathView::Escapes => check == Check::Traversal && severity == Severity::Critical,
                PathView::Empty => check == Check::Traversal && severity == Severity::Warning,
                PathView::Inside(_) => false,
            })
        },
        check != Check::SpecialFile ==> !holds(audit::kind_findings(e), check, severity),
        check == Check::SpecialFile ==> !holds(audit::mode_findings(e), check, severity),
{
    let m = audit::mode_findings(e);
    let k = audit::kind_findings(e);
    let n = audit::name_findings(t, e);
    lemma_mode_checks(e, check, severity);
    lemma_kind_checks(e, check, severity);
    lemma_has_sum(m, k, check, severity);
    lemma_has_sum(m + k, n, check, severity);
    match paths::classified(e.path) {
        PathView::Inside(comps) => {
            if comps.len() > 0 {
                let path = paths::joined(comps);
                let a = audit::duplicate_findings(t, e, path);
                let b = audit::case_findings(t, e, comps);
                let c = audit::parent_findings(t.links, e, comps);
                let d = audit::overwrite_findings(t.links, e, path);
                let l = audit::link_findings(t.links, e, comps);
                lemma_path_checks(t, e, comps, check, severity);
                assert(!holds(c, check, severity));
                assert(!holds(d, check, severity));
                assert(!holds(l, check, severity));
                lemma_has_sum(a, b, check, severity);
                lemma_has_sum(a + b, c, check, severity);
                lemma_has_sum(a + b + c, d, check, severity);
                lemma_has_sum(a + b + c + d, l, check, severity);
            }
        },
        _ => {
            assert(n =~= seq![n[0]]);
            lemma_has_one(n[0], check, severity);
        },
    }
}

/// Every finding on an entry with a name is filed under that name.
pub proof fn law_findings_name_their_entry(t: Track, e: EntryView, i: int)
    requires
        e.path.len() > 0,
        0 <= i < audit::entry_findings(t, e).len(),
    ensures
        audit::entry_findings(t, e)[i].path == e.path,
{
    let m = audit::mode_findings(e);
    let k = audit::kind_findings(e);
    let n = audit::name_findings(t, e);
    let all = audit::entry_findings(t, e);
    if i < m.len() {
        assert(all[i] == m[i]);
    } else if i < m.len() + k.len() {
        assert(all[i] == k[i - m.len()]);
    } else {
        let j = i - m.len() - k.len();
        assert(all[i] == n[j]);
        if let PathView::Inside(comps) = paths::classified(e.path) {
            let path = paths::joined(comps);
            let a = audit::duplicate_findings(t, e, path);
            let b = audit::case_findings(t, e, comps);
            let c = audit::parent_findings(t.links, e, comps);
            let d = audit::overwrite_findings(t.links, e, path);
            let l = audit::link_findings(t.links, e, comps);
            let x = a.len() as int;
            let y = x + b.len();
            let z = y + c.len();
            let w = z + d.len();
            if j < x {
                assert(n[j] == a[j]);
            } else if j < y {
                assert(n[j] == b[j - x]);
            } else if j < z {
                assert(n[j] == c[j - y]);
            } else if j < w {
                assert(n[j] == d[j - z]);
            } else {
                assert(n[j] == l[j - w]);
            }
        }
    }
}

proof fn lemma_occurs(entries: Seq<EntryView>, path: Seq<char>)
    ensures
        audit_laws::occurrences(entries, path) > 0 <==> exists|j: int|
            0 <= j < entries.len() && audit_laws::written_at(#[trigger] entries[j], path),
    decreases entries.len(),
{
    if entries.len() > 0 {
        let front = entries.drop_last();
        let n = entries.len() - 1;
        lemma_occurs(front, path);
        if audit_laws::occurrences(front, path) > 0 {
            let j = choose|j: int|
                0 <= j < front.len() && audit_laws::written_at(#[trigger] front[j], path);
            assert(audit_laws::written_at(entries[j], path));
        }
        if audit_laws::written_at(entries.last(), path) {
            assert(audit_laws::written_at(entries[n], path));
        }
        if exists|j: int|
            0 <= j < entries.len() && audit_laws::written_at(#[trigger] entries[j], path) {
            let j = choose|j: int|
                0 <= j < entries.len() && audit_laws::written_at(#[trigger] entries[j], path);
            if j < n {
                assert(audit_laws::written_at(front[j], path));
            }
        }
    }
}

/// A duplicate is reported exactly if an earlier entry is written at the same
/// normalized path, and not all of those entries are directories; the finding
/// says how often the path has come.
pub proof fn law_duplicates_are_exact(entries: Seq<EntryView>, i: int, comps: Components)
    requires
        0 <= i < entries.len(),
        paths::classified(entries[i].path) == PathView::Inside(comps),
        comps.len() > 0,
    ensures
        ({
            let e = entries[i];
            let path = paths::joined(comps);
            let found = audit::entry_findings(audit::track_after(entries.take(i)), e);
            let repeated = (exists|j: int|
                0 <= j < i && audit_laws::written_at(#[trigger] entries[j], path)) && (e.kind
                != EntryKind::Dir || exists|j: int|
                0 <= j < i && audit_laws::written_at(#[trigger] entries[j], path)
                    && entries[j].kind != EntryKind::Dir);
            &&& holds(found, Check::DuplicatePath, Severity::Warning) <==> repeated
            &&& !holds(found, Check::DuplicatePath, Severity::Critical)
            &&& repeated ==> found.contains(
                findings::warning(
                    Check::DuplicatePath,
                    e.path,
                    "path appears "@ + crate::text::decimal(
                        audit_laws::occurrences(entries.take(i), path) + 1,
                    ) + " times; the last entry silently wins on extraction"@,
                ),
            )
        }),
{
    let e = entries[i];
    let path = paths::joined(comps);
    let earlier = entries.take(i);
    let t = audit::track_after(earlier);
    let c = Check::DuplicatePath;
    audit_laws::law_occurrences_are_counted(earlier, path);
    lemma_occurs(earlier, path);
    assert forall|j: int| 0 <= j < i implies #[trigger] entries[j] == earlier[j] by {
    }
    let a = audit::duplicate_findings(t, e, path);
    if a.len() > 0 {
        assert(a =~= seq![a[0]]);
        lemma_has_one(a[0], c, Severity::Warning);
        lemma_has_one(a[0], c, Severity::Critical);
        let m = audit::mode_findings(e).len() + audit::kind_findings(e).len() as int;
        assert(audit::inside_findings(t, e, comps)[0] == a[0]);
        assert(audit::entry_findings(t, e)[m] == a[0]);
    }
    lemma_only_paths(t, e, comps, c, Severity::Warning);
    lemma_only_paths(t, e, comps, c, Severity::Critical);
    if exists|j: int| 0 <= j < i && audit_laws::written_at(#[trigger] entries[j], path) {
        let j = choose|j: int| 0 <= j < i && audit_laws::written_at(#[trigger] entries[j], path);
        assert(audit_laws::written_at(earlier[j], path));
    }
    if exists|j: int|
        0 <= j < i && audit_laws::written_at(#[trigger] entries[j], path) && entries[j].kind
            != EntryKind::Dir {
        let j = choose|j: int|
            0 <= j < i && audit_laws::written_at(#[trigger] entries[j], path) && entries[j].kind
                != EntryKind::Dir;
        assert(audit_laws::written_at(earlier[j], path));
    }
    if audit_laws::occurrences(earlier, path) > 0 {
        let j = choose|j: int|
            0 <= j < earlier.len() && audit_laws::written_at(#[trigger] earlier[j], path);
        assert(audit_laws::written_at(entries[j], path));
    }
    if audit_laws::taken(earlier, path) {
        let j = choose|j: int|
            0 <= j < earlier.len() && #[trigger] audit_laws::written_at(earlier[j], path)
                && earlier[j].kind != EntryKind::Dir;
        assert(audit_laws::written_at(entries[j], path));
    }
}

/// Where findings of the duplicate and case checks come from.
proof fn lemma_only_paths(
    t: Track,
    e: EntryView,
    comps: Components,
    check: Check,
    severity: Severity,
)
    requires
        paths::classified(e.path) == PathView::Inside(comps),
        comps.len() > 0,
        check == Check::DuplicatePath || check == Check::CaseCollision,
    ensures
        holds(audit::entry_findings(t, e), check, severity) <==> {
            ||| holds(audit::duplicate_findings(t, e, paths::joined(comps)), check, severity)
            ||| holds(audit::case_findings(t, e, comps), check, severity)
        },
        check == Check::DuplicatePath ==> !holds(
            audit::case_findings(t, e, comps),
            check,
            severity,
        ),
        check == Check::CaseCollision ==> !holds(
            audit::duplicate_findings(t, e, paths::joined(comps)),
            check,
            severity,
        ),
{
    let path = paths::joined(comps);
    lemma_mode_checks(e, check, severity);
    lemma_kind_checks(e, check, severity);
    lemma_path_checks(t, e, comps, check, severity);
    lemma_has_parts(t, e, comps, check, severity);
    assert(!holds(audit::parent_findings(t.links, e, comps), check, severity));
    assert(!holds(audit::overwrite_findings(t.links, e, path), check, severity));
    assert(!holds(audit::link_findings(t.links, e, comps), check, severity));
}

/// Is `entries[f]` the first entry whose path folds to `key`?
pub open spec fn first_folding_to(entries: Seq<EntryView>, key: Seq<char>, f: int) -> bool {
    &&& 0 <= f < entries.len()
    &&& audit_laws::place(entries[f]) matches Some(comps)
    &&& paths::folded(comps) == key
    &&& forall|j: int|
        0 <= j < f ==> !(audit_laws::place(#[trigger] entries[j]) matches Some(c) && paths::folded(
            c,
        ) == key)
}

proof fn lemma_first_folding(entries: Seq<EntryView>, key: Seq<char>)
    ensures
        match audit_laws::first_spelling(entries, key) {
            Some(first) => exists|f: int| #[trigger]
                first_folding_to(entries, key, f) && first == paths::joined(
                    audit_laws::place(entries[f])->0,
                ),
            None => forall|j: int|
                0 <= j < entries.len() ==> !(audit_laws::place(#[trigger] entries[j]) matches Some(
                    c,
                ) && paths::folded(c) == key),
        },
    decreases entries.len(),
{
    if entries.len() > 0 {
        let front = entries.drop_last();
        let n = entries.len() - 1;
        lemma_first_folding(front, key);
        assert forall|j: int| 0 <= j < n implies #[trigger] entries[j] == front[j] by {
        }
        if audit_laws::first_spelling(front, key) is Some {
            let first = audit_laws::first_spelling(front, key)->0;
            let f = choose|f: int| #[trigger]
                first_folding_to(front, key, f) && first == paths::joined(
                    audit_laws::place(front[f])->0,
                );
            assert(first_folding_to(entries, key, f)) by {
                assert forall|j: int| 0 <= j < f implies !(audit_laws::place(
                    #[trigger] entries[j],
                ) matches Some(c) && paths::folded(c) == key) by {
                    assert(entries[j] == front[j]);
                }
            }
        } else {
            assert forall|j: int| 0 <= j < n implies !(audit_laws::place(
                #[trigger] entries[j],
            ) matches Some(c) && paths::folded(c) == key) by {
                assert(entries[j] == front[j]);
            }
            if audit_laws::place(entries[n]) matches Some(c) && paths::folded(c) == key {
                assert(first_folding_to(entries, key, n));
            }
        }
    }
}

/// A case collision is reported exactly if an earlier path folds to the same
/// text, and the first that does was spelled otherwise; the finding names that
/// first spelling.
pub proof fn law_case_collisions_are_exact(entries: Seq<EntryView>, i: int, comps: Components)
    requires
        0 <= i < entries.len(),
        paths::classified(entries[i].path) == PathView::Inside(comps),
        comps.len() > 0,
    ensures
        ({
            let e = entries[i];
            let earlier = entries.take(i);
            let key = paths::folded(comps);
            let found = audit::entry_findings(audit::track_after(earlier), e);
            &&& (forall|f: int| !#[trigger] first_folding_to(earlier, key, f)) ==> !holds(
                found,
                Check::CaseCollision,
                Severity::Warning,
            )
            &&& forall|f: int| #[trigger]
                first_folding_to(earlier, key, f) ==> {
                    let first = paths::joined(audit_laws::place(earlier[f])->0);
                    &&& holds(found, Check::CaseCollision, Severity::Warning) <==> first
                        != paths::joined(comps)
                    &&& first != paths::joined(comps) ==> found.contains(
                        findings::warning(
                            Check::CaseCollision,
                            e.path,
                            "collides with '"@ + first + "' on case-insensitive filesystems"@,
                        ),
                    )
                }
            &&& !holds(found, Check::CaseCollision, Severity::Critical)
        }),
{
    let e = entries[i];
    let path = paths::joined(comps);
    let earlier = entries.take(i);
    let t = audit::track_after(earlier);
    let key = paths::folded(comps);
    let c = Check::CaseCollision;
    audit_laws::law_first_spelling_is_remembered(earlier, key);
    lemma_first_folding(earlier, key);
    let a = audit::duplicate_findings(t, e, path);
    let b = audit::case_findings(t, e, comps);
    if b.len() > 0 {
        assert(b =~= seq![b[0]]);
        lemma_has_one(b[0], c, Severity::Warning);
        lemma_has_one(b[0], c, Severity::Critical);
        let m = audit::mode_findings(e).len() + audit::kind_findings(e).len() as int;
        assert(audit::inside_findings(t, e, comps)[a.len() as int] == b[0]);
        assert(audit::entry_findings(t, e)[m + a.len()] == b[0]);
    }
    lemma_only_paths(t, e, comps, c, Severity::Warning);
    lemma_only_paths(t, e, comps, c, Severity::Critical);
    if audit_laws::first_spelling(earlier, key) is Some {
        let first = audit_laws::first_spelling(earlier, key)->0;
        let g = choose|f: int| #[trigger]
            first_folding_to(earlier, key, f) && first == paths::joined(
                audit_laws::place(earlier[f])->0,
            );
        assert forall|f: int| #[trigger] first_folding_to(earlier, key, f) implies f == g by {
            if f < g {
                assert(!(audit_laws::place(earlier[f]) matches Some(x) && paths::folded(x) == key));
            } else if g < f {
                assert(!(audit_laws::place(earlier[g]) matches Some(x) && paths::folded(x) == key));
            }
        }
    }
}

} // verus!
