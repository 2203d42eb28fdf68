//! What holds of path arithmetic as a whole: when a name escapes, what normal
//! forms look like, and that they are stable.
use vstd::prelude::*;

use crate::paths;
use crate::paths::{Components, PathView};
use crate::text;

verus! {

/// How far one step leads down.
pub open spec fn descent(step: Seq<char>) -> int {
    if paths::stays(step) {
        0
    } else if step == ".."@ {
        -1
    } else {
        1
    }
}

/// How far the first `k` steps lead down.
pub open spec fn depth(steps: Components, k: nat) -> int
    decreases k,
{
    if k == 0 {
        0
    } else {
        depth(steps, (k - 1) as nat) + descent(steps[k - 1])
    }
}

proof fn lemma_depth_front(steps: Components, k: nat)
    requires
        1 <= k <= steps.len(),
    ensures
        depth(steps, k) == descent(steps[0]) + depth(steps.skip(1), (k - 1) as nat),
    decreases k,
{
    reveal_with_fuel(depth, 2);
    if k > 1 {
        lemma_depth_front(steps, (k - 1) as nat);
        assert(steps.skip(1)[k - 2] == steps[k - 1]);
    }
}

proof fn lemma_walk_dips(at: Components, steps: Components)
    ensures
        paths::walk(at, steps) is None <==> exists|k: nat|
            k <= steps.len() && at.len() + #[trigger] depth(steps, k) < 0,
    decreases steps.len(),
{
    if steps.len() > 0 {
        let rest = steps.skip(1);
        let d = descent(steps[0]);
        if d == -1 && at.len() == 0 {
            reveal_with_fuel(depth, 2);
            assert(at.len() + depth(steps, 1) < 0);
        } else {
            let next = if d == 0 {
                at
            } else if d == -1 {
                at.drop_last()
            } else {
                at.push(steps[0])
            };
            lemma_walk_dips(next, rest);
            assert(paths::walk(at, steps) == paths::walk(next, rest));
            if paths::walk(next, rest) is None {
                let k = choose|k: nat|
                    k <= rest.len() && next.len() + #[trigger] depth(rest, k) < 0;
                lemma_depth_front(steps, k + 1);
                assert(at.len() + depth(steps, k + 1) < 0);
            } else {
                assert forall|k: nat| k <= steps.len() implies at.len() + #[trigger] depth(
                    steps,
                    k,
                ) >= 0 by {
                    if k > 0 {
                        lemma_depth_front(steps, k);
                        assert(next.len() + depth(rest, (k - 1) as nat) >= 0);
                    }
                }
            }
        }
    } else {
        assert forall|k: nat| k <= steps.len() implies at.len() + #[trigger] depth(steps, k)
            >= 0 by {
        }
    }
}

/// A relative name is a traversal exactly if some leading part of it lies
/// above the root: coming back down afterwards does not help, and `..` that
/// stays inside does not count.
pub proof fn law_traversal_is_a_dip_above_the_root(raw: Seq<char>)
    requires
        raw.len() > 0,
        paths::absolute(raw) is None,
    ensures
        paths::classified(raw) == PathView::Escapes <==> exists|k: nat|
            k <= paths::parts(raw).len() && #[trigger] depth(paths::parts(raw), k) < 0,
{
    lemma_walk_dips(seq![], paths::parts(raw));
    if exists|k: nat| k <= paths::parts(raw).len() && #[trigger] depth(paths::parts(raw), k) < 0 {
        let k = choose|k: nat|
            k <= paths::parts(raw).len() && #[trigger] depth(paths::parts(raw), k) < 0;
        assert(Components::empty().len() + depth(paths::parts(raw), k) < 0);
    }
}

/// Does `part` hold no separator?
pub open spec fn solid(part: Seq<char>) -> bool {
    forall|j: int| 0 <= j < part.len() ==> !paths::is_sep(#[trigger] part[j])
}

/// Is `part` a proper name: not empty, not `.` or `..`, without separators?
pub open spec fn proper(part: Seq<char>) -> bool {
    !paths::stays(part) && part != ".."@ && solid(part)
}

/// Are all components proper names?
pub open spec fn clean(comps: Components) -> bool {
    forall|i: int| 0 <= i < comps.len() ==> proper(#[trigger] comps[i])
}

proof fn lemma_parts_solid(raw: Seq<char>)
    ensures
        paths::parts(raw).len() > 0,
        forall|i: int| 0 <= i < paths::parts(raw).len() ==> solid(#[trigger] paths::parts(raw)[i]),
    decreases raw.len(),
{
    if raw.len() > 0 {
        lemma_parts_solid(raw.drop_last());
        let before = paths::parts(raw.drop_last());
        assert(solid(before[before.len() - 1]));
    }
}

proof fn lemma_walk_clean(at: Components, steps: Components)
    requires
        clean(at),
        forall|i: int| 0 <= i < steps.len() ==> solid(#[trigger] steps[i]),
    ensures
        paths::walk(at, steps) matches Some(comps) ==> clean(comps),
    decreases steps.len(),
{
    if steps.len() > 0 {
        let rest = steps.skip(1);
        assert forall|i: int| 0 <= i < rest.len() implies solid(#[trigger] rest[i]) by {
            assert(rest[i] == steps[i + 1]);
        }
        if paths::stays(steps[0]) {
            lemma_walk_clean(at, rest);
        } else if steps[0] == ".."@ {
            if at.len() > 0 {
                lemma_walk_clean(at.drop_last(), rest);
            }
        } else {
            lemma_walk_clean(at.push(steps[0]), rest);
        }
    }
}

/// What stays inside is made of proper names alone, wherever it is seen from.
pub proof fn law_components_are_proper(base: Components, raw: Seq<char>)
    requires
        clean(base),
    ensures
        paths::resolved(base, raw) matches PathView::Inside(comps) ==> clean(comps),
{
    lemma_parts_solid(raw);
    lemma_walk_clean(base, paths::parts(raw));
}

proof fn lemma_parts_extend(s: Seq<char>, t: Seq<char>)
    requires
        solid(t),
    ensures
        paths::parts(s).len() > 0,
        paths::parts(s + t) == paths::parts(s).drop_last().push(paths::parts(s).last() + t),
    decreases t.len(),
{
    lemma_parts_solid(s);
    if t.len() == 0 {
        assert(s + t =~= s);
        assert(paths::parts(s).last() + t =~= paths::parts(s).last());
        assert(paths::parts(s) =~= paths::parts(s).drop_last().push(paths::parts(s).last()));
    } else {
        assert((s + t).drop_last() =~= s + t.drop_last());
        assert((s + t).last() == t.last());
        assert(solid(t.drop_last())) by {
            assert forall|j: int| 0 <= j < t.drop_last().len() implies !paths::is_sep(
                #[trigger] t.drop_last()[j],
            ) by {
                assert(t.drop_last()[j] == t[j]);
            }
        }
        lemma_parts_extend(s, t.drop_last());
        let p = paths::parts(s);
        assert(!paths::is_sep(t[t.len() - 1]));
        assert(p.drop_last().push(p.last() + t.drop_last()).drop_last() =~= p.drop_last());
        assert((p.last() + t.drop_last()).push(t.last()) =~= p.last() + t);
    }
}

proof fn lemma_parts_of_joined(comps: Components)
    requires
        comps.len() > 0,
        forall|i: int| 0 <= i < comps.len() ==> solid(#[trigger] comps[i]),
    ensures
        paths::parts(paths::joined(comps)) == comps,
    decreases comps.len(),
{
    reveal_strlit("/");
    if comps.len() == 1 {
        lemma_parts_extend(seq![], comps[0]);
        assert(Seq::<char>::empty() + comps[0] =~= comps[0]);
        assert(paths::parts(comps[0]) =~= comps);
    } else {
        let front = comps.drop_last();
        let head = paths::joined(front);
        let with_slash = head + "/"@;
        lemma_parts_of_joined(front);
        assert(with_slash.drop_last() =~= head);
        assert(with_slash.last() == '/');
        assert(paths::parts(with_slash) =~= front.push(seq![]));
        lemma_parts_extend(with_slash, comps.last());
        assert(front.push(seq![]).drop_last() =~= front);
        assert(Seq::<char>::empty() + comps.last() =~= comps.last());
        assert(front.push(comps.last()) =~= comps);
    }
}

proof fn lemma_walk_proper(at: Components, comps: Components)
    requires
        clean(comps),
    ensures
        paths::walk(at, comps) == Some(at + comps),
    decreases comps.len(),
{
    if comps.len() == 0 {
        assert(at + comps =~= at);
    } else {
        let rest = comps.skip(1);
        assert(clean(rest)) by {
            assert forall|i: int| 0 <= i < rest.len() implies proper(#[trigger] rest[i]) by {
                assert(rest[i] == comps[i + 1]);
            }
        }
        lemma_walk_proper(at.push(comps[0]), rest);
        assert(proper(comps[0]));
        assert(at.push(comps[0]) + rest =~= at + comps);
    }
}

proof fn lemma_joined_starts(comps: Components)
    requires
        comps.len() > 0,
        clean(comps),
    ensures
        ({
            let j = paths::joined(comps);
            &&& comps[0].len() > 0
            &&& j.len() >= comps[0].len()
            &&& j.take(comps[0].len() as int) == comps[0]
            &&& j.len() > comps[0].len() ==> j[comps[0].len() as int] == '/'
        }),
    decreases comps.len(),
{
    reveal_strlit("/");
    reveal_strlit("");
    assert(proper(comps[0]));
    assert(comps[0].len() > 0) by {
        if comps[0].len() == 0 {
            assert(comps[0] =~= ""@);
        }
    }
    if comps.len() > 1 {
        let front = comps.drop_last();
        assert(clean(front)) by {
            assert forall|i: int| 0 <= i < front.len() implies proper(#[trigger] front[i]) by {
                assert(front[i] == comps[i]);
            }
        }
        lemma_joined_starts(front);
        let n = comps[0].len() as int;
        let head = paths::joined(front);
        let j = paths::joined(comps);
        assert(j =~= head + "/"@ + comps.last());
        assert(j.take(n) =~= head.take(n));
        if head.len() == n {
            assert(j[n] == '/');
        } else {
            assert(j[n] == head[n]);
        }
    } else {
        assert(comps[0].take(comps[0].len() as int) =~= comps[0]);
    }
}

/// Would `part`, leading a path, read as a drive letter?
pub open spec fn drive_like(part: Seq<char>) -> bool {
    part.len() >= 2 && paths::is_letter(part[0]) && part[1] == ':'
}

/// Normal forms are stable: joined again, they are classified as themselves.
/// A first component that reads as a drive letter is the one exception: it
/// stays inside behind `./`, and is absolute on its own.
pub proof fn law_normal_form_is_stable(comps: Components)
    requires
        comps.len() > 0,
        clean(comps),
        !drive_like(comps[0]),
    ensures
        paths::classified(paths::joined(comps)) == PathView::Inside(comps),
{
    let j = paths::joined(comps);
    let n = comps[0].len() as int;
    lemma_joined_starts(comps);
    assert forall|i: int| 0 <= i < comps.len() implies solid(#[trigger] comps[i]) by {
        assert(proper(comps[i]));
    }
    lemma_parts_of_joined(comps);
    lemma_walk_proper(seq![], comps);
    assert(Components::empty() + comps =~= comps);
    assert(solid(comps[0]));
    assert(j[0] == comps[0][0]) by {
        assert(j.take(n)[0] == j[0]);
    }
    if n >= 2 {
        assert(j.take(n)[1] == j[1]);
    }
}

/// The joined form tells any two different normal forms apart, so it can
/// stand for the path.
pub proof fn law_joined_is_injective(a: Components, b: Components)
    requires
        clean(a),
        clean(b),
        paths::joined(a) == paths::joined(b),
    ensures
        a == b,
{
    assert forall|i: int| 0 <= i < a.len() implies solid(#[trigger] a[i]) by {
        assert(proper(a[i]));
    }
    assert forall|i: int| 0 <= i < b.len() implies solid(#[trigger] b[i]) by {
        assert(proper(b[i]));
    }
    if a.len() > 0 {
        lemma_joined_starts(a);
        lemma_parts_of_joined(a);
    }
    if b.len() > 0 {
        lemma_joined_starts(b);
        lemma_parts_of_joined(b);
    }
    if a.len() == 0 && b.len() == 0 {
        assert(a =~= b);
    }
}

/// `raw` with slashes for backslashes.
pub open spec fn slashed(raw: Seq<char>) -> Seq<char> {
    raw.map_values(
        |c: char|
            if c == '\\' {
                '/'
            } else {
                c
            },
    )
}

/// Backslashes separate exactly as slashes do.
pub proof fn law_backslash_is_a_separator(raw: Seq<char>)
    ensures
        paths::parts(slashed(raw)) == paths::parts(raw),
    decreases raw.len(),
{
    if raw.len() > 0 {
        law_backslash_is_a_separator(raw.drop_last());
        assert(slashed(raw).drop_last() =~= slashed(raw.drop_last()));
    } else {
        assert(slashed(raw) =~= raw);
    }
}

/// Do `a` and `b` hold ASCII text that differs in case alone?
pub open spec fn same_but_for_case(a: Seq<char>, b: Seq<char>) -> bool {
    &&& text::all_ascii(a)
    &&& text::all_ascii(b)
    &&& a.len() == b.len()
    &&& forall|i: int|
        0 <= i < a.len() ==> text::ascii_small(#[trigger] a[i]) == text::ascii_small(b[i])
}

/// Paths in ASCII that differ in case alone have one case-folded form.
pub proof fn law_case_variants_fold_alike(a: Components, b: Components)
    requires
        a.len() == b.len(),
        forall|i: int| 0 <= i < a.len() ==> same_but_for_case(#[trigger] a[i], b[i]),
    ensures
        paths::folded(a) == paths::folded(b),
{
    let fa = a.map_values(|c: Seq<char>| text::lower(c));
    let fb = b.map_values(|c: Seq<char>| text::lower(c));
    assert forall|i: int| 0 <= i < a.len() implies #[trigger] fa[i] == fb[i] by {
        assert(same_but_for_case(a[i], b[i]));
        assert(text::lower(a[i]) =~= text::lower(b[i]));
    }
    assert(fa =~= fb);
}

/// A name is absolute exactly if it starts with a separator of either kind, or
/// with an ASCII letter and a colon; a separator written twice makes it a UNC
/// path.
pub proof fn law_absolute_names_are_exact(raw: Seq<char>)
    ensures
        paths::classified(raw) is Absolute <==> raw.len() > 0 && {
            ||| raw[0] == '/'
            ||| raw[0] == '\\'
            ||| raw.len() > 1 && raw[1] == ':' && (('a' <= raw[0] && raw[0] <= 'z') || ('A'
                <= raw[0] && raw[0] <= 'Z'))
        },
        paths::classified(raw) matches PathView::Absolute { kind } ==> kind == (if raw.len() > 1
            && raw[0] == raw[1] {
            "UNC path"@
        } else if raw[0] == '/' || raw[0] == '\\' {
            "leading separator"@
        } else {
            "Windows drive letter"@
        }),
        paths::classified(raw) is Empty <==> raw.len() == 0,
{
}

/// Is `step` a name of its own, rather than an empty part, `.` or `..`?
pub open spec fn is_name(step: Seq<char>) -> bool {
    step.len() > 0 && step != seq!['.'] && step != seq!['.', '.']
}

proof fn lemma_dots()
    ensures
        ""@ == Seq::<char>::empty(),
        "."@ == seq!['.'],
        ".."@ == seq!['.', '.'],
{
    reveal_strlit("");
    reveal_strlit(".");
    reveal_strlit("..");
    assert(""@ =~= Seq::<char>::empty());
    assert("."@ =~= seq!['.']);
    assert(".."@ =~= seq!['.', '.']);
}

/// Walking is done step by step: first one half of the way, then the other
/// from where that ends.
pub proof fn law_walks_compose(at: Components, first: Components, second: Components)
    ensures
        paths::walk(at, first + second) == (match paths::walk(at, first) {
            Some(mid) => paths::walk(mid, second),
            None => None,
        }),
    decreases first.len(),
{
    let all = first + second;
    if first.len() == 0 {
        assert(all =~= second);
    } else {
        assert(all[0] == first[0]);
        assert(all.skip(1) =~= first.skip(1) + second);
        if paths::stays(first[0]) {
            law_walks_compose(at, first.skip(1), second);
        } else if first[0] == ".."@ {
            if at.len() > 0 {
                law_walks_compose(at.drop_last(), first.skip(1), second);
            }
        } else {
            law_walks_compose(at.push(first[0]), first.skip(1), second);
        }
    }
}

/// What one step does: an empty part and `.` stay, `..` goes up and cannot
/// leave the root, and a name goes down to it.
pub proof fn law_single_steps(at: Components, step: Seq<char>)
    ensures
        step.len() == 0 || step == seq!['.'] ==> paths::walk(at, seq![step]) == Some(at),
        step == seq!['.', '.'] ==> paths::walk(at, seq![step]) == (if at.len() == 0 {
            None
        } else {
            Some(at.take(at.len() - 1))
        }),
        is_name(step) ==> paths::walk(at, seq![step]) == Some(at + seq![step]),
        is_name(step) ==> paths::walk(at, seq![step, seq!['.', '.']]) == Some(at),
{
    lemma_dots();
    let one = seq![step];
    assert(one.skip(1) =~= seq![]);
    reveal_with_fuel(paths::walk, 3);
    if step.len() == 0 {
        assert(step =~= Seq::<char>::empty());
    }
    if at.len() > 0 {
        assert(at.take(at.len() - 1) =~= at.drop_last());
    }
    assert(at.push(step) =~= at + seq![step]);
    let up = seq![seq!['.', '.']];
    assert(up.skip(1) =~= seq![]);
    if is_name(step) {
        let below = at + seq![step];
        law_walks_compose(at, one, up);
        assert(one + up =~= seq![step, seq!['.', '.']]);
        assert(paths::walk(at, one) == Some(below));
        assert(below.drop_last() =~= at);
        assert(up[0] == seq!['.', '.']);
        assert(up[0].len() == 2 && ""@.len() == 0 && "."@.len() == 1);
        assert(!paths::stays(up[0]));
        assert(paths::walk(below, up) == paths::walk(at, up.skip(1)));
    }
}

/// A walk down names alone ends at them.
pub proof fn law_names_lead_down(at: Components, steps: Components)
    requires
        forall|i: int| 0 <= i < steps.len() ==> is_name(#[trigger] steps[i]),
    ensures
        paths::walk(at, steps) == Some(at + steps),
    decreases steps.len(),
{
    if steps.len() == 0 {
        assert(at + steps =~= at);
    } else {
        let left = steps.skip(1);
        assert(is_name(steps[0]));
        lemma_dots();
        assert forall|i: int| 0 <= i < left.len() implies is_name(#[trigger] left[i]) by {
            assert(left[i] == steps[i + 1]);
        }
        law_names_lead_down(at.push(steps[0]), left);
        assert(at.push(steps[0]) + left =~= at + steps);
    }
}

proof fn lemma_parts_nonempty(raw: Seq<char>)
    ensures
        paths::parts(raw).len() > 0,
    decreases raw.len(),
{
    if raw.len() > 0 {
        lemma_parts_nonempty(raw.drop_last());
    }
}

/// A name is cut at every separator, and nowhere else: the parts of two texts
/// with a separator between them are the parts of the one and then those of
/// the other, and a text without separators is one part.
pub proof fn law_names_are_cut_at_separators(a: Seq<char>, sep: char, b: Seq<char>)
    requires
        sep == '/' || sep == '\\',
    ensures
        paths::parts(a + seq![sep] + b) == paths::parts(a) + paths::parts(b),
        (forall|i: int| 0 <= i < a.len() ==> #[trigger] a[i] != '/' && a[i] != '\\')
            ==> paths::parts(a) == seq![a],
    decreases b.len(),
{
    if forall|i: int| 0 <= i < a.len() ==> #[trigger] a[i] != '/' && a[i] != '\\' {
        lemma_one_part(a);
    }
    let all = a + seq![sep] + b;
    lemma_parts_nonempty(b);
    if b.len() == 0 {
        assert(all.drop_last() =~= a);
        assert(all.last() == sep);
        assert(b =~= seq![]);
        assert(paths::parts(a).push(seq![]) =~= paths::parts(a) + seq![Seq::<char>::empty()]);
        assert(paths::parts(b) =~= seq![Seq::<char>::empty()]);
    } else {
        let front = b.drop_last();
        law_names_are_cut_at_separators(a, sep, front);
        lemma_parts_nonempty(front);
        assert(all.drop_last() =~= a + seq![sep] + front);
        assert(all.last() == b.last());
        let x = paths::parts(a);
        let y = paths::parts(front);
        if paths::is_sep(b.last()) {
            assert((x + y).push(seq![]) =~= x + y.push(seq![]));
        } else {
            let z = y.last().push(b.last());
            assert((x + y).last() == y.last());
            assert((x + y).drop_last().push(z) =~= x + y.drop_last().push(z));
        }
    }
}

proof fn lemma_one_part(a: Seq<char>)
    requires
        forall|i: int| 0 <= i < a.len() ==> #[trigger] a[i] != '/' && a[i] != '\\',
    ensures
        paths::parts(a) == seq![a],
    decreases a.len(),
{
    if a.len() > 0 {
        let front = a.drop_last();
        assert forall|i: int| 0 <= i < front.len() implies #[trigger] front[i] != '/' && front[i]
            != '\\' by {
            assert(front[i] == a[i]);
        }
        lemma_one_part(front);
        assert(a.last() == a[a.len() - 1]);
        assert(front.push(a.last()) =~= a);
        assert(seq![front].drop_last().push(a) =~= seq![a]);
    } else {
        assert(a =~= seq![]);
    }
}

/// What `raw` means from the root: relative names are walked from there.
pub proof fn law_relative_names_are_walked(base: Components, raw: Seq<char>)
    requires
        raw.len() > 0,
        !(paths::classified(raw) is Absolute),
    ensures
        paths::resolved(base, raw) == (match paths::walk(base, paths::parts(raw)) {
            Some(comps) => PathView::Inside(comps),
            None => PathView::Escapes,
        }),
{
}

/// Folding makes the 26 ASCII capitals small, and leaves every other ASCII
/// character alone.
pub proof fn law_capitals_fold(s: Seq<char>, i: int)
    requires
        forall|j: int| 0 <= j < s.len() ==> (#[trigger] s[j]) as u32 <= 127,
        0 <= i < s.len(),
    ensures
        text::lower(s).len() == s.len(),
        text::lower(s)[i] as u32 == (if 65 <= s[i] as u32 && s[i] as u32 <= 90 {
            s[i] as u32 + 32
        } else {
            s[i] as int
        }),
{
    assert(text::all_ascii(s));
}

} // verus!
