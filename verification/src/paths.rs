//! Pure path arithmetic. Nothing in this module touches the filesystem:
//! it classifies raw archive entry names against a virtual extraction
//! root, exactly as a (naive) extractor would interpret them.
//!
//! Deliberately conservative choices:
//! - Both `/` and `\` are treated as separators. A name like `a\..\..\x`
//!   is harmless on Linux but escapes the root when extracted on Windows,
//!   so slipcheck flags it everywhere.
//! - Drive letters (`C:...`) and UNC prefixes count as absolute.
use vstd::prelude::*;
use vstd::string::*;

use crate::text;

verus! {

/// Result of interpreting a raw entry name relative to the extraction root.
#[derive(Debug, Clone, PartialEq, Eq)]
pub enum PathCheck {
    /// Stays inside the root; the normalized components (no `.`/`..`,
    /// no empty parts). May be empty for names like `"."` or `"./"`.
    Inside(Vec<String>),
    /// Absolute in some interpretation; `kind` says which one.
    Absolute {
        /// The interpretation.
        kind: &'static str,
    },
    /// Uses `..` to climb above the extraction root.
    Escapes,
    /// The name is empty.
    Empty,
}

/// A path as its components.
pub type Components = Seq<Seq<char>>;

/// A [`PathCheck`] with its texts as character sequences.
#[verifier::ext_equal]
pub enum PathView {
    /// Stays inside the root.
    Inside(Components),
    /// Absolute.
    Absolute {
        /// In which interpretation.
        kind: Seq<char>,
    },
    /// Climbs above the root.
    Escapes,
    /// Empty name.
    Empty,
}

/// The texts of `strings`.
pub open spec fn texts(strings: Seq<String>) -> Components {
    strings.map_values(|s: String| s@)
}

impl View for PathCheck {
    type V = PathView;

    open spec fn view(&self) -> PathView {
        match *self {
            PathCheck::Inside(comps) => PathView::Inside(texts(comps@)),
            PathCheck::Absolute { kind } => PathView::Absolute { kind: kind@ },
            PathCheck::Escapes => PathView::Escapes,
            PathCheck::Empty => PathView::Empty,
        }
    }
}

/// Is `c` a separator in either convention?
pub open spec fn is_sep(c: char) -> bool {
    c == '/' || c == '\\'
}

/// The parts of `raw` between separators, empty ones included.
pub open spec fn parts(raw: Seq<char>) -> Components
    decreases raw.len(),
{
    if raw.len() == 0 {
        seq![seq![]]
    } else {
        let before = parts(raw.drop_last());
        if is_sep(raw.last()) {
            before.push(seq![])
        } else {
            before.drop_last().push(before.last().push(raw.last()))
        }
    }
}

/// In which convention `raw` is absolute, if any.
pub open spec fn absolute(raw: Seq<char>) -> Option<Seq<char>> {
    if raw.len() >= 2 && is_sep(raw[0]) && raw[1] == raw[0] {
        Some("UNC path"@)
    } else if raw.len() >= 1 && is_sep(raw[0]) {
        Some("leading separator"@)
    } else if raw.len() >= 2 && is_letter(raw[0]) && raw[1] == ':' {
        Some("Windows drive letter"@)
    } else {
        None
    }
}

/// Is `c` an ASCII letter?
pub open spec fn is_letter(c: char) -> bool {
    ('a' <= c && c <= 'z') || ('A' <= c && c <= 'Z')
}

/// Does the part leave the position as it is?
pub open spec fn stays(part: Seq<char>) -> bool {
    part == ""@ || part == "."@
}

/// Walk `steps` from the directory `at`, never above the root; `None` where
/// the walk would climb out.
pub open spec fn walk(at: Components, steps: Components) -> Option<Components>
    decreases steps.len(),
{
    if steps.len() == 0 {
        Some(at)
    } else if stays(steps[0]) {
        walk(at, steps.skip(1))
    } else if steps[0] == ".."@ {
        if at.len() == 0 {
            None
        } else {
            walk(at.drop_last(), steps.skip(1))
        }
    } else {
        walk(at.push(steps[0]), steps.skip(1))
    }
}

/// What `raw` means, seen from the directory `base`.
pub open spec fn resolved(base: Components, raw: Seq<char>) -> PathView {
    if raw.len() == 0 {
        PathView::Empty
    } else {
        match absolute(raw) {
            Some(kind) => PathView::Absolute { kind },
            None => match walk(base, parts(raw)) {
                Some(comps) => PathView::Inside(comps),
                None => PathView::Escapes,
            },
        }
    }
}

/// What `raw` means, seen from the extraction root.
pub open spec fn classified(raw: Seq<char>) -> PathView {
    resolved(seq![], raw)
}

/// `comps` with slashes between them.
pub open spec fn joined(comps: Components) -> Seq<char>
    decreases comps.len(),
{
    if comps.len() == 0 {
        seq![]
    } else if comps.len() == 1 {
        comps[0]
    } else {
        joined(comps.drop_last()) + "/"@ + comps.last()
    }
}

/// `comps` joined, each in lower case.
pub open spec fn folded(comps: Components) -> Seq<char> {
    joined(comps.map_values(|c: Seq<char>| text::lower(c)))
}

/// Split a raw name on both separator conventions.
pub fn split(raw: &str) -> (r: Vec<String>)
    ensures
        texts(r@) == parts(raw@),
{
    let mut done: Vec<String> = Vec::new();
    let mut current = String::new();
    assert(texts(done@).push(current@) =~= seq![seq![]]);
    assert(raw@.take(0) =~= seq![]);
    for c in it: raw.chars()
        invariant
            it.seq() == raw@,
            texts(done@).push(current@) == parts(raw@.take(it.index() as int)),
    {
        let ghost before = texts(done@).push(current@);
        let ghost i: int = it.index() as int;
        proof {
            let longer = raw@.take(i + 1);
            assert(longer.drop_last() =~= raw@.take(i));
            assert(longer.last() == c);
            assert(before.drop_last() =~= texts(done@));
        }
        if c == '/' || c == '\\' {
            let ghost old_done = done@;
            let part = current;
            done.push(part);
            current = String::new();
            proof {
                assert(texts(done@) =~= texts(old_done).push(part@));
                assert(current@ =~= seq![]);
            }
        } else {
            current.push(c);
        }
    }
    assert(raw@.take(raw@.len() as int) =~= raw@);
    let ghost old_done = done@;
    let ghost last = current@;
    done.push(current);
    assert(texts(done@) =~= texts(old_done).push(last));
    done
}

/// Is the raw name absolute, and if so, in which convention?
pub fn absolute_kind(raw: &str) -> (r: Option<&'static str>)
    ensures
        absolute(raw@) == (match r {
            Some(kind) => Some(kind@),
            None => None,
        }),
{
    let n: usize = raw.unicode_len();
    if n == 0 {
        return None;
    }
    let first: char = raw.get_char(0);
    if first == '/' || first == '\\' {
        if n >= 2 && raw.get_char(1) == first {
            return Some("UNC path");
        }
        return Some("leading separator");
    }
    let letter: bool = ('a' <= first && first <= 'z') || ('A' <= first && first <= 'Z');
    if n >= 2 && letter && raw.get_char(1) == ':' {
        return Some("Windows drive letter");
    }
    None
}

/// Copies of `strings`.
pub fn copies(strings: &[String]) -> (r: Vec<String>)
    ensures
        texts(r@) == texts(strings@),
{
    let mut out: Vec<String> = Vec::new();
    let mut i: usize = 0;
    while i < strings.len()
        invariant
            i <= strings@.len(),
            texts(out@) == texts(strings@).take(i as int),
        decreases strings@.len() - i,
    {
        let ghost before = out@;
        let copy = strings[i].clone();
        out.push(copy);
        i = i + 1;
        assert(texts(out@) =~= texts(before).push(copy@));
        assert(texts(out@) =~= texts(strings@).take(i as int));
    }
    assert(texts(strings@).take(i as int) =~= texts(strings@));
    out
}

/// Walk the parts of `raw` from `base`.
fn normalize(base: Vec<String>, raw: &str) -> (r: Option<Vec<String>>)
    ensures
        walk(texts(base@), parts(raw@)) == (match r {
            Some(comps) => Some(texts(comps@)),
            None => None,
        }),
{
    let steps = split(raw);
    let ghost all = parts(raw@);
    let ghost goal = walk(texts(base@), all);
    let mut out = base;
    let mut i: usize = 0;
    assert(all.skip(0) =~= all);
    while i < steps.len()
        invariant
            i <= steps@.len(),
            texts(steps@) == all,
            goal == walk(texts(base@), parts(raw@)),
            goal == walk(texts(out@), all.skip(i as int)),
        decreases steps@.len() - i,
    {
        let ghost rest = all.skip(i as int);
        proof {
            assert(rest[0] == steps@[i as int]@);
            assert(rest.skip(1) =~= all.skip(i + 1));
        }
        let ghost before = out@;
        let step = steps[i].as_str();
        if text::same(step, "") || text::same(step, ".") {
        } else if text::same(step, "..") {
            match out.pop() {
                None => {
                    assert(texts(before) =~= seq![]);
                    return None;
                },
                Some(_) => {
                    assert(texts(out@) =~= texts(before).drop_last());
                },
            }
        } else {
            let part = step.to_owned();
            out.push(part);
            assert(texts(out@) =~= texts(before).push(part@));
        }
        i = i + 1;
    }
    assert(all.skip(i as int).len() == 0);
    Some(out)
}

/// Classify a raw entry name against the extraction root.
pub fn classify(raw: &str) -> (r: PathCheck)
    ensures
        r@ == classified(raw@),
{
    let root: [String; 0] = [];
    assert(texts(root@) =~= seq![]);
    resolve_relative(root.as_slice(), raw)
}

/// Resolve a link target the way extraction would: symlink targets are
/// relative to the directory containing the link (`base_dir`); pass an
/// empty base for hard links, whose targets are archive-root relative.
pub fn resolve_relative(base_dir: &[String], target: &str) -> (r: PathCheck)
    ensures
        r@ == resolved(texts(base_dir@), target@),
{
    if target.unicode_len() == 0 {
        return PathCheck::Empty;
    }
    if let Some(kind) = absolute_kind(target) {
        return PathCheck::Absolute { kind };
    }
    match normalize(copies(base_dir), target) {
        Some(comps) => PathCheck::Inside(comps),
        None => PathCheck::Escapes,
    }
}

/// Join normalized components back into a display path.
pub fn join(comps: &[String]) -> (r: String)
    ensures
        r@ == joined(texts(comps@)),
{
    let ghost all = texts(comps@);
    let mut out = String::new();
    let mut i: usize = 0;
    assert(all.take(0) =~= seq![]);
    while i < comps.len()
        invariant
            i <= comps@.len(),
            all == texts(comps@),
            out@ == joined(all.take(i as int)),
        decreases comps@.len() - i,
    {
        proof {
            let longer = all.take(i + 1);
            assert(longer.drop_last() =~= all.take(i as int));
            assert(longer.last() == comps@[i as int]@);
            assert(all.take(0) =~= seq![]);
            assert(Seq::<char>::empty() + comps@[i as int]@ =~= comps@[i as int]@);
        }
        if i > 0 {
            out.append("/");
        }
        out.append(comps[i].as_str());
        i = i + 1;
    }
    assert(all.take(i as int) =~= all);
    out
}

/// Case-folded key used for collision detection on case-insensitive
/// filesystems (macOS default, Windows).
pub fn fold_case(comps: &[String]) -> (r: String)
    ensures
        r@ == folded(texts(comps@)),
{
    let ghost all = texts(comps@);
    let ghost lower = all.map_values(|c: Seq<char>| text::lower(c));
    let mut out: Vec<String> = Vec::new();
    let mut i: usize = 0;
    while i < comps.len()
        invariant
            i <= comps@.len(),
            all == texts(comps@),
            lower == all.map_values(|c: Seq<char>| text::lower(c)),
            texts(out@) == lower.take(i as int),
        decreases comps@.len() - i,
    {
        let ghost before = out@;
        let part = text::lower_case(comps[i].as_str());
        out.push(part);
        i = i + 1;
        proof {
            assert(texts(out@) =~= texts(before).push(part@));
            assert(texts(out@) =~= lower.take(i as int));
        }
    }
    assert(lower.take(i as int) =~= lower);
    join(out.as_slice())
}

} // verus!
