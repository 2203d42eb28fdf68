//! The finding model: every check slipcheck can raise, with a stable
//! kebab-case id (used by `--allow` and JSON output), a default severity
//! and a one-line description surfaced by `slipcheck checks`.
use vstd::prelude::*;

use crate::text;

verus! {

/// How bad a finding is. `Critical` findings make extraction unsafe;
/// `Warning` findings are suspicious but not directly exploitable.
#[derive(Debug, Clone, Copy, PartialEq, Eq, PartialOrd, Ord, Structural)]
pub enum Severity {
    /// Suspicious.
    Warning,
    /// Unsafe to extract.
    Critical,
}

/// What [`Severity::label`] calls each level.
pub open spec fn severity_label(severity: Severity) -> Seq<char> {
    match severity {
        Severity::Warning => "warning"@,
        Severity::Critical => "critical"@,
    }
}

impl Severity {
    /// Lower-case name of the level.
    pub fn label(self) -> (r: &'static str)
        ensures
            r@ == severity_label(self),
    {
        match self {
            Severity::Warning => "warning",
            Severity::Critical => "critical",
        }
    }
}

/// Every check slipcheck knows about. Ids are stable API: scripts key on
/// them via `--allow <id>` and the JSON `check` field.
#[derive(Debug, Clone, Copy, PartialEq, Eq, Hash, Structural)]
pub enum Check {
    /// An absolute entry name.
    AbsolutePath,
    /// An entry name that climbs out of the root.
    Traversal,
    /// A link that leads out of the root.
    LinkEscape,
    /// An entry written through a link.
    LinkIndirection,
    /// The setuid bit.
    Setuid,
    /// The setgid bit.
    Setgid,
    /// The world-writable bit.
    WorldWritable,
    /// A device, fifo or unknown type.
    SpecialFile,
    /// The same path more than once.
    DuplicatePath,
    /// Paths that differ in case alone.
    CaseCollision,
    /// Two headers that disagree on a name.
    NameMismatch,
    /// Decompression past the cap.
    UnpackLimit,
}

/// The stable id of each check.
pub open spec fn check_id(check: Check) -> Seq<char> {
    match check {
        Check::AbsolutePath => "absolute-path"@,
        Check::Traversal => "traversal"@,
        Check::LinkEscape => "link-escape"@,
        Check::LinkIndirection => "link-indirection"@,
        Check::Setuid => "setuid"@,
        Check::Setgid => "setgid"@,
        Check::WorldWritable => "world-writable"@,
        Check::SpecialFile => "special-file"@,
        Check::DuplicatePath => "duplicate-path"@,
        Check::CaseCollision => "case-collision"@,
        Check::NameMismatch => "name-mismatch"@,
        Check::UnpackLimit => "unpack-limit"@,
    }
}

/// The check with the given id, if there is one.
pub open spec fn named_check(id: Seq<char>) -> Option<Check> {
    if exists|c: Check| #[trigger] check_id(c) == id {
        Some(choose|c: Check| #[trigger] check_id(c) == id)
    } else {
        None
    }
}

/// The severity each check usually carries.
pub open spec fn usual_severity(check: Check) -> Severity {
    match check {
        Check::WorldWritable
        | Check::DuplicatePath
        | Check::CaseCollision
        | Check::NameMismatch => Severity::Warning,
        _ => Severity::Critical,
    }
}

/// The one-line meaning of each check.
pub open spec fn check_meaning(check: Check) -> Seq<char> {
    match check {
        Check::AbsolutePath => "entry name is absolute (leading '/', drive letter or UNC)"@,
        Check::Traversal => "entry name climbs out of the extraction root via '..'"@,
        Check::LinkEscape => "symlink or hard link target resolves outside the root"@,
        Check::LinkIndirection => {
            "entry is written through an earlier in-archive symlink (warning when the resolved location stays inside)"@
        },
        Check::Setuid => "file mode carries the setuid bit"@,
        Check::Setgid => "file mode carries the setgid bit"@,
        Check::WorldWritable => "file or directory is world-writable"@,
        Check::SpecialFile => {
            "device node in the archive (fifos and unknown entry types downgrade to warning)"@
        },
        Check::DuplicatePath => "the same path appears more than once; last entry wins"@,
        Check::CaseCollision => "two paths collide on a case-insensitive filesystem"@,
        Check::NameMismatch => "zip central directory and local header disagree on a name"@,
        Check::UnpackLimit => "compressed stream inflates past --max-unpacked (bomb guard)"@,
    }
}

/// Where `check` stands in [`Check::ALL`].
pub open spec fn check_index(check: Check) -> int {
    match check {
        Check::AbsolutePath => 0,
        Check::Traversal => 1,
        Check::LinkEscape => 2,
        Check::LinkIndirection => 3,
        Check::Setuid => 4,
        Check::Setgid => 5,
        Check::WorldWritable => 6,
        Check::SpecialFile => 7,
        Check::DuplicatePath => 8,
        Check::CaseCollision => 9,
        Check::NameMismatch => 10,
        Check::UnpackLimit => 11,
    }
}

/// [`Check::ALL`] leaves no check out.
pub proof fn law_all_is_complete(check: Check)
    ensures
        Check::ALL[check_index(check)] == check,
        0 <= check_index(check) < 12,
{
}

/// No two checks share an id.
pub proof fn law_ids_are_unique(a: Check, b: Check)
    requires
        check_id(a) == check_id(b),
    ensures
        a == b,
{
    lemma_id_key(a);
    lemma_id_key(b);
}

/// Every check is found by its id, and by nothing else.
pub proof fn law_id_names_its_check(check: Check, id: Seq<char>)
    ensures
        named_check(id) == Some(check) <==> check_id(check) == id,
{
    if check_id(check) == id {
        law_ids_are_unique(check, named_check(id)->0);
    }
}

/// Every id is kebab-case ASCII: small letters and hyphens.
pub proof fn law_ids_are_kebab_case(check: Check, i: int)
    requires
        0 <= i < check_id(check).len(),
    ensures
        ('a' <= check_id(check)[i] && check_id(check)[i] <= 'z') || check_id(check)[i] == '-',
{
    reveal_strlit("absolute-path");
    reveal_strlit("traversal");
    reveal_strlit("link-escape");
    reveal_strlit("link-indirection");
    reveal_strlit("setuid");
    reveal_strlit("setgid");
    reveal_strlit("world-writable");
    reveal_strlit("special-file");
    reveal_strlit("duplicate-path");
    reveal_strlit("case-collision");
    reveal_strlit("name-mismatch");
    reveal_strlit("unpack-limit");
}

/// Length and two characters tell the ids apart.
proof fn lemma_id_key(check: Check)
    ensures
        ({
            let id = check_id(check);
            match check {
                Check::AbsolutePath => id.len() == 13 && id[0] == 'a',
                Check::Traversal => id.len() == 9,
                Check::LinkEscape => id.len() == 11,
                Check::LinkIndirection => id.len() == 16,
                Check::Setuid => id.len() == 6 && id[3] == 'u',
                Check::Setgid => id.len() == 6 && id[3] == 'g',
                Check::WorldWritable => id.len() == 14 && id[0] == 'w',
                Check::SpecialFile => id.len() == 12 && id[0] == 's',
                Check::DuplicatePath => id.len() == 14 && id[0] == 'd',
                Check::CaseCollision => id.len() == 14 && id[0] == 'c',
                Check::NameMismatch => id.len() == 13 && id[0] == 'n',
                Check::UnpackLimit => id.len() == 12 && id[0] == 'u',
            }
        }),
{
    reveal_strlit("absolute-path");
    reveal_strlit("traversal");
    reveal_strlit("link-escape");
    reveal_strlit("link-indirection");
    reveal_strlit("setuid");
    reveal_strlit("setgid");
    reveal_strlit("world-writable");
    reveal_strlit("special-file");
    reveal_strlit("duplicate-path");
    reveal_strlit("case-collision");
    reveal_strlit("name-mismatch");
    reveal_strlit("unpack-limit");
}

impl Check {
    /// Every check, in reference-table order.
    pub const ALL: [Check; 12] = [
        Check::AbsolutePath,
        Check::Traversal,
        Check::LinkEscape,
        Check::LinkIndirection,
        Check::Setuid,
        Check::Setgid,
        Check::WorldWritable,
        Check::SpecialFile,
        Check::DuplicatePath,
        Check::CaseCollision,
        Check::NameMismatch,
        Check::UnpackLimit,
    ];

    /// The stable id.
    pub fn id(self) -> (r: &'static str)
        ensures
            r@ == check_id(self),
    {
        match self {
            Check::AbsolutePath => "absolute-path",
            Check::Traversal => "traversal",
            Check::LinkEscape => "link-escape",
            Check::LinkIndirection => "link-indirection",
            Check::Setuid => "setuid",
            Check::Setgid => "setgid",
            Check::WorldWritable => "world-writable",
            Check::SpecialFile => "special-file",
            Check::DuplicatePath => "duplicate-path",
            Check::CaseCollision => "case-collision",
            Check::NameMismatch => "name-mismatch",
            Check::UnpackLimit => "unpack-limit",
        }
    }

    /// The check with the given id. Ids are case-sensitive.
    pub fn from_id(id: &str) -> (r: Option<Check>)
        ensures
            r == named_check(id@),
    {
        let mut i: usize = 0;
        while i < 12
            invariant
                i <= 12,
                forall|j: int| 0 <= j < i ==> #[trigger] check_id(Check::ALL[j]) != id@,
            decreases 12 - i,
        {
            let check = Check::ALL[i];
            if text::same(check.id(), id) {
                proof {
                    law_id_names_its_check(check, id@);
                }
                return Some(check);
            }
            i = i + 1;
        }
        proof {
            assert forall|c: Check| #[trigger] check_id(c) != id@ by {
                law_all_is_complete(c);
                assert(check_id(Check::ALL[check_index(c)]) != id@);
            }
        }
        None
    }

    /// The severity this check *usually* carries — shown in the reference
    /// table. A few checks downgrade to warning in specific contexts
    /// (see `describe`).
    pub fn default_severity(self) -> (r: Severity)
        ensures
            r == usual_severity(self),
    {
        match self {
            Check::AbsolutePath
            | Check::Traversal
            | Check::LinkEscape
            | Check::LinkIndirection
            | Check::Setuid
            | Check::Setgid
            | Check::SpecialFile
            | Check::UnpackLimit => Severity::Critical,
            Check::WorldWritable
            | Check::DuplicatePath
            | Check::CaseCollision
            | Check::NameMismatch => Severity::Warning,
        }
    }

    /// One-line meaning.
    pub fn describe(self) -> (r: &'static str)
        ensures
            r@ == check_meaning(self),
    {
        match self {
            Check::AbsolutePath => "entry name is absolute (leading '/', drive letter or UNC)",
            Check::Traversal => "entry name climbs out of the extraction root via '..'",
            Check::LinkEscape => "symlink or hard link target resolves outside the root",
            Check::LinkIndirection => {
                "entry is written through an earlier in-archive symlink (warning when the resolved location stays inside)"
            },
            Check::Setuid => "file mode carries the setuid bit",
            Check::Setgid => "file mode carries the setgid bit",
            Check::WorldWritable => "file or directory is world-writable",
            Check::SpecialFile => {
                "device node in the archive (fifos and unknown entry types downgrade to warning)"
            },
            Check::DuplicatePath => "the same path appears more than once; last entry wins",
            Check::CaseCollision => "two paths collide on a case-insensitive filesystem",
            Check::NameMismatch => "zip central directory and local header disagree on a name",
            Check::UnpackLimit => "compressed stream inflates past --max-unpacked (bomb guard)",
        }
    }
}

/// One concrete problem found in one archive entry.
#[derive(Debug, Clone)]
pub struct Finding {
    /// Which check raised it.
    pub check: Check,
    /// How bad it is here.
    pub severity: Severity,
    /// The entry path as it appears in the archive (raw, un-normalized).
    pub path: String,
    /// Human-oriented explanation of why this specific entry was flagged.
    pub detail: String,
}

/// A [`Finding`] with its texts as character sequences.
#[verifier::ext_equal]
pub struct FindingView {
    /// Which check raised it.
    pub check: Check,
    /// How bad it is.
    pub severity: Severity,
    /// The raw entry path.
    pub path: Seq<char>,
    /// Why the entry was flagged.
    pub detail: Seq<char>,
}

impl View for Finding {
    type V = FindingView;

    open spec fn view(&self) -> FindingView {
        FindingView {
            check: self.check,
            severity: self.severity,
            path: self.path@,
            detail: self.detail@,
        }
    }
}

/// The findings of `findings` as views.
pub open spec fn finding_views(findings: Seq<Finding>) -> Seq<FindingView> {
    findings.map_values(|f: Finding| f@)
}

/// A critical finding.
pub open spec fn critical(check: Check, path: Seq<char>, detail: Seq<char>) -> FindingView {
    FindingView { check, severity: Severity::Critical, path, detail }
}

/// A warning.
pub open spec fn warning(check: Check, path: Seq<char>, detail: Seq<char>) -> FindingView {
    FindingView { check, severity: Severity::Warning, path, detail }
}

impl Finding {
    /// A critical finding.
    pub fn critical(check: Check, path: &str, detail: &str) -> (r: Finding)
        ensures
            r@ == critical(check, path@, detail@),
    {
        Finding {
            check,
            severity: Severity::Critical,
            path: path.to_owned(),
            detail: detail.to_owned(),
        }
    }

    /// A warning.
    pub fn warning(check: Check, path: &str, detail: &str) -> (r: Finding)
        ensures
            r@ == warning(check, path@, detail@),
    {
        Finding {
            check,
            severity: Severity::Warning,
            path: path.to_owned(),
            detail: detail.to_owned(),
        }
    }
}

} // verus!
