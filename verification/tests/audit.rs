//! The auditor on concrete entry lists.
use slipcheck::audit::Auditor;
use slipcheck::entry::{Entry, EntryKind};
use slipcheck::findings::{Check, Finding, Severity};

fn file(path: &str) -> Entry {
    Entry::new(path, EntryKind::File).with_mode(0o644)
}

fn dir(path: &str) -> Entry {
    Entry::new(path, EntryKind::Dir).with_mode(0o755)
}

fn symlink(path: &str, target: &str) -> Entry {
    Entry::new(path, EntryKind::Symlink).with_target(target)
}

fn audit(entries: &[Entry]) -> Vec<Finding> {
    Auditor::run(entries, Vec::new(), &[]).0
}

fn ids(findings: &[Finding]) -> Vec<&'static str> {
    findings.iter().map(|f| f.check.id()).collect()
}

#[test]
fn clean_package_produces_no_findings() {
    let entries = [
        dir("pkg"),
        file("pkg/README.md"),
        dir("pkg/bin"),
        file("pkg/bin/tool"),
        symlink("pkg/bin/alias", "tool"),
    ];
    assert!(audit(&entries).is_empty());
}

#[test]
fn traversal_and_absolute_names_are_critical() {
    let findings = audit(&[file("../../etc/cron.d/job"), file("/etc/passwd")]);
    assert_eq!(ids(&findings), vec!["traversal", "absolute-path"]);
    assert!(findings.iter().all(|f| f.severity == Severity::Critical));
}

#[test]
fn symlink_with_absolute_target_is_link_escape() {
    let findings = audit(&[symlink("lib/libz.so", "/usr/lib/libz.so")]);
    assert_eq!(ids(&findings), vec!["link-escape"]);
    assert!(findings[0].detail.contains("absolute"));
}

#[test]
fn symlink_climbing_out_relative_to_its_own_directory() {
    // "../.." from deep/nested/ is still inside; "../../.." is not.
    assert!(audit(&[symlink("deep/nested/ok", "../../fine")]).is_empty());
    let findings = audit(&[symlink("deep/nested/bad", "../../../outside")]);
    assert_eq!(ids(&findings), vec!["link-escape"]);
}

#[test]
fn file_written_through_escaping_symlink_is_critical() {
    // The canonical two-step zip-slip: plant a link, then write through it.
    let findings = audit(&[symlink("build", "../../target"), file("build/injected.sh")]);
    assert_eq!(ids(&findings), vec!["link-escape", "link-indirection"]);
    assert_eq!(findings[1].severity, Severity::Critical);
    assert!(findings[1].detail.contains("build"));
}

#[test]
fn file_written_through_internal_symlink_is_a_warning() {
    // The link stays inside the root, so the write cannot escape —
    // but it does not land where the name says, which merits a warning.
    let findings = audit(&[symlink("alias", "real"), file("alias/data.txt")]);
    assert_eq!(ids(&findings), vec!["link-indirection"]);
    assert_eq!(findings[0].severity, Severity::Warning);
    assert!(findings[0].detail.contains("real/data.txt"));
}

#[test]
fn symlink_chains_are_followed_to_their_end() {
    // a -> b, b -> ../../out: writing under a escapes via the chain.
    let findings = audit(&[
        symlink("stage/b", "../../out"),
        symlink("a", "stage/b"),
        file("a/payload"),
    ]);
    // stage/b escapes (link-escape), a resolves through it (link-escape),
    // and the write through a is critical indirection.
    assert_eq!(
        ids(&findings),
        vec!["link-escape", "link-escape", "link-indirection"]
    );
    assert!(findings.iter().all(|f| f.severity == Severity::Critical));
}

#[test]
fn symlink_loop_is_treated_as_hostile_not_an_infinite_loop() {
    let findings = audit(&[symlink("a", "b"), symlink("b", "a"), file("a/x")]);
    // Must terminate and flag the write; exact chain length is an
    // implementation detail, the guarantee is: no hang, critical result.
    assert!(ids(&findings).contains(&"link-indirection"));
    assert!(findings.iter().any(|f| f.severity == Severity::Critical));
}

#[test]
fn file_overwriting_an_escaping_symlink_is_critical() {
    // Same path twice: first a hostile symlink, then a regular file.
    // Extractors that do not unlink first follow the link on write.
    let findings = audit(&[symlink("cfg", "/etc"), file("cfg")]);
    assert!(ids(&findings).contains(&"link-escape"));
    assert!(findings
        .iter()
        .any(|f| f.check == Check::LinkIndirection && f.severity == Severity::Critical));
}

#[test]
fn hardlink_targets_resolve_from_the_archive_root() {
    // Unlike symlinks, "../x" in a hard link escapes even from deep dirs.
    let findings =
        audit(&[Entry::new("deep/dir/link", EntryKind::Hardlink).with_target("../x")]);
    assert_eq!(ids(&findings), vec!["link-escape"]);
    // Root-relative target inside the tree is fine.
    assert!(audit(&[
        file("bin/tool"),
        Entry::new("deep/dir/link", EntryKind::Hardlink).with_target("bin/tool"),
    ])
    .is_empty());
}

#[test]
fn setuid_setgid_and_world_writable_bits() {
    let findings = audit(&[
        Entry::new("bin/su-like", EntryKind::File).with_mode(0o4755),
        Entry::new("bin/sg-like", EntryKind::File).with_mode(0o2755),
        Entry::new("share/loose", EntryKind::File).with_mode(0o666),
    ]);
    assert_eq!(ids(&findings), vec!["setuid", "setgid", "world-writable"]);
    assert_eq!(findings[0].severity, Severity::Critical);
    assert_eq!(findings[2].severity, Severity::Warning);
}

#[test]
fn symlink_modes_are_ignored() {
    // Symlinks commonly carry 0o777; that is meaningless, not a finding.
    let entry = Entry::new("ln", EntryKind::Symlink)
        .with_mode(0o777)
        .with_target("x");
    assert!(audit(&[entry]).is_empty());
}

#[test]
fn device_nodes_are_critical_fifos_are_warnings() {
    let findings = audit(&[
        Entry::new("dev/sda", EntryKind::BlockDevice),
        Entry::new("dev/null", EntryKind::CharDevice),
        Entry::new("run/pipe", EntryKind::Fifo),
    ]);
    assert_eq!(
        ids(&findings),
        vec!["special-file", "special-file", "special-file"]
    );
    assert_eq!(findings[0].severity, Severity::Critical);
    assert_eq!(findings[2].severity, Severity::Warning);
}

#[test]
fn duplicate_files_flagged_duplicate_dirs_tolerated() {
    // zip tools write the same directory entry freely; that is noise.
    assert!(audit(&[dir("a"), dir("a")]).is_empty());
    let findings = audit(&[file("a/x"), file("a/x")]);
    assert_eq!(ids(&findings), vec!["duplicate-path"]);
    // A dir and a file with the same normalized path do conflict.
    let findings = audit(&[dir("b"), file("b")]);
    assert_eq!(ids(&findings), vec!["duplicate-path"]);
}

#[test]
fn equivalent_spellings_count_as_duplicates() {
    // "./a//x" and "a/x" normalize to the same write target.
    let findings = audit(&[file("./a//x"), file("a/x")]);
    assert_eq!(ids(&findings), vec!["duplicate-path"]);
}

#[test]
fn case_collision_is_flagged_once_per_pair() {
    let findings = audit(&[file("README"), file("readme")]);
    assert_eq!(ids(&findings), vec!["case-collision"]);
    assert!(findings[0].detail.contains("README"));
}

#[test]
fn allowed_checks_are_suppressed() {
    let entries = [
        file("bin/x"),
        Entry::new("bin/su", EntryKind::File).with_mode(0o4755),
    ];
    let (findings, entries_seen) = Auditor::run(&entries, Vec::new(), &[Check::Setuid]);
    assert!(findings.is_empty());
    assert_eq!(entries_seen, 2);
}

#[test]
fn empty_entry_name_is_a_warning() {
    let findings = audit(&[file("")]);
    assert_eq!(ids(&findings), vec!["traversal"]);
    assert_eq!(findings[0].severity, Severity::Warning);
}

fn hardlink(path: &str, target: &str) -> Entry {
    Entry::new(path, EntryKind::Hardlink).with_target(target)
}

#[test]
fn links_planted_later_on_the_way_to_a_target_count() {
    // "a" leads to "b/c" while "b" is an ordinary directory; then "b" is
    // planted as an escaping link, and "a" leads out through it.
    let findings = audit(&[
        symlink("a", "b/c"),
        symlink("b", "../../out"),
        file("a/payload"),
    ]);
    assert_eq!(ids(&findings), vec!["link-escape", "link-indirection"]);
    assert_eq!(findings[1].severity, Severity::Critical);
    assert_eq!(
        findings[1].detail,
        "written through symlink 'b', which points outside the extraction root"
    );
}

#[test]
fn a_link_into_itself_is_hostile() {
    let findings = audit(&[symlink("a", "a/b"), file("a/x")]);
    assert_eq!(ids(&findings), vec!["link-indirection"]);
    assert_eq!(findings[0].severity, Severity::Critical);
}

#[test]
fn forty_links_are_followed_and_no_more() {
    let chain = |n: usize| {
        // l0 -> l1 -> ... -> ln, planted front to back so that no target is
        // resolved when it is recorded.
        let mut entries: Vec<Entry> = (0..n)
            .map(|i| symlink(&format!("l{i}"), &format!("l{}", i + 1)))
            .collect();
        entries.push(file("l0/x"));
        audit(&entries)
    };
    let forty = chain(40);
    assert_eq!(forty.len(), 1);
    assert_eq!(forty[0].severity, Severity::Warning);
    assert!(forty[0].detail.contains("lands at 'l40/x'"));
    let more = chain(41);
    assert_eq!(more.len(), 1);
    assert_eq!(more[0].severity, Severity::Critical);
}

#[test]
fn finding_details_are_exact() {
    let detail = |entries: &[Entry]| audit(entries).last().unwrap().detail.clone();
    assert_eq!(
        detail(&[file("/etc/passwd")]),
        "entry name is absolute (leading separator); extraction can write anywhere"
    );
    assert_eq!(
        detail(&[file("../x")]),
        "entry name climbs above the extraction root via '..'"
    );
    assert_eq!(
        detail(&[symlink("l", "/t")]),
        "symlink target '/t' is absolute (leading separator)"
    );
    assert_eq!(
        detail(&[symlink("l", "../t")]),
        "symlink target '../t' escapes the extraction root"
    );
    assert_eq!(
        detail(&[symlink("e", "/"), symlink("l", "e/x")]),
        "symlink target 'e/x' resolves through symlink 'e' to outside the root"
    );
    assert_eq!(detail(&[symlink("l", "")]), "symlink has an empty target");
    assert_eq!(
        detail(&[hardlink("h", "C:x")]),
        "hard link target 'C:x' is absolute (Windows drive letter); links to a file outside the root"
    );
    assert_eq!(
        detail(&[hardlink("h", "..")]),
        "hard link target '..' escapes the extraction root"
    );
    assert_eq!(
        detail(&[symlink("e", "/"), hardlink("h", "e/x")]),
        "hard link target 'e/x' resolves through symlink 'e' to outside the root"
    );
    assert_eq!(detail(&[hardlink("h", "")]), "hard link has an empty target");
    assert_eq!(
        detail(&[symlink("l", "t"), file("l/x")]),
        "written through in-archive symlink 'l'; extraction lands at 't/x'"
    );
    assert_eq!(
        detail(&[symlink("l", "t"), file("l")]),
        "overwrites earlier symlink 'l' (resolves to 't')"
    );
    assert_eq!(
        detail(&[symlink("l", "/t"), file("l")]),
        "overwrites earlier symlink 'l' that points outside the root; extractors that follow existing links write outside"
    );
    assert_eq!(
        detail(&[file("a"), file("a"), file("./a")]),
        "path appears 3 times; the last entry silently wins on extraction"
    );
    assert_eq!(
        detail(&[file("Read/Me"), file("read/ME")]),
        "collides with 'Read/Me' on case-insensitive filesystems"
    );
    assert_eq!(
        detail(&[Entry::new("f", EntryKind::File).with_mode(0o2)]),
        "mode 0002 is world-writable"
    );
    assert_eq!(
        detail(&[Entry::new("f", EntryKind::Dir).with_mode(0o2755)]),
        "mode 2755 carries the setgid bit"
    );
    assert_eq!(
        detail(&[Entry::new("f", EntryKind::File).with_mode(0o4755)]),
        "mode 4755 carries the setuid bit; runs as the owner after extraction by root"
    );
    assert_eq!(
        detail(&[Entry::new("d", EntryKind::CharDevice)]),
        "char-device node in the archive; extraction as root creates a device"
    );
    assert_eq!(
        detail(&[Entry::new("d", EntryKind::Fifo)]),
        "fifo (named pipe) in the archive"
    );
    assert_eq!(
        detail(&[Entry::new("d", EntryKind::Other('V'))]),
        "unrecognized entry type 'V'; slipcheck cannot vouch for it"
    );
    let empty = audit(&[file("")]);
    assert_eq!(empty[0].path, "(empty)");
    assert_eq!(
        empty[0].detail,
        "entry has an empty name; extractors disagree on what to do with it"
    );
}

#[test]
fn earlier_findings_stand_whatever_comes_later() {
    let entries = [
        symlink("build", "../../target"),
        file("build/x"),
        file("A"),
        file("a"),
        file("../y"),
    ];
    let all = audit(&entries);
    for n in 0..entries.len() {
        let part = audit(&entries[..n]);
        for (i, f) in part.iter().enumerate() {
            assert_eq!(f.detail, all[i].detail);
        }
    }
}

#[test]
fn allowing_a_check_removes_its_findings_and_nothing_else() {
    let entries = [
        file("/abs"),
        file("../up"),
        Entry::new("su", EntryKind::File).with_mode(0o6755),
    ];
    let all = audit(&entries);
    assert_eq!(ids(&all), vec!["absolute-path", "traversal", "setuid", "setgid"]);
    let (some, _) = Auditor::run(&entries, Vec::new(), &[Check::Traversal, Check::Setgid]);
    assert_eq!(ids(&some), vec!["absolute-path", "setuid"]);
}

#[test]
fn findings_of_the_reader_come_first() {
    let pre = vec![Finding::warning(Check::NameMismatch, "z", "from the reader")];
    let (findings, n) = Auditor::run(&[file("../x")], pre, &[]);
    assert_eq!(ids(&findings), vec!["name-mismatch", "traversal"]);
    assert_eq!(n, 1);
    let pre = vec![Finding::warning(Check::NameMismatch, "z", "from the reader")];
    let (findings, _) = Auditor::run(&[], pre, &[Check::NameMismatch]);
    assert!(findings.is_empty());
}

#[test]
fn the_root_itself_is_not_tracked() {
    assert!(audit(&[dir("."), dir("./"), file(".")]).is_empty());
}

#[test]
fn non_ascii_names_collide_by_case_too() {
    let findings = audit(&[file("\u{c4}"), file("\u{e4}")]);
    assert_eq!(ids(&findings), vec!["case-collision"]);
}

#[test]
fn kinds_have_labels() {
    let labels: Vec<&str> = [
        EntryKind::File,
        EntryKind::Dir,
        EntryKind::Symlink,
        EntryKind::Hardlink,
        EntryKind::CharDevice,
        EntryKind::BlockDevice,
        EntryKind::Fifo,
        EntryKind::Other('x'),
    ]
    .iter()
    .map(|k| k.label())
    .collect();
    assert_eq!(
        labels,
        vec![
            "file",
            "dir",
            "symlink",
            "hardlink",
            "char-device",
            "block-device",
            "fifo",
            "other"
        ]
    );
}

#[test]
fn whatever_is_written_below_a_planted_link_is_critical() {
    for target in ["", "/etc", "../out", "C:\\temp"] {
        for entry in [
            file("p/x"),
            dir("p/sub/dir"),
            symlink("./p//q", "r"),
            hardlink("p/h", "other"),
            Entry::new("p/pipe", EntryKind::Fifo),
        ] {
            let findings = audit(&[symlink("p", target), entry.clone()]);
            let hit = findings
                .iter()
                .find(|f| f.check == Check::LinkIndirection)
                .unwrap();
            assert_eq!(hit.severity, Severity::Critical);
            assert_eq!(hit.path, entry.path);
            assert_eq!(
                hit.detail,
                "written through symlink 'p', which points outside the extraction root"
            );
        }
    }
}

#[test]
fn one_non_directory_is_enough_for_every_later_duplicate() {
    let findings = audit(&[dir("a"), dir("a"), file("a"), dir("a"), dir("b"), dir("b")]);
    let details: Vec<&str> = findings.iter().map(|f| f.detail.as_str()).collect();
    assert_eq!(
        details,
        vec![
            "path appears 3 times; the last entry silently wins on extraction",
            "path appears 4 times; the last entry silently wins on extraction",
        ]
    );
}

#[test]
fn case_collisions_name_the_first_spelling() {
    let findings = audit(&[file("Ab"), file("aB"), dir("AB"), dir("Ab")]);
    let seen: Vec<(&str, &str)> = findings
        .iter()
        .filter(|f| f.check == Check::CaseCollision)
        .map(|f| (f.path.as_str(), f.detail.as_str()))
        .collect();
    let detail = "collides with 'Ab' on case-insensitive filesystems";
    assert_eq!(seen, vec![("aB", detail), ("AB", detail)]);
}
