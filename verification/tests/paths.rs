//! Path arithmetic on concrete names.
use slipcheck::paths::{
    absolute_kind, classify, fold_case, join, resolve_relative, split, PathCheck,
};

fn inside(raw: &str) -> Vec<String> {
    match classify(raw) {
        PathCheck::Inside(c) => c,
        other => panic!("expected Inside for {raw:?}, got {other:?}"),
    }
}

#[test]
fn plain_relative_paths_stay_inside() {
    assert_eq!(inside("bin/tool"), vec!["bin", "tool"]);
    assert_eq!(inside("a/b/c.txt"), vec!["a", "b", "c.txt"]);
}

#[test]
fn dot_and_empty_components_are_dropped() {
    assert_eq!(inside("./a//./b/"), vec!["a", "b"]);
    // "." alone is the root itself — inside, zero components.
    assert_eq!(inside("."), Vec::<String>::new());
    assert_eq!(inside("./"), Vec::<String>::new());
}

#[test]
fn interior_dotdot_that_stays_inside_is_allowed() {
    // "a/b/../c" normalizes to "a/c" without ever leaving the root.
    assert_eq!(inside("a/b/../c"), vec!["a", "c"]);
}

#[test]
fn leading_dotdot_escapes() {
    assert_eq!(classify("../x"), PathCheck::Escapes);
    assert_eq!(classify("../../etc/passwd"), PathCheck::Escapes);
}

#[test]
fn dotdot_that_dips_below_root_escapes_even_if_it_comes_back() {
    // The classic bypass for naive "count the ..s" checks: the walk
    // touches the parent directory before diving back down.
    assert_eq!(classify("a/../../b/deep/inside"), PathCheck::Escapes);
}

#[test]
fn prefixed_dotdot_after_dot_escapes() {
    assert_eq!(classify("./../x"), PathCheck::Escapes);
}

#[test]
fn absolute_unix_path_is_flagged() {
    assert_eq!(
        classify("/etc/cron.d/job"),
        PathCheck::Absolute {
            kind: "leading separator"
        }
    );
}

#[test]
fn windows_drive_and_unc_are_absolute() {
    assert_eq!(
        classify("C:\\Windows\\System32\\evil.dll"),
        PathCheck::Absolute {
            kind: "Windows drive letter"
        }
    );
    assert_eq!(
        classify("c:boot.ini"),
        PathCheck::Absolute {
            kind: "Windows drive letter"
        }
    );
    assert_eq!(
        classify("\\\\server\\share\\x"),
        PathCheck::Absolute { kind: "UNC path" }
    );
    assert_eq!(
        classify("//host/share"),
        PathCheck::Absolute { kind: "UNC path" }
    );
}

#[test]
fn backslashes_count_as_separators() {
    // Harmless on Linux, an escape on Windows — flagged everywhere.
    assert_eq!(classify("a\\..\\..\\x"), PathCheck::Escapes);
    assert_eq!(inside("dir\\file.txt"), vec!["dir", "file.txt"]);
}

#[test]
fn empty_name_is_its_own_case() {
    assert_eq!(classify(""), PathCheck::Empty);
}

#[test]
fn resolve_relative_walks_from_the_link_directory() {
    let base = vec!["lib".to_string(), "pkg".to_string()];
    assert_eq!(
        resolve_relative(&base, "../shared/libz.so"),
        PathCheck::Inside(vec!["lib".into(), "shared".into(), "libz.so".into()])
    );
}

#[test]
fn resolve_relative_escape_and_absolute_targets() {
    let base = vec!["lib".to_string()];
    assert_eq!(resolve_relative(&base, "../../outside"), PathCheck::Escapes);
    assert_eq!(
        resolve_relative(&base, "/usr/lib/libz.so"),
        PathCheck::Absolute {
            kind: "leading separator"
        }
    );
    assert_eq!(resolve_relative(&base, ""), PathCheck::Empty);
}

#[test]
fn resolve_relative_with_empty_base_is_root_relative() {
    // Hard-link semantics: targets resolve from the archive root.
    assert_eq!(
        resolve_relative(&[], "bin/tool"),
        PathCheck::Inside(vec!["bin".into(), "tool".into()])
    );
    assert_eq!(resolve_relative(&[], "../outside"), PathCheck::Escapes);
}

#[test]
fn fold_case_lowers_every_component() {
    let a = vec!["Bin".to_string(), "Tool".to_string()];
    let b = vec!["bin".to_string(), "tool".to_string()];
    assert_eq!(fold_case(&a), fold_case(&b));
    assert_ne!(join(&a), join(&b));
}

#[test]
fn both_separators_split() {
    assert_eq!(split("a/b\\c"), vec!["a", "b", "c"]);
    assert_eq!(split(""), vec![""]);
    assert_eq!(split("/a//"), vec!["", "a", "", ""]);
    assert_eq!(split("a\\..\\b"), split("a/../b"));
}

#[test]
fn absolute_names_are_told_apart() {
    assert_eq!(absolute_kind("//x"), Some("UNC path"));
    assert_eq!(absolute_kind("\\\\x"), Some("UNC path"));
    assert_eq!(absolute_kind("/\\x"), Some("leading separator"));
    assert_eq!(absolute_kind("\\x"), Some("leading separator"));
    assert_eq!(absolute_kind("z:"), Some("Windows drive letter"));
    assert_eq!(absolute_kind("1:x"), None);
    assert_eq!(absolute_kind("\u{e9}:x"), None);
    assert_eq!(absolute_kind("x"), None);
    assert_eq!(absolute_kind(""), None);
}

#[test]
fn normal_forms_are_stable_except_for_drive_letters() {
    for raw in ["a/./b//c", "x\\y", "a/b/../c", "./\u{e9}t\u{e9}"] {
        let comps = inside(raw);
        assert_eq!(inside(&join(&comps)), comps);
    }
    // Behind "./" a drive-like component stays inside; on its own it is absolute.
    let comps = inside("./C:/x");
    assert_eq!(comps, vec!["C:", "x"]);
    assert_eq!(
        classify(&join(&comps)),
        PathCheck::Absolute {
            kind: "Windows drive letter"
        }
    );
}

#[test]
fn dots_alone_matter_only_in_ones_and_twos() {
    assert_eq!(inside("..."), vec!["..."]);
    assert_eq!(inside("a/.../b"), vec!["a", "...", "b"]);
    assert_eq!(classify(".."), PathCheck::Escapes);
    assert_eq!(inside("a/.."), Vec::<String>::new());
}

#[test]
fn fold_case_reaches_beyond_ascii() {
    let a = vec!["\u{c4}PFEL".to_string(), "X".to_string()];
    assert_eq!(fold_case(&a), "\u{e4}pfel/x");
    assert_eq!(fold_case(&[]), "");
}
