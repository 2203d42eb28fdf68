//! The finding model.
use slipcheck::findings::{Check, Severity};

#[test]
fn every_check_has_a_unique_stable_id() {
    let mut seen = std::collections::HashSet::new();
    for check in Check::ALL {
        assert!(seen.insert(check.id()), "duplicate id {}", check.id());
        // Ids are the CLI surface: kebab-case ASCII only.
        assert!(check
            .id()
            .chars()
            .all(|c| c.is_ascii_lowercase() || c == '-'));
    }
}

#[test]
fn from_id_round_trips_all_checks() {
    for check in Check::ALL {
        assert_eq!(Check::from_id(check.id()), Some(check));
    }
    assert_eq!(Check::from_id("no-such-check"), None);
    // Ids are case-sensitive by design; don't silently accept variants.
    assert_eq!(Check::from_id("Traversal"), None);
}

#[test]
fn severity_orders_critical_above_warning() {
    assert!(Severity::Critical > Severity::Warning);
}

#[test]
fn severities_and_descriptions_of_the_reference_table() {
    let warnings: Vec<&str> = Check::ALL
        .iter()
        .filter(|c| c.default_severity() == Severity::Warning)
        .map(|c| c.id())
        .collect();
    assert_eq!(
        warnings,
        vec!["world-writable", "duplicate-path", "case-collision", "name-mismatch"]
    );
    assert_eq!(
        Check::LinkIndirection.describe(),
        "entry is written through an earlier in-archive symlink (warning when the resolved location stays inside)"
    );
    assert_eq!(Severity::Critical.label(), "critical");
    assert_eq!(Severity::Warning.label(), "warning");
}
