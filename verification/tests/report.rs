//! Rendering of concrete reports.
use slipcheck::findings::{Check, Finding, Severity};
use slipcheck::format::Format;
use slipcheck::report::{human, json, json_escape, summary, ScanFailure};
use slipcheck::scan::ArchiveReport;

fn sample_report() -> ArchiveReport {
    ArchiveReport {
        path: "evil.tar".to_string(),
        format: Format::Tar,
        entries: 3,
        findings: vec![
            Finding::critical(Check::Traversal, "../x", "climbs above the root"),
            Finding::warning(Check::DuplicatePath, "a/b", "appears twice"),
        ],
    }
}

#[test]
fn human_output_shows_verdict_and_findings() {
    let text = human(&sample_report());
    assert!(text.starts_with("evil.tar: tar, 3 entries, 1 critical, 1 warning\n"));
    assert!(text.contains("CRITICAL traversal"));
    assert!(text.contains("warning  duplicate-path"));
    let clean = ArchiveReport {
        path: "ok.zip".into(),
        format: Format::Zip,
        entries: 1,
        findings: vec![],
    };
    assert!(human(&clean).contains("1 entry, clean"));
}

#[test]
fn summary_line_pluralizes_archives_warnings_and_errors() {
    // Singular vs. plural on both sides of the boundary — "1 warnings"
    // in a security report reads as carelessness.
    let one = [sample_report()];
    assert_eq!(
        summary(&one, &[]),
        "1 archive scanned: 1 critical, 1 warning"
    );
    let two = [sample_report(), sample_report()];
    let failures = [ScanFailure {
        path: "broken.zip".into(),
        error: "no EOCD".into(),
    }];
    assert_eq!(
        summary(&two, &failures),
        "2 archives scanned: 2 critical, 2 warnings, 1 error"
    );
}

#[test]
fn json_escape_handles_quotes_backslashes_and_control_bytes() {
    assert_eq!(json_escape("a\"b\\c"), "a\\\"b\\\\c");
    assert_eq!(json_escape("line\nbreak\ttab"), "line\\nbreak\\ttab");
    assert_eq!(json_escape("bell\u{7}"), "bell\\u0007");
    // Archive names are attacker-controlled: escaping must be total.
    assert_eq!(json_escape("..\\..\\evil"), "..\\\\..\\\\evil");
}

#[test]
fn json_document_totals_and_structure() {
    let doc = json(
        &[sample_report()],
        &[ScanFailure {
            path: "broken.zip".into(),
            error: "no EOCD".into(),
        }],
    );
    assert!(doc.contains("\"critical\": 1"));
    assert!(doc.contains("\"warnings\": 1"));
    assert!(doc.contains("\"check\": \"traversal\""));
    assert!(doc.contains("\"error\": \"no EOCD\""));
    // Must be balanced enough for a strict parser: same count of
    // braces/brackets both ways.
    assert_eq!(doc.matches('{').count(), doc.matches('}').count());
    assert_eq!(doc.matches('[').count(), doc.matches(']').count());
}

#[test]
fn human_output_is_exact() {
    assert_eq!(
        human(&sample_report()),
        "evil.tar: tar, 3 entries, 1 critical, 1 warning\n\
         \x20 CRITICAL traversal        ../x \u{2014} climbs above the root\n\
         \x20 warning  duplicate-path   a/b \u{2014} appears twice\n"
    );
    let warned = ArchiveReport {
        path: "w.zip".into(),
        format: Format::Zip,
        entries: 12,
        findings: vec![
            Finding::warning(Check::NameMismatch, "n", "d"),
            Finding::warning(Check::NameMismatch, "n", "d"),
        ],
    };
    assert!(human(&warned).starts_with("w.zip: zip, 12 entries, 2 warnings\n"));
}

#[test]
fn json_document_is_exact() {
    let failures = [ScanFailure {
        path: "b\"roken".into(),
        error: "no\nEOCD".into(),
    }];
    assert_eq!(
        json(&[sample_report()], &failures),
        concat_lines(&[
            "{",
            "  \"slipcheck\": \"0.1.0\",",
            "  \"archives\": [",
            "    {",
            "      \"path\": \"evil.tar\",",
            "      \"format\": \"tar\",",
            "      \"entries\": 3,",
            "      \"critical\": 1,",
            "      \"warnings\": 1,",
            "      \"findings\": [",
            "        {\"check\": \"traversal\", \"severity\": \"critical\", \"path\": \"../x\", \"detail\": \"climbs above the root\"},",
            "        {\"check\": \"duplicate-path\", \"severity\": \"warning\", \"path\": \"a/b\", \"detail\": \"appears twice\"}",
            "      ]",
            "    }",
            "  ],",
            "  \"errors\": [",
            "    {\"path\": \"b\\\"roken\", \"error\": \"no\\nEOCD\"}",
            "  ],",
            "  \"critical\": 1,",
            "  \"warnings\": 1",
            "}",
        ])
    );
    assert!(json(&[], &[]).contains("\"archives\": [\n  ],\n  \"errors\": [\n  ],\n"));
}

#[test]
fn hostile_names_stay_inside_their_strings() {
    let name = "a\"}], \"critical\": 0}\\\u{1}\n";
    let report = ArchiveReport {
        path: name.to_string(),
        format: Format::TarGz,
        entries: 1,
        findings: vec![Finding::critical(Check::Setuid, name, name)],
    };
    let failures = [ScanFailure {
        path: name.into(),
        error: name.into(),
    }];
    let written = "a\\\"}], \\\"critical\\\": 0}\\\\\\u0001\\n";
    assert_eq!(
        json(&[report], &failures),
        concat_lines(&[
            "{",
            "  \"slipcheck\": \"0.1.0\",",
            "  \"archives\": [",
            "    {",
            &format!("      \"path\": \"{written}\","),
            "      \"format\": \"tar.gz\",",
            "      \"entries\": 1,",
            "      \"critical\": 1,",
            "      \"warnings\": 0,",
            "      \"findings\": [",
            &format!(
                "        {{\"check\": \"setuid\", \"severity\": \"critical\", \"path\": \"{written}\", \"detail\": \"{written}\"}}"
            ),
            "      ]",
            "    }",
            "  ],",
            "  \"errors\": [",
            &format!("    {{\"path\": \"{written}\", \"error\": \"{written}\"}}"),
            "  ],",
            "  \"critical\": 1,",
            "  \"warnings\": 0",
            "}",
        ])
    );
}

fn concat_lines(lines: &[&str]) -> String {
    lines.join("\n")
}

#[test]
fn every_control_character_is_escaped() {
    for code in 0u32..0x20 {
        let c = char::from_u32(code).unwrap();
        let text = json_escape(&c.to_string());
        assert!(text.starts_with('\\'), "control character {code}");
        if !matches!(c, '\n' | '\r' | '\t') {
            assert_eq!(text, format!("\\u{code:04x}"));
        }
    }
    assert_eq!(json_escape("\r"), "\\r");
    assert_eq!(json_escape("\u{1f600}\u{7f}"), "\u{1f600}\u{7f}");
}

#[test]
fn counts_add_up() {
    let report = sample_report();
    assert_eq!(
        report.count(Severity::Critical) + report.count(Severity::Warning),
        report.findings.len()
    );
    assert_eq!(
        summary(&[], &[]),
        "0 archives scanned: 0 critical, 0 warnings"
    );
}
