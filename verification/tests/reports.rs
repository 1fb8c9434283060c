use brainwares::engine::{FileCheckResult, FileFact, FileProbe, MemoryCheckResult, ReferenceStatus, VaultStatus};
use brainwares::models::CodeReference;
use brainwares::reports::{read_reference_label, shake_report, short_hash_text, status_issues, INCOMPLETE_ISSUE, ORPHAN_ISSUE};

fn check(name: &str, refs: Vec<FileCheckResult>, broken: &[&str], orphan: bool, placeholders: bool) -> MemoryCheckResult {
    MemoryCheckResult {
        memory_name: name.to_string(),
        file_path: format!("/v/memories/{}.md", name),
        references: refs,
        broken_links: broken.iter().map(|s| s.to_string()).collect(),
        is_orphan: orphan,
        has_placeholders: placeholders,
    }
}

fn status(ms: Vec<MemoryCheckResult>) -> VaultStatus {
    VaultStatus {
        total_memories: ms.len(),
        memories: ms,
        outdated_memories_count: 0,
        broken_links_count: 0,
        orphan_count: 0,
        incomplete_memories_count: 0,
    }
}

#[test]
fn short_hash_cuts_eight_bytes() {
    assert_eq!(short_hash_text("0123456789abcdef"), "01234567");
    assert_eq!(short_hash_text("abc"), "abc");
    assert_eq!(short_hash_text(""), "");
    assert_eq!(short_hash_text("ééééx"), "éééé");
}

#[test]
fn status_lines_in_order() {
    let m = check(
        "alpha",
        vec![
            FileCheckResult { path: "src/ok.rs".to_string(), status: ReferenceStatus::UpToDate },
            FileCheckResult {
                path: "src/a.rs".to_string(),
                status: ReferenceStatus::Outdated {
                    stored: "1234567890".to_string(),
                    current: "abcdefghij".to_string(),
                },
            },
            FileCheckResult { path: "src/gone.rs".to_string(), status: ReferenceStatus::Missing },
        ],
        &["Nowhere"],
        true,
        true,
    );
    assert_eq!(
        status_issues(&m),
        vec![
            "  [OUTDATED CODE] src/a.rs (stored: 12345678, current: abcdefgh)".to_string(),
            "  [MISSING CODE] src/gone.rs".to_string(),
            "  [BROKEN LINK] [[Nowhere]]".to_string(),
            ORPHAN_ISSUE.to_string(),
            INCOMPLETE_ISSUE.to_string(),
        ]
    );
    assert!(status_issues(&check("clean", vec![], &[], false, false)).is_empty());
}

#[test]
fn read_labels() {
    let probe = FileProbe {
        facts: vec![
            FileFact { path: "/w/a.rs".to_string(), exists: true, hash: Ok("hash-of-a-long".to_string()) },
            FileFact { path: "/w/b.rs".to_string(), exists: true, hash: Err("io".to_string()) },
            FileFact { path: "/w/c.rs".to_string(), exists: false, hash: Ok("x".to_string()) },
        ],
    };
    let r = |p: &str, h: &str| CodeReference { path: p.to_string(), hash: h.to_string() };
    assert_eq!(read_reference_label(&probe, "/w", &r("a.rs", "hash-of-a-long")), "OK");
    assert_eq!(read_reference_label(&probe, "/w", &r("a.rs", "old")), "OUTDATED (current: hash-of-)");
    assert_eq!(read_reference_label(&probe, "/w", &r("b.rs", "old")), "ERROR");
    assert_eq!(read_reference_label(&probe, "/w", &r("c.rs", "old")), "MISSING");
    assert_eq!(read_reference_label(&probe, "/w", &r("d.rs", "old")), "MISSING");
}

#[test]
fn shake_reports_findings() {
    let st = status(vec![
        check("alpha", vec![], &["x", "y"], false, false),
        check("lonely", vec![], &[], true, false),
    ]);
    assert_eq!(
        shake_report(&st),
        vec![
            "Memory 'alpha' has broken wiki-links to:".to_string(),
            "  - [[x]]".to_string(),
            "  - [[y]]".to_string(),
            "Orphan Memory note found: 'lonely' (\"/v/memories/lonely.md\")".to_string(),
        ]
    );
}

#[test]
fn shake_reports_clean_vault() {
    let st = status(vec![check("index", vec![], &[], false, true)]);
    assert_eq!(
        shake_report(&st),
        vec!["No broken wiki-links found.".to_string(), "No orphan memory notes found.".to_string()]
    );
    let only_orphan = status(vec![check("o", vec![], &[], true, false)]);
    assert_eq!(
        shake_report(&only_orphan),
        vec![
            "Orphan Memory note found: 'o' (\"/v/memories/o.md\")".to_string(),
            "No broken wiki-links found.".to_string(),
        ]
    );
}
