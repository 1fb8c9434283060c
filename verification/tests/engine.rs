use brainwares::engine::{
    status_observations,
    check_vault_status, reference_status, total_links_checked, FileFact, FileProbe, ReferenceStatus,
};
use brainwares::models::{CodeReference, Frontmatter, MemoryPage};

fn fact(path: &str, exists: bool, hash: Result<&str, &str>) -> FileFact {
    FileFact {
        path: path.to_string(),
        exists,
        hash: hash.map(|h| h.to_string()).map_err(|e| e.to_string()),
    }
}

fn reference(path: &str, hash: &str) -> CodeReference {
    CodeReference { path: path.to_string(), hash: hash.to_string() }
}

fn page(name: &str, body: &str, refs: Option<Vec<CodeReference>>) -> MemoryPage {
    MemoryPage {
        file_path: format!("/w/.brainwares/memories/{}.md", name),
        name: name.to_string(),
        frontmatter: Frontmatter { title: None, references: refs, tags: None, last_updated: None },
        body: body.to_string(),
    }
}

fn probe() -> FileProbe {
    FileProbe {
        facts: vec![
            fact("/w/src/a.rs", true, Ok("aaaa1111")),
            fact("/w/src/b.rs", true, Ok("bbbb2222")),
            fact("/w/src/gone.rs", false, Err("no such file")),
            fact("/w/src/locked.rs", true, Err("permission denied")),
            fact("/w/docs/readme.txt", true, Ok("cccc")),
        ],
    }
}

#[test]
fn probe_takes_first_observation() {
    let p = FileProbe { facts: vec![fact("x", true, Ok("1")), fact("x", false, Ok("2"))] };
    assert!(p.file_exists("x"));
    assert!(!p.file_exists("y"));
    assert_eq!(p.fact("x").unwrap().hash, Ok("1".to_string()));
}

#[test]
fn reference_status_cases() {
    let p = probe();
    assert!(matches!(reference_status(&p, "/w", &reference("src/a.rs", "aaaa1111")), ReferenceStatus::UpToDate));
    match reference_status(&p, "/w", &reference("src/b.rs", "old")) {
        ReferenceStatus::Outdated { stored, current } => {
            assert_eq!(stored, "old");
            assert_eq!(current, "bbbb2222");
        }
        other => panic!("unexpected {:?}", other),
    }
    assert!(matches!(reference_status(&p, "/w", &reference("src/gone.rs", "x")), ReferenceStatus::Missing));
    assert!(matches!(reference_status(&p, "/w", &reference("src/locked.rs", "x")), ReferenceStatus::Missing));
    assert!(matches!(reference_status(&p, "/w", &reference("src/unknown.rs", "x")), ReferenceStatus::Missing));
}

#[test]
fn absolute_reference_path_replaces_root() {
    let p = probe();
    assert!(matches!(
        reference_status(&p, "/elsewhere", &reference("/w/src/a.rs", "aaaa1111")),
        ReferenceStatus::UpToDate
    ));
}

#[test]
fn vault_status_counts() {
    let memories = vec![
        page("index", "Start at [[alpha]].", None),
        page(
            "alpha",
            "Links [[beta]], [[Missing Page]] and [[src/a.rs]].\n[Enter description for x]",
            Some(vec![reference("src/a.rs", "aaaa1111"), reference("src/b.rs", "stale")]),
        ),
        page("beta", "Back to [[Alpha]].", Some(vec![reference("src/gone.rs", "x")])),
        page("lonely", "Nobody links here. [[nowhere]] ```[[code]]```", None),
    ];
    let status = check_vault_status("/w/.brainwares", &memories, &probe());
    assert_eq!(status.total_memories, 4);
    assert_eq!(status.memories.len(), 4);

    let index = &status.memories[0];
    assert_eq!(index.memory_name, "index");
    assert!(!index.is_orphan);
    assert!(index.broken_links.is_empty());
    assert!(!index.has_placeholders);

    let alpha = &status.memories[1];
    assert_eq!(alpha.file_path, "/w/.brainwares/memories/alpha.md");
    assert_eq!(alpha.references.len(), 2);
    assert_eq!(alpha.references[0].path, "src/a.rs");
    assert!(matches!(alpha.references[0].status, ReferenceStatus::UpToDate));
    assert!(matches!(alpha.references[1].status, ReferenceStatus::Outdated { .. }));
    assert_eq!(alpha.broken_links, vec!["Missing Page".to_string()]);
    assert!(!alpha.is_orphan);
    assert!(alpha.has_placeholders);

    let beta = &status.memories[2];
    assert!(matches!(beta.references[0].status, ReferenceStatus::Missing));
    assert!(!beta.is_orphan);

    let lonely = &status.memories[3];
    assert!(lonely.is_orphan);
    assert_eq!(lonely.broken_links, vec!["nowhere".to_string()]);

    assert_eq!(status.outdated_memories_count, 2);
    assert_eq!(status.broken_links_count, 2);
    assert_eq!(status.orphan_count, 1);
    assert_eq!(status.incomplete_memories_count, 1);
}

#[test]
fn empty_vault_status() {
    let status = check_vault_status("/w/.brainwares", &[], &FileProbe { facts: vec![] });
    assert_eq!(status.total_memories, 0);
    assert_eq!(status.outdated_memories_count, 0);
    assert_eq!(status.broken_links_count, 0);
    assert_eq!(status.orphan_count, 0);
    assert_eq!(status.incomplete_memories_count, 0);
}

#[test]
fn placeholder_marks() {
    let memories = vec![
        page("index", "[[a]] [[b]] [[c]]", None),
        page("a", "[Enter something]", None),
        page("b", "[Enter description", None),
        page("c", "[enter lowercase]", None),
    ];
    let status = check_vault_status("/w/.brainwares", &memories, &probe());
    assert!(status.memories[1].has_placeholders);
    assert!(status.memories[2].has_placeholders);
    assert!(!status.memories[3].has_placeholders);
    assert_eq!(status.incomplete_memories_count, 2);
    assert_eq!(status.orphan_count, 0);
}

#[test]
fn link_to_existing_file_is_not_broken() {
    let memories = vec![page("index", "[[docs/readme.txt]] [[docs/none.txt]]", None)];
    let status = check_vault_status("/w/.brainwares", &memories, &probe());
    assert_eq!(status.memories[0].broken_links, vec!["docs/none.txt".to_string()]);
}

#[test]
fn total_links_counts_all_pages() {
    let memories = vec![page("a", "[[x]] [[y]]", None), page("b", "`[[no]]` [[z]]", None)];
    assert_eq!(total_links_checked(&memories), Some(3));
    assert_eq!(total_links_checked(&[]), Some(0));
}

#[test]
fn self_links_do_not_save_an_orphan() {
    let memories = vec![
        page("index", "", None),
        page("solo", "Only [[solo]] links here.", None),
        page("fenced", "", None),
        page("other", "```\n[[fenced]]\n```", None),
    ];
    let status = check_vault_status("/w/.brainwares", &memories, &probe());
    assert!(!status.memories[0].is_orphan);
    assert!(status.memories[1].is_orphan);
    assert!(status.memories[2].is_orphan);
    assert!(status.memories[3].is_orphan);
    assert_eq!(status.orphan_count, 3);
}

#[test]
fn observations_cover_references_and_links() {
    let memories = vec![
        page("a", "[[b]] and [[src/x.rs]] ```[[code]]```", Some(vec![reference("src/a.rs", "h")])),
        page("b", "```\n[[fenced]]\n```", None),
    ];
    let obs = status_observations("/w/.brainwares", &memories);
    assert_eq!(
        obs,
        vec![
            ("/w/src/a.rs".to_string(), true),
            ("/w/b".to_string(), false),
            ("/w/src/x.rs".to_string(), false),
        ]
    );
}
