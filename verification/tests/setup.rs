use brainwares::setup::{
    first_demo_candidate, getting_started_note, is_demo_candidate, walk_entry_allowed, DOCUMENT_PROGRAM,
    EMPTY_CONTENT_HASH, INDEX_NOTE, REFACTOR_PROGRAM, VAULT_GITIGNORE,
};
use brainwares::engine::{check_vault_status, FileFact, FileProbe};
use brainwares::hash::content_hash;
use brainwares::models::{CodeReference, Frontmatter, MemoryPage};
use brainwares::parser::{extract_wiki_links, parse_memory_file};

#[test]
fn guide_references_the_chosen_file() {
    let note = getting_started_note("Cargo.toml", "abc123");
    assert!(note.starts_with("---\ntitle: Getting Started with Brainwares\nreferences:\n  - path: \"Cargo.toml\"\n    hash: \"abc123\"\ntags: [tutorial, setup]\n---\n"));
    assert_eq!(note.matches("`Cargo.toml`").count(), 3);
    let page = parse_memory_file(&note, "memories/getting-started.md").unwrap();
    let links = extract_wiki_links(&page.body);
    assert_eq!(links, vec![("index".to_string(), "[[index]]".to_string())]);
}

#[test]
fn index_note_links_guide() {
    let page = parse_memory_file(INDEX_NOTE, "memories/index.md").unwrap();
    assert_eq!(extract_wiki_links(&page.body)[0].0, "getting-started");
    assert!(REFACTOR_PROGRAM.starts_with("# Program: Code Refactoring"));
    assert!(DOCUMENT_PROGRAM.starts_with("# Program: Codebase Documentation"));
    assert_eq!(VAULT_GITIGNORE, "# Ignore temporary runtime logs and visualizer files\nlogs/\nui/\n");
    assert_eq!(EMPTY_CONTENT_HASH.len(), 32);
}

#[test]
fn demo_candidates() {
    assert!(is_demo_candidate("main.rs"));
    assert!(!is_demo_candidate(".env"));
    assert!(!is_demo_candidate("package-lock.json"));
    assert!(!is_demo_candidate("pnpm-lock.yaml"));
    assert!(is_demo_candidate(""));
    let names = vec![".gitignore".to_string(), "package-lock.json".to_string(), "lib.rs".to_string(), "z".to_string()];
    assert_eq!(first_demo_candidate(&names), Some(2));
    assert_eq!(first_demo_candidate(&vec![".a".to_string()]), None);
}

#[test]
fn walk_filters() {
    assert!(walk_entry_allowed("src"));
    assert!(!walk_entry_allowed(".git"));
    assert!(!walk_entry_allowed("node_modules"));
    assert!(!walk_entry_allowed("target"));
    assert!(!walk_entry_allowed("bin"));
    assert!(!walk_entry_allowed("obj"));
    assert!(walk_entry_allowed("objects"));
}

fn page_of(text: &str, path: &str) -> MemoryPage {
    let f = parse_memory_file(text, path).unwrap();
    let fm: serde_yaml::Value = serde_yaml::from_str(f.frontmatter_yaml.as_deref().unwrap()).unwrap();
    let references = fm.get("references").and_then(|r| r.as_sequence()).map(|v| {
        v.iter()
            .map(|r| CodeReference {
                path: r.get("path").unwrap().as_str().unwrap().to_string(),
                hash: r.get("hash").unwrap().as_str().unwrap().to_string(),
            })
            .collect()
    });
    MemoryPage {
        file_path: f.file_path,
        name: f.name,
        frontmatter: Frontmatter {
            title: fm.get("title").and_then(|t| t.as_str()).map(|t| t.to_string()),
            references,
            tags: None,
            last_updated: None,
        },
        body: f.body,
    }
}

#[test]
fn fresh_vault_checks_clean() {
    let hash = content_hash(b"# README\n");
    let pages = vec![
        page_of(INDEX_NOTE, "/w/.brainwares/memories/index.md"),
        page_of(&getting_started_note("README.md", &hash), "/w/.brainwares/memories/getting-started.md"),
    ];
    assert_eq!(pages[1].frontmatter.references.as_ref().unwrap()[0].hash, hash);
    let probe = FileProbe { facts: vec![FileFact { path: "/w/README.md".to_string(), exists: true, hash: Ok(hash.clone()) }] };
    let status = check_vault_status("/w/.brainwares", &pages, &probe);
    assert_eq!(status.total_memories, 2);
    assert_eq!(status.outdated_memories_count, 0);
    assert_eq!(status.broken_links_count, 0);
    assert_eq!(status.orphan_count, 0);
    assert_eq!(status.incomplete_memories_count, 0);
}
