use brainwares::engine::{FileFact, FileProbe};
use brainwares::models::{CodeReference, Frontmatter, MemoryPage};
use brainwares::ui::ui_memories;

fn page(name: &str, body: &str, refs: Option<Vec<CodeReference>>) -> MemoryPage {
    MemoryPage {
        file_path: format!("/w/.brainwares/memories/{}.md", name),
        name: name.to_string(),
        frontmatter: Frontmatter {
            title: Some(name.to_uppercase()),
            references: refs,
            tags: Some(vec!["t".to_string()]),
            last_updated: Some("when".to_string()),
        },
        body: body.to_string(),
    }
}

#[test]
fn explorer_view() {
    let probe = FileProbe {
        facts: vec![
            FileFact { path: "/w/a.rs".into(), exists: true, hash: Ok("1".into()) },
            FileFact { path: "/w/b.rs".into(), exists: true, hash: Ok("2".into()) },
        ],
    };
    let refs = vec![
        CodeReference { path: "a.rs".into(), hash: "1".into() },
        CodeReference { path: "b.rs".into(), hash: "old".into() },
        CodeReference { path: "c.rs".into(), hash: "x".into() },
    ];
    let memories = vec![page("My Page", "text", Some(refs)), page("other", "see [[my-page]]\n[[My_Page]]", None)];
    let ui = ui_memories("/w/.brainwares", &memories, &probe);
    assert_eq!(ui.len(), 2);
    let m = &ui[0];
    assert_eq!(m.name, "My Page");
    assert_eq!(m.title.as_deref(), Some("MY PAGE"));
    assert_eq!(m.tags, Some(vec!["t".to_string()]));
    assert_eq!(m.last_updated.as_deref(), Some("when"));
    assert_eq!(m.body, "text");
    let statuses: Vec<(&str, &str)> = m.references.iter().map(|r| (r.file_path.as_str(), r.status.as_str())).collect();
    assert_eq!(statuses, vec![("a.rs", "OK"), ("b.rs", "Outdated"), ("c.rs", "Missing")]);
    assert_eq!(m.backlinks.len(), 2);
    assert_eq!(m.backlinks[0].source, "other");
    assert_eq!(m.backlinks[0].context_line, "Line 1: see [[my-page]]");
    assert_eq!(m.backlinks[1].context_line, "Line 2: [[My_Page]]");
    assert!(ui[1].backlinks.is_empty());
    assert!(ui[1].references.is_empty());
}
