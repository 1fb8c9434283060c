use brainwares::commands::{
    assemble_prompt, backlinks_by_page_name, compile_prompt, find_ignoring_case,
    find_reference, link_code_file, link_reference, markdown_file_name,
    memory_not_found_message, memory_not_found_text, new_memory_page, query_lowered, query_memory, refresh_reference,
    refresh_references, update_memory_references, RefreshNote,
    PROMPT_ARGS, PROMPT_INSTRUCTIONS, PROMPT_INTRO, PROMPT_MEMORIES, PROMPT_REFLECTION,
};
use brainwares::engine::{reference_status, FileFact, FileProbe, ReferenceStatus};
use brainwares::models::{CodeReference, Frontmatter, MemoryPage};
use brainwares::vault::get_backlinks;

fn reference(path: &str, hash: &str) -> CodeReference {
    CodeReference { path: path.to_string(), hash: hash.to_string() }
}

fn pairs(refs: &[CodeReference]) -> Vec<(String, String)> {
    refs.iter().map(|r| (r.path.clone(), r.hash.clone())).collect()
}

fn page(name: &str, body: &str, refs: Option<Vec<CodeReference>>) -> MemoryPage {
    MemoryPage {
        file_path: format!("/w/.brainwares/memories/{}.md", name),
        name: name.to_string(),
        frontmatter: Frontmatter {
            title: Some(format!("Title of {}", name)),
            references: refs,
            tags: Some(vec!["Tag-One".to_string(), "two".to_string()]),
            last_updated: None,
        },
        body: body.to_string(),
    }
}

fn probe() -> FileProbe {
    FileProbe {
        facts: vec![
            FileFact { path: "/w/src/a.rs".to_string(), exists: true, hash: Ok("new-a".to_string()) },
            FileFact { path: "/w/src/b.rs".to_string(), exists: true, hash: Ok("same-b".to_string()) },
            FileFact { path: "/w/src/gone.rs".to_string(), exists: false, hash: Err("gone".to_string()) },
            FileFact { path: "/w/src/bad.rs".to_string(), exists: true, hash: Err("Failed to read".to_string()) },
        ],
    }
}

#[test]
fn find_reference_gives_first_match() {
    let refs = vec![reference("a", "1"), reference("b", "2"), reference("a", "3")];
    assert_eq!(find_reference(&refs, "a"), Some(0));
    assert_eq!(find_reference(&refs, "b"), Some(1));
    assert_eq!(find_reference(&refs, "c"), None);
}

#[test]
fn link_updates_first_or_appends() {
    let mut refs = vec![reference("a", "1"), reference("b", "2"), reference("a", "3")];
    assert!(link_reference(&mut refs, "a", "9"));
    assert_eq!(
        pairs(&refs),
        vec![("a".into(), "9".into()), ("b".into(), "2".into()), ("a".into(), "3".into())]
    );
    assert!(!link_reference(&mut refs, "c", "4"));
    assert_eq!(refs.len(), 4);
    assert_eq!(pairs(&refs)[3], ("c".to_string(), "4".to_string()));
}

#[test]
fn link_code_file_stamps_and_keeps_rest() {
    let mut p = page("alpha", "body", None);
    let updated = link_code_file(&mut p, "src/a.rs", "h1", "2024-01-01T00:00:00+00:00".to_string());
    assert!(!updated);
    assert_eq!(pairs(p.frontmatter.references.as_ref().unwrap()), vec![("src/a.rs".into(), "h1".into())]);
    assert_eq!(p.frontmatter.last_updated.as_deref(), Some("2024-01-01T00:00:00+00:00"));
    assert_eq!(p.body, "body");
    assert_eq!(p.frontmatter.title.as_deref(), Some("Title of alpha"));
    assert!(link_code_file(&mut p, "src/a.rs", "h2", "t2".to_string()));
    assert_eq!(pairs(p.frontmatter.references.as_ref().unwrap()), vec![("src/a.rs".into(), "h2".into())]);
}

#[test]
fn link_then_status_is_up_to_date() {
    let mut p = page("alpha", "", Some(vec![reference("src/a.rs", "stale")]));
    link_code_file(&mut p, "src/a.rs", "new-a", "t".to_string());
    let r = &p.frontmatter.references.as_ref().unwrap()[0];
    assert!(matches!(reference_status(&probe(), "/w", r), ReferenceStatus::UpToDate));
}

#[test]
fn refresh_all_reports_changes_and_missing() {
    let mut refs = vec![
        reference("src/a.rs", "old-a"),
        reference("src/b.rs", "same-b"),
        reference("src/gone.rs", "g"),
        reference("src/bad.rs", "keep"),
        reference("src/unknown.rs", "u"),
    ];
    let notes = refresh_references(&mut refs, "/w", &probe());
    assert_eq!(
        pairs(&refs),
        vec![
            ("src/a.rs".into(), "new-a".into()),
            ("src/b.rs".into(), "same-b".into()),
            ("src/gone.rs".into(), "g".into()),
            ("src/bad.rs".into(), "keep".into()),
            ("src/unknown.rs".into(), "u".into()),
        ]
    );
    assert_eq!(notes.len(), 3);
    match &notes[0] {
        RefreshNote::Updated { path, old_hash, new_hash } => {
            assert_eq!(path, "src/a.rs");
            assert_eq!(old_hash, "old-a");
            assert_eq!(new_hash, "new-a");
        }
        other => panic!("unexpected {:?}", other),
    }
    assert!(matches!(&notes[1], RefreshNote::Missing { path } if path == "src/gone.rs"));
    assert!(matches!(&notes[2], RefreshNote::Missing { path } if path == "src/unknown.rs"));
}

#[test]
fn refresh_one_reference_errors() {
    let mut refs = vec![reference("src/a.rs", "old"), reference("src/gone.rs", "g"), reference("src/bad.rs", "b")];
    assert_eq!(
        refresh_reference(&mut refs, "/w", "src/none.rs", &probe()),
        Err("Reference to 'src/none.rs' not found in memory frontmatter.".to_string())
    );
    assert_eq!(
        refresh_reference(&mut refs, "/w", "src/gone.rs", &probe()),
        Err("Code file not found in workspace: src/gone.rs".to_string())
    );
    assert_eq!(refresh_reference(&mut refs, "/w", "src/bad.rs", &probe()), Err("Failed to read".to_string()));
    assert_eq!(refs[0].hash, "old");
    assert_eq!(refresh_reference(&mut refs, "/w", "src/a.rs", &probe()), Ok(()));
    assert_eq!(refs[0].hash, "new-a");
}

#[test]
fn update_without_references_is_refused() {
    let mut p = page("alpha", "", None);
    let r = update_memory_references(&mut p, "/w", None, &probe(), "t".to_string());
    assert_eq!(r.unwrap_err(), "Memory has no references to update.");
    assert!(p.frontmatter.last_updated.is_none());
}

#[test]
fn update_all_then_status_clean() {
    let mut p = page("alpha", "", Some(vec![reference("src/a.rs", "old"), reference("src/b.rs", "same-b")]));
    let notes = update_memory_references(&mut p, "/w", None, &probe(), "stamp".to_string()).unwrap();
    assert_eq!(notes.len(), 1);
    assert_eq!(p.frontmatter.last_updated.as_deref(), Some("stamp"));
    for r in p.frontmatter.references.as_ref().unwrap() {
        assert!(matches!(reference_status(&probe(), "/w", r), ReferenceStatus::UpToDate));
    }
}

#[test]
fn update_one_failure_leaves_page() {
    let mut p = page("alpha", "", Some(vec![reference("src/a.rs", "old")]));
    let r = update_memory_references(&mut p, "/w", Some("src/zzz.rs"), &probe(), "stamp".to_string());
    assert_eq!(r.unwrap_err(), "Reference to 'src/zzz.rs' not found in memory frontmatter.");
    assert_eq!(pairs(p.frontmatter.references.as_ref().unwrap()), vec![("src/a.rs".into(), "old".into())]);
    assert!(p.frontmatter.last_updated.is_none());
    let ok = update_memory_references(&mut p, "/w", Some("src/a.rs"), &probe(), "T2".to_string()).unwrap();
    assert!(ok.is_empty());
    assert_eq!(p.frontmatter.references.as_ref().unwrap()[0].hash, "new-a");
    assert_eq!(p.frontmatter.last_updated.as_deref(), Some("T2"));
}

#[test]
fn new_note_from_name() {
    let p = new_memory_page(
        "/v/memories",
        "  my_great-note  ",
        Some(" a, b ,c ".to_string()),
        None,
        "T".to_string(),
    );
    assert_eq!(p.file_path, "/v/memories/my_great-note.md");
    assert_eq!(p.name, "my_great-note");
    assert_eq!(p.frontmatter.title.as_deref(), Some("my great note"));
    assert_eq!(p.frontmatter.tags, Some(vec!["a".to_string(), "b".to_string(), "c".to_string()]));
    assert_eq!(p.frontmatter.references.as_ref().map(|v| v.len()), Some(0));
    assert_eq!(p.frontmatter.last_updated.as_deref(), Some("T"));
    assert_eq!(p.body, "# my great note\n\nWrite your memory here...\n");
}

#[test]
fn new_note_with_title_and_md_name() {
    let p = new_memory_page("m", "Two Words.md", None, Some("Custom".to_string()), "T".to_string());
    assert_eq!(p.file_path, "m/Two-Words.md");
    assert_eq!(p.name, "Two-Words");
    assert_eq!(p.frontmatter.title.as_deref(), Some("Custom"));
    assert_eq!(p.frontmatter.tags, Some(vec![]));
    assert_eq!(p.body, "# Custom\n\nWrite your memory here...\n");
    let q = new_memory_page("m", "x", Some("".to_string()), None, "T".to_string());
    assert_eq!(q.frontmatter.tags, Some(vec!["".to_string()]));
}

#[test]
fn query_matches_case_insensitively() {
    let p = page("Auth-Flow", "First line\n  The TOKEN is here  \nnothing\nanother token", None);
    let hit = query_memory(&p, "Token").unwrap();
    assert!(!hit.name_match);
    assert!(!hit.title_match);
    assert!(!hit.tags_match);
    assert!(hit.body_match);
    assert_eq!(hit.snippets, vec!["The TOKEN is here".to_string(), "another token".to_string()]);
    let by_name = query_memory(&p, "AUTH").unwrap();
    assert!(by_name.name_match && by_name.title_match && !by_name.body_match);
    assert!(by_name.snippets.is_empty());
    let by_tag = query_memory(&p, "tag-o").unwrap();
    assert!(by_tag.tags_match);
    assert!(query_memory(&p, "absent").is_none());
}

#[test]
fn backlinks_looked_up_by_normalised_name() {
    let pages = vec![page("Target", "", None), page("src", "[[target]]", None)];
    let index = get_backlinks(&pages);
    let found = backlinks_by_page_name(&index, "TARGET").unwrap();
    assert_eq!(found[0].source_name, "src");
    let pages2 = vec![page("Auth_Flow", "", None), page("src", "see [[auth flow]]", None), page("x", "", None)];
    let index2 = get_backlinks(&pages2);
    let shown = backlinks_by_page_name(&index2, "Auth_Flow").unwrap();
    assert_eq!(shown.len(), 1);
    assert_eq!(shown[0].context, "Line 1: see [[auth flow]]");
    assert!(backlinks_by_page_name(&index2, "x").is_none());
}

#[test]
fn prompt_layout() {
    let memories = vec![page("alpha", "Alpha body", None), MemoryPage {
        file_path: "x.md".to_string(),
        name: "beta".to_string(),
        frontmatter: Frontmatter::default(),
        body: "Beta body".to_string(),
    }];
    let prompt = compile_prompt("/w/.brainwares", &["x".to_string(), "y z".to_string()], &memories, "Do it.");
    let expected = format!(
        "{}\"/w/.brainwares\"\n\n{}[\"x\", \"y z\"]\n\n{}=== Memory: alpha ===\nTitle: Title of alpha\nContent:\nAlpha body\n\n=== Memory: beta ===\nContent:\nBeta body\n\n{}Do it.{}",
        PROMPT_INTRO, PROMPT_ARGS, PROMPT_MEMORIES, PROMPT_INSTRUCTIONS, PROMPT_REFLECTION
    );
    assert_eq!(prompt, expected);
    let no_args = compile_prompt("v", &[], &[], "I");
    assert_eq!(no_args, format!("{}\"v\"\n\n{}{}I{}", PROMPT_INTRO, PROMPT_MEMORIES, PROMPT_INSTRUCTIONS, PROMPT_REFLECTION));
}

#[test]
fn assembled_prompt_uses_given_debug_forms() {
    let a = assemble_prompt("<V>", Some("<A>"), &[], "I");
    assert_eq!(a, format!("{}<V>\n\n{}<A>\n\n{}{}I{}", PROMPT_INTRO, PROMPT_ARGS, PROMPT_MEMORIES, PROMPT_INSTRUCTIONS, PROMPT_REFLECTION));
}

#[test]
fn markdown_names() {
    assert_eq!(markdown_file_name("refactor"), "refactor.md");
    assert_eq!(markdown_file_name("refactor.md"), "refactor.md");
    assert_eq!(markdown_file_name(""), ".md");
}

#[test]
fn find_file_ignoring_case() {
    let names = vec!["Index.md".to_string(), "notes.MD".to_string(), "index.md".to_string()];
    assert_eq!(find_ignoring_case(&names, "INDEX.md"), Some(0));
    assert_eq!(find_ignoring_case(&names, "Notes.md"), Some(1));
    assert_eq!(find_ignoring_case(&names, "other.md"), None);
}

#[test]
fn not_found_message() {
    assert_eq!(
        memory_not_found_message("ghost", "/w/.brainwares/memories"),
        "Memory file 'ghost' not found in local memories directory \"/w/.brainwares/memories\" or global vault memories."
    );
    assert_eq!(
        memory_not_found_text("g", "D"),
        "Memory file 'g' not found in local memories directory D or global vault memories."
    );
}

#[test]
fn query_on_given_lowercased_forms() {
    let p = page("n", "Line A\nline b", None);
    let lowered = vec!["x".to_string(), "has term".to_string()];
    let hit = query_lowered(&p, "term", "name", Some("title"), None, "body has term", &lowered).unwrap();
    assert!(hit.body_match && !hit.name_match && !hit.title_match && !hit.tags_match);
    assert_eq!(hit.snippets, vec!["line b".to_string()]);
    let tags = vec!["a".to_string(), "termite".to_string()];
    let by_tag = query_lowered(&p, "term", "", None, Some(&tags), "", &vec![]).unwrap();
    assert!(by_tag.tags_match && by_tag.snippets.is_empty());
    assert!(query_lowered(&p, "zzz", "name", None, None, "body", &lowered).is_none());
}

#[test]
fn linking_twice_changes_nothing() {
    let mut refs = vec![reference("x", "1")];
    link_reference(&mut refs, "y", "2");
    let once = pairs(&refs);
    assert!(link_reference(&mut refs, "y", "2"));
    assert_eq!(pairs(&refs), once);
    assert_eq!(refs.len(), 2);
}
