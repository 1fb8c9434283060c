use brainwares::index::{
    notes_to_write, override_glob,
    collect_index_dirs, humanize_title, index_candidate, plan_index, update_index_note,
    IndexedFile, CODEBASE_HEADING,
};

fn file(path: &str, hash: &str) -> IndexedFile {
    IndexedFile { path: path.to_string(), hash: hash.to_string() }
}

fn files() -> Vec<IndexedFile> {
    vec![
        file("/w/src/main.rs", "h1"),
        file("/w/src/auth/login.rs", "h2"),
        file("/w/src/auth/token.rs", "h3"),
        file("/w/docs/guide.txt", "h4"),
    ]
}

#[test]
fn humanize_examples() {
    assert_eq!(humanize_title("src/auth-flow"), "Src Auth Flow");
    assert_eq!(humanize_title("ivy-framework/src"), "Ivy Framework Src");
    assert_eq!(humanize_title("snake_case_name"), "Snake Case Name");
    assert_eq!(humanize_title("a--b"), "A  B");
    assert_eq!(humanize_title(""), "");
    assert_eq!(humanize_title("[[x]]-y"), "[x] Y");
    assert_eq!(humanize_title("ßtraße"), "SStraße");
}

#[test]
fn candidates() {
    assert!(index_candidate("/w", "/w/src/main.rs"));
    assert!(!index_candidate("/w", "/w/README.md"));
    assert!(!index_candidate("/w", "/w/src/logo.PNG"));
    assert!(!index_candidate("/w", "/w/.git/config"));
    assert!(!index_candidate("/w", "/w/src/.cache/x.rs"));
    assert!(index_candidate("/w", "/w/src/.env"));
    assert!(!index_candidate("/w", "/other/src/main.rs"));
    assert!(index_candidate("/w", "/w/src/Cargo.lockfile"));
    assert!(!index_candidate("/w", "/w/src/Cargo.lock"));
}

#[test]
fn dirs_in_order_of_discovery() {
    assert_eq!(
        collect_index_dirs("/w", &files()),
        vec!["/w/src".to_string(), "/w/src/auth".to_string(), "/w/docs".to_string()]
    );
}

#[test]
fn folder_notes_for_each_dir() {
    let notes = plan_index("/w", "/w/.brainwares/memories", &files(), "T");
    assert_eq!(notes.len(), 3);

    let src = &notes[0];
    assert_eq!(src.rel, "src");
    assert_eq!(src.page.name, "src");
    assert_eq!(src.page.file_path, "/w/.brainwares/memories/src.md");
    assert_eq!(src.page.frontmatter.title.as_deref(), Some("Src"));
    assert_eq!(src.page.frontmatter.tags, Some(vec!["folder".to_string(), "index".to_string()]));
    assert_eq!(src.page.frontmatter.last_updated.as_deref(), Some("T"));
    let refs = src.page.frontmatter.references.as_ref().unwrap();
    assert_eq!(refs.len(), 1);
    assert_eq!(refs[0].path, "src/main.rs");
    assert_eq!(refs[0].hash, "h1");
    assert_eq!(
        src.page.body,
        "# Src\n\nScaffolded memory page for the `src` directory.\n\n## Subdirectories\n\n- [[src-auth]] (Src Auth)\n\n## Core Files Reference Map\n\n*   `main.rs`: [Enter description for file's role in this folder]\n"
    );

    let auth = &notes[1];
    assert_eq!(auth.rel, "src/auth");
    assert_eq!(auth.page.name, "src-auth");
    assert_eq!(auth.page.frontmatter.title.as_deref(), Some("Src Auth"));
    assert_eq!(
        auth.page.body,
        "# Src Auth\n\nScaffolded memory page for the `src/auth` directory.\n\n## Core Files Reference Map\n\n*   `login.rs`: [Enter description for file's role in this folder]\n*   `token.rs`: [Enter description for file's role in this folder]\n"
    );

    let docs = &notes[2];
    assert_eq!(docs.page.name, "docs");
    assert_eq!(docs.page.frontmatter.references.as_ref().unwrap()[0].path, "docs/guide.txt");
}

#[test]
fn intermediate_dir_without_files_has_no_references() {
    let notes = plan_index("/w", "m", &[file("/w/a/b/c.rs", "h")], "T");
    assert_eq!(notes.len(), 2);
    assert_eq!(notes[0].rel, "a/b");
    assert_eq!(notes[1].rel, "a");
    assert!(notes[1].page.frontmatter.references.is_none());
    assert_eq!(
        notes[1].page.body,
        "# A\n\nScaffolded memory page for the `a` directory.\n\n## Subdirectories\n\n- [[a-b]] (A B)\n\n"
    );
    assert_eq!(notes[1].page.file_path, "m/a.md");
}

#[test]
fn subdirectories_are_sorted() {
    let fs = vec![file("/w/p/zeta/x.rs", "1"), file("/w/p/alpha/y.rs", "2"), file("/w/p/mid/z.rs", "3")];
    let notes = plan_index("/w", "m", &fs, "T");
    let p = notes.iter().find(|n| n.rel == "p").unwrap();
    assert!(p.page.body.contains("- [[p-alpha]] (P Alpha)\n- [[p-mid]] (P Mid)\n- [[p-zeta]] (P Zeta)\n"));
}

#[test]
fn index_note_gets_top_level_folders_once() {
    let updated = update_index_note("/w", &files(), "# Welcome\n").unwrap();
    assert_eq!(updated, format!("# Welcome\n\n\n{}\n\n- [[docs]]\n- [[src]]\n", CODEBASE_HEADING));
    assert_eq!(update_index_note("/w", &files(), &updated), None);
    assert_eq!(update_index_note("/w", &[], "# Welcome\n"), None);
}

#[test]
fn override_globs() {
    assert_eq!(override_glob("**/target/"), Some("!target".to_string()));
    assert_eq!(override_glob("**/**/dist//"), Some("!dist".to_string()));
    assert_eq!(override_glob("*.log"), Some("!*.log".to_string()));
    assert_eq!(override_glob("**/"), None);
    assert_eq!(override_glob("/"), None);
    assert_eq!(override_glob(""), None);
    for p in ["**/a/**/", "**/**", "a**/", "**//x", "x/**/"].iter() {
        let clean = p.trim_start_matches("**/").trim_end_matches('/');
        let expected = if clean.is_empty() { None } else { Some(format!("!{}", clean)) };
        assert_eq!(override_glob(p), expected, "on {:?}", p);
    }
}

#[test]
fn existing_notes_are_not_rewritten() {
    let notes = plan_index("/w", "m", &files(), "T");
    let present = vec![true, false, true];
    let fresh = notes_to_write(notes.clone(), &present);
    assert_eq!(fresh.len(), 1);
    assert_eq!(fresh[0].rel, "src/auth");
    assert!(notes_to_write(notes.clone(), &vec![true, true, true]).is_empty());
    assert_eq!(notes_to_write(notes, &vec![]).len(), 3);
}
