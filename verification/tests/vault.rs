use brainwares::models::{Backlink, Config, Frontmatter, MemoryPage};
use brainwares::vault::{
    get_backlinks, get_global_config_path, get_workspace_root, global_memories_dir, is_markdown_path,
    load_merged_config, merge_memories, normalize_lowered, normalize_memory_name, vault_search_paths,
};

fn page(name: &str, path: &str, body: &str) -> MemoryPage {
    MemoryPage {
        file_path: path.to_string(),
        name: name.to_string(),
        frontmatter: Frontmatter::default(),
        body: body.to_string(),
    }
}

fn config(dir: &str, patterns: &[&str]) -> Config {
    Config {
        default_vault_dir: dir.to_string(),
        ignore_patterns: patterns.iter().map(|s| s.to_string()).collect(),
    }
}

#[test]
fn normalize_lowercases_and_hyphenates() {
    assert_eq!(normalize_memory_name("My Note_Name.md"), "my-note-name");
    assert_eq!(normalize_memory_name("Getting Started"), "getting-started");
    assert_eq!(normalize_memory_name("ABC"), "abc");
}

#[test]
fn normalize_strips_symbols_and_every_md() {
    assert_eq!(normalize_memory_name("Weird [Name]: (x)?"), "weird-name-x");
    assert_eq!(normalize_memory_name("a.md.md"), "a");
    assert_eq!(normalize_memory_name("\"quoted\" 'name' {b} *"), "quoted-name-b-");
    assert_eq!(normalize_memory_name(""), "");
}

#[test]
fn normalize_lowered_skips_lowercasing() {
    assert_eq!(normalize_lowered("Keep Case.md"), "Keep-Case");
}

#[test]
fn normalize_is_idempotent_on_examples() {
    for s in ["My Note", "a_b-c", "X.md", "[[odd]]", "Ünïcode Nämé"].iter() {
        let once = normalize_memory_name(s);
        assert_eq!(normalize_memory_name(&once), once);
        assert!(!once.contains(' ') && !once.contains('_') && !once.contains('['));
    }
}

#[test]
fn backlinks_group_by_normalized_target() {
    let pages = vec![
        page("alpha", "m/alpha.md", "intro\nsee [[Beta Note]] and [[gamma]]\n"),
        page("gamma", "m/gamma.md", "  back to [[beta_note]]  \n`[[ignored]]`"),
        page("beta-note", "m/beta-note.md", "no links"),
    ];
    let index = get_backlinks(&pages);
    let beta: &Vec<Backlink> = index.get("beta-note").unwrap();
    assert_eq!(beta.len(), 2);
    assert_eq!(beta[0].source_name, "alpha");
    assert_eq!(beta[0].source_path, "m/alpha.md");
    assert_eq!(beta[0].context, "Line 2: see [[Beta Note]] and [[gamma]]");
    assert_eq!(beta[1].source_name, "gamma");
    assert_eq!(beta[1].context, "Line 1: back to [[beta_note]]");
    let gamma = index.get("gamma").unwrap();
    assert_eq!(gamma.len(), 1);
    assert_eq!(gamma[0].source_name, "alpha");
    assert!(index.get("ignored").is_none());
    assert!(index.get("alpha").is_none());
    assert_eq!(index.entries.len(), 2);
}

#[test]
fn backlinks_of_empty_vault() {
    let index = get_backlinks(&[]);
    assert!(index.entries.is_empty());
    assert!(index.get("anything").is_none());
}

#[test]
fn backlinks_count_repeated_links_per_line() {
    let pages = vec![page("a", "a.md", "[[b]] [[B]]\n\n[[b]]")];
    let index = get_backlinks(&pages);
    let b = index.get("b").unwrap();
    assert_eq!(b.len(), 3);
    assert_eq!(b[0].context, "Line 1: [[b]] [[B]]");
    assert_eq!(b[1].context, "Line 1: [[b]] [[B]]");
    assert_eq!(b[2].context, "Line 3: [[b]]");
}

#[test]
fn workspace_root_is_parent_of_vault() {
    assert_eq!(get_workspace_root("/home/u/proj/.brainwares"), "/home/u/proj");
    assert_eq!(get_workspace_root("proj/.brainwares/"), "proj");
    assert_eq!(get_workspace_root(".brainwares"), "");
    assert_eq!(get_workspace_root("/"), ".");
    assert_eq!(get_workspace_root(""), ".");
}

#[test]
fn workspace_root_agrees_with_std_path() {
    for p in ["/a/b/c", "a/b", "a", "/a", "a//b//", "./x", "../y/z", "/a/./b", "a/b/.", "a/.."].iter() {
        let expected = std::path::Path::new(p)
            .parent()
            .map(|q| q.to_string_lossy().to_string())
            .unwrap_or_else(|| ".".to_string());
        assert_eq!(get_workspace_root(p), expected, "on {:?}", p);
    }
}

#[test]
fn vault_search_walks_up_to_the_root() {
    let paths = vault_search_paths("/home/u/proj", ".brainwares");
    assert_eq!(
        paths,
        vec![
            "/home/u/proj/.brainwares".to_string(),
            "/home/u/.brainwares".to_string(),
            "/home/.brainwares".to_string(),
            "/.brainwares".to_string(),
        ]
    );
    assert_eq!(vault_search_paths("rel", "v"), vec!["rel/v".to_string(), "v".to_string()]);
}

#[test]
fn global_config_prefers_home() {
    assert_eq!(
        get_global_config_path(Some("/home/u".to_string()), Some("C:/Users/u".to_string())),
        Some("/home/u/.config/brainwares/config.json".to_string())
    );
    assert_eq!(
        get_global_config_path(None, Some("/profile".to_string())),
        Some("/profile/.config/brainwares/config.json".to_string())
    );
    assert_eq!(get_global_config_path(None, None), None);
}

#[test]
fn global_memories_sit_beside_config() {
    assert_eq!(
        global_memories_dir("/home/u/.config/brainwares/config.json"),
        Some("/home/u/.config/brainwares/memories".to_string())
    );
    assert_eq!(global_memories_dir("/"), None);
}

#[test]
fn markdown_paths_by_extension() {
    assert!(is_markdown_path("notes/a.md"));
    assert!(!is_markdown_path("notes/a.MD"));
    assert!(!is_markdown_path("notes/.md"));
    assert!(!is_markdown_path("notes/a.md.txt"));
    assert!(!is_markdown_path("notes/md"));
}

#[test]
fn merged_config_without_local_is_global() {
    let c = load_merged_config(config(".bw", &["target/", "*.log"]), None);
    assert_eq!(c.default_vault_dir, ".bw");
    assert_eq!(c.ignore_patterns, vec!["target/".to_string(), "*.log".to_string()]);
}

#[test]
fn merged_config_adds_new_local_patterns_in_order() {
    let c = load_merged_config(
        config(".bw", &["target/", "*.log"]),
        Some(config(".local", &["*.log", "dist/", "dist/", "tmp"])),
    );
    assert_eq!(c.default_vault_dir, ".local");
    assert_eq!(
        c.ignore_patterns,
        vec!["target/".to_string(), "*.log".to_string(), "dist/".to_string(), "tmp".to_string()]
    );
}

#[test]
fn default_config_names_vault_dir() {
    let c = Config::default();
    assert_eq!(c.default_vault_dir, ".brainwares");
    assert!(c.ignore_patterns.is_empty());
}

#[test]
fn merge_memories_keeps_local_first_and_skips_taken_names() {
    let local = vec![page("Alpha", "l/Alpha.md", "l1"), page("beta", "l/beta.md", "l2")];
    let global = vec![
        page("alpha", "g/alpha.md", "g1"),
        page("Gamma", "g/Gamma.md", "g2"),
        page("GAMMA", "g/GAMMA.md", "g3"),
        page("delta", "g/delta.md", "g4"),
    ];
    let merged = merge_memories(local, global);
    let names: Vec<&str> = merged.iter().map(|p| p.name.as_str()).collect();
    assert_eq!(names, vec!["Alpha", "beta", "Gamma", "delta"]);
    assert_eq!(merged[2].body, "g2");
}

#[test]
fn fenced_links_are_no_backlinks() {
    let pages = vec![page("a", "m/a.md", "```\n[[c]]\n```\nsee [[d]]")];
    let index = get_backlinks(&pages);
    assert_eq!(index.entries.len(), 1);
    let d = index.get("d").unwrap();
    assert_eq!(d.len(), 1);
    assert_eq!(d[0].context, "Line 4: see [[d]]");
    assert!(index.get("c").is_none());
}
