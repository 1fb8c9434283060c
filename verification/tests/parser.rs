use brainwares::parser::{clean_inline_code, extract_wiki_links, parse_memory_file, serialize_memory_file};

fn yaml_str<'a>(v: &'a serde_yaml::Value, key: &str) -> Option<&'a str> {
    v.get(key).and_then(|x| x.as_str())
}

#[test]
fn test_parse_with_frontmatter() {
    let content = "\
---
title: Auth Page
tags: [auth, test]
references:
  - path: src/auth.rs
    hash: 1234abcd
---
# Main Header
Body text with [[Another Note#Section|Label]].
";
    let page = parse_memory_file(content, "memories/auth-page.md").unwrap();
    assert_eq!(page.name, "auth-page");
    let yaml = page.frontmatter_yaml.clone().unwrap();
    let fm: serde_yaml::Value = serde_yaml::from_str(&yaml).unwrap();
    assert_eq!(yaml_str(&fm, "title"), Some("Auth Page"));
    let tags: Vec<&str> = fm
        .get("tags")
        .unwrap()
        .as_sequence()
        .unwrap()
        .iter()
        .map(|t| t.as_str().unwrap())
        .collect();
    assert_eq!(tags, vec!["auth", "test"]);
    let refs = fm.get("references").unwrap().as_sequence().unwrap();
    assert_eq!(yaml_str(&refs[0], "path"), Some("src/auth.rs"));
    assert!(page.body.contains("# Main Header"));

    let links = extract_wiki_links(&page.body);
    assert_eq!(links.len(), 1);
    assert_eq!(links[0].0, "Another Note");
    assert_eq!(links[0].1, "[[Another Note#Section|Label]]");
}

#[test]
fn test_extract_wiki_links_ignores_code() {
    let body = "\
This is a normal [[Active Link]].
Inline code `[[Ignored Inline Link]]` or `[[...slug]]`.
Multiple backticks: `` `[[Another Ignored]]` ``.
Code block:
```rust
let x = [[Ignored Code Block Link]];
```
Normal link after code block: [[Active Link 2]].
";
    let links = extract_wiki_links(body);
    assert_eq!(links.len(), 2);
    assert_eq!(links[0].0, "Active Link");
    assert_eq!(links[1].0, "Active Link 2");
}

#[test]
fn parse_splits_yaml_and_body_exactly() {
    let page = parse_memory_file("  ---\ntitle: X\n---\n\n\nBody here\n", "notes/x.md").unwrap();
    assert_eq!(page.file_path, "notes/x.md");
    assert_eq!(page.name, "x");
    assert_eq!(page.frontmatter_yaml.as_deref(), Some("\ntitle: X\n"));
    assert_eq!(page.body, "Body here\n");
}

#[test]
fn parse_without_frontmatter_keeps_everything() {
    let content = "# Title\n\nNo fences here.\n";
    let page = parse_memory_file(content, "memories/plain.md").unwrap();
    assert_eq!(page.frontmatter_yaml, None);
    assert_eq!(page.body, content);
}

#[test]
fn parse_unclosed_frontmatter_is_body() {
    let content = "---\ntitle: open\nno closing fence\n";
    let page = parse_memory_file(content, "a/b.md").unwrap();
    assert_eq!(page.frontmatter_yaml, None);
    assert_eq!(page.body, content);
}

#[test]
fn parse_refuses_path_without_name() {
    let err = parse_memory_file("anything", "").unwrap_err();
    assert_eq!(err, "Invalid path name: \"\"");
    let err2 = parse_memory_file("anything", "/").unwrap_err();
    assert_eq!(err2, "Invalid path name: \"/\"");
}

#[test]
fn parse_name_is_file_stem() {
    assert_eq!(parse_memory_file("", "dir/my.note.md").unwrap().name, "my.note");
    assert_eq!(parse_memory_file("", ".hidden").unwrap().name, ".hidden");
    assert_eq!(parse_memory_file("", "x/y/").unwrap().name, "y");
}

#[test]
fn serialize_frames_yaml() {
    let text = serialize_memory_file("title: A\n", "# A\n");
    assert_eq!(text, "---\ntitle: A\n---\n\n# A\n");
}

#[test]
fn serialize_skips_empty_frontmatter() {
    assert_eq!(serialize_memory_file("{}\n", "body"), "body");
    assert_eq!(serialize_memory_file("  \n", "body"), "body");
    assert_eq!(serialize_memory_file("", "body"), "body");
}

#[test]
fn write_then_read_gives_back_parts() {
    let yaml = "title: Round Trip\ntags:\n- a\n";
    let body = "# Heading\ntext\n";
    let text = serialize_memory_file(yaml, body);
    let page = parse_memory_file(&text, "m/round-trip.md").unwrap();
    assert_eq!(page.frontmatter_yaml.as_deref(), Some(format!("\n{}", yaml).as_str()));
    assert_eq!(page.body, body);
}

#[test]
fn clean_inline_code_removes_spans() {
    assert_eq!(clean_inline_code("a `b` c"), "a  c");
    assert_eq!(clean_inline_code("x `` y ` z `` w"), "x  w");
    assert_eq!(clean_inline_code("open ` never closed"), "open ` never closed");
    assert_eq!(clean_inline_code("``a` b"), "``a` b");
    assert_eq!(clean_inline_code("no code"), "no code");
}

#[test]
fn wiki_link_target_is_trimmed_and_anchor_dropped() {
    let links = extract_wiki_links("see [[ Spaced Name #part|shown]] and [[plain]]");
    assert_eq!(
        links,
        vec![
            ("Spaced Name".to_string(), "[[ Spaced Name #part|shown]]".to_string()),
            ("plain".to_string(), "[[plain]]".to_string()),
        ]
    );
}

#[test]
fn wiki_links_reject_malformed() {
    assert!(extract_wiki_links("[[]] [[#only]] [[a|]] [[b#]] [[c").is_empty());
    let links = extract_wiki_links("[[[x]]]");
    assert_eq!(links, vec![("[x".to_string(), "[[[x]]".to_string())]);
}

#[test]
fn fence_toggles_on_trimmed_lines() {
    let body = "  ```\n[[hidden]]\n   ``` \n[[shown]]\n```\n[[hidden too]]";
    let links = extract_wiki_links(body);
    assert_eq!(links, vec![("shown".to_string(), "[[shown]]".to_string())]);
}

fn regex_links(body: &str) -> Vec<(String, String)> {
    let re = regex::Regex::new(r"\[\[([^\]#|]+)(?:#[^\]|]+)?(?:\|[^\]]+)?\]\]").unwrap();
    let mut links = Vec::new();
    let mut in_code = false;
    for line in body.lines() {
        if line.trim().starts_with("```") {
            in_code = !in_code;
            continue;
        }
        if in_code {
            continue;
        }
        let clean = clean_inline_code(line);
        for cap in re.captures_iter(&clean) {
            links.push((cap[1].trim().to_string(), cap[0].to_string()));
        }
    }
    links
}

#[test]
fn wiki_links_agree_with_pattern() {
    let samples = [
        "[[a]] [[b#c]] [[d|e]] [[f#g|h]]",
        "[[[x]]] [[y]]] [[[[z]]",
        "[[a#b#c]] [[a|b|c]] [[a#|b]] [[a#b|]]",
        "[[ x ]] [[\ty\t]] [[é ü]]",
        "text `[[no]]` [[yes]] ``[[no]]`` `[[open]]",
        "[[a]\n]] [[b\r\n]]",
        "[[x|y]z]] [[p#q]r]]",
        "]][[ [[]]x]] [[#]] [[|]]",
        "one\n```\n[[in code]]\n```\n[[after]]\r\n[[crlf]]\r\n",
        "[[a]][[b]][[c]]",
        "[[a#b|c]]]] [[[[d]]]]",
    ];
    for s in samples.iter() {
        assert_eq!(extract_wiki_links(s), regex_links(s), "on {:?}", s);
    }
}
