//! The library's functions against direct std implementations of the same
//! rules, over many small inputs.

use brainwares::index::humanize_title;
use brainwares::parser::{clean_inline_code, parse_memory_file, serialize_memory_file};
use brainwares::vault::normalize_memory_name;

fn samples() -> Vec<String> {
    let atoms = [
        "", " ", "a", "B", "_", "-", ".md", "[", "]", "(", ")", "{", "}", "*", "?", ":", "\"", "'", "/", "`", "``",
        "É", "ß", "\t", "x.MD", "---", "\n", "\r\n", "[[", "]]", "#", "|",
    ];
    let mut out = Vec::new();
    for a in atoms.iter() {
        for b in atoms.iter() {
            out.push(format!("{}{}", a, b));
            out.push(format!("{}q{}r{}", b, a, b));
        }
    }
    out
}

fn normalize_direct(name: &str) -> String {
    let mut n = name.to_lowercase().replace(' ', "-").replace('_', "-").replace(".md", "");
    n.retain(|c| !"[](){}*?:\"'".contains(c));
    n
}

fn humanize_direct(name: &str) -> String {
    let clean = name.replace("[[", "[").replace("]]", "]");
    clean
        .split(&['_', '-', '/'])
        .map(|w| {
            let mut cs = w.chars();
            match cs.next() {
                None => String::new(),
                Some(f) => f.to_uppercase().collect::<String>() + cs.as_str(),
            }
        })
        .collect::<Vec<_>>()
        .join(" ")
}

fn clean_direct(line: &str) -> String {
    let chars: Vec<char> = line.chars().collect();
    let mut clean = String::new();
    let mut i = 0;
    while i < chars.len() {
        if chars[i] == '`' {
            let mut count = 0;
            while i < chars.len() && chars[i] == '`' {
                count += 1;
                i += 1;
            }
            let mut found = false;
            let mut j = i;
            while j < chars.len() {
                if chars[j] == '`' {
                    let mut close = 0;
                    while j + close < chars.len() && chars[j + close] == '`' {
                        close += 1;
                    }
                    if close == count {
                        found = true;
                        i = j + close;
                        break;
                    } else {
                        j += close;
                    }
                } else {
                    j += 1;
                }
            }
            if !found {
                for _ in 0..count {
                    clean.push('`');
                }
            }
        } else {
            clean.push(chars[i]);
            i += 1;
        }
    }
    clean
}

fn framing_direct(content: &str) -> (Option<String>, String) {
    let trimmed = content.trim_start();
    if trimmed.starts_with("---") {
        if let Some(end) = trimmed[3..].find("---") {
            let end = end + 3;
            return (Some(trimmed[3..end].to_string()), trimmed[end + 3..].trim_start().to_string());
        }
    }
    (None, content.to_string())
}

fn serialize_direct(yaml: &str, body: &str) -> String {
    let block = if yaml.trim().is_empty() || yaml.trim() == "{}" {
        String::new()
    } else {
        format!("---\n{}---\n\n", yaml.trim_start())
    };
    format!("{}{}", block, body)
}

#[test]
fn normalize_matches_direct_rules() {
    for s in samples() {
        assert_eq!(normalize_memory_name(&s), normalize_direct(&s), "on {:?}", s);
    }
}

#[test]
fn humanize_matches_direct_rules() {
    for s in samples() {
        assert_eq!(humanize_title(&s), humanize_direct(&s), "on {:?}", s);
    }
}

#[test]
fn inline_code_matches_direct_rules() {
    for s in samples() {
        let t = format!("{}`{}``{}", s, s, s);
        assert_eq!(clean_inline_code(&s), clean_direct(&s), "on {:?}", s);
        assert_eq!(clean_inline_code(&t), clean_direct(&t), "on {:?}", t);
    }
}

#[test]
fn framing_matches_direct_rules() {
    for s in samples() {
        for content in [s.clone(), format!("---{}---{}", s, s), format!("  ---\n{}\n---\n{}", s, s), format!("{}---", s)] {
            let page = parse_memory_file(&content, "m/x.md").unwrap();
            let (yaml, body) = framing_direct(&content);
            assert_eq!(page.frontmatter_yaml, yaml, "yaml of {:?}", content);
            assert_eq!(page.body, body, "body of {:?}", content);
        }
    }
}

#[test]
fn serialize_matches_direct_rules() {
    for s in samples() {
        assert_eq!(serialize_memory_file(&s, "B"), serialize_direct(&s, "B"), "on {:?}", s);
        let y = format!("k: {}\n", s);
        assert_eq!(serialize_memory_file(&y, &s), serialize_direct(&y, &s), "on {:?}", y);
    }
}

use brainwares::engine::{check_vault_status, FileFact, FileProbe, ReferenceStatus};
use brainwares::models::{CodeReference, Frontmatter, MemoryPage};
use brainwares::parser::extract_wiki_links;
use brainwares::vault::get_backlinks;
use std::collections::{HashMap, HashSet};

fn vault() -> Vec<MemoryPage> {
    let bodies = [
        ("index", "Start: [[Alpha]] [[beta_page]]\n```\n[[hidden]]\n```\n`[[x]]` [[src/a.rs]]"),
        ("Alpha", "[[Beta Page#sec|shown]]\n\n  [[missing one]]  \n[Enter description"),
        ("beta-page", "back [[ALPHA]] and [[alpha.md]]\r\n[[docs]]"),
        ("lonely", "[[nowhere]] [[src/b.rs]]"),
        ("Self", "[[self]]"),
    ];
    bodies
        .iter()
        .enumerate()
        .map(|(i, (n, b))| MemoryPage {
            file_path: format!("/w/.v/memories/{}.md", n),
            name: n.to_string(),
            frontmatter: Frontmatter {
                title: None,
                references: if i % 2 == 1 {
                    Some(vec![
                        CodeReference { path: "src/a.rs".to_string(), hash: "ha".to_string() },
                        CodeReference { path: "src/b.rs".to_string(), hash: "old".to_string() },
                        CodeReference { path: "src/c.rs".to_string(), hash: "hc".to_string() },
                    ])
                } else {
                    None
                },
                tags: None,
                last_updated: None,
            },
            body: b.to_string(),
        })
        .collect()
}

fn probe() -> FileProbe {
    FileProbe {
        facts: vec![
            FileFact { path: "/w/src/a.rs".into(), exists: true, hash: Ok("ha".into()) },
            FileFact { path: "/w/src/b.rs".into(), exists: true, hash: Ok("hb".into()) },
            FileFact { path: "/w/src/c.rs".into(), exists: true, hash: Err("denied".into()) },
            FileFact { path: "/w/docs".into(), exists: true, hash: Err("directory".into()) },
        ],
    }
}

fn observed(p: &FileProbe, path: &str) -> bool {
    p.facts.iter().find(|f| f.path == path).map(|f| f.exists).unwrap_or(false)
}

#[test]
fn backlinks_match_direct_grouping() {
    let pages = vault();
    let index = get_backlinks(&pages);
    let mut direct: HashMap<String, Vec<(String, String, String)>> = HashMap::new();
    for page in &pages {
        let mut in_code = false;
        for (n, line) in page.body.lines().enumerate() {
            if line.trim().starts_with("```") {
                in_code = !in_code;
                continue;
            }
            if in_code {
                continue;
            }
            for (target, _) in extract_wiki_links(line) {
                direct.entry(normalize_direct(&target)).or_default().push((
                    page.name.clone(),
                    page.file_path.clone(),
                    format!("Line {}: {}", n + 1, line.trim()),
                ));
            }
        }
    }
    assert_eq!(index.entries.len(), direct.len());
    for (key, links) in &direct {
        let got: Vec<(String, String, String)> = index
            .get(key)
            .unwrap()
            .iter()
            .map(|b| (b.source_name.clone(), b.source_path.clone(), b.context.clone()))
            .collect();
        assert_eq!(&got, links, "key {:?}", key);
    }
}

#[test]
fn status_matches_direct_checks() {
    let pages = vault();
    let p = probe();
    let status = check_vault_status("/w/.v", &pages, &p);
    let names: HashSet<String> = pages.iter().map(|m| normalize_direct(&m.name)).collect();
    let (mut stale, mut broken_total, mut orphans, mut incomplete) = (0, 0, 0, 0);
    for (page, m) in pages.iter().zip(status.memories.iter()) {
        let mut any_stale = false;
        for (r, c) in page.frontmatter.references.iter().flatten().zip(m.references.iter()) {
            let full = format!("/w/{}", r.path);
            let fact = p.facts.iter().find(|f| f.path == full);
            let expected = match fact {
                Some(f) if f.exists => match &f.hash {
                    Ok(h) if *h == r.hash => "ok",
                    Ok(_) => "outdated",
                    Err(_) => "missing",
                },
                _ => "missing",
            };
            let got = match &c.status {
                ReferenceStatus::UpToDate => "ok",
                ReferenceStatus::Outdated { .. } => "outdated",
                ReferenceStatus::Missing => "missing",
            };
            assert_eq!(got, expected);
            any_stale |= expected != "ok";
        }
        let broken: Vec<String> = extract_wiki_links(&page.body)
            .into_iter()
            .map(|(t, _)| t)
            .filter(|t| !names.contains(&normalize_direct(t)) && !observed(&p, &format!("/w/{}", t)))
            .collect();
        assert_eq!(m.broken_links, broken, "page {}", page.name);
        let n = normalize_direct(&page.name);
        let linked = pages.iter().any(|other| {
            !std::ptr::eq(other, page)
                && extract_wiki_links(&other.body).iter().any(|(t, _)| normalize_direct(t) == n)
        });
        let orphan = n != "index" && !linked;
        assert_eq!(m.is_orphan, orphan, "page {}", page.name);
        let placeholders = page.body.contains("[Enter description") || page.body.contains("[Enter ");
        assert_eq!(m.has_placeholders, placeholders);
        stale += any_stale as usize;
        broken_total += broken.len();
        orphans += orphan as usize;
        incomplete += placeholders as usize;
    }
    assert_eq!(status.outdated_memories_count, stale);
    assert_eq!(status.broken_links_count, broken_total);
    assert_eq!(status.orphan_count, orphans);
    assert_eq!(status.incomplete_memories_count, incomplete);
    assert_eq!(status.orphan_count, 2);
    assert!(status.memories[4].is_orphan);
}
