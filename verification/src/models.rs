//! The data the vault holds: memory pages, their frontmatter, code references,
//! backlinks and configuration.

use vstd::prelude::*;

verus! {

/// A code file that a memory page documents, with the hash it had when the
/// page was last synchronised with it.
#[derive(Debug, Clone)]
pub struct CodeReference {
    pub path: String,
    pub hash: String,
}

/// The YAML frontmatter of a memory page.
#[derive(Debug, Clone)]
pub struct Frontmatter {
    pub title: Option<String>,
    pub references: Option<Vec<CodeReference>>,
    pub tags: Option<Vec<String>>,
    pub last_updated: Option<String>,
}

/// A memory note: where it lives, its name (the file stem), its frontmatter
/// and its markdown body.
#[derive(Debug, Clone)]
pub struct MemoryPage {
    pub file_path: String,
    pub name: String,
    pub frontmatter: Frontmatter,
    pub body: String,
}

/// A wiki-link pointing at a page: which page it comes from, where that page
/// lives, and the line it stands on (`Line <n>: <trimmed line>`).
#[derive(Debug, Clone)]
pub struct Backlink {
    pub source_name: String,
    pub source_path: String,
    pub context: String,
}

/// Vault configuration: the name of the vault directory and the paths that
/// indexing skips.
#[derive(Debug, Clone)]
pub struct Config {
    pub default_vault_dir: String,
    pub ignore_patterns: Vec<String>,
}

/// The name of the vault directory that a default configuration uses.
pub open spec fn default_vault_dir_name() -> Seq<char> {
    seq!['.', 'b', 'r', 'a', 'i', 'n', 'w', 'a', 'r', 'e', 's']
}

impl Default for Config {
    fn default() -> (c: Self)
        ensures
            c.default_vault_dir@ == default_vault_dir_name(),
            c.ignore_patterns@.len() == 0,
    {
        let name: Vec<char> = vec!['.', 'b', 'r', 'a', 'i', 'n', 'w', 'a', 'r', 'e', 's'];
        Config { default_vault_dir: crate::text::string_of(name.as_slice()), ignore_patterns: Vec::new() }
    }
}

impl Default for Frontmatter {
    fn default() -> (f: Self)
        ensures
            f.title is None,
            f.references is None,
            f.tags is None,
            f.last_updated is None,
    {
        Frontmatter { title: None, references: None, tags: None, last_updated: None }
    }
}

/// A code reference as plain values: its path and its stored hash.
pub open spec fn reference_view(r: CodeReference) -> (Seq<char>, Seq<char>) {
    (r.path@, r.hash@)
}

/// A list of code references as plain values.
pub open spec fn references_view(v: Seq<CodeReference>) -> Seq<(Seq<char>, Seq<char>)> {
    v.map_values(|r: CodeReference| reference_view(r))
}

/// A backlink as plain values: source name, source path and context line.
pub open spec fn backlink_view(b: Backlink) -> (Seq<char>, Seq<char>, Seq<char>) {
    (b.source_name@, b.source_path@, b.context@)
}

/// A list of backlinks as plain values.
pub open spec fn backlinks_view(v: Seq<Backlink>) -> Seq<(Seq<char>, Seq<char>, Seq<char>)> {
    v.map_values(|b: Backlink| backlink_view(b))
}

/// A list of strings as character sequences.
pub open spec fn strings_view(v: Seq<String>) -> Seq<Seq<char>> {
    v.map_values(|s: String| s@)
}

} // verus!
