//! The data the visual vault explorer shows: each memory with the status of
//! its references and its backlinks.

use vstd::prelude::*;
use crate::engine::{FileProbe, RefState, expected_status, page_references, reference_status};
use crate::models::{Backlink, MemoryPage, backlinks_view, strings_view};
use crate::vault::{
    BacklinkIndex, BacklinkV, all_backlinks, get_backlinks, get_workspace_root,
    normalize_memory_name, normalized_name, workspace_root,
};
use crate::text::{chars_of, string_of};

verus! {

/// A code reference as the explorer shows it.
#[derive(Debug, Clone)]
pub struct UiReference {
    pub file_path: String,
    /// `OK`, `Outdated` or `Missing`.
    pub status: String,
}

/// A backlink as the explorer shows it.
#[derive(Debug, Clone)]
pub struct UiBacklink {
    pub source: String,
    pub context_line: String,
}

/// A memory as the explorer shows it.
#[derive(Debug, Clone)]
pub struct UiMemory {
    pub name: String,
    pub file_path: String,
    pub title: Option<String>,
    pub tags: Option<Vec<String>>,
    pub last_updated: Option<String>,
    pub references: Vec<UiReference>,
    pub body: String,
    pub backlinks: Vec<UiBacklink>,
}

/// The explorer's label for a reference status.
pub open spec fn status_label(s: RefState) -> Seq<char> {
    match s {
        RefState::UpToDate => "OK"@,
        RefState::Outdated(_, _) => "Outdated"@,
        RefState::Missing => "Missing"@,
    }
}

/// The backlinks of a page for the explorer: those recorded under its
/// normalised name, none when there are none.
pub open spec fn page_backlinks_shown(pages: Seq<MemoryPage>, page: MemoryPage) -> Seq<BacklinkV> {
    let pairs = all_backlinks(pages);
    crate::vault::links_to(pairs, normalized_name(page.name@))
}

/// Whether `m` is how the explorer shows `page` of `pages`.
pub open spec fn shows_page(m: UiMemory, page: MemoryPage, pages: Seq<MemoryPage>, probe: FileProbe, root: Seq<char>) -> bool {
    let refs = page_references(page);
    let links = page_backlinks_shown(pages, page);
    &&& m.name@ == page.name@
    &&& m.file_path@ == page.file_path@
    &&& m.title == page.frontmatter.title
    &&& (match (m.tags, page.frontmatter.tags) {
        (Some(a), Some(b)) => strings_view(a@) == strings_view(b@),
        (None, None) => true,
        _ => false,
    })
    &&& m.last_updated == page.frontmatter.last_updated
    &&& m.body@ == page.body@
    &&& m.references@.len() == refs.len()
    &&& forall|j: int|
        0 <= j < refs.len() ==> (#[trigger] m.references@[j]).file_path@ == refs[j].path@
            && m.references@[j].status@ == status_label(expected_status(probe, root, refs[j]))
    &&& m.backlinks@.len() == links.len()
    &&& forall|j: int|
        0 <= j < links.len() ==> (#[trigger] m.backlinks@[j]).source@ == links[j].0
            && m.backlinks@[j].context_line@ == links[j].2
}

fn copy_strings(v: &Vec<String>) -> (r: Vec<String>)
    ensures
        strings_view(r@) == strings_view(v@),
{
    let mut r: Vec<String> = Vec::new();
    let mut i: usize = 0;
    while i < v.len()
        invariant
            i <= v@.len(),
            strings_view(r@) == strings_view(v@).take(i as int),
        decreases v.len() - i,
    {
        let ghost before = strings_view(r@);
        let c = v[i].clone();
        assert(c@ == v@[i as int]@);
        r.push(c);
        assert(strings_view(r@) =~= before.push(c@));
        assert(strings_view(v@).take(i + 1) =~= strings_view(v@).take(i as int).push(c@));
        i += 1;
    }
    assert(strings_view(v@).take(v@.len() as int) == strings_view(v@));
    r
}

fn copy_option(o: &Option<String>) -> (r: Option<String>)
    ensures
        r == *o,
{
    match o {
        Some(s) => Some(s.clone()),
        None => None,
    }
}

/// The memories as the explorer shows them (see [`shows_page`]).
pub fn ui_memories(vault_path: &str, memories: &[MemoryPage], probe: &FileProbe) -> (r: Vec<UiMemory>)
    ensures
        r@.len() == memories@.len(),
        forall|i: int|
            0 <= i < r@.len() ==> shows_page(
                #[trigger] r@[i],
                memories@[i],
                memories@,
                *probe,
                workspace_root(vault_path@),
            ),
{
    let root = get_workspace_root(vault_path);
    let index = get_backlinks(memories);
    let ghost pairs = all_backlinks(memories@);
    let mut out: Vec<UiMemory> = Vec::new();
    let mut p: usize = 0;
    while p < memories.len()
        invariant
            p <= memories@.len(),
            index.models(pairs),
            pairs == all_backlinks(memories@),
            root@ == workspace_root(vault_path@),
            out@.len() == p,
            forall|i: int|
                0 <= i < p ==> shows_page(#[trigger] out@[i], memories@[i], memories@, *probe, root@),
        decreases memories.len() - p,
    {
        let page = &memories[p];
        let ghost refs = page_references(*page);
        let mut references: Vec<UiReference> = Vec::new();
        match &page.frontmatter.references {
            Some(v) => {
                let mut j: usize = 0;
                while j < v.len()
                    invariant
                        j <= v@.len(),
                        refs == v@,
                        references@.len() == j,
                        forall|k: int|
                            0 <= k < j ==> (#[trigger] references@[k]).file_path@ == refs[k].path@
                                && references@[k].status@ == status_label(
                                expected_status(*probe, root@, refs[k]),
                            ),
                    decreases v.len() - j,
                {
                    let s = reference_status(probe, root.as_str(), &v[j]);
                    let label = match s {
                        crate::engine::ReferenceStatus::UpToDate => "OK",
                        crate::engine::ReferenceStatus::Outdated { .. } => "Outdated",
                        crate::engine::ReferenceStatus::Missing => "Missing",
                    };
                    references.push(
                        UiReference {
                            file_path: v[j].path.clone(),
                            status: string_of(chars_of(label).as_slice()),
                        },
                    );
                    j += 1;
                }
            },
            None => {},
        }
        let key = normalize_memory_name(page.name.as_str());
        let ghost links = crate::vault::links_to(pairs, key@);
        let mut backlinks: Vec<UiBacklink> = Vec::new();
        match index.position(key.as_str()) {
            Some(e) => {
                let bl = &index.entries[e].backlinks;
                assert(backlinks_view(bl@) == links);
                let mut j: usize = 0;
                while j < bl.len()
                    invariant
                        j <= bl@.len(),
                        backlinks_view(bl@) == links,
                        backlinks@.len() == j,
                        forall|k: int|
                            0 <= k < j ==> (#[trigger] backlinks@[k]).source@ == links[k].0
                                && backlinks@[k].context_line@ == links[k].2,
                    decreases bl.len() - j,
                {
                    assert(links[j as int] == crate::models::backlink_view(bl@[j as int]));
                    backlinks.push(
                        UiBacklink {
                            source: bl[j].source_name.clone(),
                            context_line: bl[j].context.clone(),
                        },
                    );
                    j += 1;
                }
            },
            None => {
                proof {
                    crate::vault::lemma_index_keys(index, pairs, key@);
                    assert forall|j: int| 0 <= j < pairs.len() implies pairs[j].0 != key@ by {
                        if pairs[j].0 == key@ {
                            assert(crate::vault::has_key(pairs, key@));
                        }
                    }
                    crate::vault::lemma_links_to_absent(pairs, key@);
                }
            },
        }
        let tags = match &page.frontmatter.tags {
            Some(v) => Some(copy_strings(v)),
            None => None,
        };
        let m = UiMemory {
            name: page.name.clone(),
            file_path: page.file_path.clone(),
            title: copy_option(&page.frontmatter.title),
            tags,
            last_updated: copy_option(&page.frontmatter.last_updated),
            references,
            body: page.body.clone(),
            backlinks,
        };
        out.push(m);
        p += 1;
    }
    out
}

} // verus!
