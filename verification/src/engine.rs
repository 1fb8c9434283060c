//! The vault status check: which code references are out of date or missing,
//! which wiki-links lead nowhere, which pages no other page links to, and which still
//! hold template placeholders.

use vstd::prelude::*;
use crate::models::{CodeReference, MemoryPage, strings_view};
use crate::parser::{extract_wiki_links, pair_views, wiki_links};
use crate::path::{join, join_path};
use crate::text::{chars_of, contains, contains_str, same_text};
use crate::vault::{
    get_workspace_root, holds_name_in, normalize_memory_name, normalized_name, workspace_root,
};

verus! {

/// How a code reference compares with the file it names.
#[derive(Debug, Clone)]
pub enum ReferenceStatus {
    /// The file's current hash is the stored one.
    UpToDate,
    /// The file's hash has changed since the page was synchronised.
    Outdated { stored: String, current: String },
    /// The file does not exist or could not be hashed.
    Missing,
}

/// A reference status as plain values.
pub enum RefState {
    UpToDate,
    Outdated(Seq<char>, Seq<char>),
    Missing,
}

/// The plain-value form of a reference status.
pub open spec fn ref_state(s: ReferenceStatus) -> RefState {
    match s {
        ReferenceStatus::UpToDate => RefState::UpToDate,
        ReferenceStatus::Outdated { stored, current } => RefState::Outdated(stored@, current@),
        ReferenceStatus::Missing => RefState::Missing,
    }
}

/// The check of one code reference.
#[derive(Debug, Clone)]
pub struct FileCheckResult {
    pub path: String,
    pub status: ReferenceStatus,
}

/// The check of one memory page.
#[derive(Debug, Clone)]
pub struct MemoryCheckResult {
    pub memory_name: String,
    pub file_path: String,
    pub references: Vec<FileCheckResult>,
    /// Link targets that name neither a page nor an existing file.
    pub broken_links: Vec<String>,
    pub is_orphan: bool,
    pub has_placeholders: bool,
}

/// The check of a whole vault, with its totals.
pub struct VaultStatus {
    pub memories: Vec<MemoryCheckResult>,
    pub total_memories: usize,
    pub outdated_memories_count: usize,
    pub broken_links_count: usize,
    pub orphan_count: usize,
    pub incomplete_memories_count: usize,
}

/// What was observed of one file of the workspace: whether it exists, and
/// its current hash or the error that hashing it gave.
#[derive(Debug)]
pub struct FileFact {
    pub path: String,
    pub exists: bool,
    /// The file's current hash, or why it could not be computed.
    pub hash: Result<String, String>,
}

/// Observations of the workspace files that a status check consults. A path
/// with no observation counts as absent.
#[derive(Debug)]
pub struct FileProbe {
    pub facts: Vec<FileFact>,
}

/// The first observation of `path` among `facts`.
pub open spec fn first_fact(facts: Seq<FileFact>, path: Seq<char>) -> Option<FileFact>
    decreases facts.len(),
{
    if facts.len() == 0 {
        None
    } else if facts[0].path@ == path {
        Some(facts[0])
    } else {
        first_fact(facts.drop_first(), path)
    }
}

impl FileProbe {
    /// Whether `path` was observed to exist.
    pub open spec fn exists_spec(&self, path: Seq<char>) -> bool {
        first_fact(self.facts@, path) matches Some(f) && f.exists
    }

    /// The hash observed for `path`, if it exists and could be hashed.
    pub open spec fn hash_spec(&self, path: Seq<char>) -> Option<Seq<char>> {
        match first_fact(self.facts@, path) {
            Some(f) => match f.hash {
                Ok(h) => Some(h@),
                Err(_) => None,
            },
            None => None,
        }
    }

    /// The hash observed for `path`, or the hashing error (empty when `path`
    /// was not observed).
    pub open spec fn hash_result(&self, path: Seq<char>) -> Result<Seq<char>, Seq<char>> {
        match first_fact(self.facts@, path) {
            Some(f) => match f.hash {
                Ok(h) => Ok(h@),
                Err(e) => Err(e@),
            },
            None => Err(seq![]),
        }
    }

    /// The first observation of `path`, if any.
    pub fn fact(&self, path: &str) -> (r: Option<&FileFact>)
        ensures
            r matches Some(f) ==> first_fact(self.facts@, path@) == Some(*f),
            r is None ==> first_fact(self.facts@, path@) is None,
    {
        let mut i: usize = 0;
        assert(self.facts@.skip(0) == self.facts@);
        while i < self.facts.len()
            invariant
                i <= self.facts@.len(),
                first_fact(self.facts@.skip(i as int), path@) == first_fact(self.facts@, path@),
            decreases self.facts.len() - i,
        {
            assert(self.facts@.skip(i as int)[0] == self.facts@[i as int]);
            assert(self.facts@.skip(i as int).drop_first() == self.facts@.skip(i + 1));
            if same_text(self.facts[i].path.as_str(), path) {
                return Some(&self.facts[i]);
            }
            i += 1;
        }
        None
    }

    /// Whether `path` was observed to exist (see [`FileProbe::exists_spec`]).
    pub fn file_exists(&self, path: &str) -> (b: bool)
        ensures
            b == self.exists_spec(path@),
    {
        match self.fact(path) {
            Some(f) => f.exists,
            None => false,
        }
    }
}

/// The status a code reference has against the observed workspace: missing
/// when its file does not exist or could not be hashed, up to date when the
/// current hash equals the stored one, out of date otherwise.
pub open spec fn expected_status(probe: FileProbe, root: Seq<char>, r: CodeReference) -> RefState {
    let p = join(root, r.path@);
    if !probe.exists_spec(p) {
        RefState::Missing
    } else {
        match probe.hash_spec(p) {
            Some(h) => if h == r.hash@ {
                RefState::UpToDate
            } else {
                RefState::Outdated(r.hash@, h)
            },
            None => RefState::Missing,
        }
    }
}

/// Computes [`expected_status`] for one reference.
pub fn reference_status(probe: &FileProbe, root: &str, r: &CodeReference) -> (s: ReferenceStatus)
    ensures
        ref_state(s) == expected_status(*probe, root@, *r),
{
    let p = join_path(root, r.path.as_str());
    match probe.fact(p.as_str()) {
        Some(f) => {
            if !f.exists {
                ReferenceStatus::Missing
            } else {
                match &f.hash {
                    Ok(h) => {
                        if same_text(h.as_str(), r.hash.as_str()) {
                            ReferenceStatus::UpToDate
                        } else {
                            ReferenceStatus::Outdated { stored: r.hash.clone(), current: h.clone() }
                        }
                    },
                    Err(_) => ReferenceStatus::Missing,
                }
            }
        },
        None => ReferenceStatus::Missing,
    }
}

/// The code references of a page (none when the frontmatter lists none).
pub open spec fn page_references(p: MemoryPage) -> Seq<CodeReference> {
    match p.frontmatter.references {
        Some(v) => v@,
        None => seq![],
    }
}

/// The targets among `links` that name no page of `names` (compared
/// normalised) and no existing file of the workspace, in order.
pub open spec fn broken_targets(
    links: Seq<(Seq<char>, Seq<char>)>,
    names: Seq<Seq<char>>,
    probe: FileProbe,
    root: Seq<char>,
) -> Seq<Seq<char>>
    decreases links.len(),
{
    if links.len() == 0 {
        seq![]
    } else {
        let t = links.last().0;
        let rest = broken_targets(links.drop_last(), names, probe, root);
        if !names.contains(normalized_name(t)) && !probe.exists_spec(join(root, t)) {
            rest.push(t)
        } else {
            rest
        }
    }
}

/// The normalised names of a list of pages.
pub open spec fn page_names(pages: Seq<MemoryPage>) -> Seq<Seq<char>> {
    pages.map_values(|p: MemoryPage| normalized_name(p.name@))
}

/// The text `index`.
pub open spec fn index_name() -> Seq<char> {
    seq!['i', 'n', 'd', 'e', 'x']
}

/// The text `[Enter `, which marks an unfinished template.
pub open spec fn placeholder_mark() -> Seq<char> {
    seq!['[', 'E', 'n', 't', 'e', 'r', ' ']
}

/// The text `[Enter description`.
pub open spec fn description_mark() -> Seq<char> {
    seq!['[', 'E', 'n', 't', 'e', 'r', ' ', 'd', 'e', 's', 'c', 'r', 'i', 'p', 't', 'i', 'o', 'n']
}

/// The normalised targets of a page's wiki-links, in order (links inside
/// fenced code blocks and inline code are no links).
pub open spec fn link_keys(page: MemoryPage) -> Seq<Seq<char>> {
    wiki_links(page.body@).map_values(|l: (Seq<char>, Seq<char>)| normalized_name(l.0))
}

/// Whether some page of `pages` other than the one at position `i` links to
/// the normalised name `key`.
pub open spec fn linked_from_other(pages: Seq<MemoryPage>, i: int, key: Seq<char>) -> bool {
    exists|k: int| 0 <= k < pages.len() && k != i && #[trigger] link_keys(pages[k]).contains(key)
}

/// Whether `res` is the check of `page` against the observed workspace rooted
/// at `root` and the normalised page names `names`, where `linked` tells
/// whether another page links to it.
pub open spec fn checks_page(
    res: MemoryCheckResult,
    page: MemoryPage,
    probe: FileProbe,
    root: Seq<char>,
    names: Seq<Seq<char>>,
    linked: bool,
) -> bool {
    &&& res.memory_name@ == page.name@
    &&& res.file_path@ == page.file_path@
    &&& res.references@.len() == page_references(page).len()
    &&& forall|j: int|
        0 <= j < res.references@.len() ==> (#[trigger] res.references@[j]).path@
            == page_references(page)[j].path@ && ref_state(res.references@[j].status)
            == expected_status(probe, root, page_references(page)[j])
    &&& strings_view(res.broken_links@) == broken_targets(wiki_links(page.body@), names, probe, root)
    &&& res.is_orphan == (normalized_name(page.name@) != index_name() && !linked)
    &&& res.has_placeholders == (contains(page.body@, description_mark()) || contains(
        page.body@,
        placeholder_mark(),
    ))
}

/// Whether a page check found a reference that is not up to date.
pub open spec fn has_stale_reference(res: MemoryCheckResult) -> bool {
    exists|j: int|
        0 <= j < res.references@.len() && !(ref_state(res.references@[j].status) is UpToDate)
}

/// The number of page checks with a stale reference.
pub open spec fn count_stale(rs: Seq<MemoryCheckResult>) -> nat
    decreases rs.len(),
{
    if rs.len() == 0 {
        0
    } else {
        count_stale(rs.drop_last()) + if has_stale_reference(rs.last()) { 1nat } else { 0nat }
    }
}

/// The number of page checks that found an orphan.
pub open spec fn count_orphans(rs: Seq<MemoryCheckResult>) -> nat
    decreases rs.len(),
{
    if rs.len() == 0 {
        0
    } else {
        count_orphans(rs.drop_last()) + if rs.last().is_orphan { 1nat } else { 0nat }
    }
}

/// The number of page checks that found placeholders.
pub open spec fn count_incomplete(rs: Seq<MemoryCheckResult>) -> nat
    decreases rs.len(),
{
    if rs.len() == 0 {
        0
    } else {
        count_incomplete(rs.drop_last()) + if rs.last().has_placeholders { 1nat } else { 0nat }
    }
}

/// The number of broken links over all page checks.
pub open spec fn count_broken(rs: Seq<MemoryCheckResult>) -> nat
    decreases rs.len(),
{
    if rs.len() == 0 {
        0
    } else {
        count_broken(rs.drop_last()) + rs.last().broken_links@.len()
    }
}

/// The number of wiki-links over all page bodies.
pub open spec fn total_links(pages: Seq<MemoryPage>) -> nat
    decreases pages.len(),
{
    if pages.len() == 0 {
        0
    } else {
        total_links(pages.drop_last()) + wiki_links(pages.last().body@).len()
    }
}

pub proof fn lemma_broken_le(
    links: Seq<(Seq<char>, Seq<char>)>,
    names: Seq<Seq<char>>,
    probe: FileProbe,
    root: Seq<char>,
)
    ensures
        broken_targets(links, names, probe, root).len() <= links.len(),
    decreases links.len(),
{
    if links.len() > 0 {
        lemma_broken_le(links.drop_last(), names, probe, root);
    }
}

} // verus!

verus! {

/// Checks one page (see [`checks_page`]).
fn check_page(
    page: &MemoryPage,
    probe: &FileProbe,
    root: &String,
    names: &Vec<String>,
    linked: bool,
) -> (res: MemoryCheckResult)
    ensures
        checks_page(res, *page, *probe, root@, strings_view(names@), linked),
        res.broken_links@.len() <= wiki_links(page.body@).len(),
{
    // 1. Code references
    let mut references: Vec<FileCheckResult> = Vec::new();
    match &page.frontmatter.references {
        Some(refs) => {
            let mut j: usize = 0;
            while j < refs.len()
                invariant
                    j <= refs@.len(),
                    page.frontmatter.references == Some(*refs),
                    references@.len() == j,
                    forall|m: int|
                        0 <= m < j ==> (#[trigger] references@[m]).path@ == refs@[m].path@
                            && ref_state(references@[m].status) == expected_status(
                            *probe,
                            root@,
                            refs@[m],
                        ),
                decreases refs.len() - j,
            {
                let status = reference_status(probe, root.as_str(), &refs[j]);
                references.push(FileCheckResult { path: refs[j].path.clone(), status });
                j += 1;
            }
        },
        None => {},
    }
    // 2. Wiki-links
    let links = extract_wiki_links(page.body.as_str());
    let ghost lv = pair_views(links@);
    let mut broken: Vec<String> = Vec::new();
    let mut k: usize = 0;
    while k < links.len()
        invariant
            k <= links@.len(),
            lv == pair_views(links@),
            strings_view(broken@) == broken_targets(lv.take(k as int), strings_view(names@), *probe, root@),
        decreases links.len() - k,
    {
        let target = &links[k].0;
        assert(lv.take(k + 1).drop_last() == lv.take(k as int));
        assert(lv.take(k + 1).last().0 == target@);
        let norm = normalize_memory_name(target.as_str());
        if !holds_name_in(names, &norm) {
            let direct = join_path(root.as_str(), target.as_str());
            if !probe.file_exists(direct.as_str()) {
                let ghost before = strings_view(broken@);
                broken.push(target.clone());
                assert(strings_view(broken@) =~= before.push(target@));
            }
        }
        k += 1;
    }
    assert(lv.take(links@.len() as int) == lv);
    proof {
        lemma_broken_le(lv, strings_view(names@), *probe, root@);
    }
    // 3. Orphans
    let normalized = normalize_memory_name(page.name.as_str());
    let is_index = same_text(normalized.as_str(), "index");
    proof {
        reveal_strlit("index");
        assert("index"@ =~= index_name());
    }
    let is_orphan = !is_index && !linked;
    // 4. Placeholders
    let body = chars_of(page.body.as_str());
    proof {
        reveal_strlit("[Enter description");
        reveal_strlit("[Enter ");
        assert("[Enter description"@ =~= description_mark());
        assert("[Enter "@ =~= placeholder_mark());
    }
    let has_placeholders = contains_str(body.as_slice(), "[Enter description") || contains_str(
        body.as_slice(),
        "[Enter ",
    );
    MemoryCheckResult {
        memory_name: page.name.clone(),
        file_path: page.file_path.clone(),
        references,
        broken_links: broken,
        is_orphan,
        has_placeholders,
    }
}

} // verus!

verus! {

proof fn lemma_total_links_prefix(pages: Seq<MemoryPage>, p: int)
    requires
        0 <= p <= pages.len(),
    ensures
        total_links(pages.take(p)) <= total_links(pages),
    decreases pages.len() - p,
{
    if p < pages.len() {
        lemma_total_links_prefix(pages, p + 1);
        assert(pages.take(p + 1).drop_last() == pages.take(p));
    } else {
        assert(pages.take(p) == pages);
    }
}

/// The number of wiki-links over all page bodies, if it fits in a `usize`.
pub fn total_links_checked(memories: &[MemoryPage]) -> (r: Option<usize>)
    ensures
        r matches Some(n) ==> n == total_links(memories@),
        r is None ==> total_links(memories@) > usize::MAX,
{
    let mut total: usize = 0;
    let mut p: usize = 0;
    while p < memories.len()
        invariant
            p <= memories@.len(),
            total == total_links(memories@.take(p as int)),
        decreases memories.len() - p,
    {
        let links = extract_wiki_links(memories[p].body.as_str());
        assert(memories@.take(p + 1).drop_last() == memories@.take(p as int));
        assert(pair_views(links@).len() == links@.len());
        if links.len() > usize::MAX - total {
            proof {
                lemma_total_links_prefix(memories@, p + 1);
            }
            return None;
        }
        total = total + links.len();
        p += 1;
    }
    assert(memories@.take(memories@.len() as int) == memories@);
    Some(total)
}

/// The normalised link targets of a page (see [`link_keys`]).
fn page_link_keys(page: &MemoryPage) -> (r: Vec<String>)
    ensures
        strings_view(r@) == link_keys(*page),
{
    let links = extract_wiki_links(page.body.as_str());
    let ghost lv = pair_views(links@);
    let mut r: Vec<String> = Vec::new();
    let mut t: usize = 0;
    while t < links.len()
        invariant
            t <= links@.len(),
            lv == pair_views(links@),
            lv == wiki_links(page.body@),
            strings_view(r@) == link_keys(*page).take(t as int),
        decreases links.len() - t,
    {
        let key = normalize_memory_name(links[t].0.as_str());
        assert(lv[t as int].0 == links@[t as int].0@);
        let ghost before = strings_view(r@);
        r.push(key);
        assert(strings_view(r@) =~= before.push(link_keys(*page)[t as int]));
        assert(link_keys(*page).take(t + 1) =~= link_keys(*page).take(t as int).push(link_keys(*page)[t as int]));
        t += 1;
    }
    assert(link_keys(*page).take(links@.len() as int) =~= link_keys(*page));
    r
}

/// The normalised link targets of every page, page by page.
fn all_link_keys(memories: &[MemoryPage]) -> (r: Vec<Vec<String>>)
    ensures
        r@.len() == memories@.len(),
        forall|k: int| 0 <= k < r@.len() ==> strings_view(#[trigger] r@[k]@) == link_keys(memories@[k]),
{
    let mut r: Vec<Vec<String>> = Vec::new();
    let mut k: usize = 0;
    while k < memories.len()
        invariant
            k <= memories@.len(),
            r@.len() == k,
            forall|m: int| 0 <= m < k ==> strings_view(#[trigger] r@[m]@) == link_keys(memories@[m]),
        decreases memories.len() - k,
    {
        r.push(page_link_keys(&memories[k]));
        k += 1;
    }
    r
}

/// Whether a page other than the one at position `me` links to `key`.
fn linked_from_others(keys: &Vec<Vec<String>>, me: usize, key: &String, Ghost(pages): Ghost<Seq<MemoryPage>>) -> (b: bool)
    requires
        keys@.len() == pages.len(),
        forall|k: int| 0 <= k < keys@.len() ==> strings_view(#[trigger] keys@[k]@) == link_keys(pages[k]),
    ensures
        b == linked_from_other(pages, me as int, key@),
{
    let mut k: usize = 0;
    while k < keys.len()
        invariant
            k <= keys@.len(),
            keys@.len() == pages.len(),
            forall|m: int| 0 <= m < keys@.len() ==> strings_view(#[trigger] keys@[m]@) == link_keys(pages[m]),
            forall|m: int| 0 <= m < k && m != me ==> !(#[trigger] link_keys(pages[m])).contains(key@),
        decreases keys.len() - k,
    {
        if k != me && holds_name_in(&keys[k], key) {
            assert(strings_view(keys@[k as int]@) == link_keys(pages[k as int]));
            return true;
        }
        assert(strings_view(keys@[k as int]@) == link_keys(pages[k as int]));
        k += 1;
    }
    false
}

/// Checks every page of a vault against the observed workspace: the status
/// of each code reference, the broken wiki-links, whether the page is an
/// orphan (not `index`, and linked from no other page) and whether it still holds
/// template placeholders; with the totals over all pages.
pub fn check_vault_status(vault_path: &str, memories: &[MemoryPage], probe: &FileProbe) -> (res:
    VaultStatus)
    requires
        total_links(memories@) <= usize::MAX,
    ensures
        res.memories@.len() == memories@.len(),
        forall|i: int|
            0 <= i < memories@.len() ==> checks_page(
                #[trigger] res.memories@[i],
                memories@[i],
                *probe,
                workspace_root(vault_path@),
                page_names(memories@),
                linked_from_other(memories@, i, normalized_name(memories@[i].name@)),
            ),
        res.total_memories == memories@.len(),
        res.outdated_memories_count == count_stale(res.memories@),
        res.broken_links_count == count_broken(res.memories@),
        res.orphan_count == count_orphans(res.memories@),
        res.incomplete_memories_count == count_incomplete(res.memories@),
        res.outdated_memories_count == res.memories@.filter(|r: MemoryCheckResult| any_reference_stale(r)).len(),
        forall|i: int|
            0 <= i < memories@.len() ==> (any_reference_stale(#[trigger] res.memories@[i]) <==> exists|j: int|
                0 <= j < page_references(memories@[i]).len() && !(expected_status(
                    *probe,
                    workspace_root(vault_path@),
                    page_references(memories@[i])[j],
                ) is UpToDate)),
        res.orphan_count == res.memories@.filter(|r: MemoryCheckResult| r.is_orphan).len(),
        forall|i: int|
            0 <= i < memories@.len() ==> (#[trigger] res.memories@[i]).is_orphan == (normalized_name(
                memories@[i].name@,
            ) != index_name() && !some_other_page_links(memories@, i, normalized_name(memories@[i].name@))),
{
    let root = get_workspace_root(vault_path);
    let keys = all_link_keys(memories);
    let mut names: Vec<String> = Vec::new();
    let mut i: usize = 0;
    while i < memories.len()
        invariant
            i <= memories@.len(),
            strings_view(names@) == page_names(memories@).take(i as int),
        decreases memories.len() - i,
    {
        let n = normalize_memory_name(memories[i].name.as_str());
        assert(n@ == page_names(memories@)[i as int]);
        let ghost before = strings_view(names@);
        names.push(n);
        assert(strings_view(names@) =~= before.push(page_names(memories@)[i as int]));
        assert(strings_view(names@) =~= page_names(memories@).take(i + 1));
        i += 1;
    }
    assert(page_names(memories@).take(memories@.len() as int) == page_names(memories@));
    let mut results: Vec<MemoryCheckResult> = Vec::new();
    let mut outdated: usize = 0;
    let mut broken: usize = 0;
    let mut orphans: usize = 0;
    let mut incomplete: usize = 0;
    let mut p: usize = 0;
    while p < memories.len()
        invariant
            p <= memories@.len(),
            root@ == workspace_root(vault_path@),
            keys@.len() == memories@.len(),
            forall|k: int| 0 <= k < keys@.len() ==> strings_view(#[trigger] keys@[k]@) == link_keys(memories@[k]),
            strings_view(names@) == page_names(memories@),
            total_links(memories@) <= usize::MAX,
            results@.len() == p,
            forall|m: int|
                0 <= m < p ==> checks_page(
                    #[trigger] results@[m],
                    memories@[m],
                    *probe,
                    root@,
                    page_names(memories@),
                    linked_from_other(memories@, m, normalized_name(memories@[m].name@)),
                ),
            outdated == count_stale(results@),
            broken == count_broken(results@),
            orphans == count_orphans(results@),
            incomplete == count_incomplete(results@),
            count_broken(results@) <= total_links(memories@.take(p as int)),
            outdated <= p,
            orphans <= p,
            incomplete <= p,
        decreases memories.len() - p,
    {
        let own = normalize_memory_name(memories[p].name.as_str());
        let linked = linked_from_others(&keys, p, &own, Ghost(memories@));
        let r = check_page(&memories[p], probe, &root, &names, linked);
        let mut stale = false;
        let mut j: usize = 0;
        while j < r.references.len()
            invariant
                j <= r.references@.len(),
                stale == exists|m: int|
                    0 <= m < j && !(ref_state(r.references@[m].status) is UpToDate),
            decreases r.references.len() - j,
        {
            match &r.references[j].status {
                ReferenceStatus::UpToDate => {},
                _ => {
                    stale = true;
                },
            }
            j += 1;
        }
        proof {
            lemma_total_links_prefix(memories@, p + 1);
            assert(memories@.take(p + 1).drop_last() == memories@.take(p as int));
            assert(memories@.take(p + 1).last() == memories@[p as int]);
        }
        if stale {
            outdated = outdated + 1;
        }
        if r.is_orphan {
            orphans = orphans + 1;
        }
        if r.has_placeholders {
            incomplete = incomplete + 1;
        }
        broken = broken + r.broken_links.len();
        let ghost before = results@;
        results.push(r);
        assert(results@.drop_last() == before);
        p += 1;
    }
    proof {
        lemma_stale_count(results@);
        lemma_orphan_count(results@);
        assert forall|i: int| 0 <= i < memories@.len() implies (any_reference_stale(#[trigger] results@[i])
            <==> exists|j: int|
            0 <= j < page_references(memories@[i]).len() && !(expected_status(
                *probe,
                workspace_root(vault_path@),
                page_references(memories@[i])[j],
            ) is UpToDate)) by {
            let r = results@[i];
            assert(checks_page(r, memories@[i], *probe, root@, page_names(memories@), linked_from_other(memories@, i, normalized_name(memories@[i].name@))));
            if any_reference_stale(r) {
                let j = choose|j: int| 0 <= j < r.references@.len() && !(ref_state(#[trigger] r.references@[j].status) is UpToDate);
                assert(ref_state(r.references@[j].status) == expected_status(*probe, root@, page_references(memories@[i])[j]));
            }
            if exists|j: int|
                0 <= j < page_references(memories@[i]).len() && !(expected_status(
                    *probe,
                    workspace_root(vault_path@),
                    page_references(memories@[i])[j],
                ) is UpToDate) {
                let j = choose|j: int|
                    0 <= j < page_references(memories@[i]).len() && !(expected_status(
                        *probe,
                        workspace_root(vault_path@),
                        page_references(memories@[i])[j],
                    ) is UpToDate);
                assert(ref_state(r.references@[j].status) == expected_status(*probe, root@, page_references(memories@[i])[j]));
            }
        }
        assert forall|i: int| 0 <= i < memories@.len() implies (#[trigger] results@[i]).is_orphan == (normalized_name(
            memories@[i].name@,
        ) != index_name() && !some_other_page_links(memories@, i, normalized_name(memories@[i].name@))) by {
            assert(checks_page(results@[i], memories@[i], *probe, root@, page_names(memories@), linked_from_other(memories@, i, normalized_name(memories@[i].name@))));
            lemma_linked_from_other_iff(memories@, i, normalized_name(memories@[i].name@));
        }
    }
    VaultStatus {
        memories: results,
        total_memories: memories.len(),
        outdated_memories_count: outdated,
        broken_links_count: broken,
        orphan_count: orphans,
        incomplete_memories_count: incomplete,
    }
}

} // verus!

verus! {

/// Each count of a status check is at most the number of pages checked: a
/// page counts once as stale, orphan or incomplete, however many findings it
/// has.
pub proof fn lemma_counts_bounded(rs: Seq<MemoryCheckResult>)
    ensures
        count_stale(rs) <= rs.len(),
        count_orphans(rs) <= rs.len(),
        count_incomplete(rs) <= rs.len(),
    decreases rs.len(),
{
    if rs.len() > 0 {
        lemma_counts_bounded(rs.drop_last());
    }
}

} // verus!

verus! {

/// The keys of keyed backlinks, in order.
pub open spec fn backlink_keys(pairs: Seq<(Seq<char>, crate::vault::BacklinkV)>) -> Seq<Seq<char>> {
    pairs.map_values(|x: (Seq<char>, crate::vault::BacklinkV)| x.0)
}

/// The normalised targets of wiki-links, in order.
pub open spec fn target_keys(links: Seq<(Seq<char>, Seq<char>)>) -> Seq<Seq<char>> {
    links.map_values(|l: (Seq<char>, Seq<char>)| normalized_name(l.0))
}

proof fn lemma_backlinks_follow_links(name: Seq<char>, path: Seq<char>, ls: Seq<Seq<char>>, k: nat)
    requires
        k <= ls.len(),
        forall|j: int, m: int| 0 <= j < ls.len() && 0 <= m < ls[j].len() ==> #[trigger] ls[j][m] != '\n',
    ensures
        backlink_keys(crate::vault::backlinks_of_lines(name, path, ls, k)) + target_keys(
            crate::parser::links_of_lines(ls.skip(k as int), crate::vault::fenced_after(ls, k)),
        ) == target_keys(crate::parser::links_of_lines(ls, false)),
    decreases k,
{
    if k == 0 {
        assert(ls.skip(0) =~= ls);
        assert(backlink_keys(Seq::<(Seq<char>, crate::vault::BacklinkV)>::empty()) =~= Seq::<Seq<char>>::empty());
    } else {
        let k1 = (k - 1) as nat;
        lemma_backlinks_follow_links(name, path, ls, k1);
        let l = ls[k - 1];
        let f = crate::vault::fenced_after(ls, k1);
        let tail = ls.skip(k1 as int);
        assert(tail[0] == l);
        assert(tail.drop_first() =~= ls.skip(k as int));
        let prev = crate::vault::backlinks_of_lines(name, path, ls, k1);
        assert forall|m: int| 0 <= m < l.len() implies l[m] != '\n' by {
            assert(ls[k - 1][m] != '\n');
        }
        crate::parser::lemma_wiki_links_of_line(l);
        if crate::vault::is_fence_line(l) || f {
            assert(crate::vault::backlinks_of_lines(name, path, ls, k) =~= prev);
        } else {
            let here = crate::vault::line_backlinks(name, path, k, l);
            assert(crate::vault::backlinks_of_lines(name, path, ls, k) == prev + here);
            let rest = crate::parser::links_of_lines(ls.skip(k as int), f);
            let ll = crate::parser::line_links(crate::parser::strip_inline_code(l));
            assert(crate::parser::links_of_lines(tail, f) == ll + rest);
            assert(backlink_keys(here) =~= target_keys(ll));
            assert(backlink_keys(prev + here) =~= backlink_keys(prev) + backlink_keys(here));
            assert(target_keys(ll + rest) =~= target_keys(ll) + target_keys(rest));
        }
    }
}

/// The backlinks a page contributes are keyed exactly by the normalised
/// targets of its wiki-links, in order: a link inside a fenced code block or
/// inline code is no backlink.
pub proof fn lemma_backlinks_are_links(p: MemoryPage)
    ensures
        backlink_keys(crate::vault::page_backlinks(p)) == target_keys(wiki_links(p.body@)),
{
    let ls = crate::text::lines(p.body@);
    crate::text::lemma_lines_no_lf(p.body@, 0);
    lemma_backlinks_follow_links(p.name@, p.file_path@, ls, ls.len());
    assert(ls.skip(ls.len() as int) =~= Seq::<Seq<char>>::empty());
    assert(crate::parser::links_of_lines(Seq::<Seq<char>>::empty(), crate::vault::fenced_after(ls, ls.len()))
        == Seq::<(Seq<char>, Seq<char>)>::empty());
    assert(target_keys(Seq::<(Seq<char>, Seq<char>)>::empty()) =~= Seq::<Seq<char>>::empty());
    assert(backlink_keys(crate::vault::page_backlinks(p)) + Seq::<Seq<char>>::empty() =~= backlink_keys(crate::vault::page_backlinks(p)));
}

} // verus!

verus! {

/// The observations the status check consults for one page: each referenced
/// file (its existence and hash) and each link target taken as a workspace
/// file (its existence only), by path.
pub open spec fn page_observations(root: Seq<char>, page: MemoryPage) -> Seq<(Seq<char>, bool)> {
    page_references(page).map_values(|r: CodeReference| (join(root, r.path@), true)) + wiki_links(
        page.body@,
    ).map_values(|l: (Seq<char>, Seq<char>)| (join(root, l.0), false))
}

/// The observations the status check consults for all pages, page by page.
pub open spec fn status_observations_spec(root: Seq<char>, pages: Seq<MemoryPage>) -> Seq<(Seq<char>, bool)>
    decreases pages.len(),
{
    if pages.len() == 0 {
        seq![]
    } else {
        status_observations_spec(root, pages.drop_last()) + page_observations(root, pages.last())
    }
}

/// Whether two probes report the same of every observation in `obs`: the
/// same existence, and the same hash where the hash is consulted.
pub open spec fn probes_agree(p1: FileProbe, p2: FileProbe, obs: Seq<(Seq<char>, bool)>) -> bool {
    forall|k: int|
        0 <= k < obs.len() ==> p1.exists_spec(#[trigger] obs[k].0) == p2.exists_spec(obs[k].0) && (
        obs[k].1 ==> p1.hash_spec(obs[k].0) == p2.hash_spec(obs[k].0))
}

/// The paths to observe for checking the vault at `vault_path` (see
/// [`status_observations_spec`]): each path with whether its hash is needed.
pub fn status_observations(vault_path: &str, memories: &[MemoryPage]) -> (r: Vec<(String, bool)>)
    ensures
        r@.map_values(|o: (String, bool)| (o.0@, o.1)) == status_observations_spec(
            workspace_root(vault_path@),
            memories@,
        ),
{
    let root = get_workspace_root(vault_path);
    let mut r: Vec<(String, bool)> = Vec::new();
    let mut p: usize = 0;
    assert(memories@.take(0) =~= Seq::<MemoryPage>::empty());
    while p < memories.len()
        invariant
            p <= memories@.len(),
            root@ == workspace_root(vault_path@),
            r@.map_values(|o: (String, bool)| (o.0@, o.1)) == status_observations_spec(
                root@,
                memories@.take(p as int),
            ),
        decreases memories.len() - p,
    {
        let page = &memories[p];
        let ghost start = r@.map_values(|o: (String, bool)| (o.0@, o.1));
        let ghost refs = page_references(*page).map_values(|x: CodeReference| (join(root@, x.path@), true));
        match &page.frontmatter.references {
            Some(v) => {
                let mut j: usize = 0;
                while j < v.len()
                    invariant
                        j <= v@.len(),
                        refs == v@.map_values(|x: CodeReference| (join(root@, x.path@), true)),
                        r@.map_values(|o: (String, bool)| (o.0@, o.1)) == start + refs.take(j as int),
                    decreases v.len() - j,
                {
                    let ghost before = r@.map_values(|o: (String, bool)| (o.0@, o.1));
                    r.push((join_path(root.as_str(), v[j].path.as_str()), true));
                    assert(r@.map_values(|o: (String, bool)| (o.0@, o.1)) =~= before.push(refs[j as int]));
                    assert(refs.take(j + 1) =~= refs.take(j as int).push(refs[j as int]));
                    j += 1;
                }
                assert(refs.take(v@.len() as int) =~= refs);
            },
            None => {
                assert(refs =~= Seq::<(Seq<char>, bool)>::empty());
                assert(start + refs =~= start);
            },
        }
        let links = extract_wiki_links(page.body.as_str());
        let ghost mid = r@.map_values(|o: (String, bool)| (o.0@, o.1));
        let ghost ls = wiki_links(page.body@).map_values(|l: (Seq<char>, Seq<char>)| (join(root@, l.0), false));
        let mut k: usize = 0;
        while k < links.len()
            invariant
                k <= links@.len(),
                pair_views(links@) == wiki_links(page.body@),
                ls == wiki_links(page.body@).map_values(|l: (Seq<char>, Seq<char>)| (join(root@, l.0), false)),
                r@.map_values(|o: (String, bool)| (o.0@, o.1)) == mid + ls.take(k as int),
            decreases links.len() - k,
        {
            let ghost before = r@.map_values(|o: (String, bool)| (o.0@, o.1));
            assert(pair_views(links@)[k as int].0 == links@[k as int].0@);
            r.push((join_path(root.as_str(), links[k].0.as_str()), false));
            assert(r@.map_values(|o: (String, bool)| (o.0@, o.1)) =~= before.push(ls[k as int]));
            assert(ls.take(k + 1) =~= ls.take(k as int).push(ls[k as int]));
            k += 1;
        }
        assert(ls.take(links@.len() as int) =~= ls);
        assert(memories@.take(p + 1).drop_last() =~= memories@.take(p as int));
        assert(memories@.take(p + 1).last() == *page);
        assert(r@.map_values(|o: (String, bool)| (o.0@, o.1)) =~= status_observations_spec(root@, memories@.take(p as int)) + page_observations(root@, *page));
        p += 1;
    }
    assert(memories@.take(memories@.len() as int) =~= memories@);
    r
}

} // verus!

verus! {

proof fn lemma_agree_split(p1: FileProbe, p2: FileProbe, a: Seq<(Seq<char>, bool)>, b: Seq<(Seq<char>, bool)>)
    requires
        probes_agree(p1, p2, a + b),
    ensures
        probes_agree(p1, p2, a),
        probes_agree(p1, p2, b),
{
    assert forall|k: int| 0 <= k < a.len() implies p1.exists_spec(#[trigger] a[k].0) == p2.exists_spec(a[k].0)
        && (a[k].1 ==> p1.hash_spec(a[k].0) == p2.hash_spec(a[k].0)) by {
        assert((a + b)[k] == a[k]);
    }
    assert forall|k: int| 0 <= k < b.len() implies p1.exists_spec(#[trigger] b[k].0) == p2.exists_spec(b[k].0)
        && (b[k].1 ==> p1.hash_spec(b[k].0) == p2.hash_spec(b[k].0)) by {
        assert((a + b)[a.len() + k] == b[k]);
    }
}

proof fn lemma_agree_pages(p1: FileProbe, p2: FileProbe, root: Seq<char>, pages: Seq<MemoryPage>, i: int)
    requires
        probes_agree(p1, p2, status_observations_spec(root, pages)),
        0 <= i < pages.len(),
    ensures
        probes_agree(p1, p2, page_observations(root, pages[i])),
    decreases pages.len(),
{
    lemma_agree_split(p1, p2, status_observations_spec(root, pages.drop_last()), page_observations(root, pages.last()));
    if i < pages.len() - 1 {
        lemma_agree_pages(p1, p2, root, pages.drop_last(), i);
    }
}

proof fn lemma_broken_agree(
    p1: FileProbe,
    p2: FileProbe,
    root: Seq<char>,
    links: Seq<(Seq<char>, Seq<char>)>,
    names: Seq<Seq<char>>,
)
    requires
        forall|k: int| 0 <= k < links.len() ==> p1.exists_spec(join(root, #[trigger] links[k].0)) == p2.exists_spec(join(root, links[k].0)),
    ensures
        broken_targets(links, names, p1, root) == broken_targets(links, names, p2, root),
    decreases links.len(),
{
    if links.len() > 0 {
        assert(p1.exists_spec(join(root, links[links.len() - 1].0)) == p2.exists_spec(join(root, links[links.len() - 1].0)));
        assert forall|k: int| 0 <= k < links.drop_last().len() implies p1.exists_spec(join(root, #[trigger] links.drop_last()[k].0)) == p2.exists_spec(join(root, links.drop_last()[k].0)) by {
            assert(links.drop_last()[k] == links[k]);
        }
        lemma_broken_agree(p1, p2, root, links.drop_last(), names);
    }
}

/// Observing the paths of [`status_observations_spec`] is enough: two probes
/// that report the same of each of them give every page the same reference
/// statuses and the same broken links, so a path left out could change
/// nothing.
pub proof fn lemma_observations_suffice(
    p1: FileProbe,
    p2: FileProbe,
    root: Seq<char>,
    pages: Seq<MemoryPage>,
    names: Seq<Seq<char>>,
)
    requires
        probes_agree(p1, p2, status_observations_spec(root, pages)),
    ensures
        forall|i: int, j: int|
            0 <= i < pages.len() && 0 <= j < page_references(pages[i]).len() ==> expected_status(
                p1,
                root,
                #[trigger] page_references(pages[i])[j],
            ) == expected_status(p2, root, page_references(pages[i])[j]),
        forall|i: int|
            0 <= i < pages.len() ==> broken_targets(wiki_links(#[trigger] pages[i].body@), names, p1, root)
                == broken_targets(wiki_links(pages[i].body@), names, p2, root),
{
    assert forall|i: int, j: int|
        0 <= i < pages.len() && 0 <= j < page_references(pages[i]).len() implies expected_status(
        p1,
        root,
        #[trigger] page_references(pages[i])[j],
    ) == expected_status(p2, root, page_references(pages[i])[j]) by {
        lemma_agree_pages(p1, p2, root, pages, i);
        let refs = page_references(pages[i]).map_values(|r: CodeReference| (join(root, r.path@), true));
        let ls = wiki_links(pages[i].body@).map_values(|l: (Seq<char>, Seq<char>)| (join(root, l.0), false));
        assert(page_observations(root, pages[i]) == refs + ls);
        lemma_agree_split(p1, p2, refs, ls);
        assert(page_observations(root, pages[i]) == refs + ls);
        assert(refs[j] == (join(root, page_references(pages[i])[j].path@), true));
        assert(p1.exists_spec(refs[j].0) == p2.exists_spec(refs[j].0));
        assert(p1.hash_spec(refs[j].0) == p2.hash_spec(refs[j].0));
    }
    assert forall|i: int| 0 <= i < pages.len() implies broken_targets(wiki_links(#[trigger] pages[i].body@), names, p1, root)
        == broken_targets(wiki_links(pages[i].body@), names, p2, root) by {
        lemma_agree_pages(p1, p2, root, pages, i);
        let refs = page_references(pages[i]).map_values(|r: CodeReference| (join(root, r.path@), true));
        let links = wiki_links(pages[i].body@);
        let ls = links.map_values(|l: (Seq<char>, Seq<char>)| (join(root, l.0), false));
        assert(page_observations(root, pages[i]) == refs + ls);
        lemma_agree_split(p1, p2, refs, ls);
        assert forall|k: int| 0 <= k < links.len() implies p1.exists_spec(join(root, #[trigger] links[k].0)) == p2.exists_spec(join(root, links[k].0)) by {
            assert(ls[k] == (join(root, links[k].0), false));
            assert(p1.exists_spec(ls[k].0) == p2.exists_spec(ls[k].0));
        }
        lemma_broken_agree(p1, p2, root, links, names);
    }
}

} // verus!

verus! {

/// Whether a page check found some reference, at any position, that is not
/// up to date.
pub open spec fn any_reference_stale(r: MemoryCheckResult) -> bool {
    exists|j: int| 0 <= j < r.references@.len() && !(ref_state(#[trigger] r.references@[j].status) is UpToDate)
}

/// The outdated count is the number of checked pages with at least one
/// reference, wherever it stands, that is outdated or missing.
pub proof fn lemma_stale_count(rs: Seq<MemoryCheckResult>)
    ensures
        count_stale(rs) == rs.filter(|r: MemoryCheckResult| any_reference_stale(r)).len(),
    decreases rs.len(),
{
    reveal(Seq::filter);
    if rs.len() > 0 {
        lemma_stale_count(rs.drop_last());
        let r = rs.last();
        if any_reference_stale(r) {
            let j = choose|j: int| 0 <= j < r.references@.len() && !(ref_state(#[trigger] r.references@[j].status) is UpToDate);
            assert(has_stale_reference(r));
        } else {
            assert(!has_stale_reference(r));
        }
    }
}

/// The orphan count is the number of checked pages found orphaned.
pub proof fn lemma_orphan_count(rs: Seq<MemoryCheckResult>)
    ensures
        count_orphans(rs) == rs.filter(|r: MemoryCheckResult| r.is_orphan).len(),
    decreases rs.len(),
{
    reveal(Seq::filter);
    if rs.len() > 0 {
        lemma_orphan_count(rs.drop_last());
    }
}

/// Whether some page at a position other than `i` (before or after it) has a
/// wiki-link whose normalised target is `key`.
pub open spec fn some_other_page_links(pages: Seq<MemoryPage>, i: int, key: Seq<char>) -> bool {
    exists|k: int, j: int|
        0 <= k < pages.len() && k != i && 0 <= j < wiki_links(pages[k].body@).len() && normalized_name(
            #[trigger] wiki_links(pages[k].body@)[j].0,
        ) == key
}

/// A page is linked from another page exactly when some page at any other
/// position, before or after it, has a wiki-link to its normalised name: the
/// order of the pages does not matter.
pub proof fn lemma_linked_from_other_iff(pages: Seq<MemoryPage>, i: int, key: Seq<char>)
    ensures
        linked_from_other(pages, i, key) <==> some_other_page_links(pages, i, key),
{
    if linked_from_other(pages, i, key) {
        let k = choose|k: int| 0 <= k < pages.len() && k != i && #[trigger] link_keys(pages[k]).contains(key);
        let j = choose|j: int| 0 <= j < link_keys(pages[k]).len() && link_keys(pages[k])[j] == key;
        assert(normalized_name(wiki_links(pages[k].body@)[j].0) == key);
    }
    if some_other_page_links(pages, i, key) {
        let (k, j) = choose|k: int, j: int|
            0 <= k < pages.len() && k != i && 0 <= j < wiki_links(pages[k].body@).len() && normalized_name(
                #[trigger] wiki_links(pages[k].body@)[j].0,
            ) == key;
        assert(link_keys(pages[k])[j] == key);
        assert(link_keys(pages[k]).contains(key));
    }
}

} // verus!
