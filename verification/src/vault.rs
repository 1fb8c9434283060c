//! Vault-level logic: memory-name normalisation, the backlink index,
//! configuration merging and the path arithmetic of the vault layout.

use vstd::prelude::*;
use crate::models::{Backlink, Config, MemoryPage, backlink_view, backlinks_view, strings_view};
use crate::text::{starts_with, starts_with_exec};
use crate::parser::{extract_wiki_links, pair_views, wiki_links};
use crate::path::{extension, extension_chars, join, join_chars, join_path, parent, parent_chars, front_len, last_component, last_sep, lemma_last_sep, trim_back};
use crate::text::{
    append_chars, append_str, chars_eq, chars_of, decimal, decimal_chars, lines, lowercase, replace_all,
    replace_all_exec, replace_char, same_text, split_lines, string_of, to_lowercase, trim, trim_chars,
    views,
};

verus! {

// ---------------------------------------------------------------------------
// Memory names
// ---------------------------------------------------------------------------

/// The characters that name normalisation removes because they break
/// wiki-links or file paths.
pub open spec fn is_stripped_symbol(c: char) -> bool {
    c == '[' || c == ']' || c == '(' || c == ')' || c == '{' || c == '}' || c == '*' || c == '?'
        || c == ':' || c == '"' || c == '\''
}

/// `s` without the characters of [`is_stripped_symbol`].
pub open spec fn strip_symbols(s: Seq<char>) -> Seq<char>
    decreases s.len(),
{
    if s.len() == 0 {
        seq![]
    } else if is_stripped_symbol(s[0]) {
        strip_symbols(s.drop_first())
    } else {
        seq![s[0]] + strip_symbols(s.drop_first())
    }
}

/// The text `.md`.
pub open spec fn md_ext() -> Seq<char> {
    seq!['.', 'm', 'd']
}

/// The normalised form of a memory name, under which links and pages are
/// matched: lowercased, spaces and underscores turned into hyphens, every
/// `.md` removed, then the symbols of [`is_stripped_symbol`] dropped.
pub open spec fn normalized_name(name: Seq<char>) -> Seq<char> {
    normalized_lowered(lowercase(name))
}

/// The normalised form of a name that is already lowercased: spaces and
/// underscores turned into hyphens, every `.md` removed, then the symbols of
/// [`is_stripped_symbol`] dropped.
pub open spec fn normalized_lowered(lower: Seq<char>) -> Seq<char> {
    strip_symbols(replace_all(replace_char(replace_char(lower, ' ', '-'), '_', '-'), md_ext(), seq![]))
}

fn is_stripped_symbol_exec(c: char) -> (b: bool)
    ensures
        b == is_stripped_symbol(c),
{
    c == '[' || c == ']' || c == '(' || c == ')' || c == '{' || c == '}' || c == '*' || c == '?'
        || c == ':' || c == '"' || c == '\''
}

/// The normalised form of a memory name (see [`normalized_name`]).
pub fn normalize_memory_name(name: &str) -> (res: String)
    ensures
        res@ == normalized_name(name@),
{
    let lower = to_lowercase(name);
    normalize_lowered(lower.as_str())
}

/// The normalised form of an already lowercased name (see
/// [`normalized_lowered`]).
pub fn normalize_lowered(lower: &str) -> (res: String)
    ensures
        res@ == normalized_lowered(lower@),
{
    let chars = chars_of(lower);
    let mut dashed: Vec<char> = Vec::new();
    let mut i: usize = 0;
    while i < chars.len()
        invariant
            i <= chars@.len(),
            dashed@ == replace_char(replace_char(chars@, ' ', '-'), '_', '-').take(i as int),
        decreases chars.len() - i,
    {
        let c = chars[i];
        if c == ' ' || c == '_' {
            dashed.push('-');
        } else {
            dashed.push(c);
        }
        assert(dashed@ =~= replace_char(replace_char(chars@, ' ', '-'), '_', '-').take(i + 1));
        i += 1;
    }
    assert(dashed@ =~= replace_char(replace_char(chars@, ' ', '-'), '_', '-'));
    let ext: Vec<char> = vec!['.', 'm', 'd'];
    assert(ext@ == md_ext());
    let nothing: Vec<char> = Vec::new();
    let no_ext = replace_all_exec(dashed.as_slice(), ext.as_slice(), nothing.as_slice());
    assert(nothing@ =~= Seq::<char>::empty());
    let mut out: Vec<char> = Vec::new();
    let mut k: usize = 0;
    assert(no_ext@.skip(0) == no_ext@);
    while k < no_ext.len()
        invariant
            k <= no_ext@.len(),
            out@ + strip_symbols(no_ext@.skip(k as int)) == strip_symbols(no_ext@),
        decreases no_ext.len() - k,
    {
        assert(no_ext@.skip(k as int).drop_first() == no_ext@.skip(k + 1));
        if !is_stripped_symbol_exec(no_ext[k]) {
            out.push(no_ext[k]);
        }
        k += 1;
    }
    assert(strip_symbols(no_ext@.skip(k as int)) == Seq::<char>::empty());
    assert(out@ + Seq::<char>::empty() == out@);
    string_of(out.as_slice())
}

} // verus!

verus! {

// ---------------------------------------------------------------------------
// Backlinks
// ---------------------------------------------------------------------------

/// A backlink as plain values: source name, source path, context line.
pub type BacklinkV = (Seq<char>, Seq<char>, Seq<char>);

/// The context recorded with a backlink: `Line <n>: <trimmed line>`.
pub open spec fn context_line(n: nat, line: Seq<char>) -> Seq<char> {
    seq!['L', 'i', 'n', 'e', ' '] + decimal(n) + seq![':', ' '] + trim(line)
}

/// The backlinks that line number `n` (counted from 1) of page `name` at
/// `path` contributes, each keyed by the normalised name of its target.
pub open spec fn line_backlinks(name: Seq<char>, path: Seq<char>, n: nat, line: Seq<char>) -> Seq<
    (Seq<char>, BacklinkV),
> {
    wiki_links(line).map_values(
        |p: (Seq<char>, Seq<char>)| (normalized_name(p.0), (name, path, context_line(n, line))),
    )
}

/// Whether a line opens or closes a fenced code block: its trimmed text
/// starts with three backticks.
pub open spec fn is_fence_line(line: Seq<char>) -> bool {
    starts_with(trim(line), seq!['`', '`', '`'])
}

/// Whether a fenced code block is open after the first `k` lines.
pub open spec fn fenced_after(ls: Seq<Seq<char>>, k: nat) -> bool
    decreases k,
{
    if k == 0 || k > ls.len() {
        false
    } else {
        fenced_after(ls, (k - 1) as nat) != is_fence_line(ls[k - 1])
    }
}

/// The backlinks contributed by the first `k` lines: fence lines and the
/// lines inside a fenced code block contribute none.
pub open spec fn backlinks_of_lines(name: Seq<char>, path: Seq<char>, ls: Seq<Seq<char>>, k: nat) -> Seq<
    (Seq<char>, BacklinkV),
>
    decreases k,
{
    if k == 0 || k > ls.len() {
        seq![]
    } else {
        backlinks_of_lines(name, path, ls, (k - 1) as nat) + if is_fence_line(ls[k - 1]) || fenced_after(
            ls,
            (k - 1) as nat,
        ) {
            seq![]
        } else {
            line_backlinks(name, path, k, ls[k - 1])
        }
    }
}

/// The backlinks a page contributes: for each line of its body outside fenced
/// code blocks, each wiki-link the line holds.
pub open spec fn page_backlinks(p: MemoryPage) -> Seq<(Seq<char>, BacklinkV)> {
    backlinks_of_lines(p.name@, p.file_path@, lines(p.body@), lines(p.body@).len())
}

/// The backlinks of all pages, in page order.
pub open spec fn all_backlinks(pages: Seq<MemoryPage>) -> Seq<(Seq<char>, BacklinkV)>
    decreases pages.len(),
{
    if pages.len() == 0 {
        seq![]
    } else {
        all_backlinks(pages.drop_last()) + page_backlinks(pages.last())
    }
}

/// The backlinks among `pairs` whose key is `key`, in order.
pub open spec fn links_to(pairs: Seq<(Seq<char>, BacklinkV)>, key: Seq<char>) -> Seq<BacklinkV>
    decreases pairs.len(),
{
    if pairs.len() == 0 {
        seq![]
    } else if pairs.last().0 == key {
        links_to(pairs.drop_last(), key).push(pairs.last().1)
    } else {
        links_to(pairs.drop_last(), key)
    }
}

/// Whether some pair of `pairs` has key `key`.
pub open spec fn has_key(pairs: Seq<(Seq<char>, BacklinkV)>, key: Seq<char>) -> bool {
    exists|j: int| 0 <= j < pairs.len() && pairs[j].0 == key
}

pub proof fn lemma_links_to_absent(pairs: Seq<(Seq<char>, BacklinkV)>, key: Seq<char>)
    requires
        forall|j: int| 0 <= j < pairs.len() ==> pairs[j].0 != key,
    ensures
        links_to(pairs, key) == Seq::<BacklinkV>::empty(),
    decreases pairs.len(),
{
    if pairs.len() > 0 {
        lemma_links_to_absent(pairs.drop_last(), key);
    }
}

/// The pages linking to one normalised target name.
#[derive(Debug, Clone)]
pub struct BacklinkEntry {
    pub target: String,
    pub backlinks: Vec<Backlink>,
}

/// Backlinks grouped by normalised target name, one entry per target, in
/// order of first appearance.
#[derive(Debug, Clone)]
pub struct BacklinkIndex {
    pub entries: Vec<BacklinkEntry>,
}

impl BacklinkIndex {
    /// The index holds exactly the keyed backlinks `pairs`: one entry per key
    /// that occurs, each with the backlinks of that key in order.
    pub open spec fn models(&self, pairs: Seq<(Seq<char>, BacklinkV)>) -> bool {
        &&& forall|i: int, j: int|
            0 <= i < j < self.entries@.len() ==> self.entries@[i].target@
                != self.entries@[j].target@
        &&& forall|i: int|
            0 <= i < self.entries@.len() ==> backlinks_view(#[trigger] self.entries@[i].backlinks@)
                == links_to(pairs, self.entries@[i].target@)
        &&& forall|i: int|
            #![trigger self.entries@[i]]
            0 <= i < self.entries@.len() ==> has_key(pairs, self.entries@[i].target@)
        &&& forall|j: int| #![trigger pairs[j]] 0 <= j < pairs.len() ==> self.has_entry(pairs[j].0)
    }

    /// Whether the index has an entry for `key`.
    pub open spec fn has_entry(&self, key: Seq<char>) -> bool {
        exists|i: int| 0 <= i < self.entries@.len() && self.entries@[i].target@ == key
    }

    /// The backlinks recorded for `key`, if any.
    pub open spec fn lookup(&self, key: Seq<char>) -> Option<Seq<BacklinkV>> {
        if self.has_entry(key) {
            let i = choose|i: int| 0 <= i < self.entries@.len() && self.entries@[i].target@ == key;
            Some(backlinks_view(self.entries@[i].backlinks@))
        } else {
            None
        }
    }

    /// The position of the entry for `key`, if there is one.
    pub fn position(&self, key: &str) -> (r: Option<usize>)
        ensures
            r matches Some(i) ==> i < self.entries@.len() && self.entries@[i as int].target@
                == key@,
            r is None ==> forall|i: int|
                0 <= i < self.entries@.len() ==> self.entries@[i].target@ != key@,
    {
        let mut i: usize = 0;
        while i < self.entries.len()
            invariant
                i <= self.entries@.len(),
                forall|m: int| 0 <= m < i ==> self.entries@[m].target@ != key@,
            decreases self.entries.len() - i,
        {
            if same_text(self.entries[i].target.as_str(), key) {
                return Some(i);
            }
            i += 1;
        }
        None
    }

    /// The backlinks recorded for `key` (`HashMap::get`).
    pub fn get(&self, key: &str) -> (r: Option<&Vec<Backlink>>)
        requires
            exists|pairs: Seq<(Seq<char>, BacklinkV)>| self.models(pairs),
        ensures
            r matches Some(v) ==> self.lookup(key@) == Some(backlinks_view(v@)),
            r is None ==> self.lookup(key@) is None,
    {
        match self.position(key) {
            Some(i) => {
                let ghost pairs = choose|pairs: Seq<(Seq<char>, BacklinkV)>| self.models(pairs);
                proof {
                    let k = choose|k: int|
                        0 <= k < self.entries@.len() && self.entries@[k].target@ == key@;
                    if k != i {
                        if k < i {
                            assert(self.entries@[k].target@ != self.entries@[i as int].target@);
                        } else {
                            assert(self.entries@[i as int].target@ != self.entries@[k].target@);
                        }
                    }
                }
                Some(&self.entries[i].backlinks)
            },
            None => None,
        }
    }

    /// Records one backlink under `key`.
    fn add(&mut self, key: String, link: Backlink, Ghost(pairs): Ghost<Seq<(Seq<char>, BacklinkV)>>)
        requires
            old(self).models(pairs),
        ensures
            final(self).models(pairs.push((key@, backlink_view(link)))),
    {
        let ghost new_pairs = pairs.push((key@, backlink_view(link)));
        let ghost kv = key@;
        assert(new_pairs.drop_last() == pairs);
        match self.position(key.as_str()) {
            Some(i) => {
                let ghost old_entries = self.entries@;
                self.entries[i].backlinks.push(link);
                assert forall|m: int| 0 <= m < self.entries@.len() implies backlinks_view(
                    #[trigger] self.entries@[m].backlinks@,
                ) == links_to(new_pairs, self.entries@[m].target@) by {
                    if m == i {
                        assert(backlinks_view(self.entries@[m].backlinks@) =~= backlinks_view(
                            old_entries[m].backlinks@,
                        ).push(backlink_view(link)));
                    }
                }
                assert forall|m: int| #![trigger self.entries@[m]] 0 <= m < self.entries@.len() implies has_key(
                    new_pairs,
                    self.entries@[m].target@,
                ) by {
                    assert(old_entries[m].target@ == self.entries@[m].target@);
                    assert(has_key(pairs, old_entries[m].target@));
                    let j = choose|j: int| 0 <= j < pairs.len() && pairs[j].0 == old_entries[m].target@;
                    assert(new_pairs[j] == pairs[j]);
                }
                assert forall|j: int| #![trigger new_pairs[j]] 0 <= j < new_pairs.len() implies self.has_entry(
                    new_pairs[j].0,
                ) by {
                    if j < pairs.len() {
                        assert(new_pairs[j] == pairs[j]);
                        assert(old(self).has_entry(pairs[j].0));
                        let m = choose|m: int|
                            0 <= m < old_entries.len() && old_entries[m].target@ == pairs[j].0;
                        assert(self.entries@[m].target@ == old_entries[m].target@);
                    } else {
                        assert(self.entries@[i as int].target@ == new_pairs[j].0);
                    }
                }
            },
            None => {
                proof {
                    assert forall|j: int| 0 <= j < pairs.len() implies pairs[j].0 != kv by {
                        if pairs[j].0 == kv {
                            assert(old(self).has_entry(pairs[j].0));
                        }
                    }
                    lemma_links_to_absent(pairs, kv);
                }
                let ghost old_entries = self.entries@;
                let mut links: Vec<Backlink> = Vec::new();
                links.push(link);
                self.entries.push(BacklinkEntry { target: key, backlinks: links });
                assert(backlinks_view(links@) =~= seq![backlink_view(link)]);
                assert forall|m: int| 0 <= m < self.entries@.len() implies backlinks_view(
                    #[trigger] self.entries@[m].backlinks@,
                ) == links_to(new_pairs, self.entries@[m].target@) by {
                    if m < old_entries.len() {
                        assert(self.entries@[m] == old_entries[m]);
                    } else {
                        assert(links_to(pairs, kv) =~= Seq::<BacklinkV>::empty());
                    }
                }
                assert forall|m: int| #![trigger self.entries@[m]] 0 <= m < self.entries@.len() implies has_key(
                    new_pairs,
                    self.entries@[m].target@,
                ) by {
                    if m < old_entries.len() {
                        assert(self.entries@[m] == old_entries[m]);
                        assert(has_key(pairs, old_entries[m].target@));
                        let j = choose|j: int| 0 <= j < pairs.len() && pairs[j].0 == old_entries[m].target@;
                        assert(new_pairs[j] == pairs[j]);
                    } else {
                        assert(new_pairs[pairs.len() as int].0 == kv);
                    }
                }
                assert forall|j: int| #![trigger new_pairs[j]] 0 <= j < new_pairs.len() implies self.has_entry(
                    new_pairs[j].0,
                ) by {
                    if j < pairs.len() {
                        assert(new_pairs[j] == pairs[j]);
                        assert(old(self).has_entry(pairs[j].0));
                        let m = choose|m: int|
                            0 <= m < old_entries.len() && old_entries[m].target@ == pairs[j].0;
                        assert(self.entries@[m] == old_entries[m]);
                    } else {
                        assert(self.entries@[old_entries.len() as int].target@ == kv);
                    }
                }
            },
        }
    }
}

} // verus!

verus! {

/// The context text `Line <n>: <trimmed line>` (see [`context_line`]).
fn context_text(n: usize, line: &[char]) -> (res: String)
    ensures
        res@ == context_line(n as nat, line@),
{
    let mut out: Vec<char> = vec!['L', 'i', 'n', 'e', ' '];
    let digits = decimal_chars(n);
    append_chars(&mut out, digits.as_slice());
    let sep: Vec<char> = vec![':', ' '];
    append_chars(&mut out, sep.as_slice());
    let trimmed = trim_chars(line);
    append_chars(&mut out, trimmed.as_slice());
    string_of(out.as_slice())
}

/// The backlink index of a set of pages: every wiki-link found on a line of a
/// page body outside fenced code blocks, keyed by the normalised name of its
/// target, with the page it comes from and the line it stands on.
pub fn get_backlinks(memories: &[MemoryPage]) -> (res: BacklinkIndex)
    ensures
        res.models(all_backlinks(memories@)),
{
    let mut index = BacklinkIndex { entries: Vec::new() };
    let mut p: usize = 0;
    assert(memories@.take(0) =~= Seq::<MemoryPage>::empty());
    while p < memories.len()
        invariant
            p <= memories@.len(),
            index.models(all_backlinks(memories@.take(p as int))),
        decreases memories.len() - p,
    {
        let page = &memories[p];
        let ghost base = all_backlinks(memories@.take(p as int));
        let ghost name = page.name@;
        let ghost path = page.file_path@;
        let body = chars_of(page.body.as_str());
        let ls = split_lines(body.as_slice());
        let mut k: usize = 0;
        let mut in_code = false;
        let fence: Vec<char> = vec!['`', '`', '`'];
        assert(base + backlinks_of_lines(name, path, views(ls@), 0) =~= base);
        while k < ls.len()
            invariant
                k <= ls@.len(),
                p < memories@.len(),
                page == memories@[p as int],
                name == page.name@,
                path == page.file_path@,
                fence@ == seq!['`', '`', '`'],
                in_code == fenced_after(views(ls@), k as nat),
                index.models(base + backlinks_of_lines(name, path, views(ls@), k as nat)),
            decreases ls.len() - k,
        {
            let line = &ls[k];
            assert(views(ls@)[k as int] == line@);
            let trimmed = trim_chars(line.as_slice());
            let is_fence = starts_with_exec(trimmed.as_slice(), fence.as_slice());
            if is_fence || in_code {
                assert(backlinks_of_lines(name, path, views(ls@), (k + 1) as nat)
                    =~= backlinks_of_lines(name, path, views(ls@), k as nat));
                if is_fence {
                    in_code = !in_code;
                }
                k += 1;
                continue;
            }
            let line_str = string_of(line.as_slice());
            let links = extract_wiki_links(line_str.as_str());
            let ctx = context_text(k + 1, line.as_slice());
            let ghost done = base + backlinks_of_lines(name, path, views(ls@), k as nat);
            let ghost this_line = line_backlinks(name, path, (k + 1) as nat, views(ls@)[k as int]);
            assert(views(ls@)[k as int] == line@);
            let mut t: usize = 0;
            assert(done + this_line.take(0) =~= done);
            while t < links.len()
                invariant
                    t <= links@.len(),
                    pair_views(links@) == wiki_links(line@),
                    this_line == line_backlinks(name, path, (k + 1) as nat, line@),
                    ctx@ == context_line((k + 1) as nat, line@),
                    name == page.name@,
                    path == page.file_path@,
                    index.models(done + this_line.take(t as int)),
                decreases links.len() - t,
            {
                let key = normalize_memory_name(links[t].0.as_str());
                let link = Backlink {
                    source_name: page.name.clone(),
                    source_path: page.file_path.clone(),
                    context: ctx.clone(),
                };
                assert(pair_views(links@)[t as int] == (links@[t as int].0@, links@[t as int].1@));
                assert(this_line[t as int] == (key@, backlink_view(link)));
                index.add(key, link, Ghost(done + this_line.take(t as int)));
                assert(done + this_line.take(t + 1) =~= (done + this_line.take(t as int)).push(
                    this_line[t as int],
                ));
                t += 1;
            }
            assert(this_line.take(links@.len() as int) =~= this_line);
            assert(backlinks_of_lines(name, path, views(ls@), (k + 1) as nat)
                == backlinks_of_lines(name, path, views(ls@), k as nat) + this_line);
            assert(done + this_line =~= base + backlinks_of_lines(name, path, views(ls@), (k + 1) as nat));
            k += 1;
        }
        assert(memories@.take(p + 1).drop_last() =~= memories@.take(p as int));
        assert(all_backlinks(memories@.take(p + 1)) == base + page_backlinks(memories@[p as int]));
        p += 1;
    }
    assert(memories@.take(memories@.len() as int) =~= memories@);
    index
}

} // verus!

verus! {

// ---------------------------------------------------------------------------
// Vault layout
// ---------------------------------------------------------------------------

/// The workspace a vault documents: the directory that holds the vault
/// directory, or `.` when the vault path has no parent.
pub open spec fn workspace_root(vault_path: Seq<char>) -> Seq<char> {
    match parent(vault_path) {
        Some(p) => p,
        None => seq!['.'],
    }
}

/// The workspace root of a vault (see [`workspace_root`]).
pub fn get_workspace_root(vault_path: &str) -> (r: String)
    ensures
        r@ == workspace_root(vault_path@),
{
    let p = chars_of(vault_path);
    match parent_chars(p.as_slice()) {
        Some(v) => string_of(v.as_slice()),
        None => {
            let dot: Vec<char> = vec!['.'];
            string_of(dot.as_slice())
        },
    }
}

pub proof fn lemma_parent_shorter(p: Seq<char>)
    ensures
        parent(p) matches Some(q) ==> q.len() < p.len(),
{
    let f = front_len(p);
    lemma_trim_back_le(p, f, p.len() as int);
    lemma_last_component_bounds(p, f, p.len() as int);
    if let Some((cut, _, _)) = last_component(p, f, p.len() as int) {
        lemma_trim_back_le(p, f, cut);
    }
}

proof fn lemma_trim_back_le(p: Seq<char>, f: int, end: int)
    ensures
        trim_back(p, f, end) <= end,
        0 <= f <= end ==> f <= trim_back(p, f, end),
    decreases end - f,
{
    if !(end <= f || end > p.len() || f < 0) {
        lemma_last_sep(p, f, end);
        let k = last_sep(p, f, end);
        let cut = if k >= f { k } else { f };
        lemma_trim_back_le(p, f, cut);
    }
}

proof fn lemma_last_component_bounds(p: Seq<char>, f: int, end: int)
    ensures
        last_component(p, f, end) matches Some((cut, start, e)) ==> f <= cut < end && e <= end,
    decreases end - f,
{
    if !(end <= f || end > p.len() || f < 0) {
        lemma_last_sep(p, f, end);
        let k = last_sep(p, f, end);
        let cut = if k >= f { k } else { f };
        lemma_last_component_bounds(p, f, cut);
    }
}

/// `p` and its ancestors, nearest first, as `PathBuf::pop` visits them.
pub open spec fn ancestors(p: Seq<char>) -> Seq<Seq<char>>
    decreases p.len(),
{
    proof {
        lemma_parent_shorter(p);
    }
    match parent(p) {
        Some(q) => seq![p] + ancestors(q),
        None => seq![p],
    }
}

/// The places where a vault named `dir_name` is looked for, starting from
/// `cwd`: `dir_name` inside `cwd` and inside each of its ancestors, nearest
/// first.
pub open spec fn vault_search_paths_spec(cwd: Seq<char>, dir_name: Seq<char>) -> Seq<Seq<char>> {
    ancestors(cwd).map_values(|a: Seq<char>| join(a, dir_name))
}

/// The candidate vault directories for `find_vault_path`, nearest first (see
/// [`vault_search_paths_spec`]).
pub fn vault_search_paths(cwd: &str, dir_name: &str) -> (res: Vec<String>)
    ensures
        strings_view(res@) == vault_search_paths_spec(cwd@, dir_name@),
{
    let name = chars_of(dir_name);
    let mut cur = chars_of(cwd);
    let mut res: Vec<String> = Vec::new();
    let ghost start = cwd@;
    assert(strings_view(res@) + ancestors(cur@).map_values(|a: Seq<char>| join(a, name@))
        =~= vault_search_paths_spec(cwd@, dir_name@));
    loop
        invariant
            name@ == dir_name@,
            strings_view(res@) + ancestors(cur@).map_values(|a: Seq<char>| join(a, name@))
                == vault_search_paths_spec(cwd@, dir_name@),
        decreases cur@.len(),
    {
        let candidate = join_chars(cur.as_slice(), name.as_slice());
        let ghost before = strings_view(res@);
        let ghost rest = ancestors(cur@);
        proof {
            lemma_parent_shorter(cur@);
        }
        res.push(string_of(candidate.as_slice()));
        assert(strings_view(res@) =~= before.push(join(cur@, name@)));
        match parent_chars(cur.as_slice()) {
            Some(next) => {
                assert(rest == seq![cur@] + ancestors(next@));
                assert(rest.map_values(|a: Seq<char>| join(a, name@)) =~= seq![join(cur@, name@)]
                    + ancestors(next@).map_values(|a: Seq<char>| join(a, name@)));
                assert(strings_view(res@) + ancestors(next@).map_values(
                    |a: Seq<char>| join(a, name@),
                ) =~= before + rest.map_values(|a: Seq<char>| join(a, name@)));
                cur = next;
            },
            None => {
                assert(rest == seq![cur@]);
                assert(strings_view(res@) =~= before + rest.map_values(
                    |a: Seq<char>| join(a, name@),
                ));
                return res;
            },
        }
    }
}

/// The location of the user-wide configuration file, under the home
/// directory: `<home>/.config/brainwares/config.json`.
pub open spec fn global_config_path_in(home: Seq<char>) -> Seq<char> {
    join(
        join(join(home, seq!['.', 'c', 'o', 'n', 'f', 'i', 'g']), seq!['b', 'r', 'a', 'i', 'n', 'w', 'a', 'r', 'e', 's']),
        seq!['c', 'o', 'n', 'f', 'i', 'g', '.', 'j', 's', 'o', 'n'],
    )
}

/// The home directory: `HOME` when it is set, otherwise `USERPROFILE`.
pub open spec fn chosen_home(home: Option<String>, user_profile: Option<String>) -> Option<Seq<char>> {
    match home {
        Some(h) => Some(h@),
        None => match user_profile {
            Some(u) => Some(u@),
            None => None,
        },
    }
}

/// The user-wide configuration file, given the values of the `HOME` and
/// `USERPROFILE` environment variables (`HOME` wins); `None` when neither is
/// set.
pub fn get_global_config_path(home: Option<String>, user_profile: Option<String>) -> (r: Option<
    String,
>)
    ensures
        match chosen_home(home, user_profile) {
            Some(h) => r matches Some(p) && p@ == global_config_path_in(h),
            None => r is None,
        },
{
    let base = match home {
        Some(h) => h,
        None => match user_profile {
            Some(h) => h,
            None => {
                return None;
            },
        },
    };
    let a = join_path(base.as_str(), ".config");
    let b = join_path(a.as_str(), "brainwares");
    let c = join_path(b.as_str(), "config.json");
    proof {
        reveal_strlit(".config");
        reveal_strlit("brainwares");
        reveal_strlit("config.json");
    }
    assert(".config"@ =~= seq!['.', 'c', 'o', 'n', 'f', 'i', 'g']);
    assert("brainwares"@ =~= seq!['b', 'r', 'a', 'i', 'n', 'w', 'a', 'r', 'e', 's']);
    assert("config.json"@ =~= seq!['c', 'o', 'n', 'f', 'i', 'g', '.', 'j', 's', 'o', 'n']);
    Some(c)
}

/// The directory of user-wide memories: `memories` beside the global
/// configuration file.
pub open spec fn global_memories_dir_spec(config_path: Seq<char>) -> Option<Seq<char>> {
    match parent(config_path) {
        Some(d) => Some(join(d, seq!['m', 'e', 'm', 'o', 'r', 'i', 'e', 's'])),
        None => None,
    }
}

/// The user-wide memories directory (see [`global_memories_dir_spec`]).
pub fn global_memories_dir(config_path: &str) -> (r: Option<String>)
    ensures
        r matches Some(d) ==> global_memories_dir_spec(config_path@) == Some(d@),
        r is None ==> global_memories_dir_spec(config_path@) is None,
{
    let p = chars_of(config_path);
    match parent_chars(p.as_slice()) {
        Some(d) => {
            let m: Vec<char> = vec!['m', 'e', 'm', 'o', 'r', 'i', 'e', 's'];
            let j = join_chars(d.as_slice(), m.as_slice());
            Some(string_of(j.as_slice()))
        },
        None => None,
    }
}

/// Whether a directory entry is a markdown file by its name: its extension
/// is exactly `md`.
pub open spec fn is_markdown_path_spec(path: Seq<char>) -> bool {
    extension(path) == Some(seq!['m', 'd'])
}

/// Whether `path` names a markdown file (see [`is_markdown_path_spec`]).
pub fn is_markdown_path(path: &str) -> (b: bool)
    ensures
        b == is_markdown_path_spec(path@),
{
    let p = chars_of(path);
    match extension_chars(p.as_slice()) {
        Some(e) => {
            let md: Vec<char> = vec!['m', 'd'];
            chars_eq(e.as_slice(), md.as_slice())
        },
        None => false,
    }
}

} // verus!

verus! {

// ---------------------------------------------------------------------------
// Configuration and memory sets
// ---------------------------------------------------------------------------

/// `acc` followed by each pattern of `extra` that is not yet present, in
/// order.
pub open spec fn merge_patterns(acc: Seq<Seq<char>>, extra: Seq<Seq<char>>) -> Seq<Seq<char>>
    decreases extra.len(),
{
    if extra.len() == 0 {
        acc
    } else if acc.contains(extra[0]) {
        merge_patterns(acc, extra.drop_first())
    } else {
        merge_patterns(acc.push(extra[0]), extra.drop_first())
    }
}

/// Merges the user-wide configuration with the vault's own: the vault's
/// directory name wins, and its ignore patterns are added to the user-wide
/// ones, skipping those already present.
pub fn load_merged_config(global: Config, local: Option<Config>) -> (c: Config)
    ensures
        match local {
            None => c.default_vault_dir@ == global.default_vault_dir@ && strings_view(
                c.ignore_patterns@,
            ) == strings_view(global.ignore_patterns@),
            Some(l) => c.default_vault_dir@ == l.default_vault_dir@ && strings_view(
                c.ignore_patterns@,
            ) == merge_patterns(strings_view(global.ignore_patterns@), strings_view(l.ignore_patterns@)),
        },
{
    match local {
        None => global,
        Some(l) => {
            let ghost extra = strings_view(l.ignore_patterns@);
            let mut merged = global.ignore_patterns;
            let mut i: usize = 0;
            assert(extra.skip(0) == extra);
            while i < l.ignore_patterns.len()
                invariant
                    i <= l.ignore_patterns@.len(),
                    extra == strings_view(l.ignore_patterns@),
                    merge_patterns(strings_view(merged@), extra.skip(i as int)) == merge_patterns(
                        strings_view(global.ignore_patterns@),
                        extra,
                    ),
                decreases l.ignore_patterns.len() - i,
            {
                let pattern = &l.ignore_patterns[i];
                assert(extra.skip(i as int)[0] == pattern@);
                assert(extra.skip(i as int).drop_first() == extra.skip(i + 1));
                let mut found = false;
                let mut k: usize = 0;
                while k < merged.len()
                    invariant
                        k <= merged@.len(),
                        found == strings_view(merged@).take(k as int).contains(pattern@),
                    decreases merged.len() - k,
                {
                    if same_text(merged[k].as_str(), pattern.as_str()) {
                        found = true;
                    }
                    assert(strings_view(merged@).take(k + 1) == strings_view(merged@).take(
                        k as int,
                    ).push(merged@[k as int]@));
                    proof {
                        vstd::seq_lib::lemma_seq_contains_after_push(
                            strings_view(merged@).take(k as int),
                            merged@[k as int]@,
                            pattern@,
                        );
                    }
                    k += 1;
                }
                assert(strings_view(merged@).take(merged@.len() as int) == strings_view(merged@));
                if !found {
                    let ghost before = strings_view(merged@);
                    merged.push(pattern.clone());
                    assert(strings_view(merged@) =~= before.push(pattern@));
                }
                i += 1;
            }
            assert(extra.skip(i as int) =~= Seq::<Seq<char>>::empty());
            Config { default_vault_dir: l.default_vault_dir, ignore_patterns: merged }
        },
    }
}

/// Merging keeps the user-wide patterns first and in order, holds every
/// pattern of both lists, nothing else, and adds no duplicate.
pub proof fn lemma_merge_patterns(acc: Seq<Seq<char>>, extra: Seq<Seq<char>>)
    ensures
        merge_patterns(acc, extra).take(acc.len() as int) == acc,
        acc.len() <= merge_patterns(acc, extra).len(),
        forall|x: Seq<char>| acc.contains(x) || extra.contains(x) <==> merge_patterns(
            acc,
            extra,
        ).contains(x),
        acc.no_duplicates() ==> merge_patterns(acc, extra).no_duplicates(),
    decreases extra.len(),
{
    if extra.len() > 0 {
        let rest = extra.drop_first();
        if acc.contains(extra[0]) {
            lemma_merge_patterns(acc, rest);
        } else {
            lemma_merge_patterns(acc.push(extra[0]), rest);
            assert(acc.push(extra[0]).take(acc.len() as int) == acc);
            let m = merge_patterns(acc, extra);
            assert(m.take(acc.len() + 1 as int).take(acc.len() as int) == m.take(acc.len() as int));
            assert forall|x: Seq<char>| acc.contains(x) implies acc.push(extra[0]).contains(x) by {
                let i = choose|i: int| 0 <= i < acc.len() && acc[i] == x;
                assert(acc.push(extra[0])[i] == x);
            }
            assert(acc.push(extra[0]).contains(extra[0])) by {
                assert(acc.push(extra[0])[acc.len() as int] == extra[0]);
            }
            assert forall|x: Seq<char>| acc.push(extra[0]).contains(x) implies acc.contains(x) || x == extra[0] by {
                let i = choose|i: int| 0 <= i < acc.len() + 1 && acc.push(extra[0])[i] == x;
                if i < acc.len() {
                    assert(acc[i] == x);
                }
            }
        }
        assert forall|x: Seq<char>| extra.contains(x) <==> (x == extra[0] || rest.contains(x)) by {
            if extra.contains(x) && x != extra[0] {
                let i = choose|i: int| 0 <= i < extra.len() && extra[i] == x;
                assert(rest[i - 1] == x);
            }
            if rest.contains(x) {
                let i = choose|i: int| 0 <= i < rest.len() && rest[i] == x;
                assert(extra[i + 1] == x);
            }
            if x == extra[0] {
                assert(extra[0] == x);
            }
        }
    }
}

} // verus!

verus! {

/// The pages of `global` that are kept after the pages named (lowercased) in
/// `seen`: a page is kept unless its lowercased name was seen before, and each
/// kept page's name counts as seen for the ones after it.
pub open spec fn unseen_pages(seen: Seq<Seq<char>>, global: Seq<MemoryPage>) -> Seq<MemoryPage>
    decreases global.len(),
{
    if global.len() == 0 {
        seq![]
    } else if seen.contains(lowercase(global[0].name@)) {
        unseen_pages(seen, global.drop_first())
    } else {
        seq![global[0]] + unseen_pages(seen.push(lowercase(global[0].name@)), global.drop_first())
    }
}

/// The lowercased names of a list of pages.
pub open spec fn lowercase_names(pages: Seq<MemoryPage>) -> Seq<Seq<char>> {
    pages.map_values(|p: MemoryPage| lowercase(p.name@))
}

/// The memories a vault works with: all of its own pages, then the user-wide
/// pages whose names (compared lowercased) no earlier page has taken.
pub open spec fn merged_memories(local: Seq<MemoryPage>, global: Seq<MemoryPage>) -> Seq<MemoryPage> {
    local + unseen_pages(lowercase_names(local), global)
}

/// Whether `names` holds `name`.
pub fn holds_name_in(names: &Vec<String>, name: &String) -> (b: bool)
    ensures
        b == strings_view(names@).contains(name@),
{
    let mut k: usize = 0;
    while k < names.len()
        invariant
            k <= names@.len(),
            !strings_view(names@).take(k as int).contains(name@),
        decreases names.len() - k,
    {
        if same_text(names[k].as_str(), name.as_str()) {
            assert(strings_view(names@)[k as int] == name@);
            return true;
        }
        proof {
            vstd::seq_lib::lemma_seq_contains_after_push(
                strings_view(names@).take(k as int),
                names@[k as int]@,
                name@,
            );
        }
        assert(strings_view(names@).take(k + 1) == strings_view(names@).take(k as int).push(
            names@[k as int]@,
        ));
        k += 1;
    }
    assert(strings_view(names@).take(k as int) == strings_view(names@));
    false
}

/// Combines a vault's own memories with the user-wide ones (see
/// [`merged_memories`]).
pub fn merge_memories(local: Vec<MemoryPage>, global: Vec<MemoryPage>) -> (res: Vec<MemoryPage>)
    ensures
        res@ == merged_memories(local@, global@),
{
    let mut names: Vec<String> = Vec::new();
    let mut i: usize = 0;
    while i < local.len()
        invariant
            i <= local@.len(),
            strings_view(names@) == lowercase_names(local@).take(i as int),
        decreases local.len() - i,
    {
        let n = to_lowercase(local[i].name.as_str());
        assert(n@ == lowercase_names(local@)[i as int]);
        let ghost before = strings_view(names@);
        names.push(n);
        assert(strings_view(names@) =~= before.push(lowercase_names(local@)[i as int]));
        assert(strings_view(names@) =~= lowercase_names(local@).take(i + 1));
        i += 1;
    }
    assert(lowercase_names(local@).take(local@.len() as int) == lowercase_names(local@));
    let mut res = local;
    let mut rest = global;
    let ghost all_global = rest@;
    let ghost front = res@;
    assert(res@ + unseen_pages(strings_view(names@), rest@) == merged_memories(front, all_global));
    while rest.len() > 0
        invariant
            res@ + unseen_pages(strings_view(names@), rest@) == merged_memories(front, all_global),
        decreases rest.len(),
    {
        let page = rest.remove(0);
        let ghost old_rest = seq![page] + rest@;
        assert(old_rest.drop_first() == rest@);
        let n = to_lowercase(page.name.as_str());
        if !holds_name_in(&names, &n) {
            let ghost before = strings_view(names@);
            names.push(n);
            assert(strings_view(names@) =~= before.push(lowercase(page.name@)));
            let ghost r0 = res@;
            res.push(page);
            assert(res@ == r0 + seq![page]);
            assert(r0 + (seq![page] + unseen_pages(strings_view(names@), rest@)) =~= res@
                + unseen_pages(strings_view(names@), rest@));
        }
    }
    assert(unseen_pages(strings_view(names@), rest@) =~= Seq::<MemoryPage>::empty());
    assert(res@ + Seq::<MemoryPage>::empty() == res@);
    res
}

} // verus!

verus! {

/// An index that models `pairs` has an entry for exactly the keys that occur
/// in `pairs`.
pub proof fn lemma_index_keys(index: BacklinkIndex, pairs: Seq<(Seq<char>, BacklinkV)>, key: Seq<char>)
    requires
        index.models(pairs),
    ensures
        index.has_entry(key) <==> has_key(pairs, key),
{
    if index.has_entry(key) {
        let i = choose|i: int| 0 <= i < index.entries@.len() && index.entries@[i].target@ == key;
        assert(has_key(pairs, index.entries@[i].target@));
    }
    if has_key(pairs, key) {
        let j = choose|j: int| 0 <= j < pairs.len() && pairs[j].0 == key;
        assert(index.has_entry(pairs[j].0));
    }
}

} // verus!

verus! {

proof fn lemma_strip_symbols_clean(s: Seq<char>)
    ensures
        forall|i: int| 0 <= i < strip_symbols(s).len() ==> !is_stripped_symbol(#[trigger] strip_symbols(s)[i]),
        forall|i: int| 0 <= i < strip_symbols(s).len() ==> s.contains(#[trigger] strip_symbols(s)[i]),
    decreases s.len(),
{
    if s.len() > 0 {
        let r = strip_symbols(s.drop_first());
        lemma_strip_symbols_clean(s.drop_first());
        assert forall|i: int| 0 <= i < r.len() implies s.contains(#[trigger] r[i]) by {
            let j = choose|j: int| 0 <= j < s.drop_first().len() && s.drop_first()[j] == r[i];
            assert(s[j + 1] == r[i]);
        }
        if !is_stripped_symbol(s[0]) {
            let t = strip_symbols(s);
            assert(t == seq![s[0]] + r);
            assert forall|i: int| 0 <= i < t.len() implies !is_stripped_symbol(#[trigger] t[i]) && s.contains(t[i]) by {
                if i > 0 {
                    assert(t[i] == r[i - 1]);
                } else {
                    assert(s[0] == t[0]);
                }
            }
        }
    }
}

proof fn lemma_replace_all_keeps_out(s: Seq<char>, from: Seq<char>, to: Seq<char>, c: char)
    requires
        forall|i: int| 0 <= i < s.len() ==> s[i] != c,
        forall|i: int| 0 <= i < to.len() ==> to[i] != c,
    ensures
        forall|i: int| 0 <= i < replace_all(s, from, to).len() ==> #[trigger] replace_all(s, from, to)[i] != c,
    decreases s.len(),
{
    if s.len() > 0 && from.len() > 0 {
        if starts_with(s, from) {
            let rest = s.skip(from.len() as int);
            assert forall|i: int| 0 <= i < rest.len() implies rest[i] != c by {
                assert(rest[i] == s[i + from.len()]);
            }
            lemma_replace_all_keeps_out(rest, from, to, c);
            let r = replace_all(s, from, to);
            let rr = replace_all(rest, from, to);
            assert(r == to + rr);
            assert forall|i: int| 0 <= i < r.len() implies #[trigger] r[i] != c by {
                if i >= to.len() {
                    assert(r[i] == rr[i - to.len()]);
                }
            }
        } else {
            let rest = s.drop_first();
            assert forall|i: int| 0 <= i < rest.len() implies rest[i] != c by {
                assert(rest[i] == s[i + 1]);
            }
            lemma_replace_all_keeps_out(rest, from, to, c);
            let r = replace_all(s, from, to);
            let rr = replace_all(rest, from, to);
            assert(r == seq![s[0]] + rr);
            assert forall|i: int| 0 <= i < r.len() implies #[trigger] r[i] != c by {
                if i > 0 {
                    assert(r[i] == rr[i - 1]);
                }
            }
        }
    }
}

/// A normalised name holds no space, no underscore and none of the symbols
/// that break wiki-links or file paths.
pub proof fn lemma_normalized_clean(name: Seq<char>)
    ensures
        forall|i: int|
            0 <= i < normalized_name(name).len() ==> {
                let c = #[trigger] normalized_name(name)[i];
                c != ' ' && c != '_' && !is_stripped_symbol(c)
            },
{
    let dashed = replace_char(replace_char(lowercase(name), ' ', '-'), '_', '-');
    let no_ext = replace_all(dashed, md_ext(), seq![]);
    assert forall|i: int| 0 <= i < dashed.len() implies dashed[i] != ' ' && dashed[i] != '_' by {}
    lemma_replace_all_keeps_out(dashed, md_ext(), seq![], ' ');
    lemma_replace_all_keeps_out(dashed, md_ext(), seq![], '_');
    lemma_strip_symbols_clean(no_ext);
    let r = normalized_name(name);
    assert forall|i: int| 0 <= i < r.len() implies {
        let c = #[trigger] r[i];
        c != ' ' && c != '_' && !is_stripped_symbol(c)
    } by {
        assert(no_ext.contains(r[i]));
        let j = choose|j: int| 0 <= j < no_ext.len() && no_ext[j] == r[i];
        assert(no_ext[j] != ' ' && no_ext[j] != '_');
    }
}

/// Merging keeps all of the vault's own pages first; the user-wide pages it
/// adds have lowercased names that neither a page of the vault nor another
/// added page has; and every user-wide page left out has its lowercased name
/// taken by a page that is kept.
pub proof fn lemma_merged_memories(local: Seq<MemoryPage>, global: Seq<MemoryPage>)
    ensures
        merged_memories(local, global).take(local.len() as int) == local,
        forall|i: int|
            local.len() <= i < merged_memories(local, global).len() ==> !lowercase_names(local).contains(
                lowercase(#[trigger] merged_memories(local, global)[i].name@),
            ),
        forall|i: int, j: int|
            local.len() <= i < j < merged_memories(local, global).len() ==> lowercase(
                #[trigger] merged_memories(local, global)[i].name@,
            ) != lowercase(#[trigger] merged_memories(local, global)[j].name@),
        forall|k: int|
            0 <= k < global.len() ==> exists|i: int|
                0 <= i < merged_memories(local, global).len() && lowercase(
                    merged_memories(local, global)[i].name@,
                ) == lowercase(#[trigger] global[k].name@),
{
    let m = merged_memories(local, global);
    let seen = lowercase_names(local);
    let u = unseen_pages(seen, global);
    assert(m.take(local.len() as int) =~= local);
    lemma_unseen_pages(seen, global);
    assert forall|i: int| local.len() <= i < m.len() implies !seen.contains(lowercase(#[trigger] m[i].name@)) by {
        assert(m[i] == u[i - local.len()]);
    }
    assert forall|i: int, j: int| local.len() <= i < j < m.len() implies lowercase(#[trigger] m[i].name@)
        != lowercase(#[trigger] m[j].name@) by {
        assert(m[i] == u[i - local.len()]);
        assert(m[j] == u[j - local.len()]);
    }
    assert forall|k: int| 0 <= k < global.len() implies exists|i: int|
        0 <= i < m.len() && lowercase(m[i].name@) == lowercase(#[trigger] global[k].name@) by {
        if seen.contains(lowercase(global[k].name@)) {
            let j = choose|j: int| 0 <= j < seen.len() && seen[j] == lowercase(global[k].name@);
            assert(m[j] == local[j]);
        } else {
            let i = choose|i: int| 0 <= i < u.len() && lowercase(u[i].name@) == lowercase(global[k].name@);
            assert(m[i + local.len()] == u[i]);
        }
    }
}

proof fn lemma_unseen_pages(seen: Seq<Seq<char>>, global: Seq<MemoryPage>)
    ensures
        forall|i: int|
            0 <= i < unseen_pages(seen, global).len() ==> !seen.contains(
                lowercase(#[trigger] unseen_pages(seen, global)[i].name@),
            ),
        forall|i: int, j: int|
            0 <= i < j < unseen_pages(seen, global).len() ==> lowercase(
                #[trigger] unseen_pages(seen, global)[i].name@,
            ) != lowercase(#[trigger] unseen_pages(seen, global)[j].name@),
        forall|k: int|
            0 <= k < global.len() ==> seen.contains(lowercase(#[trigger] global[k].name@)) || exists|
                i: int,
            |
                0 <= i < unseen_pages(seen, global).len() && lowercase(
                    unseen_pages(seen, global)[i].name@,
                ) == lowercase(global[k].name@),
    decreases global.len(),
{
    if global.len() > 0 {
        let g = global[0];
        let rest = global.drop_first();
        let u = unseen_pages(seen, global);
        if seen.contains(lowercase(g.name@)) {
            lemma_unseen_pages(seen, rest);
            assert forall|k: int| 0 <= k < global.len() implies seen.contains(
                lowercase(#[trigger] global[k].name@),
            ) || exists|i: int| 0 <= i < u.len() && lowercase(u[i].name@) == lowercase(global[k].name@) by {
                if k > 0 {
                    assert(global[k] == rest[k - 1]);
                }
            }
        } else {
            let s2 = seen.push(lowercase(g.name@));
            lemma_unseen_pages(s2, rest);
            let ur = unseen_pages(s2, rest);
            assert(u == seq![g] + ur);
            assert(s2[seen.len() as int] == lowercase(g.name@));
            assert forall|i: int| 0 <= i < u.len() implies !seen.contains(
                lowercase(#[trigger] u[i].name@),
            ) by {
                if i > 0 {
                    assert(u[i] == ur[i - 1]);
                    if seen.contains(lowercase(u[i].name@)) {
                        let j = choose|j: int| 0 <= j < seen.len() && seen[j] == lowercase(u[i].name@);
                        assert(s2[j] == seen[j]);
                    }
                }
            }
            assert forall|i: int, j: int| 0 <= i < j < u.len() implies lowercase(
                #[trigger] u[i].name@,
            ) != lowercase(#[trigger] u[j].name@) by {
                assert(u[j] == ur[j - 1]);
                if i == 0 {
                    assert(!s2.contains(lowercase(ur[j - 1].name@)));
                } else {
                    assert(u[i] == ur[i - 1]);
                }
            }
            assert forall|k: int| 0 <= k < global.len() implies seen.contains(
                lowercase(#[trigger] global[k].name@),
            ) || exists|i: int| 0 <= i < u.len() && lowercase(u[i].name@) == lowercase(global[k].name@) by {
                if k == 0 {
                    assert(u[0] == g);
                } else {
                    assert(global[k] == rest[k - 1]);
                    if s2.contains(lowercase(rest[k - 1].name@)) {
                        let j = choose|j: int| 0 <= j < s2.len() && s2[j] == lowercase(rest[k - 1].name@);
                        if j < seen.len() {
                            assert(seen[j] == s2[j]);
                        } else {
                            assert(u[0] == g);
                        }
                    } else {
                        let i = choose|i: int| 0 <= i < ur.len() && lowercase(ur[i].name@) == lowercase(
                            rest[k - 1].name@,
                        );
                        assert(u[i + 1] == ur[i]);
                    }
                }
            }
        }
    }
}

} // verus!

