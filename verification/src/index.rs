//! Scaffolding folder notes for a codebase: which files are indexed, which
//! directories get a note, and what each note says.

use vstd::prelude::*;
use crate::models::{CodeReference, Frontmatter, MemoryPage, references_view, strings_view};
use crate::path::{
    components, components_of, extension, extension_chars, file_name, file_name_chars, join,
    join_chars, parent, parent_chars, same_path, same_path_exec, strip_prefix, strip_prefix_exec,
};
use crate::vault::{lemma_parent_shorter, normalize_memory_name, normalized_name};
use crate::text::{
    append_chars, append_str, chars_of, contains, contains_str, lowercase, occurs_at, replace_all, replace_all_exec, replace_char,
    same_text, slice_chars, starts_with, sort_texts, sorted_texts, string_of, to_lowercase,
};

verus! {

/// The uppercase mapping of a character, as `char::to_uppercase` yields it:
/// one or more characters.
pub uninterp spec fn uppercase_of(c: char) -> Seq<char>;

/// `char::to_uppercase`, collected. Trusted: the result is [`uppercase_of`]
/// of the character; the Unicode mapping is not restated.
#[verifier::external_body]
fn char_to_uppercase(c: char) -> (r: Vec<char>)
    ensures
        r@ == uppercase_of(c),
{
    c.to_uppercase().collect()
}

/// Whether `c` separates the words of a title: `_`, `-` or `/`.
pub open spec fn is_word_break(c: char) -> bool {
    c == '_' || c == '-' || c == '/'
}

/// A word with its first character uppercased.
pub open spec fn capitalized(w: Seq<char>) -> Seq<char> {
    if w.len() == 0 {
        seq![]
    } else {
        uppercase_of(w[0]) + w.drop_first()
    }
}

/// The title of `s` from position `start` on, given the text of the current
/// word so far: each word (separated by `_`, `-` or `/`) capitalised, the
/// words joined by single spaces, empty words kept.
pub open spec fn title_from(s: Seq<char>, start: int, word: Seq<char>) -> Seq<char>
    decreases s.len() - start,
{
    if start < 0 || start >= s.len() {
        capitalized(word)
    } else if is_word_break(s[start]) {
        capitalized(word) + seq![' '] + title_from(s, start + 1, seq![])
    } else {
        title_from(s, start + 1, word.push(s[start]))
    }
}

/// The text `[[`.
pub open spec fn open_link() -> Seq<char> {
    seq!['[', '[']
}

/// The text `]]`.
pub open spec fn close_link() -> Seq<char> {
    seq![']', ']']
}

/// The human title of a name: `[[` and `]]` reduced to single brackets, then
/// split at `_`, `-` and `/`, each word capitalised, joined by spaces
/// (`src/auth-flow` gives `Src Auth Flow`).
pub open spec fn humanized(name: Seq<char>) -> Seq<char> {
    let clean = replace_all(replace_all(name, open_link(), seq!['[']), close_link(), seq![']']);
    title_from(clean, 0, seq![])
}

/// The human title of a name (see [`humanized`]).
pub fn humanize_title(name: &str) -> (r: String)
    ensures
        r@ == humanized(name@),
{
    let n = chars_of(name);
    let ol: Vec<char> = vec!['[', '['];
    let os: Vec<char> = vec!['['];
    let cl: Vec<char> = vec![']', ']'];
    let cs: Vec<char> = vec![']'];
    let a = replace_all_exec(n.as_slice(), ol.as_slice(), os.as_slice());
    let clean = replace_all_exec(a.as_slice(), cl.as_slice(), cs.as_slice());
    assert(ol@ == open_link() && os@ == seq!['['] && cl@ == close_link() && cs@ == seq![']']);
    let mut out: Vec<char> = Vec::new();
    let mut word: Vec<char> = Vec::new();
    let mut i: usize = 0;
    while i < clean.len()
        invariant
            i <= clean@.len(),
            out@ + title_from(clean@, i as int, word@) == title_from(clean@, 0, seq![]),
        decreases clean.len() - i,
    {
        let c = clean[i];
        if c == '_' || c == '-' || c == '/' {
            let ghost before = out@;
            append_capitalized(&mut out, &word);
            out.push(' ');
            assert(out@ + title_from(clean@, i + 1, seq![]) =~= before + (capitalized(word@)
                + seq![' '] + title_from(clean@, i + 1, seq![])));
            word = Vec::new();
        } else {
            word.push(c);
        }
        i += 1;
    }
    let ghost before = out@;
    append_capitalized(&mut out, &word);
    assert(out@ =~= before + title_from(clean@, i as int, word@));
    string_of(out.as_slice())
}

fn append_capitalized(out: &mut Vec<char>, word: &Vec<char>)
    ensures
        final(out)@ == old(out)@ + capitalized(word@),
{
    if word.len() > 0 {
        let up = char_to_uppercase(word[0]);
        append_chars(out, up.as_slice());
        let rest = slice_chars(word.as_slice(), 1, word.len());
        assert(rest@ =~= word@.drop_first());
        append_chars(out, rest.as_slice());
    } else {
        assert(old(out)@ + capitalized(word@) =~= old(out)@);
    }
}

} // verus!

verus! {

/// A file found while indexing: where the walk found it and its current hash.
#[derive(Debug, Clone)]
pub struct IndexedFile {
    pub path: String,
    pub hash: String,
}

/// Whether an extension (lowercased) marks a file that indexing skips.
pub open spec fn skipped_extension(e: Seq<char>) -> bool {
    ||| e == "png"@
    ||| e == "jpg"@
    ||| e == "jpeg"@
    ||| e == "gif"@
    ||| e == "ico"@
    ||| e == "svg"@
    ||| e == "lock"@
    ||| e == "db"@
    ||| e == "bin"@
    ||| e == "exe"@
    ||| e == "wasm"@
    ||| e == "node_modules"@
}

/// Whether some component of `p` starts with a dot (hidden, or `.`/`..`).
pub open spec fn has_hidden_component(p: Seq<char>) -> bool {
    exists|i: int|
        0 <= i < components(p).len() && components(p)[i].len() > 0 && components(p)[i][0]
            == '.'
}

/// Whether indexing takes a file found at `path` in the workspace at `root`:
/// not of a skipped extension, not directly in the workspace root, not under
/// a hidden directory, and below the root.
pub open spec fn index_candidate_spec(root: Seq<char>, path: Seq<char>) -> bool {
    &&& !(extension(path) matches Some(e) && skipped_extension(lowercase(e)))
    &&& parent(path) matches Some(dir) && !same_path(dir, root) && !has_hidden_component(dir)
    &&& strip_prefix(path, root) is Some
}

fn skipped_extension_exec(e: &str) -> (b: bool)
    ensures
        b == skipped_extension(e@),
{
    same_text(e, "png") || same_text(e, "jpg") || same_text(e, "jpeg") || same_text(e, "gif")
        || same_text(e, "ico") || same_text(e, "svg") || same_text(e, "lock") || same_text(e, "db")
        || same_text(e, "bin") || same_text(e, "exe") || same_text(e, "wasm") || same_text(
        e,
        "node_modules",
    )
}

fn has_hidden_component_exec(p: &str) -> (b: bool)
    ensures
        b == has_hidden_component(p@),
{
    let comps = components_of(chars_of(p).as_slice());
    let mut i: usize = 0;
    while i < comps.len()
        invariant
            i <= comps@.len(),
            strings_view(comps@) == components(p@),
            forall|k: int| 0 <= k < i ==> !(comps@[k]@.len() > 0 && comps@[k]@[0] == '.'),
        decreases comps.len() - i,
    {
        let c = chars_of(comps[i].as_str());
        if c.len() > 0 && c[0] == '.' {
            assert(components(p@)[i as int] == comps@[i as int]@);
            return true;
        }
        i += 1;
    }
    assert forall|k: int| 0 <= k < components(p@).len() implies !(components(p@)[k].len() > 0
        && components(p@)[k][0] == '.') by {
        assert(components(p@)[k] == comps@[k]@);
    }
    false
}

/// Whether indexing takes the file at `path` (see [`index_candidate_spec`]).
pub fn index_candidate(root: &str, path: &str) -> (b: bool)
    ensures
        b == index_candidate_spec(root@, path@),
{
    let p = chars_of(path);
    match extension_chars(p.as_slice()) {
        Some(e) => {
            let es = string_of(e.as_slice());
            let el = to_lowercase(es.as_str());
            if skipped_extension_exec(el.as_str()) {
                return false;
            }
        },
        None => {},
    }
    let dir = match parent_chars(p.as_slice()) {
        Some(d) => string_of(d.as_slice()),
        None => {
            return false;
        },
    };
    if same_path_exec(dir.as_str(), root) {
        return false;
    }
    if has_hidden_component_exec(dir.as_str()) {
        return false;
    }
    strip_prefix_exec(path, root).is_some()
}

} // verus!

verus! {

/// The directories from `p` up to, not including, `root` (or up to the top
/// when `root` is not above `p`), nearest first.
pub open spec fn ancestors_within(p: Seq<char>, root: Seq<char>) -> Seq<Seq<char>>
    decreases p.len(),
{
    if same_path(p, root) {
        seq![]
    } else {
        proof {
            lemma_parent_shorter(p);
        }
        match parent(p) {
            Some(q) => seq![p] + ancestors_within(q, root),
            None => seq![p],
        }
    }
}

/// The directories a file puts into the index: its directory and every
/// directory above it, below the root.
pub open spec fn file_dirs(root: Seq<char>, f: IndexedFile) -> Seq<Seq<char>> {
    match parent(f.path@) {
        Some(d) => ancestors_within(d, root),
        None => seq![],
    }
}

/// Whether some path of `acc` equals `p` component by component.
pub open spec fn has_path(acc: Seq<Seq<char>>, p: Seq<char>) -> bool {
    exists|i: int| 0 <= i < acc.len() && same_path(acc[i], p)
}

/// `acc` followed by the paths of `new` that it does not hold yet, in order.
pub open spec fn add_new_paths(acc: Seq<Seq<char>>, new: Seq<Seq<char>>) -> Seq<Seq<char>>
    decreases new.len(),
{
    if new.len() == 0 {
        acc
    } else if has_path(acc, new[0]) {
        add_new_paths(acc, new.drop_first())
    } else {
        add_new_paths(acc.push(new[0]), new.drop_first())
    }
}

/// The directories that get a folder note: those of [`file_dirs`] over all
/// files, each once, in order of first appearance.
pub open spec fn index_dirs(root: Seq<char>, files: Seq<IndexedFile>) -> Seq<Seq<char>>
    decreases files.len(),
{
    if files.len() == 0 {
        seq![]
    } else {
        add_new_paths(index_dirs(root, files.drop_last()), file_dirs(root, files.last()))
    }
}

/// The files directly in `dir`, as references by their path below `root`.
pub open spec fn dir_references(root: Seq<char>, dir: Seq<char>, files: Seq<IndexedFile>) -> Seq<
    (Seq<char>, Seq<char>),
>
    decreases files.len(),
{
    if files.len() == 0 {
        seq![]
    } else {
        let f = files.last();
        let rest = dir_references(root, dir, files.drop_last());
        if parent(f.path@) matches Some(d) && same_path(d, dir) {
            rest.push(
                (
                    match strip_prefix(f.path@, root) {
                        Some(r) => r,
                        None => seq![],
                    },
                    f.hash@,
                ),
            )
        } else {
            rest
        }
    }
}

/// The paths below `root` of the directories of `dirs` directly inside `dir`.
pub open spec fn child_rels(root: Seq<char>, dir: Seq<char>, dirs: Seq<Seq<char>>) -> Seq<Seq<char>>
    decreases dirs.len(),
{
    if dirs.len() == 0 {
        seq![]
    } else {
        let x = dirs.last();
        let rest = child_rels(root, dir, dirs.drop_last());
        if parent(x) matches Some(px) && same_path(px, dir) && strip_prefix(x, root) is Some {
            rest.push(strip_prefix(x, root)->0)
        } else {
            rest
        }
    }
}

/// A relative path with its separators turned into hyphens.
pub open spec fn hyphenated(rel: Seq<char>) -> Seq<char> {
    replace_char(replace_char(rel, '\\', '-'), '/', '-')
}

/// The note name of the folder at `rel`.
pub open spec fn folder_note_name(rel: Seq<char>) -> Seq<char> {
    normalized_name(hyphenated(rel))
}

/// The line that lists a subdirectory in a folder note.
pub open spec fn subdir_line(sub: Seq<char>) -> Seq<char> {
    "- [["@ + folder_note_name(sub) + "]] ("@ + humanized(hyphenated(sub)) + ")\n"@
}

/// The name shown for a file of a folder: its file name, or its whole path
/// when it has none.
pub open spec fn shown_file_name(path: Seq<char>) -> Seq<char> {
    match file_name(path) {
        Some(n) => n,
        None => path,
    }
}

/// The line that lists a file in a folder note, with its placeholder.
pub open spec fn file_line(path: Seq<char>) -> Seq<char> {
    "*   `"@ + shown_file_name(path) + "`: [Enter description for file's role in this folder]\n"@
}

/// Lines joined one after another.
pub open spec fn concat_lines(ls: Seq<Seq<char>>) -> Seq<char>
    decreases ls.len(),
{
    if ls.len() == 0 {
        seq![]
    } else {
        concat_lines(ls.drop_last()) + ls.last()
    }
}

/// The body of the folder note of `rel`, with its sorted subdirectories and
/// its files.
pub open spec fn folder_body(rel: Seq<char>, subs: Seq<Seq<char>>, refs: Seq<(Seq<char>, Seq<char>)>) -> Seq<
    char,
> {
    let title = humanized(hyphenated(rel));
    "# "@ + title + "\n\nScaffolded memory page for the `"@ + rel + "` directory.\n\n"@ + (if subs.len()
        > 0 {
        "## Subdirectories\n\n"@ + concat_lines(subs.map_values(|s: Seq<char>| subdir_line(s)))
            + "\n"@
    } else {
        seq![]
    }) + (if refs.len() > 0 {
        "## Core Files Reference Map\n\n"@ + concat_lines(
            refs.map_values(|r: (Seq<char>, Seq<char>)| file_line(r.0)),
        )
    } else {
        seq![]
    })
}

/// A scaffolded note for one directory: the directory's path below the
/// workspace root, and the page.
#[derive(Debug, Clone)]
pub struct FolderNote {
    pub rel: String,
    pub page: MemoryPage,
}

/// Whether `note` is the folder note of `dir` (at `rel` below `root`) that
/// indexing `files` into `memories_dir` writes, stamped with `timestamp`.
pub open spec fn is_folder_note(
    note: FolderNote,
    root: Seq<char>,
    memories_dir: Seq<char>,
    dir: Seq<char>,
    rel: Seq<char>,
    dirs: Seq<Seq<char>>,
    files: Seq<IndexedFile>,
    timestamp: Seq<char>,
) -> bool {
    let refs = dir_references(root, dir, files);
    let subs = sorted_texts(child_rels(root, dir, dirs));
    let name = folder_note_name(rel);
    &&& note.rel@ == rel
    &&& note.page.name@ == name
    &&& note.page.file_path@ == join(memories_dir, name + ".md"@)
    &&& note.page.frontmatter.title matches Some(t) && t@ == humanized(hyphenated(rel))
    &&& note.page.frontmatter.tags matches Some(v) && strings_view(v@) == seq![
        "folder"@,
        "index"@,
    ]
    &&& (if refs.len() == 0 {
        note.page.frontmatter.references is None
    } else {
        note.page.frontmatter.references matches Some(v) && references_view(v@) == refs
    })
    &&& note.page.frontmatter.last_updated matches Some(u) && u@ == timestamp
    &&& note.page.body@ == folder_body(rel, subs, refs)
}

} // verus!

verus! {

fn ancestors_within_exec(start: &[char], root: &str) -> (r: Vec<String>)
    ensures
        strings_view(r@) == ancestors_within(start@, root@),
{
    let mut cur = slice_chars(start, 0, start.len());
    assert(cur@ =~= start@);
    let mut out: Vec<String> = Vec::new();
    let ghost goal = ancestors_within(start@, root@);
    assert(strings_view(out@) + ancestors_within(cur@, root@) =~= goal);
    loop
        invariant
            strings_view(out@) + ancestors_within(cur@, root@) == goal,
            goal == ancestors_within(start@, root@),
        decreases cur@.len(),
    {
        let cs = string_of(cur.as_slice());
        if same_path_exec(cs.as_str(), root) {
            assert(strings_view(out@) =~= goal);
            return out;
        }
        proof {
            lemma_parent_shorter(cur@);
        }
        let ghost before = strings_view(out@);
        out.push(cs);
        assert(strings_view(out@) =~= before.push(cur@));
        match parent_chars(cur.as_slice()) {
            Some(q) => {
                assert(ancestors_within(cur@, root@) == seq![cur@] + ancestors_within(q@, root@));
                assert(strings_view(out@) + ancestors_within(q@, root@) =~= before
                    + ancestors_within(cur@, root@));
                cur = q;
            },
            None => {
                assert(strings_view(out@) =~= goal);
                return out;
            },
        }
    }
}

fn has_path_exec(acc: &Vec<String>, p: &str) -> (b: bool)
    ensures
        b == has_path(strings_view(acc@), p@),
{
    let mut i: usize = 0;
    while i < acc.len()
        invariant
            i <= acc@.len(),
            forall|k: int| 0 <= k < i ==> !same_path(acc@[k]@, p@),
        decreases acc.len() - i,
    {
        if same_path_exec(acc[i].as_str(), p) {
            assert(strings_view(acc@)[i as int] == acc@[i as int]@);
            return true;
        }
        i += 1;
    }
    assert forall|k: int| 0 <= k < strings_view(acc@).len() implies !same_path(
        strings_view(acc@)[k],
        p@,
    ) by {
        assert(strings_view(acc@)[k] == acc@[k]@);
    }
    false
}

fn add_paths(acc: &mut Vec<String>, new: &Vec<String>)
    ensures
        strings_view(final(acc)@) == add_new_paths(strings_view(old(acc)@), strings_view(new@)),
{
    let ghost goal = add_new_paths(strings_view(acc@), strings_view(new@));
    let mut i: usize = 0;
    assert(strings_view(new@).skip(0) == strings_view(new@));
    while i < new.len()
        invariant
            i <= new@.len(),
            add_new_paths(strings_view(acc@), strings_view(new@).skip(i as int)) == goal,
        decreases new.len() - i,
    {
        let ghost rest = strings_view(new@).skip(i as int);
        assert(rest[0] == new@[i as int]@);
        assert(rest.drop_first() == strings_view(new@).skip(i + 1));
        if !has_path_exec(acc, new[i].as_str()) {
            let ghost before = strings_view(acc@);
            acc.push(new[i].clone());
            assert(strings_view(acc@) =~= before.push(new@[i as int]@));
        }
        i += 1;
    }
    assert(strings_view(new@).skip(i as int) =~= Seq::<Seq<char>>::empty());
}

/// The directories that get a folder note (see [`index_dirs`]).
pub fn collect_index_dirs(root: &str, files: &[IndexedFile]) -> (r: Vec<String>)
    ensures
        strings_view(r@) == index_dirs(root@, files@),
{
    let mut dirs: Vec<String> = Vec::new();
    let mut i: usize = 0;
    assert(files@.take(0) =~= Seq::<IndexedFile>::empty());
    while i < files.len()
        invariant
            i <= files@.len(),
            strings_view(dirs@) == index_dirs(root@, files@.take(i as int)),
        decreases files.len() - i,
    {
        let f = &files[i];
        let fp = chars_of(f.path.as_str());
        let new = match parent_chars(fp.as_slice()) {
            Some(d) => ancestors_within_exec(d.as_slice(), root),
            None => {
                let v: Vec<String> = Vec::new();
                assert(strings_view(v@) =~= Seq::<Seq<char>>::empty());
                v
            },
        };
        assert(strings_view(new@) == file_dirs(root@, *f));
        add_paths(&mut dirs, &new);
        assert(files@.take(i + 1).drop_last() == files@.take(i as int));
        assert(files@.take(i + 1).last() == *f);
        i += 1;
    }
    assert(files@.take(files@.len() as int) == files@);
    dirs
}

fn in_dir(path: &str, dir: &str) -> (b: bool)
    ensures
        b == (parent(path@) matches Some(d) && same_path(d, dir@)),
{
    match parent_chars(chars_of(path).as_slice()) {
        Some(d) => same_path_exec(string_of(d.as_slice()).as_str(), dir),
        None => false,
    }
}

fn references_in(root: &str, dir: &str, files: &[IndexedFile]) -> (r: Vec<CodeReference>)
    ensures
        references_view(r@) == dir_references(root@, dir@, files@),
{
    let mut out: Vec<CodeReference> = Vec::new();
    let mut i: usize = 0;
    assert(files@.take(0) =~= Seq::<IndexedFile>::empty());
    while i < files.len()
        invariant
            i <= files@.len(),
            references_view(out@) == dir_references(root@, dir@, files@.take(i as int)),
        decreases files.len() - i,
    {
        let f = &files[i];
        assert(files@.take(i + 1).drop_last() == files@.take(i as int));
        assert(files@.take(i + 1).last() == *f);
        if in_dir(f.path.as_str(), dir) {
            let rel = match strip_prefix_exec(f.path.as_str(), root) {
                Some(r) => r,
                None => String::new(),
            };
            let ghost before = references_view(out@);
            out.push(CodeReference { path: rel, hash: f.hash.clone() });
            assert(references_view(out@) =~= before.push(
                (
                    match strip_prefix(f.path@, root@) {
                        Some(r) => r,
                        None => seq![],
                    },
                    f.hash@,
                ),
            ));
        }
        i += 1;
    }
    assert(files@.take(files@.len() as int) == files@);
    out
}

fn children_of(root: &str, dir: &str, dirs: &Vec<String>) -> (r: Vec<String>)
    ensures
        strings_view(r@) == child_rels(root@, dir@, strings_view(dirs@)),
{
    let ghost dv = strings_view(dirs@);
    let mut out: Vec<String> = Vec::new();
    let mut i: usize = 0;
    assert(dv.take(0) =~= Seq::<Seq<char>>::empty());
    while i < dirs.len()
        invariant
            i <= dirs@.len(),
            dv == strings_view(dirs@),
            strings_view(out@) == child_rels(root@, dir@, dv.take(i as int)),
        decreases dirs.len() - i,
    {
        assert(dv.take(i + 1).drop_last() == dv.take(i as int));
        assert(dv.take(i + 1).last() == dirs@[i as int]@);
        if in_dir(dirs[i].as_str(), dir) {
            match strip_prefix_exec(dirs[i].as_str(), root) {
                Some(r) => {
                    let ghost before = strings_view(out@);
                    out.push(r);
                    assert(strings_view(out@) =~= before.push(
                        strip_prefix(dirs@[i as int]@, root@)->0,
                    ));
                },
                None => {},
            }
        }
        i += 1;
    }
    assert(dv.take(dirs@.len() as int) == dv);
    out
}

} // verus!

verus! {

/// The directories of `dirs` that get a note, with their paths below `root`:
/// those below the root and not the root itself.
pub open spec fn noted_dirs(root: Seq<char>, dirs: Seq<Seq<char>>) -> Seq<(Seq<char>, Seq<char>)>
    decreases dirs.len(),
{
    if dirs.len() == 0 {
        seq![]
    } else {
        let d = dirs.last();
        let rest = noted_dirs(root, dirs.drop_last());
        match strip_prefix(d, root) {
            Some(rel) => if rel.len() > 0 {
                rest.push((d, rel))
            } else {
                rest
            },
            None => rest,
        }
    }
}

fn hyphenate(rel: &[char]) -> (r: Vec<char>)
    ensures
        r@ == hyphenated(rel@),
{
    let mut out: Vec<char> = Vec::new();
    let mut i: usize = 0;
    while i < rel.len()
        invariant
            i <= rel@.len(),
            out@ == hyphenated(rel@).take(i as int),
        decreases rel.len() - i,
    {
        let c = rel[i];
        out.push(if c == '\\' || c == '/' { '-' } else { c });
        assert(out@ =~= hyphenated(rel@).take(i + 1));
        i += 1;
    }
    assert(out@ =~= hyphenated(rel@));
    out
}

fn folder_name(rel: &[char]) -> (r: String)
    ensures
        r@ == folder_note_name(rel@),
{
    let h = hyphenate(rel);
    normalize_memory_name(string_of(h.as_slice()).as_str())
}

fn folder_title(rel: &[char]) -> (r: String)
    ensures
        r@ == humanized(hyphenated(rel@)),
{
    let h = hyphenate(rel);
    humanize_title(string_of(h.as_slice()).as_str())
}

fn folder_body_text(rel: &[char], subs: &Vec<String>, refs: &Vec<CodeReference>) -> (r: Vec<char>)
    ensures
        r@ == folder_body(rel@, strings_view(subs@), references_view(refs@)),
{
    let title = folder_title(rel);
    let mut out: Vec<char> = Vec::new();
    append_str(&mut out, "# ");
    append_str(&mut out, title.as_str());
    append_str(&mut out, "\n\nScaffolded memory page for the `");
    append_chars(&mut out, rel);
    append_str(&mut out, "` directory.\n\n");
    let ghost head = out@;
    if subs.len() > 0 {
        append_str(&mut out, "## Subdirectories\n\n");
        let ghost start = out@;
        let ghost lines = strings_view(subs@).map_values(|s: Seq<char>| subdir_line(s));
        let mut i: usize = 0;
        assert(lines.take(0) =~= Seq::<Seq<char>>::empty());
        while i < subs.len()
            invariant
                i <= subs@.len(),
                lines == strings_view(subs@).map_values(|s: Seq<char>| subdir_line(s)),
                out@ == start + concat_lines(lines.take(i as int)),
            decreases subs.len() - i,
        {
            let sc = chars_of(subs[i].as_str());
            let name = folder_name(sc.as_slice());
            let t = folder_title(sc.as_slice());
            let ghost before = out@;
            append_str(&mut out, "- [[");
            append_str(&mut out, name.as_str());
            append_str(&mut out, "]] (");
            append_str(&mut out, t.as_str());
            append_str(&mut out, ")\n");
            assert(out@ =~= before + subdir_line(subs@[i as int]@));
            assert(lines.take(i + 1).drop_last() == lines.take(i as int));
            assert(lines.take(i + 1).last() == subdir_line(subs@[i as int]@));
            i += 1;
        }
        assert(lines.take(subs@.len() as int) == lines);
        append_str(&mut out, "\n");
    }
    let ghost mid = out@;
    if refs.len() > 0 {
        append_str(&mut out, "## Core Files Reference Map\n\n");
        let ghost start = out@;
        let ghost lines = references_view(refs@).map_values(
            |r: (Seq<char>, Seq<char>)| file_line(r.0),
        );
        let mut i: usize = 0;
        assert(lines.take(0) =~= Seq::<Seq<char>>::empty());
        while i < refs.len()
            invariant
                i <= refs@.len(),
                lines == references_view(refs@).map_values(
                    |r: (Seq<char>, Seq<char>)| file_line(r.0),
                ),
                out@ == start + concat_lines(lines.take(i as int)),
            decreases refs.len() - i,
        {
            let pc = chars_of(refs[i].path.as_str());
            let ghost before = out@;
            append_str(&mut out, "*   `");
            match file_name_chars(pc.as_slice()) {
                Some(n) => append_chars(&mut out, n.as_slice()),
                None => append_chars(&mut out, pc.as_slice()),
            }
            append_str(&mut out, "`: [Enter description for file's role in this folder]\n");
            assert(out@ =~= before + file_line(refs@[i as int].path@));
            assert(lines.take(i + 1).drop_last() == lines.take(i as int));
            assert(lines.take(i + 1).last() == file_line(refs@[i as int].path@));
            i += 1;
        }
        assert(lines.take(refs@.len() as int) == lines);
    }
    assert(out@ =~= folder_body(rel@, strings_view(subs@), references_view(refs@)));
    out
}

/// The folder notes that indexing `files` (found under `root`, each taken by
/// [`index_candidate`], with its hash) writes into `memories_dir`, stamped
/// with `timestamp`: one per directory of [`index_dirs`] below the root, in
/// that order. Notes that already exist are for the caller to skip.
pub fn plan_index(root: &str, memories_dir: &str, files: &[IndexedFile], timestamp: &str) -> (r: Vec<
    FolderNote,
>)
    ensures
        r@.len() == noted_dirs(root@, index_dirs(root@, files@)).len(),
        forall|i: int|
            0 <= i < r@.len() ==> is_folder_note(
                #[trigger] r@[i],
                root@,
                memories_dir@,
                noted_dirs(root@, index_dirs(root@, files@))[i].0,
                noted_dirs(root@, index_dirs(root@, files@))[i].1,
                index_dirs(root@, files@),
                files@,
                timestamp@,
            ),
{
    let dirs = collect_index_dirs(root, files);
    let ghost dv = strings_view(dirs@);
    let ghost noted = noted_dirs(root@, dv);
    let mut notes: Vec<FolderNote> = Vec::new();
    let md = chars_of(memories_dir);
    let mut i: usize = 0;
    assert(dv.take(0) =~= Seq::<Seq<char>>::empty());
    while i < dirs.len()
        invariant
            i <= dirs@.len(),
            dv == strings_view(dirs@),
            dv == index_dirs(root@, files@),
            md@ == memories_dir@,
            notes@.len() == noted_dirs(root@, dv.take(i as int)).len(),
            forall|k: int|
                0 <= k < notes@.len() ==> is_folder_note(
                    #[trigger] notes@[k],
                    root@,
                    memories_dir@,
                    noted_dirs(root@, dv.take(i as int))[k].0,
                    noted_dirs(root@, dv.take(i as int))[k].1,
                    dv,
                    files@,
                    timestamp@,
                ),
        decreases dirs.len() - i,
    {
        let d = &dirs[i];
        let ghost prev = noted_dirs(root@, dv.take(i as int));
        assert(dv.take(i + 1).drop_last() == dv.take(i as int));
        assert(dv.take(i + 1).last() == d@);
        match strip_prefix_exec(d.as_str(), root) {
            Some(rel) => {
                let relc = chars_of(rel.as_str());
                if relc.len() > 0 {
                    let refs = references_in(root, d.as_str(), files);
                    let children = children_of(root, d.as_str(), &dirs);
                    let subs = sort_texts(&children);
                    let body = folder_body_text(relc.as_slice(), &subs, &refs);
                    let name = folder_name(relc.as_slice());
                    let mut file: Vec<char> = chars_of(name.as_str());
                    append_str(&mut file, ".md");
                    let path = join_chars(md.as_slice(), file.as_slice());
                    let title = folder_title(relc.as_slice());
                    let mut tags: Vec<String> = Vec::new();
                    tags.push(string_of(chars_of("folder").as_slice()));
                    tags.push(string_of(chars_of("index").as_slice()));
                    assert(strings_view(tags@) =~= seq!["folder"@, "index"@]);
                    let refs_field = if refs.len() == 0 {
                        None
                    } else {
                        Some(refs)
                    };
                    let page = MemoryPage {
                        file_path: string_of(path.as_slice()),
                        name,
                        frontmatter: Frontmatter {
                            title: Some(title),
                            references: refs_field,
                            tags: Some(tags),
                            last_updated: Some(string_of(chars_of(timestamp).as_slice())),
                        },
                        body: string_of(body.as_slice()),
                    };
                    let note = FolderNote { rel, page };
                    assert(noted_dirs(root@, dv.take(i + 1)) == prev.push((d@, relc@)));
                    notes.push(note);
                    assert(is_folder_note(
                        notes@[notes@.len() - 1],
                        root@,
                        memories_dir@,
                        d@,
                        relc@,
                        dv,
                        files@,
                        timestamp@,
                    ));
                } else {
                    assert(noted_dirs(root@, dv.take(i + 1)) == prev);
                }
            },
            None => {
                assert(noted_dirs(root@, dv.take(i + 1)) == prev);
            },
        }
        i += 1;
    }
    assert(dv.take(dirs@.len() as int) == dv);
    notes
}

} // verus!

verus! {

/// Whether `d` sits directly in the workspace root.
pub open spec fn is_top_dir(root: Seq<char>, d: Seq<char>) -> bool {
    parent(d) matches Some(p) && same_path(p, root)
}

/// Whether some directory of `dirs` sits directly in the workspace root.
pub open spec fn has_top_dir(root: Seq<char>, dirs: Seq<Seq<char>>) -> bool {
    exists|i: int| 0 <= i < dirs.len() && is_top_dir(root, #[trigger] dirs[i])
}

/// The line that lists a top-level folder note in the index note.
pub open spec fn top_dir_line(rel: Seq<char>) -> Seq<char> {
    "- [["@ + folder_note_name(rel) + "]]\n"@
}

/// The heading of the list of top-level folders in the index note.
pub const CODEBASE_HEADING: &'static str = "## Codebase Directories";

/// The section that lists the top-level folder notes, sorted, for the index
/// note; none when no directory sits directly in the root.
pub open spec fn codebase_block(root: Seq<char>, dirs: Seq<Seq<char>>) -> Option<Seq<char>> {
    if has_top_dir(root, dirs) {
        Some(
            "\n\n"@ + CODEBASE_HEADING@ + "\n\n"@ + concat_lines(
                sorted_texts(child_rels(root, root, dirs)).map_values(
                    |r: Seq<char>| top_dir_line(r),
                ),
            ),
        )
    } else {
        None
    }
}

/// The new content of the index note after indexing `files`: its old
/// content followed by [`codebase_block`], unless there is no block or the
/// note already has the section.
pub open spec fn updated_index_note(root: Seq<char>, files: Seq<IndexedFile>, content: Seq<char>) -> Option<
    Seq<char>,
> {
    match codebase_block(root, index_dirs(root, files)) {
        Some(b) => if contains(content, CODEBASE_HEADING@) {
            None
        } else {
            Some(content + b)
        },
        None => None,
    }
}

/// The new content of the index note (see [`updated_index_note`]); `None`
/// when it stays as it is.
pub fn update_index_note(root: &str, files: &[IndexedFile], content: &str) -> (r: Option<String>)
    ensures
        r matches Some(s) ==> updated_index_note(root@, files@, content@) == Some(s@),
        r is None ==> updated_index_note(root@, files@, content@) is None,
{
    let dirs = collect_index_dirs(root, files);
    let ghost dv = strings_view(dirs@);
    let mut top = false;
    let mut i: usize = 0;
    while i < dirs.len()
        invariant
            i <= dirs@.len(),
            dv == strings_view(dirs@),
            top == exists|k: int| 0 <= k < i && is_top_dir(root@, #[trigger] dv[k]),
        decreases dirs.len() - i,
    {
        assert(dv[i as int] == dirs@[i as int]@);
        if in_dir(dirs[i].as_str(), root) {
            top = true;
        }
        i += 1;
    }
    if !top {
        return None;
    }
    let cc = chars_of(content);
    if contains_str(cc.as_slice(), CODEBASE_HEADING) {
        return None;
    }
    let children = children_of(root, root, &dirs);
    let sorted = sort_texts(&children);
    let mut out = cc;
    append_str(&mut out, "\n\n");
    append_str(&mut out, CODEBASE_HEADING);
    append_str(&mut out, "\n\n");
    let ghost start = out@;
    let ghost lines = strings_view(sorted@).map_values(|r: Seq<char>| top_dir_line(r));
    let mut k: usize = 0;
    assert(lines.take(0) =~= Seq::<Seq<char>>::empty());
    while k < sorted.len()
        invariant
            k <= sorted@.len(),
            lines == strings_view(sorted@).map_values(|r: Seq<char>| top_dir_line(r)),
            out@ == start + concat_lines(lines.take(k as int)),
        decreases sorted.len() - k,
    {
        let name = folder_name(chars_of(sorted[k].as_str()).as_slice());
        let ghost before = out@;
        append_str(&mut out, "- [[");
        append_str(&mut out, name.as_str());
        append_str(&mut out, "]]\n");
        assert(out@ =~= before + top_dir_line(sorted@[k as int]@));
        assert(lines.take(k + 1).drop_last() == lines.take(k as int));
        assert(lines.take(k + 1).last() == top_dir_line(sorted@[k as int]@));
        k += 1;
    }
    assert(lines.take(sorted@.len() as int) == lines);
    assert(out@ =~= content@ + codebase_block(root@, dv)->0);
    Some(string_of(out.as_slice()))
}

} // verus!

verus! {

/// Indexing again changes the index note no further: the note an update
/// gives already holds the directory section, so it is left as it is.
pub proof fn lemma_index_note_once(root: Seq<char>, files: Seq<IndexedFile>, content: Seq<char>)
    requires
        updated_index_note(root, files, content) is Some,
    ensures
        updated_index_note(root, files, updated_index_note(root, files, content)->0) is None,
{
    let b = codebase_block(root, index_dirs(root, files))->0;
    let h = CODEBASE_HEADING@;
    let rest = concat_lines(
        sorted_texts(child_rels(root, root, index_dirs(root, files))).map_values(|r: Seq<char>| top_dir_line(r)),
    );
    assert(b == "\n\n"@ + h + "\n\n"@ + rest);
    reveal_strlit("\n\n");
    assert("\n\n"@.len() == 2);
    let updated = content + b;
    let at: int = content.len() as int + 2;
    assert(updated.subrange(at, at + h.len() as int) =~= h);
    assert(occurs_at(updated, h, at));
}

} // verus!

verus! {

/// `s` with every leading copy of `p` removed (`str::trim_start_matches`).
pub open spec fn strip_leading(s: Seq<char>, p: Seq<char>) -> Seq<char>
    decreases s.len(),
{
    if p.len() > 0 && starts_with(s, p) {
        strip_leading(s.skip(p.len() as int), p)
    } else {
        s
    }
}

/// `s` with every trailing `c` removed (`str::trim_end_matches`).
pub open spec fn strip_trailing(s: Seq<char>, c: char) -> Seq<char>
    decreases s.len(),
{
    if s.len() > 0 && s.last() == c {
        strip_trailing(s.drop_last(), c)
    } else {
        s
    }
}

/// The override glob that excludes an ignore pattern from indexing: the
/// pattern without leading `**/` and trailing `/`, behind a `!`; none when
/// nothing is left.
pub open spec fn override_glob_spec(pattern: Seq<char>) -> Option<Seq<char>> {
    let clean = strip_trailing(strip_leading(pattern, "**/"@), '/');
    if clean.len() == 0 {
        None
    } else {
        Some(seq!['!'] + clean)
    }
}

/// The override glob for an ignore pattern (see [`override_glob_spec`]).
pub fn override_glob(pattern: &str) -> (r: Option<String>)
    ensures
        r matches Some(g) ==> override_glob_spec(pattern@) == Some(g@),
        r is None ==> override_glob_spec(pattern@) is None,
{
    let s = chars_of(pattern);
    let p: Vec<char> = vec!['*', '*', '/'];
    proof {
        reveal_strlit("**/");
        assert(p@ =~= "**/"@);
        assert(p@ =~= seq!['*', '*', '/']);
    }
    let mut i: usize = 0;
    assert(s@.skip(0) =~= s@);
    while crate::text::occurs_at_exec(s.as_slice(), p.as_slice(), i)
        invariant
            i <= s@.len(),
            p@ == "**/"@,
            p@ == seq!['*', '*', '/'],
            strip_leading(s@.skip(i as int), p@) == strip_leading(s@, p@),
        decreases s@.len() - i,
    {
        assert(crate::text::occurs_at(s@, p@, i as int));
        assert(p@.len() == 3);
        assert(i + 3 <= s@.len());
        assert(s@.len() == s.len());
        assert(s@.skip(i as int).take(3) =~= s@.subrange(i as int, i + 3));
        assert(s@.skip(i as int).skip(3) =~= s@.skip(i + 3));
        i = i + 3;
    }
    proof {
        if starts_with(s@.skip(i as int), p@) {
            assert(s@.skip(i as int).take(3) =~= s@.subrange(i as int, i + 3));
        }
    }
    let mut e: usize = s.len();
    assert(s@.subrange(i as int, e as int) =~= s@.skip(i as int));
    while e > i && s[e - 1] == '/'
        invariant
            i <= e <= s@.len(),
            strip_trailing(s@.subrange(i as int, e as int), '/') == strip_trailing(strip_leading(s@, p@), '/'),
        decreases e,
    {
        assert(s@.subrange(i as int, e as int).drop_last() =~= s@.subrange(i as int, e - 1));
        e = e - 1;
    }
    if e == i {
        return None;
    }
    let mut out: Vec<char> = vec!['!'];
    let core = slice_chars(s.as_slice(), i, e);
    append_chars(&mut out, core.as_slice());
    Some(string_of(out.as_slice()))
}

} // verus!

verus! {

/// The planned notes that are still to be written: those whose file does
/// not exist yet (`present[i]` tells whether note `i`'s file exists), in
/// order.
pub open spec fn unwritten(notes: Seq<FolderNote>, present: Seq<bool>) -> Seq<FolderNote>
    decreases notes.len(),
{
    if notes.len() == 0 {
        seq![]
    } else {
        let k = notes.len() - 1;
        unwritten(notes.drop_last(), present) + if k < present.len() && present[k] {
            seq![]
        } else {
            seq![notes[k]]
        }
    }
}

/// The folder notes an indexing run writes (see [`unwritten`]): notes that
/// already exist are never overwritten.
pub fn notes_to_write(notes: Vec<FolderNote>, present: &Vec<bool>) -> (r: Vec<FolderNote>)
    ensures
        r@ == unwritten(notes@, present@),
{
    let mut r: Vec<FolderNote> = Vec::new();
    let mut i: usize = 0;
    let ghost all = notes@;
    assert(all.len() == notes.len());
    let mut rest = notes;
    assert(all.take(0) =~= Seq::<FolderNote>::empty());
    while rest.len() > 0
        invariant
            i + rest@.len() == all.len(),
            all.len() <= usize::MAX,
            rest@ == all.skip(i as int),
            r@ == unwritten(all.take(i as int), present@),
        decreases rest.len(),
    {
        let n = rest.remove(0);
        assert(all.take(i + 1).drop_last() =~= all.take(i as int));
        assert(all.take(i + 1).last() == n);
        assert(rest@ =~= all.skip(i + 1));
        if !(i < present.len() && present[i]) {
            r.push(n);
        }
        i += 1;
    }
    assert(all.take(i as int) =~= all);
    r
}

/// A run after one that wrote every planned note writes nothing.
pub proof fn lemma_rerun_writes_nothing(notes: Seq<FolderNote>, present: Seq<bool>)
    requires
        present.len() == notes.len(),
        forall|i: int| 0 <= i < present.len() ==> present[i],
    ensures
        unwritten(notes, present) == Seq::<FolderNote>::empty(),
    decreases notes.len(),
{
    if notes.len() > 0 {
        lemma_rerun_writes_nothing(notes.drop_last(), present.drop_last());
        lemma_unwritten_prefix(notes.drop_last(), present);
    }
}

proof fn lemma_unwritten_prefix(notes: Seq<FolderNote>, present: Seq<bool>)
    requires
        notes.len() <= present.len(),
    ensures
        unwritten(notes, present) == unwritten(notes, present.take(notes.len() as int)),
    decreases notes.len(),
{
    if notes.len() > 0 {
        lemma_unwritten_prefix(notes.drop_last(), present);
        lemma_unwritten_prefix(notes.drop_last(), present.take(notes.len() as int));
        assert(present.take(notes.len() as int).take(notes.len() - 1) =~= present.take(notes.len() - 1));
    }
}

/// Files inside a hidden directory, such as the vault's own notes under
/// `.brainwares/`, are never indexed, so the notes an indexing run writes do
/// not change what the next run indexes.
pub proof fn lemma_hidden_not_indexed(root: Seq<char>, path: Seq<char>)
    requires
        parent(path) matches Some(dir) && has_hidden_component(dir),
    ensures
        !index_candidate_spec(root, path),
{
}

} // verus!

verus! {

/// Binary and lock files are never indexed: a file whose extension,
/// lowercased, is `png`, `jpg`, `jpeg`, `gif`, `ico`, `svg`, `lock`, `db`,
/// `bin`, `exe`, `wasm` or `node_modules` is no index candidate, wherever it
/// lies.
pub proof fn lemma_binary_files_not_indexed(root: Seq<char>, path: Seq<char>, e: Seq<char>)
    requires
        extension(path) == Some(e),
        lowercase(e) == "png"@ || lowercase(e) == "jpg"@ || lowercase(e) == "jpeg"@ || lowercase(e)
            == "gif"@ || lowercase(e) == "ico"@ || lowercase(e) == "svg"@ || lowercase(e) == "lock"@
            || lowercase(e) == "db"@ || lowercase(e) == "bin"@ || lowercase(e) == "exe"@ || lowercase(e)
            == "wasm"@ || lowercase(e) == "node_modules"@,
    ensures
        !index_candidate_spec(root, path),
{
}

} // verus!

verus! {

/// Only those extensions are skipped: a file with no extension, or with one
/// outside that list, is indexed exactly when it lies in a directory below the
/// root that is neither the root itself nor hidden.
pub proof fn lemma_other_files_indexed(root: Seq<char>, path: Seq<char>)
    requires
        extension(path) matches Some(e) ==> !(lowercase(e) == "png"@ || lowercase(e) == "jpg"@ || lowercase(e)
            == "jpeg"@ || lowercase(e) == "gif"@ || lowercase(e) == "ico"@ || lowercase(e) == "svg"@
            || lowercase(e) == "lock"@ || lowercase(e) == "db"@ || lowercase(e) == "bin"@ || lowercase(e)
            == "exe"@ || lowercase(e) == "wasm"@ || lowercase(e) == "node_modules"@),
    ensures
        index_candidate_spec(root, path) == (parent(path) matches Some(dir) && !same_path(dir, root)
            && !has_hidden_component(dir) && strip_prefix(path, root) is Some),
{
}

} // verus!
