//! The decisions behind the CLI commands: linking and refreshing code
//! references, creating notes, querying, compiling prompts, and the reports
//! the commands print. Reading and writing files is left to the caller.

use vstd::prelude::*;
use crate::engine::{FileProbe, RefState, expected_status};
use crate::parser::{path_debug, path_debug_text};
use crate::models::{
    Backlink, CodeReference, Frontmatter, MemoryPage, backlinks_view, reference_view,
    references_view, strings_view,
};
use crate::path::{file_stem, file_stem_chars, join, join_chars, join_path, lemma_file_name_exists};
use crate::text::{
    append_chars, append_str, chars_of, contains, contains_exec, ends_with, ends_with_exec, lines,
    lowercase, replace_char, same_text, split_lines, split_on, split_trimmed, string_of,
    to_lowercase, trim, trim_chars, views,
};
use crate::vault::{BacklinkIndex, BacklinkV, md_ext, normalize_memory_name, normalized_name};

verus! {


// ---------------------------------------------------------------------------
// Linking code files
// ---------------------------------------------------------------------------

/// The position of the first reference to `path`.
pub open spec fn first_reference(refs: Seq<CodeReference>, path: Seq<char>) -> Option<int>
    decreases refs.len(),
{
    if refs.len() == 0 {
        None
    } else if refs.last().path@ == path && first_reference(refs.drop_last(), path) is None {
        Some(refs.len() - 1)
    } else {
        first_reference(refs.drop_last(), path)
    }
}

pub proof fn lemma_first_reference(refs: Seq<CodeReference>, path: Seq<char>)
    ensures
        first_reference(refs, path) matches Some(k) ==> 0 <= k < refs.len() && refs[k].path@
            == path && forall|m: int| 0 <= m < k ==> refs[m].path@ != path,
        first_reference(refs, path) is None ==> forall|m: int|
            0 <= m < refs.len() ==> refs[m].path@ != path,
    decreases refs.len(),
{
    if refs.len() > 0 {
        let d = refs.drop_last();
        lemma_first_reference(d, path);
        assert forall|m: int| 0 <= m < d.len() implies d[m] == refs[m] by {}
        match first_reference(d, path) {
            Some(k) => {
                assert(first_reference(refs, path) == Some(k));
            },
            None => {
                if refs.last().path@ == path {
                    assert(first_reference(refs, path) == Some(refs.len() - 1));
                } else {
                    assert(first_reference(refs, path) is None);
                    assert forall|m: int| 0 <= m < refs.len() implies refs[m].path@ != path by {
                        if m < d.len() {
                            assert(d[m] == refs[m]);
                        }
                    }
                }
            },
        }
    }
}

/// The position of the first reference to `path` (see [`first_reference`]).
pub fn find_reference(refs: &Vec<CodeReference>, path: &str) -> (r: Option<usize>)
    ensures
        r matches Some(k) ==> first_reference(refs@, path@) == Some(k as int),
        r is None ==> first_reference(refs@, path@) is None,
{
    let mut i: usize = 0;
    while i < refs.len()
        invariant
            i <= refs@.len(),
            first_reference(refs@.take(i as int), path@) is None,
        decreases refs.len() - i,
    {
        assert(refs@.take(i + 1).drop_last() == refs@.take(i as int));
        if same_text(refs[i].path.as_str(), path) {
            proof {
                lemma_prefix_first(refs@, path@, i as int);
            }
            return Some(i);
        }
        i += 1;
    }
    assert(refs@.take(i as int) == refs@);
    None
}

proof fn lemma_prefix_first(refs: Seq<CodeReference>, path: Seq<char>, i: int)
    requires
        0 <= i < refs.len(),
        refs[i].path@ == path,
        first_reference(refs.take(i), path) is None,
    ensures
        first_reference(refs, path) == Some(i),
{
    lemma_first_reference(refs.take(i), path);
    assert(refs.take(i + 1).drop_last() == refs.take(i));
    assert(first_reference(refs.take(i + 1), path) == Some(i));
    lemma_first_extends(refs, path, i + 1);
}

proof fn lemma_first_extends(refs: Seq<CodeReference>, path: Seq<char>, n: int)
    requires
        0 <= n <= refs.len(),
        first_reference(refs.take(n), path) is Some,
    ensures
        first_reference(refs, path) == first_reference(refs.take(n), path),
    decreases refs.len() - n,
{
    if n < refs.len() {
        assert(refs.take(n + 1).drop_last() == refs.take(n));
        lemma_first_extends(refs, path, n + 1);
    } else {
        assert(refs.take(n) == refs);
    }
}

/// The references after linking `path` with hash `hash`: the first reference
/// to `path` takes the new hash; without one, a new reference is appended.
pub open spec fn linked_references(refs: Seq<CodeReference>, path: Seq<char>, hash: Seq<char>) -> Seq<
    (Seq<char>, Seq<char>),
> {
    match first_reference(refs, path) {
        Some(k) => references_view(refs).update(k, (path, hash)),
        None => references_view(refs).push((path, hash)),
    }
}

/// Links `path` with its current hash (see [`linked_references`]); tells
/// whether an existing reference was updated.
pub fn link_reference(refs: &mut Vec<CodeReference>, path: &str, hash: &str) -> (updated: bool)
    ensures
        references_view(final(refs)@) == linked_references(old(refs)@, path@, hash@),
        updated == first_reference(old(refs)@, path@) is Some,
{
    let ghost before = refs@;
    match find_reference(refs, path) {
        Some(k) => {
            proof {
                lemma_first_reference(before, path@);
            }
            let h = crate::text::string_of(crate::text::chars_of(hash).as_slice());
            refs[k].hash = h;
            assert(references_view(refs@) =~= references_view(before).update(
                k as int,
                (path@, hash@),
            ));
            true
        },
        None => {
            let p = crate::text::string_of(crate::text::chars_of(path).as_slice());
            let h = crate::text::string_of(crate::text::chars_of(hash).as_slice());
            refs.push(CodeReference { path: p, hash: h });
            assert(references_view(refs@) =~= references_view(before).push((path@, hash@)));
            false
        },
    }
}

/// After linking, the list holds a reference to `path` with hash `hash`;
/// every other reference is as it was, and at most one was added.
pub proof fn lemma_link_records(refs: Seq<CodeReference>, path: Seq<char>, hash: Seq<char>)
    ensures
        linked_references(refs, path, hash).contains((path, hash)),
        linked_references(refs, path, hash).len() <= refs.len() + 1,
        forall|i: int|
            0 <= i < refs.len() && refs[i].path@ != path ==> linked_references(refs, path, hash)[i]
                == reference_view(refs[i]),
{
    lemma_first_reference(refs, path);
    let l = linked_references(refs, path, hash);
    match first_reference(refs, path) {
        Some(k) => {
            assert(l[k] == (path, hash));
        },
        None => {
            assert(l[refs.len() as int] == (path, hash));
        },
    }
}

/// Linking is idempotent: linking a file again with the same hash adds no
/// second reference and changes nothing.
pub proof fn lemma_link_idempotent(
    refs: Seq<CodeReference>,
    relinked: Seq<CodeReference>,
    path: Seq<char>,
    hash: Seq<char>,
)
    requires
        references_view(relinked) == linked_references(refs, path, hash),
    ensures
        first_reference(relinked, path) is Some,
        linked_references(relinked, path, hash) == references_view(relinked),
{
    lemma_first_reference(refs, path);
    lemma_first_reference(relinked, path);
    let l = references_view(relinked);
    assert forall|i: int| 0 <= i < relinked.len() implies #[trigger] relinked[i].path@ == l[i].0 by {}
    let k: int = match first_reference(refs, path) {
        Some(k) => k,
        None => refs.len() as int,
    };
    assert(l.len() == relinked.len());
    assert(0 <= k < relinked.len());
    assert(l[k] == (path, hash));
    assert(relinked[k].path@ == l[k].0);
    assert forall|m: int| 0 <= m < k implies #[trigger] relinked[m].path@ != path by {
        assert(relinked[m].path@ == l[m].0);
        assert(l[m] == reference_view(refs[m]));
        assert(refs[m].path@ != path);
    }
    match first_reference(relinked, path) {
        Some(k2) => {
            if k2 < k {
                assert(relinked[k2].path@ != path);
            }
            assert(k2 == k);
        },
        None => {
            assert(relinked[k].path@ != path);
        },
    }
    assert(l.update(k, (path, hash)) =~= l);
}

/// Linking a file with the hash the workspace reports for it leaves a
/// reference that the status check finds up to date.
pub proof fn lemma_link_then_status(
    refs: Seq<CodeReference>,
    path: Seq<char>,
    hash: Seq<char>,
    probe: FileProbe,
    root: Seq<char>,
)
    requires
        probe.exists_spec(join(root, path)),
        probe.hash_spec(join(root, path)) == Some(hash),
    ensures
        exists|i: int|
            0 <= i < linked_references(refs, path, hash).len() && linked_references(
                refs,
                path,
                hash,
            )[i] == (path, hash),
        forall|r: CodeReference|
            r.path@ == path && r.hash@ == hash ==> expected_status(probe, root, r)
                == RefState::UpToDate,
{
    lemma_link_records(refs, path, hash);
    let l = linked_references(refs, path, hash);
    let i = choose|i: int| 0 <= i < l.len() && l[i] == (path, hash);
    assert(0 <= i < l.len() && l[i] == (path, hash));
}

/// Links a code file to a page with its current hash and stamps the page
/// with `timestamp`. Tells whether an existing reference was updated.
pub fn link_code_file(page: &mut MemoryPage, code_file: &str, hash: &str, timestamp: String) -> (updated: bool)
    ensures
        final(page).file_path == old(page).file_path,
        final(page).name == old(page).name,
        final(page).body == old(page).body,
        final(page).frontmatter.title == old(page).frontmatter.title,
        final(page).frontmatter.tags == old(page).frontmatter.tags,
        final(page).frontmatter.last_updated == Some(timestamp),
        final(page).frontmatter.references matches Some(v) && references_view(v@)
            == linked_references(
            match old(page).frontmatter.references {
                Some(r) => r@,
                None => seq![],
            },
            code_file@,
            hash@,
        ),
        updated == first_reference(
            match old(page).frontmatter.references {
                Some(r) => r@,
                None => seq![],
            },
            code_file@,
        ) is Some,
{
    let mut refs = match page.frontmatter.references.take() {
        Some(r) => r,
        None => Vec::new(),
    };
    let updated = link_reference(&mut refs, code_file, hash);
    page.frontmatter.references = Some(refs);
    page.frontmatter.last_updated = Some(timestamp);
    updated
}

} // verus!

verus! {

// ---------------------------------------------------------------------------
// Refreshing stored hashes
// ---------------------------------------------------------------------------

/// What refreshing did to one reference, for the report.
#[derive(Debug, Clone)]
pub enum RefreshNote {
    /// The stored hash was replaced by the file's current one.
    Updated { path: String, old_hash: String, new_hash: String },
    /// The referenced file does not exist; its hash was left alone.
    Missing { path: String },
}

/// The hash a reference stores after a refresh: the file's current hash when
/// the file exists and could be hashed, the stored one otherwise.
pub open spec fn refreshed_hash(probe: FileProbe, root: Seq<char>, r: CodeReference) -> Seq<char> {
    let p = join(root, r.path@);
    if probe.exists_spec(p) && probe.hash_spec(p) is Some {
        probe.hash_spec(p)->0
    } else {
        r.hash@
    }
}

/// The references after refreshing them all: each path kept, each hash as
/// [`refreshed_hash`] gives it.
pub open spec fn refreshed_references(probe: FileProbe, root: Seq<char>, refs: Seq<CodeReference>) -> Seq<
    (Seq<char>, Seq<char>),
> {
    refs.map_values(|r: CodeReference| (r.path@, refreshed_hash(probe, root, r)))
}

/// A refresh note as plain values: whether the hash was updated, the path,
/// and for an update the old and the new hash.
pub open spec fn note_view(n: RefreshNote) -> (bool, Seq<char>, Seq<char>, Seq<char>) {
    match n {
        RefreshNote::Updated { path, old_hash, new_hash } => (true, path@, old_hash@, new_hash@),
        RefreshNote::Missing { path } => (false, path@, seq![], seq![]),
    }
}

/// A list of refresh notes as plain values.
pub open spec fn notes_view(v: Seq<RefreshNote>) -> Seq<(bool, Seq<char>, Seq<char>, Seq<char>)> {
    v.map_values(|n: RefreshNote| note_view(n))
}

/// What refreshing one reference reports: that its file is missing, that
/// its hash changed from the stored one to the current one, or nothing
/// (unchanged, or the file could not be hashed).
pub open spec fn refresh_note(probe: FileProbe, root: Seq<char>, r: CodeReference) -> Seq<
    (bool, Seq<char>, Seq<char>, Seq<char>),
> {
    let p = join(root, r.path@);
    if !probe.exists_spec(p) {
        seq![(false, r.path@, seq![], seq![])]
    } else {
        match probe.hash_spec(p) {
            Some(h) => if h != r.hash@ {
                seq![(true, r.path@, r.hash@, h)]
            } else {
                seq![]
            },
            None => seq![],
        }
    }
}

/// What refreshing a list of references reports, in order.
pub open spec fn refresh_notes(probe: FileProbe, root: Seq<char>, refs: Seq<CodeReference>) -> Seq<
    (bool, Seq<char>, Seq<char>, Seq<char>),
>
    decreases refs.len(),
{
    if refs.len() == 0 {
        seq![]
    } else {
        refresh_notes(probe, root, refs.drop_last()) + refresh_note(probe, root, refs.last())
    }
}

/// Refreshes every stored hash from the observed workspace (see
/// [`refreshed_references`]), and reports, in order, each hash that changed
/// and each referenced file that is missing (see [`refresh_notes`]).
pub fn refresh_references(refs: &mut Vec<CodeReference>, root: &str, probe: &FileProbe) -> (notes:
    Vec<RefreshNote>)
    ensures
        references_view(final(refs)@) == refreshed_references(*probe, root@, old(refs)@),
        notes_view(notes@) == refresh_notes(*probe, root@, old(refs)@),
{
    let ghost before = refs@;
    let mut notes: Vec<RefreshNote> = Vec::new();
    let mut i: usize = 0;
    while i < refs.len()
        invariant
            i <= refs@.len(),
            refs@.len() == before.len(),
            forall|m: int| 0 <= m < i ==> reference_view(#[trigger] refs@[m]) == (
                before[m].path@,
                refreshed_hash(*probe, root@, before[m]),
            ),
            forall|m: int| i <= m < refs@.len() ==> #[trigger] refs@[m] == before[m],
            notes_view(notes@) == refresh_notes(*probe, root@, before.take(i as int)),
        decreases refs.len() - i,
    {
        assert(before.take(i + 1).drop_last() == before.take(i as int));
        assert(before.take(i + 1).last() == before[i as int]);
        let ghost cur = refs@[i as int];
        let p = join_path(root, refs[i].path.as_str());
        match probe.fact(p.as_str()) {
            Some(f) => {
                if f.exists {
                    match &f.hash {
                        Ok(h) => {
                            if !same_text(refs[i].hash.as_str(), h.as_str()) {
                                notes.push(
                                    RefreshNote::Updated {
                                        path: refs[i].path.clone(),
                                        old_hash: refs[i].hash.clone(),
                                        new_hash: h.clone(),
                                    },
                                );
                                refs[i].hash = h.clone();
                            }
                        },
                        Err(_) => {},
                    }
                } else {
                    notes.push(RefreshNote::Missing { path: refs[i].path.clone() });
                }
            },
            None => {
                notes.push(RefreshNote::Missing { path: refs[i].path.clone() });
            },
        }
        assert(notes_view(notes@) =~= refresh_notes(*probe, root@, before.take(i + 1)));
        i += 1;
    }
    assert(references_view(refs@) =~= refreshed_references(*probe, root@, before));
    assert(before.take(i as int) == before);
    notes
}

/// After a refresh, every reference whose file exists and can be hashed is
/// up to date against the same observations.
pub proof fn lemma_refresh_clears(probe: FileProbe, root: Seq<char>, r: CodeReference, refreshed: CodeReference)
    requires
        refreshed.path@ == r.path@,
        refreshed.hash@ == refreshed_hash(probe, root, r),
        probe.exists_spec(join(root, r.path@)),
        probe.hash_spec(join(root, r.path@)) is Some,
    ensures
        expected_status(probe, root, refreshed) is UpToDate,
{
}

/// After refreshing all references of a page, each one whose file exists and
/// can be hashed is up to date against the same observations, and each one
/// whose file is missing still shows as missing.
pub proof fn lemma_refresh_all_clears(
    probe: FileProbe,
    root: Seq<char>,
    old_refs: Seq<CodeReference>,
    new_refs: Seq<CodeReference>,
)
    requires
        references_view(new_refs) == refreshed_references(probe, root, old_refs),
    ensures
        new_refs.len() == old_refs.len(),
        forall|j: int|
            0 <= j < new_refs.len() ==> {
                let p = join(root, (#[trigger] new_refs[j]).path@);
                &&& new_refs[j].path@ == old_refs[j].path@
                &&& (probe.exists_spec(p) && probe.hash_spec(p) is Some) ==> expected_status(
                    probe,
                    root,
                    new_refs[j],
                ) is UpToDate
                &&& !probe.exists_spec(p) ==> expected_status(probe, root, new_refs[j]) is Missing
            },
{
    assert(references_view(new_refs).len() == new_refs.len());
    assert forall|j: int| 0 <= j < new_refs.len() implies {
        let p = join(root, (#[trigger] new_refs[j]).path@);
        &&& new_refs[j].path@ == old_refs[j].path@
        &&& (probe.exists_spec(p) && probe.hash_spec(p) is Some) ==> expected_status(
            probe,
            root,
            new_refs[j],
        ) is UpToDate
        &&& !probe.exists_spec(p) ==> expected_status(probe, root, new_refs[j]) is Missing
    } by {
        assert(references_view(new_refs)[j] == reference_view(new_refs[j]));
        assert(refreshed_references(probe, root, old_refs)[j] == (
            old_refs[j].path@,
            refreshed_hash(probe, root, old_refs[j]),
        ));
        if probe.exists_spec(join(root, new_refs[j].path@)) && probe.hash_spec(
            join(root, new_refs[j].path@),
        ) is Some {
            lemma_refresh_clears(probe, root, old_refs[j], new_refs[j]);
        }
    }
}

/// The message for a reference that the page does not hold.
pub open spec fn reference_not_found_message(target: Seq<char>) -> Seq<char> {
    seq!['R', 'e', 'f', 'e', 'r', 'e', 'n', 'c', 'e', ' ', 't', 'o', ' ', '\''] + target + seq![
        '\'',
        ' ',
        'n',
        'o',
        't',
        ' ',
        'f',
        'o',
        'u',
        'n',
        'd',
        ' ',
        'i',
        'n',
        ' ',
        'm',
        'e',
        'm',
        'o',
        'r',
        'y',
        ' ',
        'f',
        'r',
        'o',
        'n',
        't',
        'm',
        'a',
        't',
        't',
        'e',
        'r',
        '.',
    ]
}

/// The message for a code file that is not in the workspace.
pub open spec fn code_file_missing_message(target: Seq<char>) -> Seq<char> {
    seq![
        'C',
        'o',
        'd',
        'e',
        ' ',
        'f',
        'i',
        'l',
        'e',
        ' ',
        'n',
        'o',
        't',
        ' ',
        'f',
        'o',
        'u',
        'n',
        'd',
        ' ',
        'i',
        'n',
        ' ',
        'w',
        'o',
        'r',
        'k',
        's',
        'p',
        'a',
        'c',
        'e',
        ':',
        ' ',
    ] + target
}

/// Refreshes the stored hash of the one reference to `target`: refused when
/// the page holds no such reference, or when its file does not exist; the
/// hashing error is passed on when the file could not be hashed.
pub fn refresh_reference(refs: &mut Vec<CodeReference>, root: &str, target: &str, probe: &FileProbe) -> (r:
    Result<(), String>)
    ensures
        match first_reference(old(refs)@, target@) {
            None => (r matches Err(e) && e@ == reference_not_found_message(target@))
                && final(refs)@ == old(refs)@,
            Some(k) => if !probe.exists_spec(join(root@, target@)) {
                (r matches Err(e) && e@ == code_file_missing_message(target@)) && final(refs)@
                    == old(refs)@
            } else {
                match probe.hash_result(join(root@, target@)) {
                    Ok(h) => r is Ok && references_view(final(refs)@) == references_view(
                        old(refs)@,
                    ).update(k, (target@, h)),
                    Err(e) => (r matches Err(m) && m@ == e) && final(refs)@ == old(refs)@,
                }
            },
        },
{
    let ghost before = refs@;
    proof {
        lemma_first_reference(before, target@);
    }
    let idx = match find_reference(refs, target) {
        Some(k) => k,
        None => {
            let mut msg: Vec<char> = Vec::new();
            crate::text::append_str(&mut msg, "Reference to '");
            crate::text::append_str(&mut msg, target);
            crate::text::append_str(&mut msg, "' not found in memory frontmatter.");
            proof {
                reveal_strlit("Reference to '");
                reveal_strlit("' not found in memory frontmatter.");
            }
            assert(msg@ =~= reference_not_found_message(target@));
            return Err(crate::text::string_of(msg.as_slice()));
        },
    };
    let p = join_path(root, target);
    if !probe.file_exists(p.as_str()) {
        let mut msg: Vec<char> = Vec::new();
        crate::text::append_str(&mut msg, "Code file not found in workspace: ");
        crate::text::append_str(&mut msg, target);
        proof {
            reveal_strlit("Code file not found in workspace: ");
        }
        assert(msg@ =~= code_file_missing_message(target@));
        return Err(crate::text::string_of(msg.as_slice()));
    }
    match probe.fact(p.as_str()) {
        Some(f) => match &f.hash {
            Ok(h) => {
                refs[idx].hash = h.clone();
                assert(references_view(refs@) =~= references_view(before).update(
                    idx as int,
                    (target@, h@),
                ));
                Ok(())
            },
            Err(e) => Err(e.clone()),
        },
        None => Err(String::new()),
    }
}

} // verus!

verus! {

/// The message for a page that stores no code references.
pub open spec fn no_references_message() -> Seq<char> {
    seq![
        'M', 'e', 'm', 'o', 'r', 'y', ' ', 'h', 'a', 's', ' ', 'n', 'o', ' ', 'r', 'e', 'f', 'e',
        'r', 'e', 'n', 'c', 'e', 's', ' ', 't', 'o', ' ', 'u', 'p', 'd', 'a', 't', 'e', '.',
    ]
}

/// Whether two optional reference lists hold the same references.
pub open spec fn same_references(a: Option<Vec<CodeReference>>, b: Option<Vec<CodeReference>>) -> bool {
    match (a, b) {
        (Some(x), Some(y)) => x@ == y@,
        (None, None) => true,
        _ => false,
    }
}

/// Refreshes the stored hashes of a page: of the one reference to `target`
/// when it is given (see [`refresh_reference`]), of all of them otherwise (see
/// [`refresh_references`]); a page without references is refused. On
/// success the page is stamped with `timestamp`; on failure it is unchanged.
pub fn update_memory_references(
    page: &mut MemoryPage,
    root: &str,
    target: Option<&str>,
    probe: &FileProbe,
    timestamp: String,
) -> (r: Result<Vec<RefreshNote>, String>)
    ensures
        final(page).file_path == old(page).file_path,
        final(page).name == old(page).name,
        final(page).body == old(page).body,
        final(page).frontmatter.title == old(page).frontmatter.title,
        final(page).frontmatter.tags == old(page).frontmatter.tags,
        r is Err ==> same_references(final(page).frontmatter.references, old(page).frontmatter.references)
            && final(page).frontmatter.last_updated == old(page).frontmatter.last_updated,
        r is Ok ==> final(page).frontmatter.last_updated == Some(timestamp),
        match old(page).frontmatter.references {
            None => r matches Err(e) && e@ == no_references_message(),
            Some(old_refs) => match target {
                None => (r matches Ok(n) && notes_view(n@) == refresh_notes(*probe, root@, old_refs@))
                    && (final(page).frontmatter.references matches Some(v)
                    && references_view(v@) == refreshed_references(*probe, root@, old_refs@)),
                Some(t) => match first_reference(old_refs@, t@) {
                    None => r matches Err(e) && e@ == reference_not_found_message(t@),
                    Some(k) => if !probe.exists_spec(join(root@, t@)) {
                        r matches Err(e) && e@ == code_file_missing_message(t@)
                    } else {
                        match probe.hash_result(join(root@, t@)) {
                            Ok(h) => (r matches Ok(n) && n@.len() == 0) && (final(page).frontmatter.references matches Some(v)
                                && references_view(v@) == references_view(old_refs@).update(
                                k,
                                (t@, h),
                            )),
                            Err(e) => r matches Err(m) && m@ == e,
                        }
                    },
                },
            },
        },
{
    let mut refs = match page.frontmatter.references.take() {
        Some(v) => v,
        None => {
            let mut msg: Vec<char> = Vec::new();
            crate::text::append_str(&mut msg, "Memory has no references to update.");
            proof {
                reveal_strlit("Memory has no references to update.");
            }
            assert(msg@ =~= no_references_message());
            return Err(crate::text::string_of(msg.as_slice()));
        },
    };
    let ghost old_refs = refs@;
    let notes = match target {
        Some(t) => {
            match refresh_reference(&mut refs, root, t, probe) {
                Ok(()) => Vec::new(),
                Err(e) => {
                    assert(refs@ == old_refs);
                    page.frontmatter.references = Some(refs);
                    return Err(e);
                },
            }
        },
        None => refresh_references(&mut refs, root, probe),
    };
    page.frontmatter.references = Some(refs);
    page.frontmatter.last_updated = Some(timestamp);
    Ok(notes)
}

// ---------------------------------------------------------------------------
// New notes
// ---------------------------------------------------------------------------

/// The file name a new note gets: the trimmed name with spaces turned into
/// hyphens, with `.md` added unless it already ends so.
pub open spec fn note_file_name(name: Seq<char>) -> Seq<char> {
    let safe = replace_char(trim(name), ' ', '-');
    if ends_with(safe, md_ext()) {
        safe
    } else {
        safe + md_ext()
    }
}

/// The title a new note gets when none is given: the trimmed name with
/// hyphens and underscores turned into spaces.
pub open spec fn default_title(name: Seq<char>) -> Seq<char> {
    replace_char(replace_char(trim(name), '-', ' '), '_', ' ')
}

/// The body a new note starts with.
pub open spec fn new_note_body(title: Seq<char>) -> Seq<char> {
    seq!['#', ' '] + title + seq![
        '\n', '\n', 'W', 'r', 'i', 't', 'e', ' ', 'y', 'o', 'u', 'r', ' ', 'm', 'e', 'm', 'o',
        'r', 'y', ' ', 'h', 'e', 'r', 'e', '.', '.', '.', '\n',
    ]
}

/// The tags of a comma-separated list, each trimmed; no tags without a list.
pub open spec fn parsed_tags(tags: Option<Seq<char>>) -> Seq<Seq<char>> {
    match tags {
        Some(t) => split_on(t, ',').map_values(|p: Seq<char>| trim(p)),
        None => seq![],
    }
}

/// Whether `page` is the new note that `name`, `tags` and `title` describe,
/// placed in `memories_dir` and stamped with `timestamp`.
pub open spec fn is_new_note(
    page: MemoryPage,
    memories_dir: Seq<char>,
    name: Seq<char>,
    tags: Option<Seq<char>>,
    title: Option<Seq<char>>,
    timestamp: Seq<char>,
) -> bool {
    let path = join(memories_dir, note_file_name(name));
    let shown = match title {
        Some(t) => t,
        None => default_title(name),
    };
    &&& page.file_path@ == path
    &&& file_stem(path) == Some(page.name@)
    &&& page.frontmatter.title matches Some(t) && t@ == shown
    &&& page.frontmatter.references matches Some(v) && v@.len() == 0
    &&& page.frontmatter.tags matches Some(v) && strings_view(v@) == parsed_tags(tags)
    &&& page.frontmatter.last_updated matches Some(u) && u@ == timestamp
    &&& page.body@ == new_note_body(shown)
}

/// The new note `handle_add` writes (see [`is_new_note`]).
pub fn new_memory_page(
    memories_dir: &str,
    name: &str,
    tags: Option<String>,
    title: Option<String>,
    timestamp: String,
) -> (page: MemoryPage)
    ensures
        is_new_note(
            page,
            memories_dir@,
            name@,
            match tags {
                Some(t) => Some(t@),
                None => None,
            },
            match title {
                Some(t) => Some(t@),
                None => None,
            },
            timestamp@,
        ),
{
    let n = chars_of(name);
    let trimmed = trim_chars(n.as_slice());
    // File name
    let mut safe: Vec<char> = Vec::new();
    let mut i: usize = 0;
    while i < trimmed.len()
        invariant
            i <= trimmed@.len(),
            safe@ == replace_char(trimmed@, ' ', '-').take(i as int),
        decreases trimmed.len() - i,
    {
        safe.push(if trimmed[i] == ' ' { '-' } else { trimmed[i] });
        assert(safe@ =~= replace_char(trimmed@, ' ', '-').take(i + 1));
        i += 1;
    }
    assert(safe@ =~= replace_char(trimmed@, ' ', '-'));
    let ext: Vec<char> = vec!['.', 'm', 'd'];
    assert(ext@ == md_ext());
    if !ends_with_exec(safe.as_slice(), ext.as_slice()) {
        append_chars(&mut safe, ext.as_slice());
    }
    assert(safe@ == note_file_name(name@));
    let dir = chars_of(memories_dir);
    let path = join_chars(dir.as_slice(), safe.as_slice());
    // Page name: the file stem, which always exists since the path ends in `.md`.
    proof {
        assert(safe@.len() >= 3 && safe@.skip(safe@.len() - 3) == md_ext());
        assert(path@.skip(path@.len() - safe@.len()) =~= safe@);
        assert(path@.last() == safe@.last());
        assert(safe@.last() == safe@.skip(safe@.len() - 3)[2]);
        lemma_file_name_exists(path@);
    }
    let stem = match file_stem_chars(path.as_slice()) {
        Some(s) => s,
        None => {
            assert(false);
            Vec::new()
        },
    };
    // Title
    let shown = match title {
        Some(t) => t,
        None => {
            let mut d: Vec<char> = Vec::new();
            let mut k: usize = 0;
            while k < trimmed.len()
                invariant
                    k <= trimmed@.len(),
                    d@ == replace_char(replace_char(trimmed@, '-', ' '), '_', ' ').take(k as int),
                decreases trimmed.len() - k,
            {
                let c = trimmed[k];
                d.push(if c == '-' || c == '_' { ' ' } else { c });
                assert(d@ =~= replace_char(replace_char(trimmed@, '-', ' '), '_', ' ').take(k + 1));
                k += 1;
            }
            assert(d@ =~= replace_char(replace_char(trimmed@, '-', ' '), '_', ' '));
            string_of(d.as_slice())
        },
    };
    // Tags
    let parsed = match &tags {
        Some(t) => {
            let tc = chars_of(t.as_str());
            let v = split_trimmed(tc.as_slice(), ',');
            assert(strings_view(v@) =~= split_on(t@, ',').map_values(|p: Seq<char>| trim(p)));
            v
        },
        None => {
            let v: Vec<String> = Vec::new();
            assert(strings_view(v@) =~= Seq::<Seq<char>>::empty());
            v
        },
    };
    // Body
    let mut body: Vec<char> = vec!['#', ' '];
    append_str(&mut body, shown.as_str());
    append_str(&mut body, "\n\nWrite your memory here...\n");
    proof {
        reveal_strlit("\n\nWrite your memory here...\n");
    }
    assert(body@ =~= new_note_body(shown@));
    MemoryPage {
        file_path: string_of(path.as_slice()),
        name: string_of(stem.as_slice()),
        frontmatter: Frontmatter {
            title: Some(shown),
            references: Some(Vec::new()),
            tags: Some(parsed),
            last_updated: Some(timestamp),
        },
        body: string_of(body.as_slice()),
    }
}

} // verus!

verus! {

// ---------------------------------------------------------------------------
// Queries
// ---------------------------------------------------------------------------

/// Which parts of a page a query term was found in (compared lowercased),
/// and the trimmed body lines that hold it.
#[derive(Debug, Clone)]
pub struct QueryHit {
    pub name_match: bool,
    pub title_match: bool,
    pub tags_match: bool,
    pub body_match: bool,
    pub snippets: Vec<String>,
}

/// The trimmed lines of `ls` whose lowercased forms, given in `lowered`
/// line by line, hold `term`.
pub open spec fn matching_lines_in(ls: Seq<Seq<char>>, lowered: Seq<Seq<char>>, term: Seq<char>) -> Seq<
    Seq<char>,
>
    decreases ls.len(),
{
    if ls.len() == 0 {
        seq![]
    } else {
        let k = ls.len() - 1;
        let rest = matching_lines_in(ls.drop_last(), lowered, term);
        if k < lowered.len() && contains(lowered[k], term) {
            rest.push(trim(ls[k]))
        } else {
            rest
        }
    }
}

/// The lowercased forms of a list of texts.
pub open spec fn lowercased_all(v: Seq<Seq<char>>) -> Seq<Seq<char>> {
    v.map_values(|x: Seq<char>| lowercase(x))
}

/// The trimmed lines of `ls` whose lowercase form holds `term`.
pub open spec fn matching_lines(ls: Seq<Seq<char>>, term: Seq<char>) -> Seq<Seq<char>> {
    matching_lines_in(ls, lowercased_all(ls), term)
}

/// Whether some text of `v` holds `term`.
pub open spec fn some_holds(v: Seq<Seq<char>>, term: Seq<char>) -> bool {
    exists|i: int| 0 <= i < v.len() && contains(v[i], term)
}

/// Whether `hit` is what querying `page` for the lowercased term `t` finds,
/// given the lowercased forms of the page's name, title, tags, body and body
/// lines.
pub open spec fn is_lowered_hit(
    hit: QueryHit,
    page: MemoryPage,
    t: Seq<char>,
    name_l: Seq<char>,
    title_l: Option<Seq<char>>,
    tags_l: Option<Seq<Seq<char>>>,
    body_l: Seq<char>,
    lines_l: Seq<Seq<char>>,
) -> bool {
    &&& hit.name_match == contains(name_l, t)
    &&& hit.title_match == (title_l matches Some(x) && contains(x, t))
    &&& hit.tags_match == (tags_l matches Some(v) && some_holds(v, t))
    &&& hit.body_match == contains(body_l, t)
    &&& strings_view(hit.snippets@) == if hit.body_match {
        matching_lines_in(lines(page.body@), lines_l, t)
    } else {
        seq![]
    }
}

/// Whether a lowercased query term is found, given the lowercased forms of a
/// page's name, title, tags and body.
pub open spec fn lowered_found(
    t: Seq<char>,
    name_l: Seq<char>,
    title_l: Option<Seq<char>>,
    tags_l: Option<Seq<Seq<char>>>,
    body_l: Seq<char>,
) -> bool {
    ||| contains(name_l, t)
    ||| (title_l matches Some(x) && contains(x, t))
    ||| (tags_l matches Some(v) && some_holds(v, t))
    ||| contains(body_l, t)
}

/// The lowercased form of an optional text.
pub open spec fn lowercase_opt(o: Option<String>) -> Option<Seq<char>> {
    match o {
        Some(x) => Some(lowercase(x@)),
        None => None,
    }
}

/// The lowercased forms of optional tags.
pub open spec fn lowercase_tags(o: Option<Vec<String>>) -> Option<Seq<Seq<char>>> {
    match o {
        Some(v) => Some(lowercased_all(strings_view(v@))),
        None => None,
    }
}

/// Whether `hit` is what querying `page` for `term` finds: the name, title,
/// tags and body compared lowercased (see [`is_lowered_hit`]).
pub open spec fn is_query_hit(hit: QueryHit, page: MemoryPage, term: Seq<char>) -> bool {
    is_lowered_hit(
        hit,
        page,
        lowercase(term),
        lowercase(page.name@),
        lowercase_opt(page.frontmatter.title),
        lowercase_tags(page.frontmatter.tags),
        lowercase(page.body@),
        lowercased_all(lines(page.body@)),
    )
}

/// Whether a query term is in a page's name, title, tags or body, all
/// compared lowercased.
pub open spec fn query_found(page: MemoryPage, term: Seq<char>) -> bool {
    lowered_found(
        lowercase(term),
        lowercase(page.name@),
        lowercase_opt(page.frontmatter.title),
        lowercase_tags(page.frontmatter.tags),
        lowercase(page.body@),
    )
}

/// Looks for a query term in a page's name, title, tags and body, all
/// compared lowercased; `None` when it is in none of them.
pub fn query_memory(page: &MemoryPage, term: &str) -> (r: Option<QueryHit>)
    ensures
        r is Some == query_found(*page, term@),
        r matches Some(hit) ==> is_query_hit(hit, *page, term@),
{
    let t = to_lowercase(term);
    let name_l = to_lowercase(page.name.as_str());
    let title_l = match &page.frontmatter.title {
        Some(x) => Some(to_lowercase(x.as_str())),
        None => None,
    };
    let tags_l = match &page.frontmatter.tags {
        Some(v) => Some(lowercase_each(v)),
        None => None,
    };
    let body_l = to_lowercase(page.body.as_str());
    let ls = split_lines(chars_of(page.body.as_str()).as_slice());
    let mut line_texts: Vec<String> = Vec::new();
    let mut k: usize = 0;
    while k < ls.len()
        invariant
            k <= ls@.len(),
            strings_view(line_texts@) == views(ls@).take(k as int),
        decreases ls.len() - k,
    {
        let ghost before = strings_view(line_texts@);
        line_texts.push(string_of(ls[k].as_slice()));
        assert(strings_view(line_texts@) =~= before.push(ls@[k as int]@));
        assert(views(ls@).take(k + 1) =~= views(ls@).take(k as int).push(ls@[k as int]@));
        k += 1;
    }
    assert(views(ls@).take(ls@.len() as int) == views(ls@));
    let lines_l = lowercase_each(&line_texts);
    let title_ref = match &title_l {
        Some(x) => Some(x.as_str()),
        None => None,
    };
    let r = query_lowered(page, t.as_str(), name_l.as_str(), title_ref, tags_l.as_ref(), body_l.as_str(), &lines_l);
    proof {
        assert(lowercase_opt(page.frontmatter.title) == match title_ref {
            Some(x) => Some(x@),
            None => None::<Seq<char>>,
        });
    }
    r
}

/// The lowercased forms of a list of texts.
fn lowercase_each(v: &Vec<String>) -> (r: Vec<String>)
    ensures
        strings_view(r@) == lowercased_all(strings_view(v@)),
{
    let mut r: Vec<String> = Vec::new();
    let mut i: usize = 0;
    while i < v.len()
        invariant
            i <= v@.len(),
            strings_view(r@) == lowercased_all(strings_view(v@)).take(i as int),
        decreases v.len() - i,
    {
        let ghost before = strings_view(r@);
        r.push(to_lowercase(v[i].as_str()));
        assert(strings_view(r@) =~= before.push(lowercase(v@[i as int]@)));
        assert(lowercased_all(strings_view(v@)).take(i + 1) =~= lowercased_all(strings_view(v@)).take(
            i as int,
        ).push(lowercase(v@[i as int]@)));
        i += 1;
    }
    assert(lowercased_all(strings_view(v@)).take(v@.len() as int) =~= lowercased_all(strings_view(v@)));
    r
}

/// Looks for the lowercased term `t` in a page, given the lowercased forms
/// of its name, title, tags, body and body lines (see [`is_lowered_hit`]);
/// `None` when it is in none of them.
pub fn query_lowered(
    page: &MemoryPage,
    t: &str,
    name_l: &str,
    title_l: Option<&str>,
    tags_l: Option<&Vec<String>>,
    body_l: &str,
    lines_l: &Vec<String>,
) -> (r: Option<QueryHit>)
    ensures
        r is Some == lowered_found(
            t@,
            name_l@,
            match title_l {
                Some(x) => Some(x@),
                None => None,
            },
            match tags_l {
                Some(v) => Some(strings_view(v@)),
                None => None,
            },
            body_l@,
        ),
        r matches Some(hit) ==> is_lowered_hit(
            hit,
            *page,
            t@,
            name_l@,
            match title_l {
                Some(x) => Some(x@),
                None => None,
            },
            match tags_l {
                Some(v) => Some(strings_view(v@)),
                None => None,
            },
            body_l@,
            strings_view(lines_l@),
        ),
{
    let tc = chars_of(t);
    let name_match = contains_exec(chars_of(name_l).as_slice(), tc.as_slice());
    let title_match = match title_l {
        Some(x) => contains_exec(chars_of(x).as_slice(), tc.as_slice()),
        None => false,
    };
    let tags_match = match tags_l {
        Some(v) => {
            let mut found = false;
            let mut i: usize = 0;
            while i < v.len()
                invariant
                    i <= v@.len(),
                    tc@ == t@,
                    found == exists|m: int| 0 <= m < i && contains(strings_view(v@)[m], t@),
                decreases v.len() - i,
            {
                if contains_exec(chars_of(v[i].as_str()).as_slice(), tc.as_slice()) {
                    found = true;
                }
                assert(strings_view(v@)[i as int] == v@[i as int]@);
                i += 1;
            }
            found
        },
        None => false,
    };
    let body_match = contains_exec(chars_of(body_l).as_slice(), tc.as_slice());
    let mut snippets: Vec<String> = Vec::new();
    if body_match {
        let body = chars_of(page.body.as_str());
        let ls = split_lines(body.as_slice());
        let ghost lowered = strings_view(lines_l@);
        let mut k: usize = 0;
        while k < ls.len()
            invariant
                k <= ls@.len(),
                tc@ == t@,
                lowered == strings_view(lines_l@),
                views(ls@) == lines(page.body@),
                strings_view(snippets@) == matching_lines_in(views(ls@).take(k as int), lowered, t@),
            decreases ls.len() - k,
        {
            assert(views(ls@).take(k + 1).drop_last() == views(ls@).take(k as int));
            assert(views(ls@).take(k + 1)[k as int] == ls@[k as int]@);
            if k < lines_l.len() && contains_exec(chars_of(lines_l[k].as_str()).as_slice(), tc.as_slice()) {
                assert(lowered[k as int] == lines_l@[k as int]@);
                let tr = trim_chars(ls[k].as_slice());
                let ghost before = strings_view(snippets@);
                snippets.push(string_of(tr.as_slice()));
                assert(strings_view(snippets@) =~= before.push(tr@));
            } else {
                proof {
                    if k < lines_l@.len() {
                        assert(lowered[k as int] == lines_l@[k as int]@);
                    }
                }
            }
            k += 1;
        }
        assert(views(ls@).take(ls@.len() as int) == views(ls@));
    } else {
        assert(strings_view(snippets@) =~= Seq::<Seq<char>>::empty());
    }
    if name_match || title_match || tags_match || body_match {
        Some(QueryHit { name_match, title_match, tags_match, body_match, snippets })
    } else {
        None
    }
}

/// The backlinks shown for a page by `query` and `read`: those recorded under
/// the page's normalised name, as the status check and the explorer use.
pub fn backlinks_by_page_name<'a>(index: &'a BacklinkIndex, page_name: &str) -> (r: Option<
    &'a Vec<Backlink>,
>)
    requires
        exists|pairs: Seq<(Seq<char>, BacklinkV)>| index.models(pairs),
    ensures
        r matches Some(v) ==> index.lookup(normalized_name(page_name@)) == Some(backlinks_view(v@)),
        r is None ==> index.lookup(normalized_name(page_name@)) is None,
{
    let key = normalize_memory_name(page_name);
    index.get(key.as_str())
}

} // verus!

verus! {

// ---------------------------------------------------------------------------
// Compiling a Promptware program
// ---------------------------------------------------------------------------

/// The opening of every compiled prompt.
pub const PROMPT_INTRO: &'static str = "You are an agentic application that evolves over time.\n\n## Program Folder\nVault path is located at: ";

/// The heading of the arguments section.
pub const PROMPT_ARGS: &'static str = "## Arguments\nArguments provided: ";

/// The heading of the memories section.
pub const PROMPT_MEMORIES: &'static str = "## Memories\nBelow are the current active memories from your database:\n";

/// The heading of the instructions section.
pub const PROMPT_INSTRUCTIONS: &'static str = "## Program Instructions\nFollow these step-by-step instructions to execute the task:\n";

/// The closing of every compiled prompt.
pub const PROMPT_REFLECTION: &'static str = "\n\n## Reflection Loop\nAt the end of your run, if you changed code files, write memories or update referenced file hashes in the vault to keep memories verified.\n";

/// The Debug form of a list of strings (`format!("{:?}", v)`): the quoted,
/// escaped items between brackets, separated by `, `.
pub uninterp spec fn list_debug_text(v: Seq<Seq<char>>) -> Seq<char>;

/// `<[String] as Debug>::fmt`, through `format!`. Trusted: the result is
/// [`list_debug_text`] of the items; the quoting rules are not restated.
#[verifier::external_body]
pub(crate) fn list_debug(v: &[String]) -> (r: String)
    ensures
        r@ == list_debug_text(strings_view(v@)),
{
    format!("{:?}", v)
}

/// The section of a compiled prompt for one memory.
pub open spec fn memory_section(page: MemoryPage) -> Seq<char> {
    "=== Memory: "@ + page.name@ + " ===\n"@ + match page.frontmatter.title {
        Some(t) => "Title: "@ + t@ + "\n"@,
        None => seq![],
    } + "Content:\n"@ + page.body@ + "\n\n"@
}

/// The sections of all memories, in order.
pub open spec fn memory_sections(pages: Seq<MemoryPage>) -> Seq<char>
    decreases pages.len(),
{
    if pages.len() == 0 {
        seq![]
    } else {
        memory_sections(pages.drop_last()) + memory_section(pages.last())
    }
}

/// The prompt of a program, given the Debug forms of the vault path and,
/// when there are arguments, of the argument list: the vault location, the
/// arguments, every memory, the program's instructions and the reflection
/// reminder.
pub open spec fn assembled_prompt(
    vault_debug: Seq<char>,
    args_debug: Option<Seq<char>>,
    memories: Seq<MemoryPage>,
    instructions: Seq<char>,
) -> Seq<char> {
    PROMPT_INTRO@ + vault_debug + "\n\n"@ + (match args_debug {
        Some(a) => PROMPT_ARGS@ + a + "\n\n"@,
        None => seq![],
    }) + PROMPT_MEMORIES@ + memory_sections(memories) + PROMPT_INSTRUCTIONS@ + instructions
        + PROMPT_REFLECTION@
}

/// The prompt that compiling a program gives (see [`assembled_prompt`]):
/// the arguments section only when there are arguments.
pub open spec fn compiled_prompt(
    vault_path: Seq<char>,
    args: Seq<Seq<char>>,
    memories: Seq<MemoryPage>,
    instructions: Seq<char>,
) -> Seq<char> {
    assembled_prompt(
        path_debug_text(vault_path),
        if args.len() > 0 {
            Some(list_debug_text(args))
        } else {
            None
        },
        memories,
        instructions,
    )
}

/// Builds the prompt of a Promptware program (see [`compiled_prompt`]).
pub fn compile_prompt(vault_path: &str, args: &[String], memories: &[MemoryPage], instructions: &str) -> (r:
    String)
    ensures
        r@ == compiled_prompt(vault_path@, strings_view(args@), memories@, instructions@),
{
    let dbg = path_debug(vault_path);
    if args.len() > 0 {
        let l = list_debug(args);
        assemble_prompt(dbg.as_str(), Some(l.as_str()), memories, instructions)
    } else {
        assemble_prompt(dbg.as_str(), None, memories, instructions)
    }
}

/// Builds the prompt of a program from the Debug forms of its vault path and
/// argument list (see [`assembled_prompt`]).
pub fn assemble_prompt(vault_debug: &str, args_debug: Option<&str>, memories: &[MemoryPage], instructions: &str) -> (r:
    String)
    ensures
        r@ == assembled_prompt(
            vault_debug@,
            match args_debug {
                Some(a) => Some(a@),
                None => None,
            },
            memories@,
            instructions@,
        ),
{
    let mut out: Vec<char> = Vec::new();
    append_str(&mut out, PROMPT_INTRO);
    append_str(&mut out, vault_debug);
    append_str(&mut out, "\n\n");
    match args_debug {
        Some(a) => {
            append_str(&mut out, PROMPT_ARGS);
            append_str(&mut out, a);
            append_str(&mut out, "\n\n");
        },
        None => {},
    }
    append_str(&mut out, PROMPT_MEMORIES);
    let ghost head = out@;
    let mut p: usize = 0;
    assert(memories@.take(0) =~= Seq::<MemoryPage>::empty());
    assert(out@ =~= head + memory_sections(memories@.take(0)));
    while p < memories.len()
        invariant
            p <= memories@.len(),
            out@ == head + memory_sections(memories@.take(p as int)),
        decreases memories.len() - p,
    {
        let page = &memories[p];
        let ghost before = out@;
        append_str(&mut out, "=== Memory: ");
        append_str(&mut out, page.name.as_str());
        append_str(&mut out, " ===\n");
        match &page.frontmatter.title {
            Some(t) => {
                append_str(&mut out, "Title: ");
                append_str(&mut out, t.as_str());
                append_str(&mut out, "\n");
            },
            None => {},
        }
        append_str(&mut out, "Content:\n");
        append_str(&mut out, page.body.as_str());
        append_str(&mut out, "\n\n");
        assert(out@ =~= before + memory_section(*page));
        assert(memories@.take(p + 1).drop_last() == memories@.take(p as int));
        assert(memories@.take(p + 1).last() == *page);
        p += 1;
    }
    assert(memories@.take(memories@.len() as int) == memories@);
    append_str(&mut out, PROMPT_INSTRUCTIONS);
    append_str(&mut out, instructions);
    append_str(&mut out, PROMPT_REFLECTION);
    let ghost ad = match args_debug {
        Some(a) => Some(a@),
        None => None,
    };
    assert(out@ =~= assembled_prompt(vault_debug@, ad, memories@, instructions@));
    string_of(out.as_slice())
}

/// The markdown file for a name: the name with `.md` added unless it
/// already ends so.
pub open spec fn markdown_file_name_spec(program: Seq<char>) -> Seq<char> {
    if ends_with(program, md_ext()) {
        program
    } else {
        program + md_ext()
    }
}

/// The markdown file for a program or memory name (see
/// [`markdown_file_name_spec`]).
pub fn markdown_file_name(program: &str) -> (r: String)
    ensures
        r@ == markdown_file_name_spec(program@),
{
    let mut v = chars_of(program);
    let ext: Vec<char> = vec!['.', 'm', 'd'];
    assert(ext@ == md_ext());
    if !ends_with_exec(v.as_slice(), ext.as_slice()) {
        append_chars(&mut v, ext.as_slice());
    }
    string_of(v.as_slice())
}

} // verus!

verus! {

// ---------------------------------------------------------------------------
// Resolving memory names
// ---------------------------------------------------------------------------

/// The first of `names` equal to `wanted` when both are lowercased (how a
/// memory file is found by name in a directory listing).
pub fn find_ignoring_case(names: &Vec<String>, wanted: &str) -> (r: Option<usize>)
    ensures
        r matches Some(i) ==> i < names@.len() && lowercase(names@[i as int]@) == lowercase(
            wanted@,
        ) && forall|k: int| 0 <= k < i ==> lowercase(names@[k]@) != lowercase(wanted@),
        r is None ==> forall|k: int|
            0 <= k < names@.len() ==> lowercase(names@[k]@) != lowercase(wanted@),
{
    let w = to_lowercase(wanted);
    let mut i: usize = 0;
    while i < names.len()
        invariant
            i <= names@.len(),
            w@ == lowercase(wanted@),
            forall|k: int| 0 <= k < i ==> lowercase(names@[k]@) != lowercase(wanted@),
        decreases names.len() - i,
    {
        let n = to_lowercase(names[i].as_str());
        if same_text(n.as_str(), w.as_str()) {
            return Some(i);
        }
        i += 1;
    }
    None
}

/// The error for a memory that is found nowhere, given the Debug form of the
/// local memories directory.
pub open spec fn memory_not_found_text_spec(input: Seq<char>, dir_debug: Seq<char>) -> Seq<char> {
    "Memory file '"@ + input + "' not found in local memories directory "@ + dir_debug
        + " or global vault memories."@
}

/// The error for a memory that is found nowhere.
pub open spec fn memory_not_found_message_spec(input: Seq<char>, local_dir: Seq<char>) -> Seq<char> {
    memory_not_found_text_spec(input, path_debug_text(local_dir))
}

/// The error for a memory that is found nowhere (see
/// [`memory_not_found_message_spec`]).
pub fn memory_not_found_message(input: &str, local_dir: &str) -> (r: String)
    ensures
        r@ == memory_not_found_message_spec(input@, local_dir@),
{
    let d = path_debug(local_dir);
    memory_not_found_text(input, d.as_str())
}

/// The error for a memory that is found nowhere, from the Debug form of the
/// local memories directory (see [`memory_not_found_text_spec`]).
pub fn memory_not_found_text(input: &str, dir_debug: &str) -> (r: String)
    ensures
        r@ == memory_not_found_text_spec(input@, dir_debug@),
{
    let mut out: Vec<char> = Vec::new();
    append_str(&mut out, "Memory file '");
    append_str(&mut out, input);
    append_str(&mut out, "' not found in local memories directory ");
    append_str(&mut out, dir_debug);
    append_str(&mut out, " or global vault memories.");
    assert(out@ =~= memory_not_found_text_spec(input@, dir_debug@));
    string_of(out.as_slice())
}

} // verus!

verus! {

/// Querying is case-insensitive in every field: a page is found exactly when
/// the lowercased term occurs in the lowercased name, title, a tag or the
/// body; a hit reports each field by that test; and its snippets are the
/// trimmed body lines whose lowercase holds the lowercased term.
pub proof fn lemma_query_case_insensitive(page: MemoryPage, term: Seq<char>, hit: QueryHit)
    ensures
        query_found(page, term) <==> (contains(lowercase(page.name@), lowercase(term)) || (
        page.frontmatter.title matches Some(t) && contains(lowercase(t@), lowercase(term))) || (
        page.frontmatter.tags matches Some(v) && exists|i: int|
            0 <= i < v@.len() && contains(lowercase(#[trigger] v@[i]@), lowercase(term)))
            || contains(lowercase(page.body@), lowercase(term))),
        is_query_hit(hit, page, term) ==> {
            &&& hit.name_match == contains(lowercase(page.name@), lowercase(term))
            &&& hit.body_match == contains(lowercase(page.body@), lowercase(term))
            &&& hit.title_match == (page.frontmatter.title matches Some(t) && contains(
                lowercase(t@),
                lowercase(term),
            ))
            &&& hit.tags_match == (page.frontmatter.tags matches Some(v) && exists|i: int|
                0 <= i < v@.len() && contains(lowercase(#[trigger] v@[i]@), lowercase(term)))
            &&& hit.body_match ==> forall|k: int|
                0 <= k < hit.snippets@.len() ==> exists|l: int|
                    0 <= l < lines(page.body@).len() && #[trigger] hit.snippets@[k]@ == trim(
                        lines(page.body@)[l],
                    ) && contains(lowercase(lines(page.body@)[l]), lowercase(term))
            &&& hit.body_match ==> forall|l: int|
                0 <= l < lines(page.body@).len() && contains(
                    lowercase(#[trigger] lines(page.body@)[l]),
                    lowercase(term),
                ) ==> strings_view(hit.snippets@).contains(trim(lines(page.body@)[l]))
        },
{
    let t = lowercase(term);
    match page.frontmatter.tags {
        Some(v) => {
            let tl = lowercased_all(strings_view(v@));
            assert(some_holds(tl, t) <==> exists|i: int|
                0 <= i < v@.len() && contains(lowercase(#[trigger] v@[i]@), t)) by {
                if some_holds(tl, t) {
                    let i = choose|i: int| 0 <= i < tl.len() && contains(tl[i], t);
                    assert(tl[i] == lowercase(v@[i]@));
                }
                if exists|i: int| 0 <= i < v@.len() && contains(lowercase(#[trigger] v@[i]@), t) {
                    let i = choose|i: int| 0 <= i < v@.len() && contains(lowercase(#[trigger] v@[i]@), t);
                    assert(tl[i] == lowercase(v@[i]@));
                }
            }
        },
        None => {},
    }
    if is_query_hit(hit, page, term) && hit.body_match {
        let ls = lines(page.body@);
        lemma_matching_lines_in(ls, lowercased_all(ls), t);
        assert forall|k: int| 0 <= k < hit.snippets@.len() implies exists|l: int|
            0 <= l < lines(page.body@).len() && #[trigger] hit.snippets@[k]@ == trim(lines(page.body@)[l])
                && contains(lowercase(lines(page.body@)[l]), t) by {
            assert(strings_view(hit.snippets@)[k] == hit.snippets@[k]@);
            let l = choose|l: int|
                0 <= l < ls.len() && matching_lines_in(ls, lowercased_all(ls), t)[k] == trim(ls[l])
                    && contains(lowercased_all(ls)[l], t);
            assert(lowercased_all(ls)[l] == lowercase(ls[l]));
        }
        lemma_matching_lines_complete(ls, lowercased_all(ls), t);
        assert forall|l: int|
            0 <= l < lines(page.body@).len() && contains(lowercase(#[trigger] lines(page.body@)[l]), t)
            implies strings_view(hit.snippets@).contains(trim(lines(page.body@)[l])) by {
            assert(lowercased_all(ls)[l] == lowercase(ls[l]));
        }
    }
}

proof fn lemma_matching_lines_complete(ls: Seq<Seq<char>>, lowered: Seq<Seq<char>>, t: Seq<char>)
    ensures
        forall|l: int|
            0 <= l < ls.len() && l < lowered.len() && contains(#[trigger] lowered[l], t) ==> matching_lines_in(
                ls,
                lowered,
                t,
            ).contains(trim(ls[l])),
    decreases ls.len(),
{
    if ls.len() > 0 {
        let d = ls.drop_last();
        lemma_matching_lines_complete(d, lowered, t);
        let m = matching_lines_in(ls, lowered, t);
        let md = matching_lines_in(d, lowered, t);
        assert forall|l: int|
            0 <= l < ls.len() && l < lowered.len() && contains(#[trigger] lowered[l], t) implies m.contains(
            trim(ls[l]),
        ) by {
            if l < d.len() {
                assert(d[l] == ls[l]);
                let k = choose|k: int| 0 <= k < md.len() && md[k] == trim(d[l]);
                assert(m[k] == md[k]);
            } else {
                assert(m[m.len() - 1] == trim(ls[l]));
            }
        }
    }
}

proof fn lemma_matching_lines_in(ls: Seq<Seq<char>>, lowered: Seq<Seq<char>>, t: Seq<char>)
    ensures
        forall|k: int|
            0 <= k < matching_lines_in(ls, lowered, t).len() ==> exists|l: int|
                0 <= l < ls.len() && l < lowered.len() && #[trigger] matching_lines_in(ls, lowered, t)[k]
                    == trim(ls[l]) && contains(lowered[l], t),
    decreases ls.len(),
{
    if ls.len() > 0 {
        let d = ls.drop_last();
        lemma_matching_lines_in(d, lowered, t);
        let m = matching_lines_in(ls, lowered, t);
        let md = matching_lines_in(d, lowered, t);
        assert forall|k: int| 0 <= k < m.len() implies exists|l: int|
            0 <= l < ls.len() && l < lowered.len() && #[trigger] m[k] == trim(ls[l]) && contains(lowered[l], t) by {
            if k < md.len() {
                assert(m[k] == md[k]);
                let l = choose|l: int|
                    0 <= l < d.len() && l < lowered.len() && md[k] == trim(d[l]) && contains(lowered[l], t);
                assert(d[l] == ls[l]);
            } else {
                assert(m[k] == trim(ls[ls.len() - 1]));
            }
        }
    }
}

} // verus!
