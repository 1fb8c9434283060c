//! The text the status, shake and read commands print for what the checks
//! found.

use vstd::prelude::*;
use crate::engine::{
    FileProbe, MemoryCheckResult, RefState, ReferenceStatus, VaultStatus, ref_state,
};
use crate::models::{CodeReference, strings_view};
use crate::parser::{path_debug, path_debug_text};
use crate::path::{join, join_path};
use crate::text::{append_chars, append_str, chars_of, same_text, slice_chars, string_of};

verus! {

/// The number of bytes UTF-8 uses for `c`.
pub open spec fn utf8_len(c: char) -> nat {
    let u = c as u32;
    if u < 0x80 {
        1
    } else if u < 0x800 {
        2
    } else if u < 0x10000 {
        3
    } else {
        4
    }
}

/// The number of bytes of the UTF-8 encoding of `s`.
pub open spec fn byte_len(s: Seq<char>) -> nat
    decreases s.len(),
{
    if s.len() == 0 {
        0
    } else {
        byte_len(s.drop_last()) + utf8_len(s.last())
    }
}

/// Whether byte offset `n` of the encoding of `s` is a character boundary, so
/// that `&s[..n]` does not panic.
pub open spec fn is_boundary(s: Seq<char>, n: nat) -> bool {
    exists|m: int| 0 <= m <= s.len() && byte_len(#[trigger] s.take(m)) == n
}

/// The text of `s` up to byte offset `n`, when that offset is a boundary.
pub open spec fn byte_prefix(s: Seq<char>, n: nat) -> Seq<char> {
    s.take(choose|m: int| 0 <= m <= s.len() && byte_len(#[trigger] s.take(m)) == n)
}

/// The first eight bytes of a hash, or all of it when it is shorter
/// (`&h[..min(8, h.len())]`).
pub open spec fn short_hash(h: Seq<char>) -> Seq<char> {
    if byte_len(h) <= 8 {
        h
    } else {
        byte_prefix(h, 8)
    }
}

/// Whether [`short_hash`] is defined for `h` (the slice would not panic).
pub open spec fn short_hash_ok(h: Seq<char>) -> bool {
    byte_len(h) <= 8 || is_boundary(h, 8)
}

fn utf8_len_exec(c: char) -> (n: usize)
    ensures
        n == utf8_len(c),
{
    let u = c as u32;
    if u < 0x80 {
        1
    } else if u < 0x800 {
        2
    } else if u < 0x10000 {
        3
    } else {
        4
    }
}

proof fn lemma_byte_len_monotone(s: Seq<char>, a: int, b: int)
    requires
        0 <= a < b <= s.len(),
    ensures
        byte_len(s.take(a)) < byte_len(s.take(b)),
    decreases b - a,
{
    assert(s.take(b).drop_last() == s.take(b - 1));
    if a < b - 1 {
        lemma_byte_len_monotone(s, a, b - 1);
    }
}

/// The text of `h` up to byte `n` (see [`byte_prefix`]).
fn prefix_of_bytes(h: &[char], n: usize) -> (r: Vec<char>)
    requires
        is_boundary(h@, n as nat),
    ensures
        r@ == byte_prefix(h@, n as nat),
{
    let ghost m0 = choose|m: int| 0 <= m <= h@.len() && byte_len(#[trigger] h@.take(m)) == n;
    let mut m: usize = 0;
    let mut bytes: usize = 0;
    assert(h@.take(0) =~= Seq::<char>::empty());
    while bytes < n
        invariant
            m <= h@.len(),
            bytes == byte_len(h@.take(m as int)),
            0 <= m0 <= h@.len(),
            byte_len(h@.take(m0)) == n,
            bytes <= n,
            m <= m0,
        decreases n - bytes,
    {
        proof {
            if m as int == m0 {
                assert(false);
            }
            if m0 > (m + 1) as int {
                lemma_byte_len_monotone(h@, m + 1, m0);
            }
        }
        assert(h@.take(m + 1).drop_last() == h@.take(m as int));
        assert(h@.take(m + 1).last() == h@[m as int]);
        bytes = bytes + utf8_len_exec(h[m]);
        m += 1;
    }
    proof {
        if m0 > m as int {
            lemma_byte_len_monotone(h@, m as int, m0);
        }
    }
    assert(m as int == m0);
    slice_chars(h, 0, m)
}

/// The first eight bytes of a hash (see [`short_hash`]).
pub fn short_hash_text(h: &str) -> (r: String)
    requires
        short_hash_ok(h@),
    ensures
        r@ == short_hash(h@),
{
    let v = chars_of(h);
    let mut total: usize = 0;
    let mut i: usize = 0;
    let mut over = false;
    assert(v@.take(0) =~= Seq::<char>::empty());
    while i < v.len() && !over
        invariant
            i <= v@.len(),
            !over ==> total == byte_len(v@.take(i as int)) && total <= 8,
            over ==> byte_len(v@) > 8,
        decreases v.len() - i,
    {
        assert(v@.take(i + 1).drop_last() == v@.take(i as int));
        let c = utf8_len_exec(v[i]);
        if c > 8 - total {
            proof {
                lemma_byte_len_prefix_le(v@, i + 1);
            }
            over = true;
        } else {
            total = total + c;
        }
        i += 1;
    }
    if over {
        string_of(prefix_of_bytes(v.as_slice(), 8).as_slice())
    } else {
        assert(v@.take(i as int) == v@);
        string_of(v.as_slice())
    }
}

proof fn lemma_byte_len_prefix_le(s: Seq<char>, m: int)
    requires
        0 <= m <= s.len(),
    ensures
        byte_len(s.take(m)) <= byte_len(s),
{
    if m < s.len() {
        lemma_byte_len_monotone(s, m, s.len() as int);
    }
    assert(s.take(s.len() as int) == s);
}

} // verus!

verus! {

/// The report line for one checked reference, if it is not up to date.
pub open spec fn reference_issue(path: Seq<char>, s: RefState) -> Seq<Seq<char>> {
    match s {
        RefState::UpToDate => seq![],
        RefState::Outdated(stored, current) => seq![
            "  [OUTDATED CODE] "@ + path + " (stored: "@ + short_hash(stored) + ", current: "@
                + short_hash(current) + ")"@,
        ],
        RefState::Missing => seq!["  [MISSING CODE] "@ + path],
    }
}

/// The report lines for a page's references, in order.
pub open spec fn reference_issues(m: MemoryCheckResult, k: int) -> Seq<Seq<char>>
    decreases k,
{
    if k <= 0 || k > m.references@.len() {
        seq![]
    } else {
        reference_issues(m, k - 1) + reference_issue(
            m.references@[k - 1].path@,
            ref_state(m.references@[k - 1].status),
        )
    }
}

/// The report lines for broken links, in order.
pub open spec fn broken_link_issues(links: Seq<Seq<char>>) -> Seq<Seq<char>> {
    links.map_values(|b: Seq<char>| "  [BROKEN LINK] [["@ + b + "]]"@)
}

/// The line that reports an orphan page.
pub const ORPHAN_ISSUE: &'static str = "  [ORPHAN] Not linked by any other memory page";

/// The line that reports unfinished template placeholders.
pub const INCOMPLETE_ISSUE: &'static str = "  [INCOMPLETE] Contains pending file descriptions ([Enter description...])";

/// Everything `status` reports about one page: stale references, broken
/// links, orphanhood and placeholders, in that order.
pub open spec fn memory_issues(m: MemoryCheckResult) -> Seq<Seq<char>> {
    reference_issues(m, m.references@.len() as int) + broken_link_issues(strings_view(m.broken_links@))
        + (if m.is_orphan {
        seq![ORPHAN_ISSUE@]
    } else {
        seq![]
    }) + (if m.has_placeholders {
        seq![INCOMPLETE_ISSUE@]
    } else {
        seq![]
    })
}

/// Whether every out-of-date reference of a page holds hashes whose first
/// eight bytes can be cut out.
pub open spec fn hashes_printable(m: MemoryCheckResult) -> bool {
    forall|j: int|
        0 <= j < m.references@.len() ==> match ref_state(#[trigger] m.references@[j].status) {
            RefState::Outdated(stored, current) => short_hash_ok(stored) && short_hash_ok(current),
            _ => true,
        }
}

/// The lines `status` prints under a page (see [`memory_issues`]).
pub fn status_issues(m: &MemoryCheckResult) -> (r: Vec<String>)
    requires
        hashes_printable(*m),
    ensures
        strings_view(r@) == memory_issues(*m),
{
    let mut out: Vec<String> = Vec::new();
    let mut j: usize = 0;
    while j < m.references.len()
        invariant
            j <= m.references@.len(),
            hashes_printable(*m),
            strings_view(out@) == reference_issues(*m, j as int),
        decreases m.references.len() - j,
    {
        let r = &m.references[j];
        let ghost before = strings_view(out@);
        match &r.status {
            ReferenceStatus::UpToDate => {},
            ReferenceStatus::Outdated { stored, current } => {
                assert(ref_state(m.references@[j as int].status) == RefState::Outdated(stored@, current@));
                let mut line: Vec<char> = Vec::new();
                append_str(&mut line, "  [OUTDATED CODE] ");
                append_str(&mut line, r.path.as_str());
                append_str(&mut line, " (stored: ");
                let s = short_hash_text(stored.as_str());
                append_str(&mut line, s.as_str());
                append_str(&mut line, ", current: ");
                let c = short_hash_text(current.as_str());
                append_str(&mut line, c.as_str());
                append_str(&mut line, ")");
                out.push(string_of(line.as_slice()));
            },
            ReferenceStatus::Missing => {
                let mut line: Vec<char> = Vec::new();
                append_str(&mut line, "  [MISSING CODE] ");
                append_str(&mut line, r.path.as_str());
                out.push(string_of(line.as_slice()));
            },
        }
        assert(strings_view(out@) =~= before + reference_issue(r.path@, ref_state(r.status)));
        j += 1;
    }
    let mut k: usize = 0;
    let ghost head = strings_view(out@);
    while k < m.broken_links.len()
        invariant
            k <= m.broken_links@.len(),
            strings_view(out@) == head + broken_link_issues(strings_view(m.broken_links@)).take(
                k as int,
            ),
        decreases m.broken_links.len() - k,
    {
        let mut line: Vec<char> = Vec::new();
        append_str(&mut line, "  [BROKEN LINK] [[");
        append_str(&mut line, m.broken_links[k].as_str());
        append_str(&mut line, "]]");
        let ghost before = strings_view(out@);
        let ghost issues = broken_link_issues(strings_view(m.broken_links@));
        assert(line@ == "  [BROKEN LINK] [["@ + m.broken_links@[k as int]@ + "]]"@);
        assert(issues[k as int] == line@);
        assert(issues.take(k + 1) =~= issues.take(k as int).push(line@));
        out.push(string_of(line.as_slice()));
        assert(strings_view(out@) =~= before.push(line@));
        k += 1;
    }
    assert(broken_link_issues(strings_view(m.broken_links@)).take(m.broken_links@.len() as int)
        =~= broken_link_issues(strings_view(m.broken_links@)));
    let ghost mid = strings_view(out@);
    if m.is_orphan {
        out.push(string_of(chars_of(ORPHAN_ISSUE).as_slice()));
    }
    let ghost mid2 = strings_view(out@);
    assert(mid2 =~= mid + (if m.is_orphan { seq![ORPHAN_ISSUE@] } else { seq![] }));
    if m.has_placeholders {
        out.push(string_of(chars_of(INCOMPLETE_ISSUE).as_slice()));
    }
    assert(strings_view(out@) =~= memory_issues(*m));
    out
}

/// The status shown by `read` for one reference: `MISSING` when its file does
/// not exist, `OK` when the file's hash is the stored one, `OUTDATED (current:
/// <first eight bytes of the current hash>)` when it differs, `ERROR` when the
/// file could not be hashed.
pub open spec fn read_label(probe: FileProbe, root: Seq<char>, r: CodeReference) -> Seq<char> {
    let p = join(root, r.path@);
    if !probe.exists_spec(p) {
        "MISSING"@
    } else {
        match probe.hash_result(p) {
            Ok(h) => if h == r.hash@ {
                "OK"@
            } else {
                "OUTDATED (current: "@ + byte_prefix(h, 8) + ")"@
            },
            Err(_) => "ERROR"@,
        }
    }
}

/// Whether [`read_label`] is defined: a differing current hash must be at
/// least eight bytes long with a character boundary there (`&h[..8]`).
pub open spec fn read_label_ok(probe: FileProbe, root: Seq<char>, r: CodeReference) -> bool {
    let p = join(root, r.path@);
    probe.exists_spec(p) ==> match probe.hash_result(p) {
        Ok(h) => h != r.hash@ ==> is_boundary(h, 8),
        Err(_) => true,
    }
}

/// The status `read` shows for one reference (see [`read_label`]).
pub fn read_reference_label(probe: &FileProbe, root: &str, r: &CodeReference) -> (s: String)
    requires
        read_label_ok(*probe, root@, *r),
    ensures
        s@ == read_label(*probe, root@, *r),
{
    let p = join_path(root, r.path.as_str());
    let mut out: Vec<char> = Vec::new();
    if !probe.file_exists(p.as_str()) {
        append_str(&mut out, "MISSING");
    } else {
        match probe.fact(p.as_str()) {
            Some(f) => match &f.hash {
                Ok(h) => {
                    if same_text(h.as_str(), r.hash.as_str()) {
                        append_str(&mut out, "OK");
                    } else {
                        append_str(&mut out, "OUTDATED (current: ");
                        let hc = chars_of(h.as_str());
                        let pre = prefix_of_bytes(hc.as_slice(), 8);
                        append_chars(&mut out, pre.as_slice());
                        append_str(&mut out, ")");
                    }
                },
                Err(_) => {
                    append_str(&mut out, "ERROR");
                },
            },
            None => {
                append_str(&mut out, "ERROR");
            },
        }
    }
    assert(out@ =~= read_label(*probe, root@, *r));
    string_of(out.as_slice())
}

} // verus!

verus! {

/// What `shake` reports about one page: its broken links, then whether it is
/// an orphan.
pub open spec fn shake_page_lines(m: MemoryCheckResult) -> Seq<Seq<char>> {
    (if m.broken_links@.len() > 0 {
        seq!["Memory '"@ + m.memory_name@ + "' has broken wiki-links to:"@] + strings_view(
            m.broken_links@,
        ).map_values(|b: Seq<char>| "  - [["@ + b + "]]"@)
    } else {
        seq![]
    }) + (if m.is_orphan {
        seq![
            "Orphan Memory note found: '"@ + m.memory_name@ + "' ("@ + path_debug_text(
                m.file_path@,
            ) + ")"@,
        ]
    } else {
        seq![]
    })
}

/// What `shake` reports about the pages, in order.
pub open spec fn shake_pages_lines(ms: Seq<MemoryCheckResult>) -> Seq<Seq<char>>
    decreases ms.len(),
{
    if ms.len() == 0 {
        seq![]
    } else {
        shake_pages_lines(ms.drop_last()) + shake_page_lines(ms.last())
    }
}

/// The report of `shake`: the findings per page, then a line for each kind
/// of finding that no page had.
pub open spec fn shake_lines(ms: Seq<MemoryCheckResult>) -> Seq<Seq<char>> {
    shake_pages_lines(ms) + (if exists|i: int| 0 <= i < ms.len() && ms[i].broken_links@.len() > 0 {
        seq![]
    } else {
        seq!["No broken wiki-links found."@]
    }) + (if exists|i: int| 0 <= i < ms.len() && ms[i].is_orphan {
        seq![]
    } else {
        seq!["No orphan memory notes found."@]
    })
}

/// The lines `shake` prints about the vault's links and orphans (see
/// [`shake_lines`]).
pub fn shake_report(status: &VaultStatus) -> (r: Vec<String>)
    ensures
        strings_view(r@) == shake_lines(status.memories@),
{
    let ms = &status.memories;
    let mut out: Vec<String> = Vec::new();
    let mut any_broken = false;
    let mut any_orphan = false;
    let mut p: usize = 0;
    assert(ms@.take(0) =~= Seq::<MemoryCheckResult>::empty());
    while p < ms.len()
        invariant
            p <= ms@.len(),
            strings_view(out@) == shake_pages_lines(ms@.take(p as int)),
            any_broken == exists|i: int| 0 <= i < p && ms@[i].broken_links@.len() > 0,
            any_orphan == exists|i: int| 0 <= i < p && ms@[i].is_orphan,
        decreases ms.len() - p,
    {
        let m = &ms[p];
        let ghost before = strings_view(out@);
        if m.broken_links.len() > 0 {
            any_broken = true;
            let mut line: Vec<char> = Vec::new();
            append_str(&mut line, "Memory '");
            append_str(&mut line, m.memory_name.as_str());
            append_str(&mut line, "' has broken wiki-links to:");
            out.push(string_of(line.as_slice()));
            let ghost head = strings_view(out@);
            let ghost items = strings_view(m.broken_links@).map_values(
                |b: Seq<char>| "  - [["@ + b + "]]"@,
            );
            let mut k: usize = 0;
            while k < m.broken_links.len()
                invariant
                    k <= m.broken_links@.len(),
                    items == strings_view(m.broken_links@).map_values(
                        |b: Seq<char>| "  - [["@ + b + "]]"@,
                    ),
                    strings_view(out@) == head + items.take(k as int),
                decreases m.broken_links.len() - k,
            {
                let mut l2: Vec<char> = Vec::new();
                append_str(&mut l2, "  - [[");
                append_str(&mut l2, m.broken_links[k].as_str());
                append_str(&mut l2, "]]");
                assert(items[k as int] == l2@);
                assert(items.take(k + 1) =~= items.take(k as int).push(l2@));
                let ghost b2 = strings_view(out@);
                out.push(string_of(l2.as_slice()));
                assert(strings_view(out@) =~= b2.push(l2@));
                k += 1;
            }
            assert(items.take(m.broken_links@.len() as int) =~= items);
        }
        let ghost mid = strings_view(out@);
        if m.is_orphan {
            any_orphan = true;
            let mut line: Vec<char> = Vec::new();
            append_str(&mut line, "Orphan Memory note found: '");
            append_str(&mut line, m.memory_name.as_str());
            append_str(&mut line, "' (");
            let d = path_debug(m.file_path.as_str());
            append_str(&mut line, d.as_str());
            append_str(&mut line, ")");
            out.push(string_of(line.as_slice()));
            assert(strings_view(out@) =~= mid.push(line@));
        }
        assert(strings_view(out@) =~= before + shake_page_lines(*m));
        assert(ms@.take(p + 1).drop_last() == ms@.take(p as int));
        assert(ms@.take(p + 1).last() == *m);
        p += 1;
    }
    assert(ms@.take(p as int) == ms@);
    let ghost pages = strings_view(out@);
    if !any_broken {
        out.push(string_of(chars_of("No broken wiki-links found.").as_slice()));
    }
    let ghost mid = strings_view(out@);
    assert(mid =~= pages + (if any_broken { seq![] } else { seq!["No broken wiki-links found."@] }));
    if !any_orphan {
        out.push(string_of(chars_of("No orphan memory notes found.").as_slice()));
    }
    assert(strings_view(out@) =~= shake_lines(ms@));
    out
}

} // verus!
