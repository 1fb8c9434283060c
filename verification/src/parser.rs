//! Markdown memory files: inline-code stripping, wiki-link extraction and the
//! `---` frontmatter framing.

use vstd::prelude::*;
use crate::path::{file_stem, file_stem_chars};
use crate::text::{
    append_chars, append_str, chars_eq, chars_of, contains, find_exec, find_from, lemma_find_from,
    lemma_find_from_first, lemma_trim_chars, lemma_trim_start_prefix, lemma_trim_start_stops,
    lines, occurs_at,
    slice_chars, split_lines, starts_with, starts_with_exec, string_of, trim, trim_chars,
    trim_start, trim_start_chars, views,
};

verus! {

// ---------------------------------------------------------------------------
// Inline code spans
// ---------------------------------------------------------------------------

/// The number of consecutive backticks in `s` starting at `i`.
pub open spec fn run_len(s: Seq<char>, i: int) -> nat
    decreases s.len() - i,
{
    if 0 <= i < s.len() && s[i] == '`' {
        1 + run_len(s, i + 1)
    } else {
        0
    }
}

/// Where the backtick run that closes an opening run of length `n` starts:
/// the first run at or after `j`, scanning run by run, whose length is
/// exactly `n`.
pub open spec fn closing_run(s: Seq<char>, j: int, n: nat) -> Option<int>
    decreases s.len() - j,
{
    if j < 0 || j >= s.len() {
        None
    } else if s[j] == '`' {
        if run_len(s, j) == n {
            Some(j)
        } else {
            proof {
                lemma_run_len(s, j);
                assert(run_len(s, j) == 1 + run_len(s, j + 1));
            }
            closing_run(s, j + run_len(s, j), n)
        }
    } else {
        closing_run(s, j + 1, n)
    }
}

pub proof fn lemma_run_len(s: Seq<char>, i: int)
    requires
        0 <= i <= s.len(),
    ensures
        i + run_len(s, i) <= s.len(),
        forall|k: int| i <= k < i + run_len(s, i) ==> s[k] == '`',
        i + run_len(s, i) < s.len() ==> s[i + run_len(s, i)] != '`',
    decreases s.len() - i,
{
    if i < s.len() && s[i] == '`' {
        lemma_run_len(s, i + 1);
    }
}

pub proof fn lemma_closing_run(s: Seq<char>, j: int, n: nat)
    requires
        0 <= j,
    ensures
        closing_run(s, j, n) matches Some(k) ==> j <= k && k + n <= s.len() && run_len(s, k)
            == n,
    decreases s.len() - j,
{
    if 0 <= j < s.len() {
        lemma_run_len(s, j);
        if s[j] == '`' {
            if run_len(s, j) != n {
                lemma_closing_run(s, j + run_len(s, j), n);
            }
        } else {
            lemma_closing_run(s, j + 1, n);
        }
    }
}

/// The text of `s` from position `i` on with its inline code spans removed:
/// a run of backticks together with everything up to the next run of the same
/// length is dropped; a run with no such partner stays as literal text.
pub open spec fn strip_code_from(s: Seq<char>, i: int) -> Seq<char>
    decreases s.len() - i,
{
    if i < 0 || i >= s.len() {
        seq![]
    } else if s[i] != '`' {
        seq![s[i]] + strip_code_from(s, i + 1)
    } else {
        let n = run_len(s, i);
        proof {
            lemma_run_len(s, i);
            lemma_closing_run(s, i + n, n);
        }
        match closing_run(s, i + n, n) {
            Some(j) => strip_code_from(s, j + n),
            None => s.subrange(i, i + n) + strip_code_from(s, i + n),
        }
    }
}

/// A line with its inline code spans removed.
pub open spec fn strip_inline_code(s: Seq<char>) -> Seq<char> {
    strip_code_from(s, 0)
}

/// The length of the backtick run of `s` that starts at `i`.
fn run_len_exec(s: &[char], i: usize) -> (n: usize)
    requires
        i <= s@.len(),
    ensures
        n == run_len(s@, i as int),
        i + n <= s@.len(),
{
    proof {
        lemma_run_len(s@, i as int);
    }
    let mut k = i;
    while k < s.len() && s[k] == '`'
        invariant
            i <= k <= s@.len(),
            run_len(s@, i as int) == (k - i) + run_len(s@, k as int),
        decreases s.len() - k,
    {
        k += 1;
    }
    k - i
}

/// Where the run that closes an opening run of `n` backticks starts, searching
/// from `j`.
fn closing_run_exec(s: &[char], j: usize, n: usize) -> (r: Option<usize>)
    requires
        j <= s@.len(),
    ensures
        r matches Some(k) ==> closing_run(s@, j as int, n as nat) == Some(k as int),
        r is None ==> closing_run(s@, j as int, n as nat) is None,
{
    let mut k = j;
    while k < s.len()
        invariant
            j <= k <= s@.len(),
            closing_run(s@, k as int, n as nat) == closing_run(s@, j as int, n as nat),
        decreases s.len() - k,
    {
        if s[k] == '`' {
            let c = run_len_exec(s, k);
            if c == n {
                return Some(k);
            }
            k = k + c;
        } else {
            k += 1;
        }
    }
    None
}

/// `line` with its inline code spans removed (see [`strip_inline_code`]).
pub fn clean_inline_code(line: &str) -> (res: String)
    ensures
        res@ == strip_inline_code(line@),
{
    let chars = chars_of(line);
    let cleaned = strip_inline_code_chars(chars.as_slice());
    string_of(cleaned.as_slice())
}

/// [`clean_inline_code`] on a character slice.
pub fn strip_inline_code_chars(chars: &[char]) -> (res: Vec<char>)
    ensures
        res@ == strip_inline_code(chars@),
{
    let mut clean: Vec<char> = Vec::new();
    let mut i: usize = 0;
    while i < chars.len()
        invariant
            i <= chars@.len(),
            clean@ + strip_code_from(chars@, i as int) == strip_inline_code(chars@),
        decreases chars.len() - i,
    {
        if chars[i] == '`' {
            let count = run_len_exec(chars, i);
            proof {
                lemma_run_len(chars@, i as int);
                lemma_closing_run(chars@, (i + count) as int, count as nat);
            }
            match closing_run_exec(chars, i + count, count) {
                Some(j) => {
                    i = j + count;
                },
                None => {
                    let ghost before = clean@;
                    let mut t: usize = 0;
                    while t < count
                        invariant
                            t <= count,
                            i + count <= chars@.len(),
                            clean@ == before + chars@.subrange(i as int, i + t),
                            forall|k: int| i <= k < i + count ==> chars@[k] == '`',
                        decreases count - t,
                    {
                        clean.push('`');
                        assert(chars@.subrange(i as int, i + t + 1) == chars@.subrange(
                            i as int,
                            i + t,
                        ).push(chars@[i + t]));
                        t += 1;
                    }
                    i = i + count;
                },
            }
        } else {
            clean.push(chars[i]);
            i += 1;
        }
    }
    assert(clean@ + strip_code_from(chars@, i as int) == clean@);
    clean
}

} // verus!

verus! {

// ---------------------------------------------------------------------------
// Wiki-links: `[[target]]`, `[[target#anchor]]`, `[[target|label]]`,
// `[[target#anchor|label]]`
// ---------------------------------------------------------------------------

/// A character that may stand in a link target (anything but `]`, `#`, `|`).
pub open spec fn target_char(c: char) -> bool {
    c != ']' && c != '#' && c != '|'
}

/// A character that may stand in a link anchor (anything but `]`, `|`).
pub open spec fn anchor_char(c: char) -> bool {
    c != ']' && c != '|'
}

/// A character that may stand in a link label (anything but `]`).
pub open spec fn label_char(c: char) -> bool {
    c != ']'
}

/// Character classes of the three parts of a wiki-link: 0 target, 1 anchor,
/// 2 label.
pub open spec fn part_char(class: int, c: char) -> bool {
    if class == 0 {
        target_char(c)
    } else if class == 1 {
        anchor_char(c)
    } else {
        label_char(c)
    }
}

/// The number of consecutive characters of class `class` in `s` from `i` on.
pub open spec fn span(s: Seq<char>, i: int, class: int) -> nat
    decreases s.len() - i,
{
    if 0 <= i < s.len() && part_char(class, s[i]) {
        1 + span(s, i + 1, class)
    } else {
        0
    }
}

/// Where an optional part introduced by `mark` and made of class `class`
/// ends, when it may start at `q`; `None` when `mark` stands at `q` but is not
/// followed by at least one character of the class.
pub open spec fn after_part(s: Seq<char>, q: int, mark: char, class: int) -> Option<int> {
    if 0 <= q < s.len() && s[q] == mark {
        if span(s, q + 1, class) > 0 {
            Some(q + 1 + span(s, q + 1, class))
        } else {
            None
        }
    } else {
        Some(q)
    }
}

/// The wiki-link that starts at position `p` of `s`, if one does: the end of
/// its target and the end of the whole link.
pub open spec fn link_at(s: Seq<char>, p: int) -> Option<(int, int)> {
    if 0 <= p && p + 1 < s.len() && s[p] == '[' && s[p + 1] == '[' && span(s, p + 2, 0) > 0 {
        let q = p + 2 + span(s, p + 2, 0);
        match after_part(s, q, '#', 1) {
            None => None,
            Some(q2) => match after_part(s, q2, '|', 2) {
                None => None,
                Some(q3) => if q3 < s.len() && q3 + 1 < s.len() && s[q3] == ']' && s[q3 + 1] == ']' {
                    Some((q, q3 + 2))
                } else {
                    None
                },
            },
        }
    } else {
        None
    }
}

pub proof fn lemma_span(s: Seq<char>, i: int, class: int)
    requires
        0 <= i <= s.len(),
    ensures
        i + span(s, i, class) <= s.len(),
        forall|k: int| i <= k < i + span(s, i, class) ==> part_char(class, s[k]),
        i + span(s, i, class) < s.len() ==> !part_char(class, s[i + span(s, i, class)]),
    decreases s.len() - i,
{
    if i < s.len() && part_char(class, s[i]) {
        lemma_span(s, i + 1, class);
    }
}

pub proof fn lemma_link_at(s: Seq<char>, p: int)
    ensures
        link_at(s, p) matches Some((q, e)) ==> 0 <= p && p + 2 < q && q + 2 <= e <= s.len(),
{
    if 0 <= p && p + 1 < s.len() && s[p] == '[' && s[p + 1] == '[' {
        lemma_span(s, p + 2, 0);
        let q = p + 2 + span(s, p + 2, 0);
        if 0 <= q < s.len() {
            lemma_span(s, q + 1, 1);
        }
        if let Some(q2) = after_part(s, q, '#', 1) {
            if 0 <= q2 < s.len() {
                lemma_span(s, q2 + 1, 2);
            }
        }
    }
}

/// The wiki-links of a line from position `i` on, found left to right without
/// overlap: each as its trimmed target and the whole matched text.
pub open spec fn links_from(s: Seq<char>, i: int) -> Seq<(Seq<char>, Seq<char>)>
    decreases s.len() - i,
{
    if i < 0 || i >= s.len() {
        seq![]
    } else {
        proof {
            lemma_link_at(s, i);
        }
        match link_at(s, i) {
            Some((q, e)) => seq![(trim(s.subrange(i + 2, q)), s.subrange(i, e))] + links_from(s, e),
            None => links_from(s, i + 1),
        }
    }
}

/// The wiki-links of one line of text.
pub open spec fn line_links(s: Seq<char>) -> Seq<(Seq<char>, Seq<char>)> {
    links_from(s, 0)
}

/// The wiki-links of a sequence of lines, given whether a fenced code block is
/// open before the first: a line whose trimmed text starts with three
/// backticks opens or closes a block; lines inside a block give no links;
/// other lines give the links of their text with inline code removed.
pub open spec fn links_of_lines(ls: Seq<Seq<char>>, in_code: bool) -> Seq<(Seq<char>, Seq<char>)>
    decreases ls.len(),
{
    if ls.len() == 0 {
        seq![]
    } else if starts_with(trim(ls[0]), seq!['`', '`', '`']) {
        links_of_lines(ls.drop_first(), !in_code)
    } else if in_code {
        links_of_lines(ls.drop_first(), in_code)
    } else {
        line_links(strip_inline_code(ls[0])) + links_of_lines(ls.drop_first(), in_code)
    }
}

/// The wiki-links of a markdown body, in order of appearance.
pub open spec fn wiki_links(body: Seq<char>) -> Seq<(Seq<char>, Seq<char>)> {
    links_of_lines(lines(body), false)
}

/// The pairs of character sequences held by a list of string pairs.
pub open spec fn pair_views(v: Seq<(String, String)>) -> Seq<(Seq<char>, Seq<char>)> {
    v.map_values(|p: (String, String)| (p.0@, p.1@))
}

fn part_char_exec(class: u8, c: char) -> (b: bool)
    ensures
        b == part_char(class as int, c),
{
    if class == 0 {
        c != ']' && c != '#' && c != '|'
    } else if class == 1 {
        c != ']' && c != '|'
    } else {
        c != ']'
    }
}

fn span_exec(s: &[char], i: usize, class: u8) -> (n: usize)
    requires
        i <= s@.len(),
        class <= 2,
    ensures
        n == span(s@, i as int, class as int),
        i + n <= s@.len(),
{
    proof {
        lemma_span(s@, i as int, class as int);
    }
    let mut k = i;
    while k < s.len() && part_char_exec(class, s[k])
        invariant
            i <= k <= s@.len(),
            class <= 2,
            span(s@, i as int, class as int) == (k - i) + span(s@, k as int, class as int),
        decreases s.len() - k,
    {
        k += 1;
    }
    k - i
}

fn after_part_exec(s: &[char], q: usize, mark: char, class: u8) -> (r: Option<usize>)
    requires
        q <= s@.len(),
        class <= 2,
    ensures
        r matches Some(k) ==> after_part(s@, q as int, mark, class as int) == Some(k as int)
            && k <= s@.len(),
        r is None ==> after_part(s@, q as int, mark, class as int) is None,
{
    if q < s.len() && s[q] == mark {
        let h = span_exec(s, q + 1, class);
        if h > 0 {
            Some(q + 1 + h)
        } else {
            None
        }
    } else {
        Some(q)
    }
}

fn link_at_exec(s: &[char], p: usize) -> (r: Option<(usize, usize)>)
    requires
        p <= s@.len(),
    ensures
        r matches Some((q, e)) ==> link_at(s@, p as int) == Some((q as int, e as int)),
        r is None ==> link_at(s@, p as int) is None,
{
    if p < s.len() && p + 1 < s.len() && s[p] == '[' && s[p + 1] == '[' {
        let t = span_exec(s, p + 2, 0);
        if t == 0 {
            return None;
        }
        let q = p + 2 + t;
        match after_part_exec(s, q, '#', 1) {
            None => None,
            Some(q2) => match after_part_exec(s, q2, '|', 2) {
                None => None,
                Some(q3) => {
                    if q3 < s.len() && q3 + 1 < s.len() && s[q3] == ']' && s[q3 + 1] == ']' {
                        Some((q, q3 + 2))
                    } else {
                        None
                    }
                },
            },
        }
    } else {
        None
    }
}

/// Appends the wiki-links of one line of text (see [`line_links`]) to `res`.
fn append_line_links(s: &[char], res: &mut Vec<(String, String)>)
    ensures
        pair_views(final(res)@) == pair_views(old(res)@) + line_links(s@),
{
    let ghost start = pair_views(res@);
    let mut i: usize = 0;
    while i < s.len()
        invariant
            i <= s@.len(),
            pair_views(res@) + links_from(s@, i as int) == start + line_links(s@),
        decreases s.len() - i,
    {
        proof {
            lemma_link_at(s@, i as int);
        }
        match link_at_exec(s, i) {
            Some((q, e)) => {
                let target = slice_chars(s, i + 2, q);
                let target = trim_chars(target.as_slice());
                let raw = slice_chars(s, i, e);
                let ghost before = pair_views(res@);
                res.push((string_of(target.as_slice()), string_of(raw.as_slice())));
                assert(pair_views(res@) =~= before.push(
                    (trim(s@.subrange(i + 2, q as int)), s@.subrange(i as int, e as int)),
                ));
                i = e;
            },
            None => {
                i += 1;
            },
        }
    }
    assert(links_from(s@, i as int) == Seq::<(Seq<char>, Seq<char>)>::empty());
    assert(pair_views(res@) + Seq::<(Seq<char>, Seq<char>)>::empty() == pair_views(res@));
}

/// The wiki-links of a markdown body, in order of appearance: each as its
/// trimmed target name and the full `[[...]]` text. Links inside fenced code
/// blocks and inline code spans are ignored.
pub fn extract_wiki_links(body: &str) -> (res: Vec<(String, String)>)
    ensures
        pair_views(res@) == wiki_links(body@),
{
    let chars = chars_of(body);
    let ls = split_lines(chars.as_slice());
    let fence: Vec<char> = vec!['`', '`', '`'];
    let mut res: Vec<(String, String)> = Vec::new();
    let mut in_code = false;
    let mut k: usize = 0;
    assert(views(ls@).skip(0) == views(ls@));
    assert(fence@ == seq!['`', '`', '`']);
    while k < ls.len()
        invariant
            k <= ls@.len(),
            fence@ == seq!['`', '`', '`'],
            views(ls@) == lines(body@),
            pair_views(res@) + links_of_lines(views(ls@).skip(k as int), in_code) == wiki_links(
                body@,
            ),
        decreases ls.len() - k,
    {
        let line = &ls[k];
        let ghost rest = views(ls@).skip(k as int);
        assert(rest[0] == line@);
        assert(rest.drop_first() == views(ls@).skip(k + 1));
        let trimmed = trim_chars(line.as_slice());
        if starts_with_exec(trimmed.as_slice(), fence.as_slice()) {
            in_code = !in_code;
        } else if !in_code {
            let cleaned = strip_inline_code_chars(line.as_slice());
            append_line_links(cleaned.as_slice(), &mut res);
        }
        k += 1;
    }
    assert(views(ls@).skip(k as int) == Seq::<Seq<char>>::empty());
    assert(pair_views(res@) + Seq::<(Seq<char>, Seq<char>)>::empty() == pair_views(res@));
    res
}

} // verus!

verus! {

// ---------------------------------------------------------------------------
// Memory files: `---` frontmatter framing
// ---------------------------------------------------------------------------

/// The text `---` that opens and closes a frontmatter block.
pub open spec fn fence_dashes() -> Seq<char> {
    seq!['-', '-', '-']
}

/// The Debug form of a path (`format!("{:?}", Path::new(s))`), as quoted,
/// escaped text.
pub uninterp spec fn path_debug_text(s: Seq<char>) -> Seq<char>;

/// `<Path as Debug>::fmt`, through `format!`. Trusted: the result is
/// [`path_debug_text`] of the path; the escaping rules are not restated.
#[verifier::external_body]
pub(crate) fn path_debug(s: &str) -> (r: String)
    ensures
        r@ == path_debug_text(s@),
{
    format!("{:?}", std::path::Path::new(s))
}

/// The parts of a memory file: where it lives, its name (the file stem), the
/// YAML text between its `---` fences if it has a frontmatter block, and its
/// body.
#[derive(Debug, Clone)]
pub struct MemoryFile {
    pub file_path: String,
    pub name: String,
    pub frontmatter_yaml: Option<String>,
    pub body: String,
}

/// Where the frontmatter of `content` closes: the position, in `content`
/// with its leading white space removed, of the first `---` after the
/// opening one; `None` when there is no frontmatter block.
pub open spec fn frontmatter_end(content: Seq<char>) -> Option<int> {
    let t = trim_start(content);
    if starts_with(t, fence_dashes()) {
        find_from(t, fence_dashes(), 3)
    } else {
        None
    }
}

/// The YAML text of the frontmatter block of `content`, if it has one: what
/// stands between the opening `---` and the next `---`.
pub open spec fn frontmatter_text(content: Seq<char>) -> Option<Seq<char>> {
    match frontmatter_end(content) {
        Some(k) => Some(trim_start(content).subrange(3, k)),
        None => None,
    }
}

/// The body of `content`: with a frontmatter block, what follows its closing
/// `---`, leading white space removed; without one, all of `content`.
pub open spec fn body_text(content: Seq<char>) -> Seq<char> {
    match frontmatter_end(content) {
        Some(k) => trim_start(trim_start(content).skip(k + 3)),
        None => content,
    }
}

/// The message for a path that has no file name.
pub open spec fn invalid_path_message(path: Seq<char>) -> Seq<char> {
    seq!['I', 'n', 'v', 'a', 'l', 'i', 'd', ' ', 'p', 'a', 't', 'h', ' ', 'n', 'a', 'm', 'e', ':', ' ']
        + path_debug_text(path)
}

/// Splits a memory file into its parts. The name is the file stem of `path`;
/// a path without a file name is refused.
pub fn parse_memory_file(content: &str, path: &str) -> (res: Result<MemoryFile, String>)
    ensures
        match file_stem(path@) {
            None => res matches Err(e) && e@ == invalid_path_message(path@),
            Some(stem) => res matches Ok(f) && f.file_path@ == path@ && f.name@ == stem && (match f.frontmatter_yaml {
                Some(y) => frontmatter_text(content@) == Some(y@),
                None => frontmatter_text(content@) is None,
            }) && f.body@ == body_text(content@),
        },
{
    let p = chars_of(path);
    let name = match file_stem_chars(p.as_slice()) {
        Some(n) => string_of(n.as_slice()),
        None => {
            let mut msg: Vec<char> = Vec::new();
            append_str(&mut msg, "Invalid path name: ");
            let dbg = path_debug(path);
            append_str(&mut msg, dbg.as_str());
            proof {
                reveal_strlit("Invalid path name: ");
            }
            assert(msg@ =~= invalid_path_message(path@));
            return Err(string_of(msg.as_slice()));
        },
    };
    let chars = chars_of(content);
    let trimmed = trim_start_chars(chars.as_slice());
    let dashes: Vec<char> = vec!['-', '-', '-'];
    assert(dashes@ == fence_dashes());
    if starts_with_exec(trimmed.as_slice(), dashes.as_slice()) {
        if let Some(end) = find_exec(trimmed.as_slice(), dashes.as_slice(), 3) {
            proof {
                lemma_find_from(trimmed@, fence_dashes(), 3);
                assert(find_from(trimmed@, fence_dashes(), 3) == Some(end as int));
                assert(crate::text::occurs_at(trimmed@, fence_dashes(), end as int));
                assert(fence_dashes().len() == 3);
                assert(end + 3 <= trimmed@.len());
            }
            let yaml = slice_chars(trimmed.as_slice(), 3, end);
            let tl = trimmed.len();
            assert(end + 3 <= tl);
            let rest = slice_chars(trimmed.as_slice(), end + 3, tl);
            assert(rest@ == trimmed@.skip(end + 3));
            let body = trim_start_chars(rest.as_slice());
            return Ok(
                MemoryFile {
                    file_path: string_of(p.as_slice()),
                    name,
                    frontmatter_yaml: Some(string_of(yaml.as_slice())),
                    body: string_of(body.as_slice()),
                },
            );
        }
    }
    Ok(
        MemoryFile {
            file_path: string_of(p.as_slice()),
            name,
            frontmatter_yaml: None,
            body: string_of(chars.as_slice()),
        },
    )
}

/// The text `{}`, which a YAML serializer writes for an empty mapping.
pub open spec fn empty_mapping() -> Seq<char> {
    seq!['{', '}']
}

/// The text of a memory file: the YAML frontmatter framed by `---` lines and
/// followed by a blank line, then the body; with no frontmatter at all (empty
/// or `{}` YAML), just the body.
pub open spec fn memory_file_text(yaml: Seq<char>, body: Seq<char>) -> Seq<char> {
    if trim(yaml).len() == 0 || trim(yaml) == empty_mapping() {
        body
    } else {
        seq!['-', '-', '-', '\n'] + trim_start(yaml) + seq!['-', '-', '-', '\n', '\n'] + body
    }
}

/// Writes a memory file from its serialized YAML frontmatter and its body
/// (see [`memory_file_text`]).
pub fn serialize_memory_file(frontmatter_yaml: &str, body: &str) -> (res: String)
    ensures
        res@ == memory_file_text(frontmatter_yaml@, body@),
{
    let y = chars_of(frontmatter_yaml);
    let t = trim_chars(y.as_slice());
    let braces: Vec<char> = vec!['{', '}'];
    assert(braces@ == empty_mapping());
    let mut out: Vec<char> = Vec::new();
    if !(t.len() == 0 || chars_eq(t.as_slice(), braces.as_slice())) {
        out.push('-');
        out.push('-');
        out.push('-');
        out.push('\n');
        let ts = trim_start_chars(y.as_slice());
        append_chars(&mut out, ts.as_slice());
        out.push('-');
        out.push('-');
        out.push('-');
        out.push('\n');
        out.push('\n');
    }
    append_str(&mut out, body);
    assert(out@ =~= memory_file_text(frontmatter_yaml@, body@));
    string_of(out.as_slice())
}

} // verus!

verus! {

/// Reading back a written memory file gives back its frontmatter (after the
/// newline that follows the opening `---`) and its body without leading
/// white space, provided the frontmatter is not empty and holds no `---` of
/// its own, not even across its end.
pub proof fn lemma_write_then_read(yaml: Seq<char>, body: Seq<char>)
    requires
        !(trim(yaml).len() == 0 || trim(yaml) == empty_mapping()),
        !contains(seq!['\n'] + trim_start(yaml) + seq!['-', '-'], fence_dashes()),
    ensures
        frontmatter_text(memory_file_text(yaml, body)) == Some(seq!['\n'] + trim_start(yaml)),
        body_text(memory_file_text(yaml, body)) == trim_start(body),
{
    let y = trim_start(yaml);
    let s = memory_file_text(yaml, body);
    let w = seq!['\n'] + y + seq!['-', '-'];
    assert(s == seq!['-', '-', '-', '\n'] + y + seq!['-', '-', '-', '\n', '\n'] + body);
    assert(s[0] == '-');
    lemma_trim_start_stops(s);
    assert(s.take(3) =~= fence_dashes());
    let k: int = 4 + y.len() as int;
    assert(s.subrange(k, k + 3) =~= fence_dashes());
    assert forall|m: int| 3 <= m < k implies !occurs_at(s, fence_dashes(), m) by {
        if occurs_at(s, fence_dashes(), m) {
            assert(s.subrange(3, k + 2) =~= w);
            assert(w.subrange(m - 3, m) =~= s.subrange(m, m + 3));
            assert(occurs_at(w, fence_dashes(), m - 3));
        }
    }
    lemma_find_from_first(s, fence_dashes(), 3, k);
    assert(s.subrange(3, k) =~= seq!['\n'] + y);
    let rest = s.skip(k + 3);
    assert(rest =~= seq!['\n', '\n'] + body);
    lemma_trim_start_prefix(seq!['\n', '\n'], body);
}

} // verus!

verus! {

/// A line without backticks is left as it is by inline-code removal.
pub proof fn lemma_strip_plain(s: Seq<char>)
    requires
        forall|i: int| 0 <= i < s.len() ==> s[i] != '`',
    ensures
        strip_inline_code(s) == s,
{
    lemma_strip_plain_from(s, 0);
    assert(s.subrange(0, s.len() as int) =~= s);
}

proof fn lemma_strip_plain_from(s: Seq<char>, i: int)
    requires
        0 <= i <= s.len(),
        forall|k: int| 0 <= k < s.len() ==> s[k] != '`',
    ensures
        strip_code_from(s, i) == s.subrange(i, s.len() as int),
    decreases s.len() - i,
{
    if i < s.len() {
        lemma_strip_plain_from(s, i + 1);
        assert(seq![s[i]] + s.subrange(i + 1, s.len() as int) =~= s.subrange(i, s.len() as int));
    } else {
        assert(s.subrange(i, s.len() as int) =~= Seq::<char>::empty());
    }
}

/// Whether `l` has the shape of a wiki-link found in `s`: its text starts
/// with `[[`, ends with `]]`, is at least five characters long and occurs in
/// `s`, and its target holds none of `]`, `#`, `|`.
pub open spec fn link_shaped(s: Seq<char>, l: (Seq<char>, Seq<char>)) -> bool {
    &&& l.1.len() >= 5
    &&& l.1.take(2) == seq!['[', '[']
    &&& l.1.skip(l.1.len() - 2) == seq![']', ']']
    &&& contains(s, l.1)
    &&& forall|m: int| 0 <= m < l.0.len() ==> target_char(#[trigger] l.0[m])
}

/// Every wiki-link found in a line has the link shape (see [`link_shaped`]).
pub proof fn lemma_link_shape(s: Seq<char>, i: int)
    requires
        0 <= i,
    ensures
        forall|k: int| 0 <= k < links_from(s, i).len() ==> link_shaped(s, #[trigger] links_from(s, i)[k]),
    decreases s.len() - i,
{
    if i < s.len() {
        lemma_link_at(s, i);
        match link_at(s, i) {
            Some((q, e)) => {
                lemma_link_shape(s, e);
                let raw = s.subrange(i, e);
                let tgt = s.subrange(i + 2, q);
                lemma_span(s, i + 2, 0);
                lemma_trim_chars(tgt);
                assert forall|m: int| 0 <= m < trim(tgt).len() implies target_char(
                    #[trigger] trim(tgt)[m],
                ) by {
                    assert(tgt.contains(trim(tgt)[m]));
                    let j = choose|j: int| 0 <= j < tgt.len() && tgt[j] == trim(tgt)[m];
                    assert(tgt[j] == s[i + 2 + j]);
                    assert(part_char(0, s[i + 2 + j]));
                }
                assert(raw.take(2) =~= seq!['[', '[']);
                assert(raw.skip(raw.len() - 2) =~= seq![']', ']']);
                assert(occurs_at(s, raw, i));
                assert(link_shaped(s, (trim(tgt), raw)));
                let rest = links_from(s, e);
                let all = links_from(s, i);
                assert(all == seq![(trim(tgt), raw)] + rest);
                assert forall|k: int| 0 <= k < all.len() implies link_shaped(s, #[trigger] all[k]) by {
                    if k > 0 {
                        assert(all[k] == rest[k - 1]);
                    }
                }
            },
            None => {
                lemma_link_shape(s, i + 1);
                assert(links_from(s, i) == links_from(s, i + 1));
            },
        }
    } else {
        assert(links_from(s, i).len() == 0);
    }
}

} // verus!

verus! {

/// The wiki-links of a single line (a text without line feed): none when it
/// is a fence line, otherwise those of its text with inline code removed.
pub proof fn lemma_wiki_links_of_line(l: Seq<char>)
    requires
        forall|m: int| 0 <= m < l.len() ==> l[m] != '\n',
    ensures
        wiki_links(l) == if starts_with(trim(l), seq!['`', '`', '`']) {
            Seq::<(Seq<char>, Seq<char>)>::empty()
        } else {
            line_links(strip_inline_code(l))
        },
{
    crate::text::lemma_lines_single(l);
    if l.len() == 0 {
        assert(strip_inline_code(l) == Seq::<char>::empty());
        assert(line_links(Seq::<char>::empty()) == Seq::<(Seq<char>, Seq<char>)>::empty());
        crate::text::lemma_trim_chars(l);
        assert(trim(l).len() == 0);
    } else {
        let ls = seq![l];
        assert(ls.drop_first() =~= Seq::<Seq<char>>::empty());
        assert(links_of_lines(ls.drop_first(), true) == Seq::<(Seq<char>, Seq<char>)>::empty());
        assert(links_of_lines(ls.drop_first(), false) == Seq::<(Seq<char>, Seq<char>)>::empty());
        assert(line_links(strip_inline_code(l)) + Seq::<(Seq<char>, Seq<char>)>::empty() =~= line_links(
            strip_inline_code(l),
        ));
    }
}

} // verus!
