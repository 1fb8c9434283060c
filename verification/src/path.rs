//! Unix path arithmetic on plain strings, as `std::path::Path` does it:
//! parent, file name, stem, extension and joining.

use vstd::prelude::*;
use crate::models::strings_view;
use crate::text::{
    append_chars, append_str, chars_eq, chars_of, lemma_next_char, next_char, same_text, slice_chars,
    split_from, split_on, string_of, views,
};

verus! {

/// Whether `p` starts at the root (`/`).
pub open spec fn has_root(p: Seq<char>) -> bool {
    p.len() > 0 && p[0] == '/'
}

/// The length of the leading component that is not part of the body: the
/// root `/`, or a leading `.` that stands alone or before a `/`.
pub open spec fn front_len(p: Seq<char>) -> int {
    if has_root(p) {
        1
    } else if p.len() > 0 && p[0] == '.' && (p.len() == 1 || p[1] == '/') {
        1
    } else {
        0
    }
}

/// The position of the last `/` in `p` between `f` and `end`, or `f - 1`.
pub open spec fn last_sep(p: Seq<char>, f: int, end: int) -> int
    decreases end - f,
{
    if end <= f {
        f - 1
    } else if p[end - 1] == '/' {
        end - 1
    } else {
        last_sep(p, f, end - 1)
    }
}

pub proof fn lemma_last_sep(p: Seq<char>, f: int, end: int)
    requires
        0 <= f <= end <= p.len(),
    ensures
        f - 1 <= last_sep(p, f, end) < end,
        last_sep(p, f, end) >= f ==> p[last_sep(p, f, end)] == '/',
        forall|k: int| last_sep(p, f, end) < k < end ==> p[k] != '/',
    decreases end - f,
{
    if end > f && p[end - 1] != '/' {
        lemma_last_sep(p, f, end - 1);
    }
}

/// Whether a path segment stands for no component (empty, or `.`).
pub open spec fn is_empty_segment(seg: Seq<char>) -> bool {
    seg.len() == 0 || seg == seq!['.']
}

/// Scanning `p` backwards from `end`, the last body component (a segment
/// that is neither empty nor `.`): where the text before it ends, where it
/// starts and where it ends.
pub open spec fn last_component(p: Seq<char>, f: int, end: int) -> Option<(int, int, int)>
    decreases end - f,
{
    if end <= f || end > p.len() || f < 0 {
        None
    } else {
        let k = last_sep(p, f, end);
        let start = if k >= f { k + 1 } else { f };
        let cut = if k >= f { k } else { f };
        proof {
            lemma_last_sep(p, f, end);
        }
        if is_empty_segment(p.subrange(start, end)) {
            last_component(p, f, cut)
        } else {
            Some((cut, start, end))
        }
    }
}

/// `end` moved back over trailing empty and `.` segments, never before `f`.
pub open spec fn trim_back(p: Seq<char>, f: int, end: int) -> int
    decreases end - f,
{
    if end <= f || end > p.len() || f < 0 {
        end
    } else {
        let k = last_sep(p, f, end);
        let start = if k >= f { k + 1 } else { f };
        let cut = if k >= f { k } else { f };
        proof {
            lemma_last_sep(p, f, end);
        }
        if is_empty_segment(p.subrange(start, end)) {
            trim_back(p, f, cut)
        } else {
            end
        }
    }
}

/// `Path::parent`: the path without its last component; `None` for the empty
/// path and for the root.
pub open spec fn parent(p: Seq<char>) -> Option<Seq<char>> {
    let f = front_len(p);
    match last_component(p, f, p.len() as int) {
        Some((cut, _, _)) => Some(p.take(trim_back(p, f, cut))),
        None => if !has_root(p) && f == 1 {
            Some(seq![])
        } else {
            None
        },
    }
}

/// `Path::file_name`: the last component when it is a name (not `..`).
pub open spec fn file_name(p: Seq<char>) -> Option<Seq<char>> {
    match last_component(p, front_len(p), p.len() as int) {
        Some((_, start, end)) => if p.subrange(start, end) == seq!['.', '.'] {
            None
        } else {
            Some(p.subrange(start, end))
        },
        None => None,
    }
}

/// The position of the last `.` in `n` before `end`, or `-1`.
pub open spec fn last_dot(n: Seq<char>, end: int) -> int
    decreases end,
{
    if end <= 0 {
        -1
    } else if n[end - 1] == '.' {
        end - 1
    } else {
        last_dot(n, end - 1)
    }
}

/// `Path::file_stem`: the file name without its final extension; a name
/// whose only dot leads it has no extension.
pub open spec fn file_stem(p: Seq<char>) -> Option<Seq<char>> {
    match file_name(p) {
        Some(n) => {
            let d = last_dot(n, n.len() as int);
            if d <= 0 {
                Some(n)
            } else {
                Some(n.take(d))
            }
        },
        None => None,
    }
}

/// `Path::extension`: the text after the final dot of the file name.
pub open spec fn extension(p: Seq<char>) -> Option<Seq<char>> {
    match file_name(p) {
        Some(n) => {
            let d = last_dot(n, n.len() as int);
            if d <= 0 {
                None
            } else {
                Some(n.skip(d + 1))
            }
        },
        None => None,
    }
}

/// `Path::join`: an absolute `rel` replaces `base`; otherwise `rel` follows
/// `base`, with a `/` between them unless `base` is empty or already ends
/// with one.
pub open spec fn join(base: Seq<char>, rel: Seq<char>) -> Seq<char> {
    if has_root(rel) {
        rel
    } else if base.len() > 0 && base.last() != '/' {
        base + seq!['/'] + rel
    } else {
        base + rel
    }
}

fn front_len_exec(p: &[char]) -> (f: usize)
    ensures
        f == front_len(p@),
        f <= p@.len(),
{
    if p.len() > 0 && p[0] == '/' {
        1
    } else if p.len() > 0 && p[0] == '.' && (p.len() == 1 || p[1] == '/') {
        1
    } else {
        0
    }
}

/// The position just after the last `/` in `p` between `f` and `end`, or `f`.
fn segment_start(p: &[char], f: usize, end: usize) -> (r: usize)
    requires
        f <= end <= p@.len(),
    ensures
        r as int == (if last_sep(p@, f as int, end as int) >= f {
            last_sep(p@, f as int, end as int) + 1
        } else {
            f as int
        }),
        f <= r <= end,
{
    proof {
        lemma_last_sep(p@, f as int, end as int);
    }
    let mut e = end;
    while e > f && p[e - 1] != '/'
        invariant
            f <= e <= end <= p@.len(),
            last_sep(p@, f as int, e as int) == last_sep(p@, f as int, end as int),
        decreases e,
    {
        e -= 1;
    }
    e
}

fn is_empty_segment_exec(p: &[char], start: usize, end: usize) -> (b: bool)
    requires
        start <= end <= p@.len(),
    ensures
        b == is_empty_segment(p@.subrange(start as int, end as int)),
{
    if start == end {
        true
    } else if end - start == 1 && p[start] == '.' {
        assert(p@.subrange(start as int, end as int) =~= seq!['.']);
        true
    } else {
        if end - start == 1 {
            assert(p@.subrange(start as int, end as int)[0] != seq!['.'][0]);
        } else {
            assert(p@.subrange(start as int, end as int).len() != seq!['.'].len());
        }
        false
    }
}

fn last_component_exec(p: &[char], f: usize, end: usize) -> (r: Option<(usize, usize, usize)>)
    requires
        f <= end <= p@.len(),
    ensures
        r matches Some((a, b, c)) ==> last_component(p@, f as int, end as int) == Some(
            (a as int, b as int, c as int),
        ) && f <= a <= b <= c <= p@.len(),
        r is None ==> last_component(p@, f as int, end as int) is None,
{
    let mut e = end;
    while e > f
        invariant
            f <= e <= end <= p@.len(),
            last_component(p@, f as int, e as int) == last_component(p@, f as int, end as int),
        decreases e,
    {
        proof {
            lemma_last_sep(p@, f as int, e as int);
        }
        let start = segment_start(p, f, e);
        let cut = if start > f { start - 1 } else { f };
        if !is_empty_segment_exec(p, start, e) {
            return Some((cut, start, e));
        }
        e = cut;
    }
    None
}

fn trim_back_exec(p: &[char], f: usize, end: usize) -> (r: usize)
    requires
        f <= end <= p@.len(),
    ensures
        r as int == trim_back(p@, f as int, end as int),
        r <= end,
{
    let mut e = end;
    while e > f
        invariant
            f <= e <= end <= p@.len(),
            trim_back(p@, f as int, e as int) == trim_back(p@, f as int, end as int),
        decreases e,
    {
        proof {
            lemma_last_sep(p@, f as int, e as int);
        }
        let start = segment_start(p, f, e);
        let cut = if start > f { start - 1 } else { f };
        if !is_empty_segment_exec(p, start, e) {
            return e;
        }
        e = cut;
    }
    e
}

/// `Path::parent` on a character slice (see [`parent`]).
pub fn parent_chars(p: &[char]) -> (r: Option<Vec<char>>)
    ensures
        r matches Some(v) ==> parent(p@) == Some(v@),
        r is None ==> parent(p@) is None,
{
    let f = front_len_exec(p);
    match last_component_exec(p, f, p.len()) {
        Some((cut, _, _)) => {
            let t = trim_back_exec(p, f, cut);
            let v = slice_chars(p, 0, t);
            assert(v@ == p@.take(t as int));
            Some(v)
        },
        None => {
            if !(p.len() > 0 && p[0] == '/') && f == 1 {
                Some(Vec::new())
            } else {
                None
            }
        },
    }
}

/// `Path::file_name` on a character slice (see [`file_name`]).
pub fn file_name_chars(p: &[char]) -> (r: Option<Vec<char>>)
    ensures
        r matches Some(v) ==> file_name(p@) == Some(v@),
        r is None ==> file_name(p@) is None,
{
    let f = front_len_exec(p);
    match last_component_exec(p, f, p.len()) {
        Some((_, start, end)) => {
            let n = slice_chars(p, start, end);
            let dots: Vec<char> = vec!['.', '.'];
            if chars_eq(n.as_slice(), dots.as_slice()) {
                None
            } else {
                Some(n)
            }
        },
        None => None,
    }
}

fn last_dot_exec(n: &[char]) -> (d: Option<usize>)
    ensures
        d matches Some(k) ==> k as int == last_dot(n@, n@.len() as int) && k < n@.len(),
        d is None ==> last_dot(n@, n@.len() as int) == -1,
{
    let mut e = n.len();
    while e > 0 && n[e - 1] != '.'
        invariant
            e <= n@.len(),
            last_dot(n@, e as int) == last_dot(n@, n@.len() as int),
        decreases e,
    {
        e -= 1;
    }
    if e == 0 {
        None
    } else {
        Some(e - 1)
    }
}

/// `Path::file_stem` on a character slice (see [`file_stem`]).
pub fn file_stem_chars(p: &[char]) -> (r: Option<Vec<char>>)
    ensures
        r matches Some(v) ==> file_stem(p@) == Some(v@),
        r is None ==> file_stem(p@) is None,
{
    match file_name_chars(p) {
        Some(n) => match last_dot_exec(n.as_slice()) {
            Some(d) => {
                if d > 0 {
                    Some(slice_chars(n.as_slice(), 0, d))
                } else {
                    Some(n)
                }
            },
            None => Some(n),
        },
        None => None,
    }
}

/// `Path::extension` on a character slice (see [`extension`]).
pub fn extension_chars(p: &[char]) -> (r: Option<Vec<char>>)
    ensures
        r matches Some(v) ==> extension(p@) == Some(v@),
        r is None ==> extension(p@) is None,
{
    match file_name_chars(p) {
        Some(n) => match last_dot_exec(n.as_slice()) {
            Some(d) => {
                let len = n.len();
                if d > 0 && d < len {
                    Some(slice_chars(n.as_slice(), d + 1, len))
                } else {
                    None
                }
            },
            None => None,
        },
        None => None,
    }
}

/// `Path::join` on character slices (see [`join`]).
pub fn join_chars(base: &[char], rel: &[char]) -> (r: Vec<char>)
    ensures
        r@ == join(base@, rel@),
{
    if rel.len() > 0 && rel[0] == '/' {
        slice_chars(rel, 0, rel.len())
    } else {
        let mut out = slice_chars(base, 0, base.len());
        if base.len() > 0 && base[base.len() - 1] != '/' {
            out.push('/');
        }
        append_chars(&mut out, rel);
        out
    }
}

/// `Path::join` on strings (see [`join`]).
pub fn join_path(base: &str, rel: &str) -> (r: String)
    ensures
        r@ == join(base@, rel@),
{
    let b = chars_of(base);
    let r = chars_of(rel);
    let j = join_chars(b.as_slice(), r.as_slice());
    string_of(j.as_slice())
}

} // verus!

verus! {

/// A path whose last character is neither `/` nor `.` has a file name: the
/// text after its last `/`.
pub proof fn lemma_file_name_exists(p: Seq<char>)
    requires
        p.len() > 0,
        p.last() != '/',
        p.last() != '.',
    ensures
        file_name(p) is Some,
        file_name(p) matches Some(n) ==> n.len() > 0 && n.last() == p.last() && p.skip(p.len() - n.len()) == n,
{
    let f = front_len(p);
    let end = p.len() as int;
    assert(f < end);
    lemma_last_sep(p, f, end);
    let k = last_sep(p, f, end);
    let start = if k >= f { k + 1 } else { f };
    let seg = p.subrange(start, end);
    assert(k != end - 1);
    assert(seg.len() > 0);
    assert(seg.last() == p.last());
    assert(!is_empty_segment(seg)) by {
        if seg.len() == 1 {
            assert(seg[0] != seq!['.'][0]);
        }
    }
    assert(seg != seq!['.', '.']) by {
        if seg.len() == 2 {
            assert(seg[1] != seq!['.', '.'][1]);
        }
    }
    assert(p.skip(p.len() - seg.len()) =~= seg);
}

} // verus!

verus! {

/// The segments of `ss` that are names (neither empty nor `.`), in order.
pub open spec fn name_segments(ss: Seq<Seq<char>>) -> Seq<Seq<char>>
    decreases ss.len(),
{
    if ss.len() == 0 {
        seq![]
    } else if is_empty_segment(ss.last()) {
        name_segments(ss.drop_last())
    } else {
        name_segments(ss.drop_last()).push(ss.last())
    }
}

/// The components of a path as `Path::components` yields them, as text: `/`
/// for the root, `.` for a leading current directory, then the names between
/// separators (empty and `.` segments dropped).
pub open spec fn components(p: Seq<char>) -> Seq<Seq<char>> {
    let front = if has_root(p) {
        seq![seq!['/']]
    } else if front_len(p) == 1 {
        seq![seq!['.']]
    } else {
        seq![]
    };
    front + name_segments(split_on(p.skip(front_len(p)), '/'))
}

/// Whether two paths are equal as `Path`s are: component by component.
pub open spec fn same_path(a: Seq<char>, b: Seq<char>) -> bool {
    components(a) == components(b)
}

/// The components of `p`, as text (see [`components`]).
pub fn components_of(p: &[char]) -> (r: Vec<String>)
    ensures
        strings_view(r@) == components(p@),
{
    let f = front_len_exec(p);
    let mut r: Vec<String> = Vec::new();
    if p.len() > 0 && p[0] == '/' {
        let slash: Vec<char> = vec!['/'];
        assert(slash@ == seq!['/']);
        r.push(string_of(slash.as_slice()));
    } else if f == 1 {
        let dot: Vec<char> = vec!['.'];
        assert(dot@ == seq!['.']);
        r.push(string_of(dot.as_slice()));
    }
    let ghost front = strings_view(r@);
    assert(front =~= (if has_root(p@) {
        seq![seq!['/']]
    } else if front_len(p@) == 1 {
        seq![seq!['.']]
    } else {
        seq![]
    }));
    let body = slice_chars(p, f, p.len());
    assert(body@ == p@.skip(f as int));
    let segs = split_plain(body.as_slice(), '/');
    let mut i: usize = 0;
    assert(segs@.take(0) =~= Seq::<Vec<char>>::empty());
    assert(strings_view(r@) =~= front + name_segments(views(segs@).take(0)));
    while i < segs.len()
        invariant
            i <= segs@.len(),
            views(segs@) == split_on(body@, '/'),
            strings_view(r@) == front + name_segments(views(segs@).take(i as int)),
        decreases segs.len() - i,
    {
        let s = &segs[i];
        assert(views(segs@).take(i + 1).drop_last() == views(segs@).take(i as int));
        assert(views(segs@).take(i + 1).last() == s@);
        let empty = s.len() == 0 || (s.len() == 1 && s[0] == '.');
        proof {
            if s@.len() == 1 && s@[0] != '.' {
                assert(s@[0] != seq!['.'][0]);
            }
            if s@.len() > 1 {
                assert(s@.len() != seq!['.'].len());
            }
            if s@.len() == 1 && s@[0] == '.' {
                assert(s@ =~= seq!['.']);
            }
        }
        if !empty {
            let ghost before = strings_view(r@);
            r.push(string_of(s.as_slice()));
            assert(strings_view(r@) =~= before.push(s@));
        }
        i += 1;
    }
    assert(views(segs@).take(segs@.len() as int) == views(segs@));
    r
}

/// The pieces of `s` separated by `c`, untrimmed (see [`split_on`]).
pub fn split_plain(s: &[char], c: char) -> (res: Vec<Vec<char>>)
    ensures
        views(res@) == split_on(s@, c),
{
    let mut res: Vec<Vec<char>> = Vec::new();
    let mut i: usize = 0;
    let ghost all = split_on(s@, c);
    loop
        invariant
            i <= s@.len(),
            all == split_on(s@, c),
            views(res@) + split_from(s@, c, i as int) == all,
        decreases s.len() + 1 - i,
    {
        let mut e = i;
        while e < s.len() && s[e] != c
            invariant
                i <= e <= s@.len(),
                next_char(s@, c, e as int) == next_char(s@, c, i as int),
            decreases s.len() - e,
        {
            e += 1;
        }
        proof {
            lemma_next_char(s@, c, i as int);
        }
        let piece = slice_chars(s, i, e);
        let ghost before = views(res@);
        res.push(piece);
        assert(views(res@) =~= before.push(s@.subrange(i as int, e as int)));
        if e < s.len() {
            assert(views(res@) + split_from(s@, c, e + 1) =~= before + split_from(s@, c, i as int));
            i = e + 1;
        } else {
            assert(views(res@) =~= before + split_from(s@, c, i as int));
            return res;
        }
    }
}

/// Whether two lists of strings hold the same texts.
pub fn strings_eq(a: &Vec<String>, b: &Vec<String>) -> (r: bool)
    ensures
        r == (strings_view(a@) == strings_view(b@)),
{
    if a.len() != b.len() {
        assert(strings_view(a@).len() != strings_view(b@).len());
        return false;
    }
    let mut i: usize = 0;
    while i < a.len()
        invariant
            a@.len() == b@.len(),
            i <= a@.len(),
            forall|k: int| 0 <= k < i ==> a@[k]@ == b@[k]@,
        decreases a.len() - i,
    {
        if !same_text(a[i].as_str(), b[i].as_str()) {
            assert(strings_view(a@)[i as int] != strings_view(b@)[i as int]);
            return false;
        }
        i += 1;
    }
    assert(strings_view(a@) =~= strings_view(b@));
    true
}

/// Whether two paths are equal component by component (see [`same_path`]).
pub fn same_path_exec(a: &str, b: &str) -> (r: bool)
    ensures
        r == same_path(a@, b@),
{
    let ac = components_of(chars_of(a).as_slice());
    let bc = components_of(chars_of(b).as_slice());
    strings_eq(&ac, &bc)
}

} // verus!

verus! {

/// Where the segment of `p` that starts at `i` ends: the next `/`, or the
/// end of `p`.
pub open spec fn segment_end(p: Seq<char>, i: int) -> int {
    next_char(p, '/', i)
}

/// Where the segment after the one that starts at `i` starts: past the `/`
/// that ends it, or the end of `p`.
pub open spec fn next_segment(p: Seq<char>, i: int) -> int {
    if segment_end(p, i) < p.len() {
        segment_end(p, i) + 1
    } else {
        segment_end(p, i)
    }
}

/// The position in `p` after `n` more body components, read forwards from
/// `i` as `Components::next` reads them: empty and `.` segments are passed
/// over, and each component takes the `/` that ends it.
pub open spec fn after_components(p: Seq<char>, i: int, n: nat) -> int
    decreases p.len() - i,
{
    if i < 0 || i >= p.len() || n == 0 {
        i
    } else {
        proof {
            lemma_next_char(p, '/', i);
        }
        if is_empty_segment(p.subrange(i, segment_end(p, i))) {
            after_components(p, next_segment(p, i), n)
        } else {
            after_components(p, next_segment(p, i), (n - 1) as nat)
        }
    }
}

/// `i` moved forwards over empty and `.` segments, to the start of the next
/// component or the end of `p`.
pub open spec fn skip_empty_segments(p: Seq<char>, i: int) -> int
    decreases p.len() - i,
{
    if i < 0 || i >= p.len() {
        i
    } else {
        proof {
            lemma_next_char(p, '/', i);
        }
        if is_empty_segment(p.subrange(i, segment_end(p, i))) {
            skip_empty_segments(p, next_segment(p, i))
        } else {
            i
        }
    }
}

/// `Path::strip_prefix`: when the components of `base` begin those of `p`,
/// the text of `p` after those components, without the empty and `.`
/// segments at either end (`Components::as_path`); with no component to
/// strip, `p` without its trailing empty and `.` segments.
pub open spec fn strip_prefix(p: Seq<char>, base: Seq<char>) -> Option<Seq<char>> {
    let pc = components(p);
    let bc = components(base);
    if bc.len() <= pc.len() && pc.take(bc.len() as int) == bc {
        if bc.len() == 0 {
            Some(p.take(trim_back(p, front_len(p), p.len() as int)))
        } else {
            let pos = if front_len(p) == 1 {
                after_components(p, 1, (bc.len() - 1) as nat)
            } else {
                after_components(p, 0, bc.len() as nat)
            };
            let l = skip_empty_segments(p, pos);
            Some(p.subrange(l, trim_back(p, l, p.len() as int)))
        }
    } else {
        None
    }
}

proof fn lemma_after_components(p: Seq<char>, i: int, n: nat)
    requires
        0 <= i <= p.len(),
    ensures
        i <= after_components(p, i, n) <= p.len(),
    decreases p.len() - i,
{
    if i < p.len() && n > 0 {
        lemma_next_char(p, '/', i);
        let j = next_segment(p, i);
        if is_empty_segment(p.subrange(i, segment_end(p, i))) {
            lemma_after_components(p, j, n);
        } else {
            lemma_after_components(p, j, (n - 1) as nat);
        }
    }
}

proof fn lemma_skip_empty_segments(p: Seq<char>, i: int)
    requires
        0 <= i <= p.len(),
    ensures
        i <= skip_empty_segments(p, i) <= p.len(),
    decreases p.len() - i,
{
    if i < p.len() {
        lemma_next_char(p, '/', i);
        if is_empty_segment(p.subrange(i, segment_end(p, i))) {
            lemma_skip_empty_segments(p, next_segment(p, i));
        }
    }
}

fn segment_end_exec(p: &[char], i: usize) -> (e: usize)
    requires
        i <= p@.len(),
    ensures
        e as int == segment_end(p@, i as int),
        i <= e <= p@.len(),
{
    proof {
        lemma_next_char(p@, '/', i as int);
    }
    let mut e = i;
    while e < p.len() && p[e] != '/'
        invariant
            i <= e <= p@.len(),
            next_char(p@, '/', e as int) == next_char(p@, '/', i as int),
        decreases p.len() - e,
    {
        e += 1;
    }
    e
}

fn after_components_exec(p: &[char], i: usize, n: usize) -> (r: usize)
    requires
        i <= p@.len(),
    ensures
        r as int == after_components(p@, i as int, n as nat),
        r <= p@.len(),
{
    let mut k = i;
    let mut left = n;
    while k < p.len() && left > 0
        invariant
            k <= p@.len(),
            after_components(p@, k as int, left as nat) == after_components(p@, i as int, n as nat),
        decreases p.len() - k,
    {
        let e = segment_end_exec(p, k);
        let next = if e < p.len() { e + 1 } else { e };
        if !is_empty_segment_exec(p, k, e) {
            left -= 1;
        }
        k = next;
    }
    k
}

fn skip_empty_segments_exec(p: &[char], i: usize) -> (r: usize)
    requires
        i <= p@.len(),
    ensures
        r as int == skip_empty_segments(p@, i as int),
        i <= r <= p@.len(),
{
    proof {
        lemma_skip_empty_segments(p@, i as int);
    }
    let mut k = i;
    while k < p.len()
        invariant
            i <= k <= p@.len(),
            skip_empty_segments(p@, k as int) == skip_empty_segments(p@, i as int),
        decreases p.len() - k,
    {
        let e = segment_end_exec(p, k);
        if !is_empty_segment_exec(p, k, e) {
            return k;
        }
        k = if e < p.len() { e + 1 } else { e };
    }
    k
}

/// The path of `p` below `base` (see [`strip_prefix`]).
pub fn strip_prefix_exec(p: &str, base: &str) -> (r: Option<String>)
    ensures
        r matches Some(s) ==> strip_prefix(p@, base@) == Some(s@),
        r is None ==> strip_prefix(p@, base@) is None,
{
    let pv = chars_of(p);
    let pc = components_of(pv.as_slice());
    let bc = components_of(chars_of(base).as_slice());
    if bc.len() > pc.len() {
        assert(strings_view(bc@).len() > strings_view(pc@).len());
        return None;
    }
    let mut i: usize = 0;
    while i < bc.len()
        invariant
            i <= bc@.len() <= pc@.len(),
            strings_view(pc@) == components(p@),
            strings_view(bc@) == components(base@),
            forall|k: int| 0 <= k < i ==> pc@[k]@ == bc@[k]@,
        decreases bc.len() - i,
    {
        if !same_text(pc[i].as_str(), bc[i].as_str()) {
            assert(strings_view(pc@)[i as int] == pc@[i as int]@);
            assert(strings_view(bc@)[i as int] == bc@[i as int]@);
            assert(strings_view(pc@).take(bc@.len() as int)[i as int] != strings_view(bc@)[i as int]);
            assert(strings_view(pc@).take(bc@.len() as int) != strings_view(bc@));
            return None;
        }
        i += 1;
    }
    assert(strings_view(pc@).take(bc@.len() as int) =~= strings_view(bc@));
    let f = front_len_exec(pv.as_slice());
    if bc.len() == 0 {
        let e = trim_back_exec(pv.as_slice(), f, pv.len());
        return Some(string_of(slice_chars(pv.as_slice(), 0, e).as_slice()));
    }
    let pos = if f == 1 {
        after_components_exec(pv.as_slice(), 1, bc.len() - 1)
    } else {
        after_components_exec(pv.as_slice(), 0, bc.len())
    };
    let l = skip_empty_segments_exec(pv.as_slice(), pos);
    let e = trim_back_exec(pv.as_slice(), l, pv.len());
    proof {
        lemma_trim_back_bounds(pv@, l as int, pv@.len() as int);
    }
    Some(string_of(slice_chars(pv.as_slice(), l, e).as_slice()))
}

proof fn lemma_trim_back_bounds(p: Seq<char>, f: int, end: int)
    requires
        0 <= f <= end <= p.len(),
    ensures
        f <= trim_back(p, f, end) <= end,
    decreases end - f,
{
    if end > f {
        lemma_last_sep(p, f, end);
        let k = last_sep(p, f, end);
        let cut = if k >= f { k } else { f };
        if is_empty_segment(p.subrange(if k >= f { k + 1 } else { f }, end)) {
            lemma_trim_back_bounds(p, f, cut);
        }
    }
}

} // verus!
