use brainwares::path::{
    extension_chars, file_name_chars, file_stem_chars, join_path, parent_chars, same_path_exec, strip_prefix_exec,
};
use std::path::Path;
use brainwares::text::{chars_of, is_white_space, sort_texts, split_trimmed, string_of, trim_chars};

#[test]
fn join_like_std() {
    for (a, b) in [("/w", "src/a.rs"), ("/w/", "x"), ("w", "/abs"), ("", "x"), ("a", ""), ("a//", "b")].iter() {
        let expected = Path::new(a).join(b).to_string_lossy().to_string();
        assert_eq!(join_path(a, b), expected, "join {:?} {:?}", a, b);
    }
}

#[test]
fn same_path_compares_components() {
    assert!(same_path_exec("/w/src", "/w//src/"));
    assert!(same_path_exec("a/./b", "a/b"));
    assert!(!same_path_exec("a/../b", "b"));
    assert!(!same_path_exec("/a", "a"));
    for (a, b) in [("/w/src", "/w//src/"), ("a/./b", "a/b"), ("./a", "a"), ("a", "b"), ("/", "//")].iter() {
        assert_eq!(same_path_exec(a, b), Path::new(a) == Path::new(b), "{:?} {:?}", a, b);
    }
}

#[test]
fn strip_prefix_like_std() {
    for (p, base) in [("/w/src/a.rs", "/w"), ("/w", "/w"), ("/wx/a", "/w"), ("/w//src", "/w/"), ("a/b", "c")].iter() {
        let expected = Path::new(p)
            .strip_prefix(base)
            .ok()
            .map(|r| r.to_string_lossy().to_string());
        assert_eq!(strip_prefix_exec(p, base), expected, "{:?} {:?}", p, base);
    }
}

#[test]
fn trimming_like_str_trim() {
    for s in ["  a b  ", "\t\nx\r\n", "\u{3000}y\u{a0}", "", "   "].iter() {
        let t = trim_chars(&chars_of(s));
        assert_eq!(string_of(&t), s.trim());
    }
    for c in [' ', '\t', '\n', '\u{a0}', '\u{2028}', '\u{3000}', 'a', '\u{200b}'].iter() {
        assert_eq!(is_white_space(*c), c.is_whitespace(), "{:?}", c);
    }
}

#[test]
fn split_and_sort() {
    let parts = split_trimmed(&chars_of(" a , b,,c "), ',');
    assert_eq!(parts, vec!["a".to_string(), "b".to_string(), "".to_string(), "c".to_string()]);
    let v = vec!["b".to_string(), "a".to_string(), "B".to_string(), "ab".to_string(), "a".to_string()];
    let sorted = sort_texts(&v);
    let mut expected = v.clone();
    expected.sort();
    assert_eq!(sorted, expected);
}

fn sample_paths() -> Vec<String> {
    let parts = ["", "/", "a", ".", "..", "b.c", ".d", "e.", "f.g.h", "//"];
    let mut out = Vec::new();
    for x in parts.iter() {
        for y in parts.iter() {
            for z in parts.iter() {
                out.push(format!("{}{}{}", x, y, z));
                out.push(format!("{}/{}/{}", x, y, z));
            }
        }
    }
    out
}

fn text_of(v: Option<Vec<char>>) -> Option<String> {
    v.map(|c| c.into_iter().collect())
}

#[test]
fn path_parts_agree_with_std() {
    for p in sample_paths() {
        let c: Vec<char> = p.chars().collect();
        let std_path = Path::new(&p);
        assert_eq!(text_of(parent_chars(&c)), std_path.parent().map(|q| q.to_string_lossy().to_string()), "parent {:?}", p);
        assert_eq!(text_of(file_name_chars(&c)), std_path.file_name().map(|x| x.to_string_lossy().to_string()), "file_name {:?}", p);
        assert_eq!(text_of(file_stem_chars(&c)), std_path.file_stem().map(|x| x.to_string_lossy().to_string()), "file_stem {:?}", p);
        assert_eq!(text_of(extension_chars(&c)), std_path.extension().map(|x| x.to_string_lossy().to_string()), "extension {:?}", p);
    }
}

#[test]
fn join_and_compare_agree_with_std() {
    let ps = sample_paths();
    for (i, a) in ps.iter().enumerate().step_by(7) {
        for b in ps.iter().skip(i % 5).step_by(13) {
            assert_eq!(join_path(a, b), Path::new(a).join(b).to_string_lossy().to_string(), "join {:?} {:?}", a, b);
            assert_eq!(same_path_exec(a, b), Path::new(a) == Path::new(b), "same {:?} {:?}", a, b);
            let expected = Path::new(a).strip_prefix(b).ok().map(|r| r.to_string_lossy().to_string());
            assert_eq!(strip_prefix_exec(a, b), expected, "strip {:?} {:?}", a, b);
        }
    }
}
