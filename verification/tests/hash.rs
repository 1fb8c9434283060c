use brainwares::hash::content_hash;
use brainwares::setup::EMPTY_CONTENT_HASH;

#[test]
fn md5_of_known_inputs() {
    assert_eq!(content_hash(b""), EMPTY_CONTENT_HASH);
    assert_eq!(content_hash(b"abc"), "900150983cd24fb0d6963f7d28e17f72");
    assert_eq!(content_hash(b"# README\n").len(), 32);
}

#[test]
fn hash_changes_with_content() {
    assert_ne!(content_hash(b"fn main() {}"), content_hash(b"fn main() { }"));
    assert!(content_hash(b"x").chars().all(|c| c.is_ascii_hexdigit() && !c.is_ascii_uppercase()));
}
