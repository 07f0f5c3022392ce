use ft::order::bytes_eq;
use ft::order::bytes_lt;
use ft::paths::base_name_of;
use ft::paths::join_root;
use ft::paths::normalize;
use ft::paths::strip_root;
use ft::paths::RelativePath;
use ft::signature::fnv1a_digest;
use ft::signature::hash_signature;
use ft::signature::size_signature;
use ft::signature::Signature;
use ft::signature::Strategy;

fn rp(s: &str) -> RelativePath {
    RelativePath::from_bytes(s.as_bytes().to_vec())
}

#[test]
fn byte_order_is_lexicographic() {
    assert!(bytes_lt(&b"a".to_vec(), &b"ab".to_vec()));
    assert!(bytes_lt(&b"a".to_vec(), &b"b".to_vec()));
    assert!(bytes_lt(&b"".to_vec(), &b"a".to_vec()));
    assert!(!bytes_lt(&b"b".to_vec(), &b"a".to_vec()));
    assert!(!bytes_lt(&b"a".to_vec(), &b"a".to_vec()));
    assert!(bytes_lt(&b"a/x".to_vec(), &b"ab".to_vec()));
}

#[test]
fn byte_equality_is_exact() {
    assert!(bytes_eq(&b"abc".to_vec(), &b"abc".to_vec()));
    assert!(!bytes_eq(&b"abc".to_vec(), &b"abd".to_vec()));
    assert!(!bytes_eq(&b"abc".to_vec(), &b"ab".to_vec()));
}

#[test]
fn home_shorthand_expands() {
    let r = normalize(&b"~/docs".to_vec(), &b"/home/u".to_vec());
    assert_eq!(r, b"/home/u/docs/".to_vec());
}

#[test]
fn normalize_adds_leading_and_trailing_separators() {
    assert_eq!(normalize(&b"x".to_vec(), &b"/home/u".to_vec()), b"/x/".to_vec());
    assert_eq!(normalize(&b"/x/".to_vec(), &b"/home/u".to_vec()), b"/x/".to_vec());
    assert_eq!(normalize(&b"x/y".to_vec(), &b"/home/u".to_vec()), b"/x/y/".to_vec());
}

#[test]
fn strip_root_removes_the_prefix() {
    let r = strip_root(&b"/src/a/b.txt".to_vec(), &b"/src/".to_vec());
    assert_eq!(r.map(|p| p.as_bytes().clone()), Some(b"a/b.txt".to_vec()));
}

#[test]
fn strip_root_rejects_paths_outside_the_root() {
    let r = strip_root(&b"/other/a.txt".to_vec(), &b"/src/".to_vec());
    assert!(r.is_none());
}

#[test]
fn join_root_concatenates() {
    let r = join_root(&b"/dst/".to_vec(), &rp("a/b.txt"));
    assert_eq!(r, b"/dst/a/b.txt".to_vec());
}

#[test]
fn base_name_is_the_final_component() {
    assert_eq!(base_name_of(&b"a/b.txt".to_vec()), b"b.txt".to_vec());
    assert_eq!(base_name_of(&b"c.txt".to_vec()), b"c.txt".to_vec());
    assert_eq!(base_name_of(&b"a/b/".to_vec()), b"".to_vec());
    assert_eq!(base_name_of(&b"".to_vec()), b"".to_vec());
}

#[test]
fn fnv1a_matches_known_values() {
    assert_eq!(fnv1a_digest(&b"".to_vec()), 0xcbf29ce484222325);
    assert_eq!(fnv1a_digest(&b"a".to_vec()), 0xaf63dc4c8601ec8c);
}

#[test]
fn fnv1a_distinguishes_contents_of_equal_length() {
    assert_ne!(fnv1a_digest(&b"a".to_vec()), fnv1a_digest(&b"b".to_vec()));
}

#[test]
fn signatures_carry_their_strategy() {
    let s = size_signature(10);
    assert_eq!(s, Signature::Size(10));
    assert_eq!(s.kind(), Strategy::Size);
    let h = hash_signature(&b"a".to_vec());
    assert_eq!(h, Signature::Hash(0xaf63dc4c8601ec8c));
    assert_eq!(h.kind(), Strategy::Hash);
}
