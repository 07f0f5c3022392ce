use ft::paths::RelativePath;
use ft::signature::Signature;
use ft::signature::Strategy;
use ft::snapshot::Snapshot;

fn rp(s: &str) -> RelativePath {
    RelativePath::from_bytes(s.as_bytes().to_vec())
}

fn keys_of(s: &Snapshot) -> Vec<Vec<u8>> {
    s.entries.iter().map(|e| e.path.as_bytes().clone()).collect()
}

#[test]
fn insertion_order_does_not_matter() {
    let mut forward = Snapshot::new();
    forward.insert(rp("a"), Signature::Size(1));
    forward.insert(rp("b/c"), Signature::Size(2));
    forward.insert(rp("b/d"), Signature::Size(3));
    let mut backward = Snapshot::new();
    backward.insert(rp("b/d"), Signature::Size(3));
    backward.insert(rp("b/c"), Signature::Size(2));
    backward.insert(rp("a"), Signature::Size(1));
    assert_eq!(keys_of(&forward), keys_of(&backward));
}

#[test]
fn keys_are_listed_in_byte_order() {
    let mut s = Snapshot::new();
    s.insert(rp("b.txt"), Signature::Size(1));
    s.insert(rp("a/x.txt"), Signature::Size(2));
    s.insert(rp("ab"), Signature::Size(3));
    let keys = keys_of(&s);
    assert_eq!(
        keys,
        vec![b"a/x.txt".to_vec(), b"ab".to_vec(), b"b.txt".to_vec()]
    );
}

#[test]
fn insert_replaces_an_existing_record() {
    let mut s = Snapshot::new();
    s.insert(rp("a.txt"), Signature::Size(1));
    s.insert(rp("a.txt"), Signature::Size(9));
    assert_eq!(s.len(), 1);
    assert_eq!(s.lookup(&rp("a.txt")), Some(Signature::Size(9)));
}

#[test]
fn lookup_of_an_absent_path_is_none() {
    let mut s = Snapshot::new();
    s.insert(rp("a.txt"), Signature::Size(1));
    assert_eq!(s.lookup(&rp("b.txt")), None);
}

#[test]
fn empty_snapshot_reports_empty() {
    let s = Snapshot::new();
    assert!(s.is_empty());
    assert_eq!(s.len(), 0);
}

#[test]
fn uniform_checks_every_signature() {
    let mut s = Snapshot::new();
    s.insert(rp("a"), Signature::Size(1));
    s.insert(rp("b"), Signature::Size(2));
    assert!(s.uniform(Strategy::Size));
    assert!(!s.uniform(Strategy::Hash));
    s.insert(rp("c"), Signature::Hash(3));
    assert!(!s.uniform(Strategy::Size));
    assert!(!s.uniform(Strategy::Hash));
}
