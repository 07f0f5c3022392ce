use ft::differ::diff;
use ft::differ::reconcile;
use ft::differ::Action;
use ft::differ::IgnoreList;
use ft::differ::Outcome;
use ft::differ::Reason;
use ft::executor::apply_copies;
use ft::paths::RelativePath;
use ft::signature::Signature;
use ft::signature::Strategy;
use ft::snapshot::Snapshot;

fn rp(s: &str) -> RelativePath {
    RelativePath::from_bytes(s.as_bytes().to_vec())
}

fn copy_action(s: &str, reason: Reason) -> Action {
    Action::Copy { path: rp(s), reason }
}

fn stale_action(s: &str) -> Action {
    Action::Stale { path: rp(s) }
}

#[test]
fn missing_file_is_planned_once() {
    let mut source = Snapshot::new();
    source.insert(rp("a.txt"), Signature::Size(10));
    let dest = Snapshot::new();
    let plan = diff(&source, &dest, &IgnoreList::standard());
    assert_eq!(plan, vec![copy_action("a.txt", Reason::Missing)]);
}

#[test]
fn mismatched_size_is_planned_once() {
    let mut source = Snapshot::new();
    source.insert(rp("b.txt"), Signature::Size(20));
    let mut dest = Snapshot::new();
    dest.insert(rp("b.txt"), Signature::Size(15));
    let plan = diff(&source, &dest, &IgnoreList::standard());
    assert_eq!(plan, vec![copy_action("b.txt", Reason::Mismatched)]);
}

#[test]
fn equal_signatures_plan_nothing() {
    let mut source = Snapshot::new();
    source.insert(rp("b.txt"), Signature::Size(20));
    let mut dest = Snapshot::new();
    dest.insert(rp("b.txt"), Signature::Size(20));
    let plan = diff(&source, &dest, &IgnoreList::standard());
    assert_eq!(plan, vec![]);
}

#[test]
fn destination_only_file_is_reported_stale() {
    let source = Snapshot::new();
    let mut dest = Snapshot::new();
    dest.insert(rp("c.txt"), Signature::Size(5));
    let plan = diff(&source, &dest, &IgnoreList::standard());
    assert_eq!(plan, vec![stale_action("c.txt")]);
}

#[test]
fn metadata_artifact_is_never_stale() {
    let source = Snapshot::new();
    let mut dest = Snapshot::new();
    dest.insert(rp(".DS_Store"), Signature::Size(5));
    let plan = diff(&source, &dest, &IgnoreList::standard());
    assert_eq!(plan, vec![]);
}

#[test]
fn nested_metadata_artifact_is_never_stale() {
    let source = Snapshot::new();
    let mut dest = Snapshot::new();
    dest.insert(rp("photos/.DS_Store"), Signature::Size(5));
    dest.insert(rp("photos/x.jpg"), Signature::Size(7));
    let plan = diff(&source, &dest, &IgnoreList::standard());
    assert_eq!(plan, vec![stale_action("photos/x.jpg")]);
}

#[test]
fn custom_ignore_name_is_honoured() {
    let source = Snapshot::new();
    let mut dest = Snapshot::new();
    dest.insert(rp("thumbs.db"), Signature::Size(1));
    let mut ignore = IgnoreList::none();
    ignore.add(b"thumbs.db".to_vec());
    let plan = diff(&source, &dest, &ignore);
    assert_eq!(plan, vec![]);
}

#[test]
fn plan_orders_copies_by_source_then_stales_by_destination() {
    let mut source = Snapshot::new();
    source.insert(rp("b/new.txt"), Signature::Size(2));
    source.insert(rp("a.txt"), Signature::Size(10));
    source.insert(rp("z.txt"), Signature::Size(3));
    let mut dest = Snapshot::new();
    dest.insert(rp("z.txt"), Signature::Size(4));
    dest.insert(rp("gone/q.txt"), Signature::Size(9));
    dest.insert(rp("also-gone.txt"), Signature::Size(8));
    let plan = diff(&source, &dest, &IgnoreList::standard());
    assert_eq!(
        plan,
        vec![
            copy_action("a.txt", Reason::Missing),
            copy_action("b/new.txt", Reason::Missing),
            copy_action("z.txt", Reason::Mismatched),
            stale_action("also-gone.txt"),
            stale_action("gone/q.txt"),
        ]
    );
}

#[test]
fn applying_the_plan_reaches_sync_and_second_run_is_clean() {
    let mut source = Snapshot::new();
    source.insert(rp("a.txt"), Signature::Size(10));
    source.insert(rp("b.txt"), Signature::Size(20));
    let mut dest = Snapshot::new();
    dest.insert(rp("b.txt"), Signature::Size(15));
    dest.insert(rp("c.txt"), Signature::Size(5));
    let ignore = IgnoreList::standard();
    let plan = diff(&source, &dest, &ignore);
    assert_eq!(
        plan,
        vec![
            copy_action("a.txt", Reason::Missing),
            copy_action("b.txt", Reason::Mismatched),
            stale_action("c.txt"),
        ]
    );
    apply_copies(&mut dest, &source, &plan);
    assert_eq!(dest.lookup(&rp("a.txt")), Some(Signature::Size(10)));
    assert_eq!(dest.lookup(&rp("b.txt")), Some(Signature::Size(20)));
    assert_eq!(dest.lookup(&rp("c.txt")), Some(Signature::Size(5)));
    let second = diff(&source, &dest, &ignore);
    assert_eq!(second, vec![stale_action("c.txt")]);
}

#[test]
fn empty_source_short_circuits() {
    let source = Snapshot::new();
    let mut dest = Snapshot::new();
    dest.insert(rp("c.txt"), Signature::Size(5));
    let outcome = reconcile(&source, &dest, &IgnoreList::standard(), Strategy::Size);
    assert!(matches!(outcome, Outcome::EmptySource));
}

#[test]
fn mixed_strategies_are_rejected() {
    let mut source = Snapshot::new();
    source.insert(rp("a.txt"), Signature::Size(10));
    let mut dest = Snapshot::new();
    dest.insert(rp("a.txt"), Signature::Hash(10));
    let outcome = reconcile(&source, &dest, &IgnoreList::standard(), Strategy::Size);
    assert!(matches!(outcome, Outcome::MixedStrategies));
}

#[test]
fn uniform_run_produces_the_plan() {
    let mut source = Snapshot::new();
    source.insert(rp("a.txt"), Signature::Size(10));
    let dest = Snapshot::new();
    let outcome = reconcile(&source, &dest, &IgnoreList::standard(), Strategy::Size);
    match outcome {
        Outcome::Plan(plan) => {
            assert_eq!(plan, vec![copy_action("a.txt", Reason::Missing)]);
        }
        _ => panic!("expected a plan"),
    }
}

#[test]
fn size_and_hash_signatures_never_compare_equal() {
    assert_ne!(Signature::Size(10), Signature::Hash(10));
}
