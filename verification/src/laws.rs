//! The laws of the reconciliation engine, stated and proved once for all
//! snapshots: completeness and uniqueness of the planned actions, the fate of
//! ignore-listed names, idempotence of a full run, and the determinism of
//! snapshot ordering.

use vstd::prelude::*;
use crate::differ::copy_action_for;
use crate::differ::copy_actions;
use crate::differ::diff_spec;
use crate::differ::stale_action_for;
use crate::differ::stale_actions;
use crate::differ::ActionV;
use crate::differ::IgnoreList;
use crate::differ::Reason;
use crate::executor::has_copy;
use crate::executor::is_copy_of;
use crate::order::lemma_lex_asym;
use crate::order::lemma_lex_irrefl;
use crate::order::lex_lt;
use crate::snapshot::Entry;
use crate::snapshot::Snapshot;

verus! {

/// Entry paths strictly increase.
pub open spec fn sorted_entries(s: Seq<Entry>) -> bool {
    forall|i: int, j: int|
        0 <= i < j < s.len() ==> lex_lt(#[trigger] s[i].path@, #[trigger] s[j].path@)
}

/// How many times the action `a` occurs in `s`.
pub open spec fn count_of(s: Seq<ActionV>, a: ActionV) -> nat
    decreases s.len(),
{
    if s.len() == 0 {
        0
    } else {
        count_of(s.drop_last(), a) + (if s.last() == a {
            1nat
        } else {
            0nat
        })
    }
}

/// Counting distributes over concatenation.
pub proof fn lemma_count_concat(x: Seq<ActionV>, y: Seq<ActionV>, a: ActionV)
    ensures
        count_of(x + y, a) == count_of(x, a) + count_of(y, a),
    decreases y.len(),
{
    if y.len() == 0 {
        assert(x + y =~= x);
    } else {
        lemma_count_concat(x, y.drop_last(), a);
        assert((x + y).drop_last() =~= x + y.drop_last());
        assert((x + y).last() == y.last());
    }
}

/// An action counted at least once occurs in the sequence.
pub proof fn lemma_count_pos(s: Seq<ActionV>, a: ActionV)
    requires
        count_of(s, a) > 0,
    ensures
        exists|k: int| 0 <= k < s.len() && s[k] == a,
    decreases s.len(),
{
    if s.len() > 0 {
        if s.last() == a {
            assert(s[s.len() - 1] == a);
        } else {
            lemma_count_pos(s.drop_last(), a);
            let k = choose|k: int| 0 <= k < s.drop_last().len() && s.drop_last()[k] == a;
            assert(s[k] == a);
        }
    }
}

/// The differ owes a copy of entry `e` with reason `r` against `d`.
pub open spec fn wants_copy(e: Entry, d: Snapshot, r: Reason) -> bool {
    match r {
        Reason::Missing => !d.has_path(e.path@),
        Reason::Mismatched => d.has_path(e.path@) && d.sig_at(e.path@) != e.sig,
    }
}

/// A prefix of a sorted entry sequence is sorted.
proof fn lemma_sorted_drop_last(s: Seq<Entry>)
    requires
        sorted_entries(s),
        s.len() > 0,
    ensures
        sorted_entries(s.drop_last()),
{
    let t = s.drop_last();
    assert forall|i: int, j: int| 0 <= i < j < t.len() implies lex_lt(
        #[trigger] t[i].path@,
        #[trigger] t[j].path@,
    ) by {
        assert(t[i] == s[i]);
        assert(t[j] == s[j]);
    }
}

/// The copy pass emits `Copy { p, r }` exactly once when some source entry
/// carries path `p` and owes that copy, and never otherwise.
pub proof fn lemma_copy_actions_count(s: Seq<Entry>, d: Snapshot, p: Seq<u8>, r: Reason)
    requires
        sorted_entries(s),
    ensures
        count_of(copy_actions(s, d), ActionV::Copy { path: p, reason: r }) == (
        if exists|i: int|
            0 <= i < s.len() && (#[trigger] s[i]).path@ == p && wants_copy(s[i], d, r) {
            1nat
        } else {
            0nat
        }),
    decreases s.len(),
{
    let a = ActionV::Copy { path: p, reason: r };
    assert(count_of(Seq::<ActionV>::empty(), a) == 0);
    if s.len() > 0 {
        let t = s.drop_last();
        let e = s.last();
        lemma_sorted_drop_last(s);
        lemma_copy_actions_count(t, d, p, r);
        lemma_count_concat(copy_actions(t, d), copy_action_for(e, d), a);
        if e.path@ == p && wants_copy(e, d, r) {
            assert(copy_action_for(e, d) =~= seq![a]);
            assert(count_of(seq![a], a) == 1) by {
                assert(seq![a].drop_last() =~= Seq::<ActionV>::empty());
            }
            assert forall|i: int| 0 <= i < t.len() implies (#[trigger] t[i]).path@ != p by {
                assert(t[i] == s[i]);
                assert(lex_lt(s[i].path@, e.path@));
                lemma_lex_asym(s[i].path@, e.path@);
            }
            assert(s[s.len() - 1].path@ == p && wants_copy(s[s.len() - 1], d, r));
        } else {
            assert(count_of(copy_action_for(e, d), a) == 0) by {
                if !d.has_path(e.path@) {
                    assert(copy_action_for(e, d) =~= seq![
                        ActionV::Copy { path: e.path@, reason: Reason::Missing },
                    ]);
                    assert(copy_action_for(e, d).drop_last() =~= Seq::<ActionV>::empty());
                } else if d.sig_at(e.path@) != e.sig {
                    assert(copy_action_for(e, d) =~= seq![
                        ActionV::Copy { path: e.path@, reason: Reason::Mismatched },
                    ]);
                    assert(copy_action_for(e, d).drop_last() =~= Seq::<ActionV>::empty());
                }
            }
            if exists|i: int|
                0 <= i < s.len() && (#[trigger] s[i]).path@ == p && wants_copy(s[i], d, r) {
                let w = choose|i: int|
                    0 <= i < s.len() && (#[trigger] s[i]).path@ == p && wants_copy(s[i], d, r);
                assert(w < s.len() - 1);
                assert(t[w] == s[w]);
                assert((exists|i: int|
                    0 <= i < t.len() && (#[trigger] t[i]).path@ == p && wants_copy(t[i], d, r)));
            } else {
                assert forall|i: int|
                    !(0 <= i < t.len() && (#[trigger] t[i]).path@ == p && wants_copy(
                        t[i],
                        d,
                        r,
                    )) by {
                    if 0 <= i < t.len() {
                        assert(t[i] == s[i]);
                    }
                }
            }
        }
    }
}

/// The stale pass emits `Stale { p }` exactly once when some destination
/// entry carries path `p`, the source lacks it, and it is not ignored.
pub proof fn lemma_stale_actions_count(dd: Seq<Entry>, s: Snapshot, ig: IgnoreList, p: Seq<u8>)
    requires
        sorted_entries(dd),
    ensures
        count_of(stale_actions(dd, s, ig), ActionV::Stale { path: p }) == (
        if (exists|i: int| 0 <= i < dd.len() && (#[trigger] dd[i]).path@ == p) && !s.has_path(p)
            && !ig.spec_ignores(p) {
            1nat
        } else {
            0nat
        }),
    decreases dd.len(),
{
    let a = ActionV::Stale { path: p };
    assert(count_of(Seq::<ActionV>::empty(), a) == 0);
    if dd.len() > 0 {
        let t = dd.drop_last();
        let e = dd.last();
        lemma_sorted_drop_last(dd);
        lemma_stale_actions_count(t, s, ig, p);
        lemma_count_concat(stale_actions(t, s, ig), stale_action_for(e, s, ig), a);
        if e.path@ == p && !s.has_path(p) && !ig.spec_ignores(p) {
            assert(stale_action_for(e, s, ig) =~= seq![a]);
            assert(count_of(seq![a], a) == 1) by {
                assert(seq![a].drop_last() =~= Seq::<ActionV>::empty());
            }
            assert forall|i: int| 0 <= i < t.len() implies (#[trigger] t[i]).path@ != p by {
                assert(t[i] == dd[i]);
                assert(lex_lt(dd[i].path@, e.path@));
                lemma_lex_asym(dd[i].path@, e.path@);
            }
            assert(dd[dd.len() - 1].path@ == p);
        } else {
            assert(count_of(stale_action_for(e, s, ig), a) == 0) by {
                if !s.has_path(e.path@) && !ig.spec_ignores(e.path@) {
                    assert(stale_action_for(e, s, ig) =~= seq![
                        ActionV::Stale { path: e.path@ },
                    ]);
                    assert(stale_action_for(e, s, ig).drop_last() =~= Seq::<ActionV>::empty());
                }
            }
            if exists|i: int| 0 <= i < dd.len() && (#[trigger] dd[i]).path@ == p {
                let w = choose|i: int| 0 <= i < dd.len() && (#[trigger] dd[i]).path@ == p;
                if w < dd.len() - 1 {
                    assert(t[w] == dd[w]);
                    assert((exists|i: int| 0 <= i < t.len() && (#[trigger] t[i]).path@ == p));
                }
            } else {
                assert forall|i: int| !(0 <= i < t.len() && (#[trigger] t[i]).path@ == p) by {
                    if 0 <= i < t.len() {
                        assert(t[i] == dd[i]);
                    }
                }
            }
        }
    }
}

/// The copy pass never emits a stale report.
pub proof fn lemma_copy_actions_no_stale(s: Seq<Entry>, d: Snapshot, p: Seq<u8>)
    ensures
        count_of(copy_actions(s, d), ActionV::Stale { path: p }) == 0,
    decreases s.len(),
{
    let a = ActionV::Stale { path: p };
    assert(count_of(Seq::<ActionV>::empty(), a) == 0);
    if s.len() > 0 {
        let e = s.last();
        lemma_copy_actions_no_stale(s.drop_last(), d, p);
        lemma_count_concat(copy_actions(s.drop_last(), d), copy_action_for(e, d), a);
        assert(count_of(copy_action_for(e, d), a) == 0) by {
            if !d.has_path(e.path@) {
                assert(copy_action_for(e, d) =~= seq![
                    ActionV::Copy { path: e.path@, reason: Reason::Missing },
                ]);
                assert(copy_action_for(e, d).drop_last() =~= Seq::<ActionV>::empty());
            } else if d.sig_at(e.path@) != e.sig {
                assert(copy_action_for(e, d) =~= seq![
                    ActionV::Copy { path: e.path@, reason: Reason::Mismatched },
                ]);
                assert(copy_action_for(e, d).drop_last() =~= Seq::<ActionV>::empty());
            }
        }
    }
}

/// The stale pass never emits a copy action.
pub proof fn lemma_stale_actions_no_copy(
    dd: Seq<Entry>,
    s: Snapshot,
    ig: IgnoreList,
    p: Seq<u8>,
    r: Reason,
)
    ensures
        count_of(stale_actions(dd, s, ig), ActionV::Copy { path: p, reason: r }) == 0,
    decreases dd.len(),
{
    let a = ActionV::Copy { path: p, reason: r };
    assert(count_of(Seq::<ActionV>::empty(), a) == 0);
    if dd.len() > 0 {
        let e = dd.last();
        lemma_stale_actions_no_copy(dd.drop_last(), s, ig, p, r);
        lemma_count_concat(stale_actions(dd.drop_last(), s, ig), stale_action_for(e, s, ig), a);
        assert(count_of(stale_action_for(e, s, ig), a) == 0) by {
            if !s.has_path(e.path@) && !ig.spec_ignores(e.path@) {
                assert(stale_action_for(e, s, ig) =~= seq![ActionV::Stale { path: e.path@ }]);
                assert(stale_action_for(e, s, ig).drop_last() =~= Seq::<ActionV>::empty());
            }
        }
    }
}

/// Completeness: a path present in the source and absent from the destination
/// yields exactly one missing-copy action in the plan.
pub proof fn lemma_completeness(s: Snapshot, d: Snapshot, ig: IgnoreList, p: Seq<u8>)
    requires
        s.wf(),
        d.wf(),
        s.has_path(p),
        !d.has_path(p),
    ensures
        count_of(diff_spec(s, d, ig), ActionV::Copy { path: p, reason: Reason::Missing }) == 1,
{
    let a = ActionV::Copy { path: p, reason: Reason::Missing };
    assert(sorted_entries(s.entries@));
    lemma_copy_actions_count(s.entries@, d, p, Reason::Missing);
    let w = choose|i: int| 0 <= i < s.entries@.len() && #[trigger] s.entries@[i].path@ == p;
    assert(s.entries@[w].path@ == p && wants_copy(s.entries@[w], d, Reason::Missing));
    lemma_stale_actions_no_copy(d.entries@, s, ig, p, Reason::Missing);
    lemma_count_concat(copy_actions(s.entries@, d), stale_actions(d.entries@, s, ig), a);
}

/// Mismatch detection: a path present in both snapshots with differing
/// signatures yields exactly one mismatched-copy action and no stale report.
pub proof fn lemma_mismatch_detection(s: Snapshot, d: Snapshot, ig: IgnoreList, p: Seq<u8>)
    requires
        s.wf(),
        d.wf(),
        s.has_path(p),
        d.has_path(p),
        d.sig_at(p) != s.sig_at(p),
    ensures
        count_of(diff_spec(s, d, ig), ActionV::Copy { path: p, reason: Reason::Mismatched }) == 1,
        count_of(diff_spec(s, d, ig), ActionV::Stale { path: p }) == 0,
{
    let a = ActionV::Copy { path: p, reason: Reason::Mismatched };
    assert(sorted_entries(s.entries@));
    lemma_copy_actions_count(s.entries@, d, p, Reason::Mismatched);
    let w = choose|i: int| 0 <= i < s.entries@.len() && #[trigger] s.entries@[i].path@ == p;
    s.lemma_at(w);
    assert(s.entries@[w].path@ == p && wants_copy(s.entries@[w], d, Reason::Mismatched));
    lemma_stale_actions_no_copy(d.entries@, s, ig, p, Reason::Mismatched);
    lemma_count_concat(copy_actions(s.entries@, d), stale_actions(d.entries@, s, ig), a);
    let b = ActionV::Stale { path: p };
    lemma_copy_actions_no_stale(s.entries@, d, p);
    assert(sorted_entries(d.entries@));
    lemma_stale_actions_count(d.entries@, s, ig, p);
    lemma_count_concat(copy_actions(s.entries@, d), stale_actions(d.entries@, s, ig), b);
}

/// Stale detection: a destination-only path off the ignore list yields
/// exactly one stale report.
pub proof fn lemma_stale_detection(s: Snapshot, d: Snapshot, ig: IgnoreList, p: Seq<u8>)
    requires
        s.wf(),
        d.wf(),
        d.has_path(p),
        !s.has_path(p),
        !ig.spec_ignores(p),
    ensures
        count_of(diff_spec(s, d, ig), ActionV::Stale { path: p }) == 1,
{
    let b = ActionV::Stale { path: p };
    lemma_copy_actions_no_stale(s.entries@, d, p);
    assert(sorted_entries(d.entries@));
    lemma_stale_actions_count(d.entries@, s, ig, p);
    let w = choose|i: int| 0 <= i < d.entries@.len() && #[trigger] d.entries@[i].path@ == p;
    assert(d.entries@[w].path@ == p);
    lemma_count_concat(copy_actions(s.entries@, d), stale_actions(d.entries@, s, ig), b);
}

/// Ignore-listed names never appear as stale reports.
pub proof fn lemma_ignored_never_stale(s: Snapshot, d: Snapshot, ig: IgnoreList, p: Seq<u8>)
    requires
        s.wf(),
        d.wf(),
        ig.spec_ignores(p),
    ensures
        count_of(diff_spec(s, d, ig), ActionV::Stale { path: p }) == 0,
{
    let b = ActionV::Stale { path: p };
    lemma_copy_actions_no_stale(s.entries@, d, p);
    assert(sorted_entries(d.entries@));
    lemma_stale_actions_count(d.entries@, s, ig, p);
    lemma_count_concat(copy_actions(s.entries@, d), stale_actions(d.entries@, s, ig), b);
}

/// The destination agrees with the source on every source path.
pub open spec fn synced(s: Snapshot, d: Snapshot) -> bool {
    forall|p: Seq<u8>|
        #[trigger] s.has_path(p) ==> d.has_path(p) && d.sig_at(p) == s.sig_at(p)
}

/// Entries all matched in the destination produce no copy action.
proof fn lemma_no_copy_when_matched(t: Seq<Entry>, d: Snapshot)
    requires
        forall|i: int|
            0 <= i < t.len() ==> d.has_path((#[trigger] t[i]).path@) && d.sig_at(t[i].path@)
                == t[i].sig,
    ensures
        copy_actions(t, d) == Seq::<ActionV>::empty(),
    decreases t.len(),
{
    if t.len() > 0 {
        lemma_no_copy_when_matched(t.drop_last(), d);
        assert(copy_action_for(t.last(), d) =~= Seq::<ActionV>::empty());
        assert(copy_actions(t, d) =~= Seq::<ActionV>::empty());
    }
}

/// Idempotence: once the destination agrees with the source, the differ
/// plans no copy action at all.
pub proof fn lemma_idempotence(s: Snapshot, d: Snapshot)
    requires
        s.wf(),
        d.wf(),
        synced(s, d),
    ensures
        copy_actions(s.entries@, d) == Seq::<ActionV>::empty(),
{
    assert forall|i: int| 0 <= i < s.entries@.len() implies d.has_path(
        (#[trigger] s.entries@[i]).path@,
    ) && d.sig_at(s.entries@[i].path@) == s.entries@[i].sig by {
        s.lemma_at(i);
        assert(s.has_path(s.entries@[i].path@));
    }
    lemma_no_copy_when_matched(s.entries@, d);
}

/// Copy correctness, at the record level: when the destination record has
/// absorbed every copy of the plan and kept everything else, it agrees with
/// the source on every source path.
pub proof fn lemma_sync_reached(s: Snapshot, d0: Snapshot, d1: Snapshot, ig: IgnoreList)
    requires
        s.wf(),
        d0.wf(),
        d1.wf(),
        forall|p: Seq<u8>|
            #[trigger] has_copy(diff_spec(s, d0, ig), p) ==> d1.has_path(p) && d1.sig_at(p)
                == s.sig_at(p),
        forall|p: Seq<u8>|
            !(#[trigger] has_copy(diff_spec(s, d0, ig), p)) ==> d1.has_path(p) == d0.has_path(p)
                && (d0.has_path(p) ==> d1.sig_at(p) == d0.sig_at(p)),
    ensures
        synced(s, d1),
{
    assert forall|p: Seq<u8>| #[trigger] s.has_path(p) implies d1.has_path(p) && d1.sig_at(p)
        == s.sig_at(p) by {
        if !has_copy(diff_spec(s, d0, ig), p) {
            let w = choose|i: int| 0 <= i < s.entries@.len() && #[trigger] s.entries@[i].path@
                == p;
            s.lemma_at(w);
            if !d0.has_path(p) || d0.sig_at(p) != s.sig_at(p) {
                let r = if !d0.has_path(p) {
                    Reason::Missing
                } else {
                    Reason::Mismatched
                };
                let a = ActionV::Copy { path: p, reason: r };
                assert(s.entries@[w].path@ == p && wants_copy(s.entries@[w], d0, r));
                assert(sorted_entries(s.entries@));
                lemma_copy_actions_count(s.entries@, d0, p, r);
                lemma_count_pos(copy_actions(s.entries@, d0), a);
                let k = choose|k: int|
                    0 <= k < copy_actions(s.entries@, d0).len() && copy_actions(s.entries@, d0)[k]
                        == a;
                assert(diff_spec(s, d0, ig)[k] == a);
                assert(is_copy_of(diff_spec(s, d0, ig)[k], p));
                assert(has_copy(diff_spec(s, d0, ig), p));
            }
        }
    }
}

/// A second run right after a completed first run plans zero copy actions.
pub proof fn lemma_second_run_no_copies(s: Snapshot, d0: Snapshot, d1: Snapshot, ig: IgnoreList)
    requires
        s.wf(),
        d0.wf(),
        d1.wf(),
        forall|p: Seq<u8>|
            #[trigger] has_copy(diff_spec(s, d0, ig), p) ==> d1.has_path(p) && d1.sig_at(p)
                == s.sig_at(p),
        forall|p: Seq<u8>|
            !(#[trigger] has_copy(diff_spec(s, d0, ig), p)) ==> d1.has_path(p) == d0.has_path(p)
                && (d0.has_path(p) ==> d1.sig_at(p) == d0.sig_at(p)),
    ensures
        copy_actions(s.entries@, d1) == Seq::<ActionV>::empty(),
{
    lemma_sync_reached(s, d0, d1, ig);
    lemma_idempotence(s, d1);
}

/// The entry sequence records path `p`.
pub open spec fn contains_path(s: Seq<Entry>, p: Seq<u8>) -> bool {
    exists|i: int| 0 <= i < s.len() && (#[trigger] s[i]).path@ == p
}

/// Sorted entry sequences over the same paths are identical path for path.
proof fn lemma_sorted_same_paths(x: Seq<Entry>, y: Seq<Entry>)
    requires
        sorted_entries(x),
        sorted_entries(y),
        forall|p: Seq<u8>| #[trigger] contains_path(x, p) == contains_path(y, p),
    ensures
        x.len() == y.len(),
        forall|i: int| 0 <= i < x.len() ==> (#[trigger] x[i]).path@ == y[i].path@,
    decreases x.len(),
{
    if x.len() == 0 {
        if y.len() > 0 {
            assert(contains_path(y, y[0].path@));
            assert(contains_path(x, y[0].path@));
            assert(false);
        }
    } else if y.len() == 0 {
        assert(contains_path(x, x[0].path@));
        assert(contains_path(y, x[0].path@));
        assert(false);
    } else {
        let p0 = x[0].path@;
        let q0 = y[0].path@;
        assert(contains_path(x, p0));
        assert(contains_path(y, q0));
        assert(contains_path(y, p0));
        assert(contains_path(x, q0));
        let j = choose|j: int| 0 <= j < y.len() && (#[trigger] y[j]).path@ == p0;
        let i = choose|i: int| 0 <= i < x.len() && (#[trigger] x[i]).path@ == q0;
        if j > 0 && i > 0 {
            assert(lex_lt(q0, y[j].path@));
            assert(lex_lt(p0, x[i].path@));
            lemma_lex_asym(q0, p0);
            assert(false);
        }
        assert(p0 == q0);
        let xt = x.drop_first();
        let yt = y.drop_first();
        assert forall|a: int, b: int| 0 <= a < b < xt.len() implies lex_lt(
            (#[trigger] xt[a]).path@,
            (#[trigger] xt[b]).path@,
        ) by {
            assert(xt[a] == x[a + 1]);
            assert(xt[b] == x[b + 1]);
        }
        assert forall|a: int, b: int| 0 <= a < b < yt.len() implies lex_lt(
            (#[trigger] yt[a]).path@,
            (#[trigger] yt[b]).path@,
        ) by {
            assert(yt[a] == y[a + 1]);
            assert(yt[b] == y[b + 1]);
        }
        assert forall|p: Seq<u8>| #[trigger] contains_path(xt, p) == contains_path(yt, p) by {
            if contains_path(xt, p) {
                let a = choose|a: int| 0 <= a < xt.len() && (#[trigger] xt[a]).path@ == p;
                assert(xt[a] == x[a + 1]);
                assert(lex_lt(p0, p));
                assert(contains_path(x, p));
                assert(contains_path(y, p));
                let b = choose|b: int| 0 <= b < y.len() && (#[trigger] y[b]).path@ == p;
                if b == 0 {
                    lemma_lex_irrefl(p0);
                    assert(false);
                }
                assert(yt[b - 1] == y[b]);
                assert(contains_path(yt, p));
            }
            if contains_path(yt, p) {
                let b = choose|b: int| 0 <= b < yt.len() && (#[trigger] yt[b]).path@ == p;
                assert(yt[b] == y[b + 1]);
                assert(lex_lt(q0, p));
                assert(contains_path(y, p));
                assert(contains_path(x, p));
                let a = choose|a: int| 0 <= a < x.len() && (#[trigger] x[a]).path@ == p;
                if a == 0 {
                    lemma_lex_irrefl(q0);
                    assert(false);
                }
                assert(xt[a - 1] == x[a]);
                assert(contains_path(xt, p));
            }
        }
        lemma_sorted_same_paths(xt, yt);
        assert forall|i3: int| 0 <= i3 < x.len() implies (#[trigger] x[i3]).path@
            == y[i3].path@ by {
            if i3 > 0 {
                assert(x[i3] == xt[i3 - 1]);
                assert(y[i3] == yt[i3 - 1]);
                assert(xt[i3 - 1].path@ == yt[i3 - 1].path@);
            }
        }
    }
}

/// Ordering determinism: two well-formed snapshots that record the same set
/// of paths list them in exactly the same order.
pub proof fn lemma_order_determinism(a: Snapshot, b: Snapshot)
    requires
        a.wf(),
        b.wf(),
        forall|p: Seq<u8>| a.has_path(p) == b.has_path(p),
    ensures
        a.keys() == b.keys(),
{
    assert(sorted_entries(a.entries@));
    assert(sorted_entries(b.entries@));
    assert forall|p: Seq<u8>| #[trigger] contains_path(a.entries@, p) == contains_path(
        b.entries@,
        p,
    ) by {
        assert(contains_path(a.entries@, p) == a.has_path(p));
        assert(contains_path(b.entries@, p) == b.has_path(p));
    }
    lemma_sorted_same_paths(a.entries@, b.entries@);
    assert(a.keys() =~= b.keys());
}

} // verus!
