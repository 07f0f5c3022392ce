//! The sync executor's effect on the destination record.
//!
//! The byte copying itself happens on the filesystem, outside this crate.
//! What it must achieve is modeled here: applying a plan's copy actions to
//! the destination snapshot installs the source's signature at every copied
//! path and touches nothing else. A caller that copies the real files and
//! updates its destination record through `apply_copies` keeps the record in
//! step with the tree it just produced.

use vstd::prelude::*;
use crate::differ::Action;
use crate::differ::ActionV;
use crate::differ::views_of;
use crate::snapshot::Snapshot;

verus! {

/// `a` is an action that copies `p`.
pub open spec fn is_copy_of(a: ActionV, p: Seq<u8>) -> bool {
    match a {
        ActionV::Copy { path, .. } => path == p,
        ActionV::Stale { .. } => false,
    }
}

/// Some action of the plan copies `p`.
pub open spec fn has_copy(acts: Seq<ActionV>, p: Seq<u8>) -> bool {
    exists|k: int| 0 <= k < acts.len() && is_copy_of(#[trigger] acts[k], p)
}

/// Every path the plan copies is recorded in `s`.
pub open spec fn copies_within(acts: Seq<ActionV>, s: Snapshot) -> bool {
    forall|k: int|
        0 <= k < acts.len() ==> match #[trigger] acts[k] {
            ActionV::Copy { path, .. } => s.has_path(path),
            ActionV::Stale { .. } => true,
        }
}

/// Replays the plan's copy actions against the destination record: afterwards
/// every copied path carries the source's signature and every other path is
/// exactly as it was. Stale actions change nothing.
pub fn apply_copies(dest: &mut Snapshot, source: &Snapshot, actions: &Vec<Action>)
    requires
        old(dest).wf(),
        source.wf(),
        copies_within(views_of(actions@), *source),
    ensures
        final(dest).wf(),
        forall|p: Seq<u8>|
            #[trigger] has_copy(views_of(actions@), p) ==> final(dest).has_path(p)
                && final(dest).sig_at(p) == source.sig_at(p),
        forall|p: Seq<u8>|
            !(#[trigger] has_copy(views_of(actions@), p)) ==> final(dest).has_path(p)
                == old(dest).has_path(p) && (old(dest).has_path(p) ==> final(dest).sig_at(p)
                == old(dest).sig_at(p)),
{
    let ghost av = views_of(actions@);
    let ghost d0 = *dest;
    let mut k: usize = 0;
    proof {
        assert(av.take(0) =~= Seq::<ActionV>::empty());
    }
    while k < actions.len()
        invariant
            dest.wf(),
            source.wf(),
            k <= actions@.len(),
            av == views_of(actions@),
            copies_within(av, *source),
            d0 == *old(dest),
            forall|p: Seq<u8>|
                #[trigger] has_copy(av.take(k as int), p) ==> dest.has_path(p) && dest.sig_at(p)
                    == source.sig_at(p),
            forall|p: Seq<u8>|
                !(#[trigger] has_copy(av.take(k as int), p)) ==> dest.has_path(p) == d0.has_path(p)
                    && (d0.has_path(p) ==> dest.sig_at(p) == d0.sig_at(p)),
        decreases actions@.len() - k,
    {
        proof {
            assert(av[k as int] == actions@[k as int]@);
        }
        let ghost dpre = *dest;
        match &actions[k] {
            Action::Copy { path, .. } => {
                match source.lookup(path) {
                    Option::Some(sig) => {
                        dest.insert(path.duplicate(), sig);
                    },
                    Option::None => {
                        proof {
                            assert(source.has_path(path@));
                        }
                    },
                }
            },
            Action::Stale { .. } => {},
        }
        proof {
            assert(av.take(k + 1).drop_last() =~= av.take(k as int));
            assert(av.take(k + 1).last() == av[k as int]);
            assert forall|p: Seq<u8>| #[trigger] has_copy(av.take(k + 1), p) implies (has_copy(
                av.take(k as int),
                p,
            ) || is_copy_of(av[k as int], p)) by {
                let w = choose|w: int|
                    0 <= w < av.take(k + 1).len() && is_copy_of(#[trigger] av.take(k + 1)[w], p);
                if w < k {
                    assert(av.take(k as int)[w] == av.take(k + 1)[w]);
                    assert(has_copy(av.take(k as int), p));
                } else {
                    assert(av.take(k + 1)[w] == av[k as int]);
                }
            }
            assert forall|p: Seq<u8>| (has_copy(av.take(k as int), p) || is_copy_of(
                av[k as int],
                p,
            )) implies #[trigger] has_copy(av.take(k + 1), p) by {
                if has_copy(av.take(k as int), p) {
                    let w = choose|w: int|
                        0 <= w < av.take(k as int).len() && is_copy_of(
                            #[trigger] av.take(k as int)[w],
                            p,
                        );
                    assert(av.take(k + 1)[w] == av.take(k as int)[w]);
                    assert(is_copy_of(av.take(k + 1)[w], p));
                } else {
                    assert(av.take(k + 1)[k as int] == av[k as int]);
                    assert(is_copy_of(av.take(k + 1)[k as int], p));
                }
            }
        }
        k = k + 1;
    }
    proof {
        assert(av.take(av.len() as int) =~= av);
    }
}

} // verus!
