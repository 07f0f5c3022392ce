//! The differ: classifies every path of two snapshots.
//!
//! Source paths missing from the destination or recorded there with another
//! signature become copy actions, in source order; destination paths absent
//! from the source and not on the ignore list become stale reports, in
//! destination order. Equal signatures produce no action. The differ is a
//! pure function of its two snapshots, so its output is reproducible.

use vstd::prelude::*;
use crate::order::bytes_eq;
use crate::paths::base_name;
use crate::paths::base_name_of;
use crate::paths::RelativePath;
use crate::signature::Strategy;
use crate::snapshot::Entry;
use crate::snapshot::Snapshot;

verus! {

/// Why a file must be copied.
#[derive(Clone, Copy, Debug, PartialEq, Eq, Structural)]
pub enum Reason {
    /// The path is absent from the destination.
    Missing,
    /// The path is present with a different signature.
    Mismatched,
}

/// One classified reconciliation action.
#[derive(Debug, PartialEq, Eq)]
pub enum Action {
    /// Copy the file at `path` from source to destination.
    Copy { path: RelativePath, reason: Reason },
    /// The destination holds `path` but the source does not; report only.
    Stale { path: RelativePath },
}

/// The mathematical form of an action, over path values.
#[verifier::ext_equal]
pub enum ActionV {
    /// Copy the file at `path` from source to destination.
    Copy { path: Seq<u8>, reason: Reason },
    /// The destination holds `path` but the source does not; report only.
    Stale { path: Seq<u8> },
}

impl View for Action {
    type V = ActionV;

    open spec fn view(&self) -> ActionV {
        match self {
            Action::Copy { path, reason } => ActionV::Copy { path: path@, reason: *reason },
            Action::Stale { path } => ActionV::Stale { path: path@ },
        }
    }
}

/// The action views of an action vector, in order.
pub open spec fn views_of(s: Seq<Action>) -> Seq<ActionV> {
    s.map_values(|a: Action| a@)
}

/// File names whose stale presence in the destination is not worth a report,
/// such as hidden metadata files an operating system drops into directories.
pub struct IgnoreList {
    /// The ignored base names.
    pub names: Vec<Vec<u8>>,
}

/// The byte spelling of the one well-known ignorable metadata file name.
pub open spec fn metadata_artifact() -> Seq<u8> {
    seq![46u8, 68u8, 83u8, 95u8, 83u8, 116u8, 111u8, 114u8, 101u8]
}

impl IgnoreList {
    /// The path's final component is one of the ignored names.
    pub open spec fn spec_ignores(self, p: Seq<u8>) -> bool {
        exists|i: int| 0 <= i < self.names@.len() && #[trigger] self.names@[i]@ == base_name(p)
    }

    /// An ignore list with nothing on it.
    pub fn none() -> (r: IgnoreList)
        ensures
            r.names@.len() == 0,
            forall|p: Seq<u8>| !r.spec_ignores(p),
    {
        IgnoreList { names: Vec::new() }
    }

    /// The standard list: only the well-known metadata artifact file.
    pub fn standard() -> (r: IgnoreList)
        ensures
            r.names@.len() == 1,
            r.names@[0]@ == metadata_artifact(),
            forall|p: Seq<u8>| r.spec_ignores(p) == (base_name(p) == metadata_artifact()),
    {
        let mut name: Vec<u8> = Vec::new();
        name.push(46);
        name.push(68);
        name.push(83);
        name.push(95);
        name.push(83);
        name.push(116);
        name.push(111);
        name.push(114);
        name.push(101);
        proof {
            assert(name@ =~= metadata_artifact());
        }
        let mut names: Vec<Vec<u8>> = Vec::new();
        names.push(name);
        IgnoreList { names }
    }

    /// Adds one more ignored base name.
    pub fn add(&mut self, name: Vec<u8>)
        ensures
            final(self).names@ == old(self).names@.push(name),
    {
        self.names.push(name);
    }

    /// Decides whether the path's final component is ignored.
    pub fn ignores(&self, p: &RelativePath) -> (r: bool)
        ensures
            r == self.spec_ignores(p@),
    {
        let base = base_name_of(p.as_bytes());
        let mut i: usize = 0;
        while i < self.names.len()
            invariant
                i <= self.names@.len(),
                base@ == base_name(p@),
                forall|j: int| 0 <= j < i ==> #[trigger] self.names@[j]@ != base_name(p@),
            decreases self.names@.len() - i,
        {
            if bytes_eq(&self.names[i], &base) {
                return true;
            }
            i = i + 1;
        }
        false
    }
}

/// The copy actions one source entry contributes against the destination.
pub open spec fn copy_action_for(e: Entry, d: Snapshot) -> Seq<ActionV> {
    if !d.has_path(e.path@) {
        seq![ActionV::Copy { path: e.path@, reason: Reason::Missing }]
    } else if d.sig_at(e.path@) != e.sig {
        seq![ActionV::Copy { path: e.path@, reason: Reason::Mismatched }]
    } else {
        Seq::empty()
    }
}

/// The copy actions of a run: one pass over the source entries in order.
pub open spec fn copy_actions(s: Seq<Entry>, d: Snapshot) -> Seq<ActionV>
    decreases s.len(),
{
    if s.len() == 0 {
        Seq::empty()
    } else {
        copy_actions(s.drop_last(), d) + copy_action_for(s.last(), d)
    }
}

/// The stale report one destination entry contributes against the source.
pub open spec fn stale_action_for(e: Entry, s: Snapshot, ig: IgnoreList) -> Seq<ActionV> {
    if !s.has_path(e.path@) && !ig.spec_ignores(e.path@) {
        seq![ActionV::Stale { path: e.path@ }]
    } else {
        Seq::empty()
    }
}

/// The stale reports of a run: one pass over the destination entries in order.
pub open spec fn stale_actions(d: Seq<Entry>, s: Snapshot, ig: IgnoreList) -> Seq<ActionV>
    decreases d.len(),
{
    if d.len() == 0 {
        Seq::empty()
    } else {
        stale_actions(d.drop_last(), s, ig) + stale_action_for(d.last(), s, ig)
    }
}

/// The full reconciliation plan: all copy actions, then all stale reports.
pub open spec fn diff_spec(s: Snapshot, d: Snapshot, ig: IgnoreList) -> Seq<ActionV> {
    copy_actions(s.entries@, d) + stale_actions(d.entries@, s, ig)
}

/// Compares the source snapshot against the destination snapshot and returns
/// the ordered reconciliation plan.
pub fn diff(source: &Snapshot, dest: &Snapshot, ignore: &IgnoreList) -> (r: Vec<Action>)
    requires
        source.wf(),
        dest.wf(),
    ensures
        views_of(r@) == diff_spec(*source, *dest, *ignore),
{
    let mut r: Vec<Action> = Vec::new();
    let mut i: usize = 0;
    proof {
        assert(source.entries@.take(0) =~= Seq::<Entry>::empty());
        assert(views_of(r@) =~= copy_actions(source.entries@.take(0), *dest));
    }
    while i < source.entries.len()
        invariant
            source.wf(),
            dest.wf(),
            i <= source.entries@.len(),
            views_of(r@) == copy_actions(source.entries@.take(i as int), *dest),
        decreases source.entries@.len() - i,
    {
        proof {
            assert(source.entries@.take(i + 1).drop_last() =~= source.entries@.take(i as int));
            assert(source.entries@.take(i + 1).last() == source.entries@[i as int]);
        }
        let e_sig = source.entries[i].sig;
        match dest.lookup(&source.entries[i].path) {
            Option::None => {
                r.push(
                    Action::Copy { path: source.entries[i].path.duplicate(), reason: Reason::Missing },
                );
            },
            Option::Some(dsig) => {
                if !(dsig == e_sig) {
                    r.push(
                        Action::Copy {
                            path: source.entries[i].path.duplicate(),
                            reason: Reason::Mismatched,
                        },
                    );
                }
            },
        }
        proof {
            assert(views_of(r@) =~= copy_actions(source.entries@.take(i + 1), *dest));
        }
        i = i + 1;
    }
    proof {
        assert(source.entries@.take(source.entries@.len() as int) =~= source.entries@);
    }
    let mut j: usize = 0;
    proof {
        assert(dest.entries@.take(0) =~= Seq::<Entry>::empty());
        assert(views_of(r@) =~= copy_actions(source.entries@, *dest) + stale_actions(
            dest.entries@.take(0),
            *source,
            *ignore,
        ));
    }
    while j < dest.entries.len()
        invariant
            source.wf(),
            dest.wf(),
            j <= dest.entries@.len(),
            views_of(r@) == copy_actions(source.entries@, *dest) + stale_actions(
                dest.entries@.take(j as int),
                *source,
                *ignore,
            ),
        decreases dest.entries@.len() - j,
    {
        proof {
            assert(dest.entries@.take(j + 1).drop_last() =~= dest.entries@.take(j as int));
            assert(dest.entries@.take(j + 1).last() == dest.entries@[j as int]);
        }
        let present = match source.lookup(&dest.entries[j].path) {
            Option::Some(_) => true,
            Option::None => false,
        };
        let stale_here = if present {
            false
        } else {
            !ignore.ignores(&dest.entries[j].path)
        };
        let ghost rv0 = r@;
        if stale_here {
            r.push(Action::Stale { path: dest.entries[j].path.duplicate() });
        }
        proof {
            let e = dest.entries@[j as int];
            assert(stale_actions(dest.entries@.take(j + 1), *source, *ignore) == stale_actions(
                dest.entries@.take(j as int),
                *source,
                *ignore,
            ) + stale_action_for(e, *source, *ignore));
            if stale_here {
                assert(stale_action_for(e, *source, *ignore) =~= seq![
                    ActionV::Stale { path: e.path@ },
                ]);
                assert(r@ == rv0.push(r@.last()));
                assert(r@.last()@ =~= ActionV::Stale { path: e.path@ });
                assert(views_of(r@) =~= views_of(rv0).push(ActionV::Stale { path: e.path@ }));
            } else {
                assert(stale_action_for(e, *source, *ignore) =~= Seq::<ActionV>::empty());
            }
            assert(views_of(r@) =~= copy_actions(source.entries@, *dest) + stale_actions(
                dest.entries@.take(j + 1),
                *source,
                *ignore,
            ));
        }
        j = j + 1;
    }
    proof {
        assert(dest.entries@.take(dest.entries@.len() as int) =~= dest.entries@);
    }
    r
}

/// What one reconciliation run decides, before any file is touched.
pub enum Outcome {
    /// The two snapshots were not fingerprinted under the one chosen
    /// strategy; comparing them would be meaningless, so nothing is planned.
    MixedStrategies,
    /// The source tree holds no files: the run is a no-op by design.
    EmptySource,
    /// The ordered action plan for a non-empty, uniformly fingerprinted run.
    Plan(Vec<Action>),
}

/// The orchestrator's decision: reject mixed fingerprints, short-circuit an
/// empty source, and otherwise produce the full reconciliation plan.
pub fn reconcile(
    source: &Snapshot,
    dest: &Snapshot,
    ignore: &IgnoreList,
    strategy: Strategy,
) -> (r: Outcome)
    requires
        source.wf(),
        dest.wf(),
    ensures
        match r {
            Outcome::MixedStrategies => !(source.uniform_spec(strategy) && dest.uniform_spec(
                strategy,
            )),
            Outcome::EmptySource => source.uniform_spec(strategy) && dest.uniform_spec(strategy)
                && source.entries@.len() == 0,
            Outcome::Plan(v) => source.uniform_spec(strategy) && dest.uniform_spec(strategy)
                && source.entries@.len() > 0 && views_of(v@) == diff_spec(
                *source,
                *dest,
                *ignore,
            ),
        },
{
    if !source.uniform(strategy) || !dest.uniform(strategy) {
        return Outcome::MixedStrategies;
    }
    if source.is_empty() {
        return Outcome::EmptySource;
    }
    Outcome::Plan(diff(source, dest, ignore))
}

} // verus!
