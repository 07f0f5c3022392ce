//! Snapshots: the complete, ordered record of one tree's files.
//!
//! A snapshot maps each relative path to the signature observed for it, with
//! the entries kept in strict byte-lexicographic path order. The order makes
//! two scans of logically identical trees produce identical entry sequences,
//! so the diff over them is reproducible run after run.

use vstd::prelude::*;
use crate::order::bytes_lt;
use crate::order::lemma_lex_asym;
use crate::order::lemma_lex_irrefl;
use crate::order::lemma_lex_total;
use crate::order::lemma_lex_trans;
use crate::order::lex_lt;
use crate::paths::RelativePath;
use crate::signature::Signature;
use crate::signature::Strategy;

verus! {

/// One snapshot entry: a relative path and the signature observed there.
pub struct Entry {
    pub path: RelativePath,
    pub sig: Signature,
}

/// An ordered mapping from relative path to signature, built by one scan.
pub struct Snapshot {
    /// Entries in strict byte-lexicographic path order.
    pub entries: Vec<Entry>,
}

impl Snapshot {
    /// The paths of the entries, in entry order.
    pub open spec fn keys(self) -> Seq<Seq<u8>> {
        self.entries@.map_values(|e: Entry| e.path@)
    }

    /// Well-formed: entry paths strictly increase, so each path occurs once.
    pub open spec fn wf(self) -> bool {
        forall|i: int, j: int|
            0 <= i < j < self.entries@.len() ==> lex_lt(
                #[trigger] self.entries@[i].path@,
                #[trigger] self.entries@[j].path@,
            )
    }

    /// The snapshot records the path `p`.
    pub open spec fn has_path(self, p: Seq<u8>) -> bool {
        exists|i: int| 0 <= i < self.entries@.len() && #[trigger] self.entries@[i].path@ == p
    }

    /// The position of the entry for `p`; meaningful only when unique.
    pub open spec fn index_of(self, p: Seq<u8>) -> int {
        choose|i: int| 0 <= i < self.entries@.len() && #[trigger] self.entries@[i].path@ == p
    }

    /// The signature recorded for `p`.
    pub open spec fn sig_at(self, p: Seq<u8>) -> Signature {
        self.entries@[self.index_of(p)].sig
    }

    /// Every signature was computed under strategy `k`.
    pub open spec fn uniform_spec(self, k: Strategy) -> bool {
        forall|i: int|
            0 <= i < self.entries@.len() ==> (#[trigger] self.entries@[i].sig).spec_kind() == k
    }

    /// In a well-formed snapshot the entry at `i` is the one its path maps to.
    pub proof fn lemma_at(self, i: int)
        requires
            self.wf(),
            0 <= i < self.entries@.len(),
        ensures
            self.has_path(self.entries@[i].path@),
            self.index_of(self.entries@[i].path@) == i,
            self.sig_at(self.entries@[i].path@) == self.entries@[i].sig,
    {
        let p = self.entries@[i].path@;
        assert(self.has_path(p));
        let j = self.index_of(p);
        if j != i {
            lemma_lex_irrefl(p);
        }
    }

    /// A fresh, empty snapshot.
    pub fn new() -> (s: Snapshot)
        ensures
            s.wf(),
            s.entries@.len() == 0,
    {
        Snapshot { entries: Vec::new() }
    }

    /// Number of recorded files.
    pub fn len(&self) -> (n: usize)
        ensures
            n == self.entries@.len(),
    {
        self.entries.len()
    }

    /// True when no file was recorded.
    pub fn is_empty(&self) -> (r: bool)
        ensures
            r == (self.entries@.len() == 0),
    {
        self.entries.len() == 0
    }

    /// Looks a path up, returning its recorded signature if present.
    pub fn lookup(&self, p: &RelativePath) -> (r: Option<Signature>)
        requires
            self.wf(),
        ensures
            match r {
                Some(sig) => self.has_path(p@) && sig == self.sig_at(p@),
                None => !self.has_path(p@),
            },
    {
        let mut i: usize = 0;
        while i < self.entries.len()
            invariant
                self.wf(),
                i <= self.entries@.len(),
                forall|j: int| 0 <= j < i ==> #[trigger] self.entries@[j].path@ != p@,
            decreases self.entries@.len() - i,
        {
            if crate::order::bytes_eq(self.entries[i].path.as_bytes(), p.as_bytes()) {
                proof {
                    self.lemma_at(i as int);
                }
                return Some(self.entries[i].sig);
            }
            i = i + 1;
        }
        None
    }

    /// True when every signature was computed under strategy `k`.
    pub fn uniform(&self, k: Strategy) -> (r: bool)
        ensures
            r == self.uniform_spec(k),
    {
        let mut i: usize = 0;
        while i < self.entries.len()
            invariant
                i <= self.entries@.len(),
                forall|j: int|
                    0 <= j < i ==> (#[trigger] self.entries@[j].sig).spec_kind() == k,
            decreases self.entries@.len() - i,
        {
            let ek = self.entries[i].sig.kind();
            if !(ek == k) {
                return false;
            }
            i = i + 1;
        }
        true
    }

    /// The first position whose path is not below `path`; entries before it
    /// are strictly below it.
    fn find_slot(&self, path: &RelativePath) -> (i: usize)
        requires
            self.wf(),
        ensures
            i <= self.entries@.len(),
            forall|j: int| 0 <= j < i ==> lex_lt(#[trigger] self.entries@[j].path@, path@),
            i < self.entries@.len() ==> !lex_lt(self.entries@[i as int].path@, path@),
    {
        let mut i: usize = 0;
        while i < self.entries.len()
            invariant
                i <= self.entries@.len(),
                forall|j: int| 0 <= j < i ==> lex_lt(#[trigger] self.entries@[j].path@, path@),
            decreases self.entries@.len() - i,
        {
            if !bytes_lt(self.entries[i].path.as_bytes(), path.as_bytes()) {
                return i;
            }
            i = i + 1;
        }
        i
    }

    /// Records `sig` for `path`, replacing any earlier record: the snapshot
    /// afterwards maps `path` to `sig` and every other path as before, with
    /// the entry order still strict.
    pub fn insert(&mut self, path: RelativePath, sig: Signature)
        requires
            old(self).wf(),
        ensures
            final(self).wf(),
            final(self).has_path(path@),
            final(self).sig_at(path@) == sig,
            forall|q: Seq<u8>|
                q != path@ ==> final(self).has_path(q) == old(self).has_path(q),
            forall|q: Seq<u8>|
                q != path@ && old(self).has_path(q) ==> final(self).sig_at(q) == old(
                    self,
                ).sig_at(q),
            old(self).has_path(path@) ==> final(self).entries@.len() == old(
                self,
            ).entries@.len(),
            !old(self).has_path(path@) ==> final(self).entries@.len() == old(
                self,
            ).entries@.len() + 1,
    {
        let ghost prev = *self;
        let ghost pv = path@;
        let i = self.find_slot(&path);
        let replace: bool = if i < self.entries.len() {
            !bytes_lt(path.as_bytes(), self.entries[i].path.as_bytes())
        } else {
            false
        };
        if replace {
            proof {
                lemma_lex_total(path@, prev.entries@[i as int].path@);
                assert(path@ == prev.entries@[i as int].path@);
            }
            self.entries.set(i, Entry { path, sig });
            proof {
                let n = self.entries@.len();
                assert forall|a: int, b: int| 0 <= a < b < n implies lex_lt(
                    #[trigger] self.entries@[a].path@,
                    #[trigger] self.entries@[b].path@,
                ) by {
                    assert(lex_lt(prev.entries@[a].path@, prev.entries@[b].path@));
                }
                assert(self.wf());
                assert(self.entries@[i as int].path@ == pv);
                self.lemma_at(i as int);
                prev.lemma_at(i as int);
                assert forall|q: Seq<u8>| q != pv implies self.has_path(q) == prev.has_path(
                    q,
                ) by {
                    if prev.has_path(q) {
                        let j = prev.index_of(q);
                        assert(prev.entries@[j].path@ == q);
                        assert(j != i);
                        assert(self.entries@[j].path@ == q);
                    }
                    if self.has_path(q) {
                        let j = self.index_of(q);
                        assert(self.entries@[j].path@ == q);
                        assert(j != i);
                        assert(prev.entries@[j].path@ == q);
                    }
                }
                assert forall|q: Seq<u8>| q != pv && prev.has_path(q) implies self.sig_at(q)
                    == prev.sig_at(q) by {
                    let j = prev.index_of(q);
                    prev.lemma_at(j);
                    assert(j != i);
                    assert(self.entries@[j].path@ == q);
                    self.lemma_at(j);
                }
            }
        } else {
            proof {
                if i < prev.entries@.len() {
                    assert(lex_lt(pv, prev.entries@[i as int].path@));
                }
                assert forall|j: int| i <= j < prev.entries@.len() implies lex_lt(
                    pv,
                    #[trigger] prev.entries@[j].path@,
                ) by {
                    if j > i {
                        lemma_lex_trans(
                            pv,
                            prev.entries@[i as int].path@,
                            prev.entries@[j].path@,
                        );
                    }
                }
                assert forall|j: int| 0 <= j < prev.entries@.len() implies prev.entries@[j].path@
                    != pv by {
                    if j < i {
                        lemma_lex_asym(prev.entries@[j].path@, pv);
                    } else {
                        lemma_lex_asym(pv, prev.entries@[j].path@);
                    }
                }
                assert(!prev.has_path(pv));
            }
            self.entries.insert(i, Entry { path, sig });
            proof {
                let n = self.entries@.len();
                assert(n == prev.entries@.len() + 1);
                assert forall|a: int, b: int| 0 <= a < b < n implies lex_lt(
                    #[trigger] self.entries@[a].path@,
                    #[trigger] self.entries@[b].path@,
                ) by {
                    if b < i {
                        assert(lex_lt(prev.entries@[a].path@, prev.entries@[b].path@));
                    } else if a < i && b == i {
                        assert(lex_lt(prev.entries@[a].path@, pv));
                    } else if a < i && b > i {
                        assert(lex_lt(prev.entries@[a].path@, prev.entries@[b - 1].path@));
                    } else if a == i {
                        assert(lex_lt(pv, prev.entries@[b - 1].path@));
                    } else {
                        assert(lex_lt(prev.entries@[a - 1].path@, prev.entries@[b - 1].path@));
                    }
                }
                assert(self.wf());
                assert(self.entries@[i as int].path@ == pv);
                self.lemma_at(i as int);
                assert forall|q: Seq<u8>| q != pv implies self.has_path(q) == prev.has_path(
                    q,
                ) by {
                    if prev.has_path(q) {
                        let j = prev.index_of(q);
                        assert(prev.entries@[j].path@ == q);
                        if j < i {
                            assert(self.entries@[j].path@ == q);
                        } else {
                            assert(self.entries@[j + 1].path@ == q);
                        }
                    }
                    if self.has_path(q) {
                        let j = self.index_of(q);
                        assert(self.entries@[j].path@ == q);
                        assert(j != i);
                        if j < i {
                            assert(prev.entries@[j].path@ == q);
                        } else {
                            assert(prev.entries@[j - 1].path@ == q);
                        }
                    }
                }
                assert forall|q: Seq<u8>| q != pv && prev.has_path(q) implies self.sig_at(q)
                    == prev.sig_at(q) by {
                    let j = prev.index_of(q);
                    prev.lemma_at(j);
                    if j < i {
                        assert(self.entries@[j].path@ == q);
                        self.lemma_at(j);
                    } else {
                        assert(self.entries@[j + 1].path@ == q);
                        self.lemma_at(j + 1);
                    }
                }
            }
        }
    }
}

} // verus!
