//! Relative paths and the path arithmetic around a tree root.
//!
//! A `RelativePath` locates a file inside a tree, independent of where the
//! tree root sits on disk: two files at the same place in two trees strip to
//! byte-identical relative paths. Paths are raw byte strings with `/` as the
//! separator, so no platform encoding questions enter the verified logic.

use vstd::prelude::*;

verus! {

/// The canonical path separator, `/`.
pub const SEPARATOR: u8 = 47;

/// The home-directory shorthand, `~`.
pub const TILDE: u8 = 126;

/// A path relative to a tree root: the sole join key between two snapshots.
#[derive(Debug, PartialEq, Eq)]
pub struct RelativePath {
    bytes: Vec<u8>,
}

impl View for RelativePath {
    type V = Seq<u8>;

    closed spec fn view(&self) -> Seq<u8> {
        self.bytes@
    }
}

impl RelativePath {
    /// Wraps raw path bytes.
    pub fn from_bytes(bytes: Vec<u8>) -> (r: RelativePath)
        ensures
            r@ == bytes@,
    {
        RelativePath { bytes }
    }

    /// The underlying bytes.
    pub fn as_bytes(&self) -> (r: &Vec<u8>)
        ensures
            r@ == self@,
    {
        &self.bytes
    }

    /// An owned copy of this path.
    pub fn duplicate(&self) -> (r: RelativePath)
        ensures
            r@ == self@,
    {
        RelativePath { bytes: copy_bytes(&self.bytes) }
    }
}

/// Copies a byte vector.
pub fn copy_bytes(v: &Vec<u8>) -> (r: Vec<u8>)
    ensures
        r@ == v@,
{
    let mut r: Vec<u8> = Vec::new();
    let mut i: usize = 0;
    while i < v.len()
        invariant
            i <= v.len(),
            r@ =~= v@.subrange(0, i as int),
        decreases v.len() - i,
    {
        r.push(v[i]);
        i = i + 1;
    }
    proof {
        assert(r@ =~= v@);
    }
    r
}

/// The final component of a path: everything after the last separator.
pub open spec fn base_name(p: Seq<u8>) -> Seq<u8>
    decreases p.len(),
{
    if p.len() == 0 {
        Seq::empty()
    } else if p.last() == SEPARATOR {
        Seq::empty()
    } else {
        base_name(p.drop_last()).push(p.last())
    }
}

/// A base name never contains a separator and is a suffix of the path.
pub proof fn lemma_base_name_shape(p: Seq<u8>)
    ensures
        base_name(p).len() <= p.len(),
        forall|i: int| 0 <= i < base_name(p).len() ==> base_name(p)[i] != SEPARATOR,
        base_name(p) == p.subrange(p.len() - base_name(p).len(), p.len() as int),
    decreases p.len(),
{
    if p.len() == 0 || p.last() == SEPARATOR {
        assert(base_name(p) =~= p.subrange(p.len() - base_name(p).len(), p.len() as int));
    } else {
        lemma_base_name_shape(p.drop_last());
        let b = base_name(p.drop_last());
        assert(base_name(p) =~= p.subrange(p.len() - (b.len() + 1), p.len() as int));
    }
}

/// Computes the final component of a path.
pub fn base_name_of(p: &Vec<u8>) -> (r: Vec<u8>)
    ensures
        r@ == base_name(p@),
{
    let mut start: usize = p.len();
    proof {
        assert(p@.take(p@.len() as int) =~= p@);
        assert(base_name(p@).add(p@.skip(p@.len() as int)) =~= base_name(p@));
    }
    while start > 0 && p[start - 1] != SEPARATOR
        invariant
            start <= p.len(),
            base_name(p@) == base_name(p@.take(start as int)).add(p@.skip(start as int)),
        decreases start,
    {
        proof {
            let t = p@.take(start as int);
            assert(t.last() == p@[start - 1]);
            assert(t.drop_last() =~= p@.take(start - 1));
            assert(base_name(p@.take(start - 1)).push(p@[start - 1]).add(p@.skip(start as int))
                =~= base_name(p@.take(start - 1)).add(p@.skip(start - 1)));
        }
        start = start - 1;
    }
    proof {
        if start > 0 {
            let t = p@.take(start as int);
            assert(t.last() == p@[start - 1]);
            assert(base_name(t) =~= Seq::<u8>::empty());
        } else {
            assert(base_name(p@.take(0)) =~= Seq::<u8>::empty());
        }
        assert(Seq::<u8>::empty().add(p@.skip(start as int)) =~= p@.skip(start as int));
    }
    let mut r: Vec<u8> = Vec::new();
    let mut i: usize = start;
    while i < p.len()
        invariant
            start <= i <= p.len(),
            r@ =~= p@.subrange(start as int, i as int),
        decreases p.len() - i,
    {
        r.push(p[i]);
        i = i + 1;
    }
    proof {
        assert(r@ =~= p@.skip(start as int));
    }
    r
}

/// Home expansion: a path beginning `~/` continues from the home directory.
pub open spec fn expand_home(p: Seq<u8>, home: Seq<u8>) -> Seq<u8> {
    if p.len() >= 2 && p[0] == TILDE && p[1] == SEPARATOR {
        with_trailing(home) + p.skip(2)
    } else {
        p
    }
}

/// Appends a separator unless the path already ends with one.
pub open spec fn with_trailing(p: Seq<u8>) -> Seq<u8> {
    if p.len() > 0 && p.last() == SEPARATOR {
        p
    } else {
        p.push(SEPARATOR)
    }
}

/// Prepends a separator unless the path already starts with one.
pub open spec fn with_leading(p: Seq<u8>) -> Seq<u8> {
    if p.len() > 0 && p[0] == SEPARATOR {
        p
    } else {
        seq![SEPARATOR] + p
    }
}

/// A root path in canonical form: home expanded, then a separator guaranteed
/// at the end and at the front.
pub open spec fn normalize_spec(p: Seq<u8>, home: Seq<u8>) -> Seq<u8> {
    with_leading(with_trailing(expand_home(p, home)))
}

/// Canonicalizes a root path so that appending a relative path to it lands
/// inside the tree it names.
pub fn normalize(p: &Vec<u8>, home: &Vec<u8>) -> (r: Vec<u8>)
    ensures
        r@ == normalize_spec(p@, home@),
{
    let mut expanded: Vec<u8>;
    if p.len() >= 2 && p[0] == TILDE && p[1] == SEPARATOR {
        expanded = copy_bytes(home);
        if expanded.len() == 0 || expanded[expanded.len() - 1] != SEPARATOR {
            expanded.push(SEPARATOR);
        }
        let mut i: usize = 2;
        while i < p.len()
            invariant
                2 <= i <= p.len(),
                expanded@ =~= with_trailing(home@) + p@.subrange(2, i as int),
            decreases p.len() - i,
        {
            expanded.push(p[i]);
            i = i + 1;
        }
        proof {
            assert(expanded@ =~= expand_home(p@, home@));
        }
    } else {
        expanded = copy_bytes(p);
    }
    if expanded.len() == 0 || expanded[expanded.len() - 1] != SEPARATOR {
        expanded.push(SEPARATOR);
    }
    proof {
        assert(expanded@ =~= with_trailing(expand_home(p@, home@)));
    }
    if expanded.len() == 0 || expanded[0] != SEPARATOR {
        let mut led: Vec<u8> = Vec::new();
        led.push(SEPARATOR);
        let mut i: usize = 0;
        while i < expanded.len()
            invariant
                i <= expanded.len(),
                led@ =~= seq![SEPARATOR] + expanded@.subrange(0, i as int),
            decreases expanded.len() - i,
        {
            led.push(expanded[i]);
            i = i + 1;
        }
        proof {
            assert(led@ =~= normalize_spec(p@, home@));
        }
        led
    } else {
        proof {
            assert(expanded@ =~= normalize_spec(p@, home@));
        }
        expanded
    }
}

/// Strips the root prefix off an absolute path found during a walk, leaving
/// the relative path that joins the two trees. Returns nothing when the path
/// does not lie under the root.
pub fn strip_root(full: &Vec<u8>, root: &Vec<u8>) -> (r: Option<RelativePath>)
    ensures
        match r {
            Some(p) => root@.is_prefix_of(full@) && p@ == full@.skip(root@.len() as int),
            None => !root@.is_prefix_of(full@),
        },
{
    if full.len() < root.len() {
        return None;
    }
    let mut i: usize = 0;
    while i < root.len()
        invariant
            i <= root.len(),
            root.len() <= full.len(),
            forall|j: int| 0 <= j < i ==> full@[j] == root@[j],
        decreases root.len() - i,
    {
        if full[i] != root[i] {
            return None;
        }
        i = i + 1;
    }
    proof {
        assert(root@ =~= full@.subrange(0, root@.len() as int));
    }
    let mut rest: Vec<u8> = Vec::new();
    let mut k: usize = root.len();
    while k < full.len()
        invariant
            root.len() <= k <= full.len(),
            rest@ =~= full@.subrange(root@.len() as int, k as int),
        decreases full.len() - k,
    {
        rest.push(full[k]);
        k = k + 1;
    }
    proof {
        assert(rest@ =~= full@.skip(root@.len() as int));
    }
    Some(RelativePath { bytes: rest })
}

/// Joins a normalized root with a relative path: plain concatenation.
pub fn join_root(root: &Vec<u8>, rel: &RelativePath) -> (r: Vec<u8>)
    ensures
        r@ == root@ + rel@,
{
    let mut r = copy_bytes(root);
    let mut i: usize = 0;
    let b = rel.as_bytes();
    while i < b.len()
        invariant
            i <= b.len(),
            b@ == rel@,
            r@ =~= root@ + rel@.subrange(0, i as int),
        decreases b.len() - i,
    {
        r.push(b[i]);
        i = i + 1;
    }
    proof {
        assert(r@ =~= root@ + rel@);
    }
    r
}

} // verus!
