//! In-memory model of a filesystem snapshot.
//!
//! The crawler's observable behaviour is specified against a snapshot of the
//! subtree below the root: a vector of entries, each carrying the kind its
//! metadata probe reported and the index of the directory that listed it.
//! Node 0 is the root.  Well-formedness demands that every other node's
//! parent precedes it and is a directory; in particular nothing can hang
//! below a symlink, so a symlink is a leaf even when its target is a
//! directory.  A directory whose enumeration fails is abandoned silently,
//! so it appears in the snapshot as a directory without children.

use vstd::prelude::*;
use vstd::set_lib::lemma_int_range;
use vstd::set_lib::lemma_len_subset;

verus! {

/// What the metadata probe reported for one entry.  A probe that failed is
/// reported as `Other`: the entry is not the queried kind, so it is never
/// recursed into.
#[derive(Clone, Copy, PartialEq, Eq, Structural, Debug)]
pub enum EntryKind {
    /// A regular file.
    File,
    /// A directory reachable without following a symlink.
    Dir,
    /// A symbolic link, tested against link-level metadata.
    Symlink,
    /// Anything else: socket, fifo, device, or a failed metadata probe.
    Other,
}

/// One entry of a snapshot: its kind and the index of the directory whose
/// listing produced it.  The root's `parent` field is ignored.
#[derive(Clone, Copy, Debug)]
pub struct FsNode {
    /// Kind reported by the metadata probe.
    pub kind: EntryKind,
    /// Index of the listing directory; strictly smaller than the node's own
    /// index in a well-formed snapshot.
    pub parent: usize,
}

/// A rooted snapshot of a directory tree.  Node 0 is the root.
#[derive(Debug)]
pub struct FsTree {
    /// The entries, root first.
    pub nodes: Vec<FsNode>,
}

impl FsTree {
    /// Number of entries in the snapshot.
    pub open spec fn node_count(self) -> int {
        self.nodes@.len() as int
    }

    /// Kind of entry `j`.
    pub open spec fn kind_of(self, j: int) -> EntryKind {
        self.nodes@[j].kind
    }

    /// Index of the directory whose listing produced entry `j`.
    pub open spec fn parent_of(self, j: int) -> int {
        self.nodes@[j].parent as int
    }

    /// Well-formed snapshot: the root exists, and every other entry was
    /// listed by a directory that precedes it.  Since only directories list
    /// children, nothing hangs below a file, a symlink or an errored entry.
    pub open spec fn wf(self) -> bool {
        &&& self.node_count() >= 1
        &&& forall|j: int|
            1 <= j < self.node_count() ==> #[trigger] self.parent_of(j) < j
                && self.kind_of(self.parent_of(j)) == EntryKind::Dir
    }

    /// Runtime check of `wf`, for callers that assemble a snapshot from
    /// unverified input.
    pub fn check_wf(&self) -> (b: bool)
        ensures
            b == self.wf(),
    {
        if self.nodes.len() == 0 {
            return false;
        }
        let mut j: usize = 1;
        while j < self.nodes.len()
            invariant
                1 <= j <= self.nodes@.len(),
                self.node_count() >= 1,
                forall|k: int|
                    1 <= k < j ==> #[trigger] self.parent_of(k) < k
                        && self.kind_of(self.parent_of(k)) == EntryKind::Dir,
            decreases self.nodes@.len() - j,
        {
            let p = self.nodes[j].parent;
            if p >= j {
                assert(!self.wf()) by {
                    if self.wf() {
                        assert(self.parent_of(j as int) < j as int);
                    }
                }
                return false;
            }
            if !(self.nodes[p].kind == EntryKind::Dir) {
                assert(!self.wf()) by {
                    if self.wf() {
                        assert(self.parent_of(j as int) < j as int);
                    }
                }
                return false;
            }
            j = j + 1;
        }
        true
    }

    /// A snapshot holding only a root of the given kind.
    pub fn new_root(kind: EntryKind) -> (t: FsTree)
        ensures
            t.wf(),
            t.node_count() == 1,
            t.kind_of(0) == kind,
    {
        let mut nodes: Vec<FsNode> = Vec::new();
        nodes.push(FsNode { kind, parent: 0 });
        FsTree { nodes }
    }

    /// Appends an entry below an existing directory and returns its index.
    pub fn push_node(&mut self, parent: usize, kind: EntryKind) -> (j: usize)
        requires
            old(self).wf(),
            parent < old(self).node_count(),
            old(self).kind_of(parent as int) == EntryKind::Dir,
        ensures
            final(self).wf(),
            j as int == old(self).node_count(),
            final(self).node_count() == old(self).node_count() + 1,
            final(self).nodes@ == old(self).nodes@.push((FsNode { kind, parent })),
            final(self).kind_of(j as int) == kind,
            final(self).parent_of(j as int) == parent as int,
            forall|k: int|
                0 <= k < old(self).node_count() ==> final(self).nodes@[k] == old(self).nodes@[k],
    {
        let j = self.nodes.len();
        self.nodes.push(FsNode { kind, parent });
        proof {
            assert forall|k: int|
                1 <= k < self.node_count() implies #[trigger] self.parent_of(k) < k
                && self.kind_of(self.parent_of(k)) == EntryKind::Dir by {
                if k < j {
                    assert(old(self).parent_of(k) < k);
                    assert(old(self).kind_of(old(self).parent_of(k)) == EntryKind::Dir);
                }
            }
        }
        j
    }
}

/// A set of entry indices that contains the root whenever the snapshot is
/// non-empty, and that contains each entry as soon as it contains the
/// entry's parent, contains every entry.  This is the heart of every
/// coverage proof: once a crawl's bookkeeping set is closed in this sense,
/// nothing was missed.
pub proof fn lemma_closed_set_is_all(t: FsTree, s: Set<int>)
    requires
        t.wf(),
        forall|j: usize|
            j < t.nodes@.len() ==> (#[trigger] s.contains(j as int) <==> (j == 0 || s.contains(
                t.parent_of(j as int),
            ))),
    ensures
        forall|j: usize| j < t.nodes@.len() ==> s.contains(j as int),
{
    assert forall|j: usize| j < t.nodes@.len() implies s.contains(j as int) by {
        lemma_closed_set_member(t, s, j);
    }
}

proof fn lemma_closed_set_member(t: FsTree, s: Set<int>, j: usize)
    requires
        t.wf(),
        forall|j: usize|
            j < t.nodes@.len() ==> (#[trigger] s.contains(j as int) <==> (j == 0 || s.contains(
                t.parent_of(j as int),
            ))),
        j < t.nodes@.len(),
    ensures
        s.contains(j as int),
    decreases j,
{
    if j > 0 {
        let p = t.nodes@[j as int].parent;
        assert(t.parent_of(j as int) == p as int);
        assert(p < j);
        lemma_closed_set_member(t, s, p);
    }
}

/// A finite set of entry indices never outgrows the snapshot.
pub proof fn lemma_handled_bounded(t: FsTree, s: Set<int>)
    requires
        s.finite(),
        forall|j: int| #[trigger] s.contains(j) ==> 0 <= j < t.node_count(),
    ensures
        s.len() <= t.node_count(),
{
    let range = vstd::set_lib::set_int_range(0, t.node_count());
    lemma_int_range(0, t.node_count());
    assert(s.subset_of(range));
    lemma_len_subset(s, range);
}

} // verus!
