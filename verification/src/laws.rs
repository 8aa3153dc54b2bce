//! Laws that hold across the strategies.
//!
//! Each crawl's own contract already pins coverage and freedom from
//! duplicates: the entries delivered are exactly the entries the strategy's
//! policy selects, each once.  The laws below relate different crawls and
//! spell out the symlink policy and the empty-tree case.

use vstd::prelude::*;
use crate::fs_tree::EntryKind;
use crate::fs_tree::FsTree;
use crate::strategy::Strategy;
use crate::strategy::crawl_post;
use crate::strategy::delivered;

verus! {

/// Coverage: a crawl delivers every entry its strategy's policy selects —
/// in particular, every reachable regular file, under every strategy.
pub proof fn lemma_coverage(t: FsTree, s: Strategy, v: Seq<usize>, j: usize)
    requires
        t.wf(),
        crawl_post(t, s, v),
        j < t.nodes@.len(),
        delivered(s, t.kind_of(j as int)),
    ensures
        v.contains(j),
{
}

/// No duplicates: a crawl delivers no entry twice, and delivers nothing
/// outside the snapshot or against the strategy's policy.
pub proof fn lemma_no_duplicates(t: FsTree, s: Strategy, v: Seq<usize>, j: usize)
    requires
        t.wf(),
        crawl_post(t, s, v),
        v.contains(j),
    ensures
        v.to_multiset().count(j) == 1,
        j < t.nodes@.len(),
        delivered(s, t.kind_of(j as int)),
{
    v.lemma_multiset_has_no_duplicates();
    v.to_multiset_ensures();
    let k = choose|k: int| 0 <= k < v.len() && v[k] == j;
    assert(v[k] < t.nodes@.len());
}

/// Strategy equivalence: two crawls of the same snapshot, under any two
/// strategies, deliver the same multiset of regular files — each reachable
/// file exactly once on both sides.  The strategies differ only in their
/// policy for symlinks and other non-file leaves.
pub proof fn lemma_strategy_equivalence(
    t: FsTree,
    sa: Strategy,
    sb: Strategy,
    a: Seq<usize>,
    b: Seq<usize>,
)
    requires
        t.wf(),
        crawl_post(t, sa, a),
        crawl_post(t, sb, b),
    ensures
        forall|j: usize|
            j < t.nodes@.len() && t.kind_of(j as int) == EntryKind::File ==> (
            #[trigger] a.contains(j) <==> b.contains(j)),
        forall|j: usize|
            j < t.nodes@.len() && t.kind_of(j as int) == EntryKind::File
                ==> #[trigger] a.to_multiset().count(j) == b.to_multiset().count(j),
{
    a.to_multiset_ensures();
    b.to_multiset_ensures();
    a.lemma_multiset_has_no_duplicates();
    b.lemma_multiset_has_no_duplicates();
    assert forall|j: usize|
        j < t.nodes@.len() && t.kind_of(j as int) == EntryKind::File implies (
    #[trigger] a.contains(j) <==> b.contains(j)) by {
        assert(delivered(sa, t.kind_of(j as int)));
        assert(delivered(sb, t.kind_of(j as int)));
    }
    assert forall|j: usize|
        j < t.nodes@.len() && t.kind_of(j as int)
            == EntryKind::File implies #[trigger] a.to_multiset().count(j) == b.to_multiset().count(
        j,
    ) by {
        assert(a.contains(j) <==> b.contains(j));
        if a.contains(j) {
            assert(a.to_multiset().count(j) == 1);
            assert(b.to_multiset().count(j) == 1);
        } else {
            assert(a.to_multiset().count(j) == 0);
            assert(b.to_multiset().count(j) == 0);
        }
    }
}

/// Symlink leaf policy: a symlink is delivered by the strategies whose
/// policy includes symlinks, and nothing is ever listed below it, so its
/// target's subtree is never traversed through the link — even when the
/// target is a directory.
pub proof fn lemma_symlink_is_leaf(t: FsTree, s: Strategy, v: Seq<usize>, j: usize)
    requires
        t.wf(),
        crawl_post(t, s, v),
        j < t.nodes@.len(),
        t.kind_of(j as int) == EntryKind::Symlink,
    ensures
        v.contains(j) <==> (s == Strategy::Single || s == Strategy::Recursive),
        forall|c: usize|
            c < t.nodes@.len() && 1 <= c ==> #[trigger] t.parent_of(c as int) != j as int,
{
    assert forall|c: usize|
        c < t.nodes@.len() && 1 <= c implies #[trigger] t.parent_of(c as int) != j as int by {
        if t.parent_of(c as int) == j as int {
            assert(t.kind_of(t.parent_of(c as int)) == EntryKind::Dir);
        }
    }
}

/// Empty-tree termination: a crawl of a lone empty directory delivers
/// nothing, under every strategy.
pub proof fn lemma_empty_tree(t: FsTree, s: Strategy, v: Seq<usize>)
    requires
        t.wf(),
        t.node_count() == 1,
        t.kind_of(0) == EntryKind::Dir,
        crawl_post(t, s, v),
    ensures
        v.len() == 0,
{
    if v.len() > 0 {
        assert(v.contains(v[0]));
        assert(v[0] == 0);
        assert(delivered(s, t.kind_of(0)));
        assert(false);
    }
}

} // verus!
