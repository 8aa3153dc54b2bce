//! The three interchangeable crawl strategies and their leaf policies.
//!
//! Every strategy expands exactly the directories; they differ only in which
//! non-directory entries are handed to the action.  The single-worker
//! strategy delivers every non-directory.  The pool strategy delivers
//! regular files only.  The recursive strategy delivers files and symlinks.
//! `crawl_post` is the common observable contract: the action is invoked
//! exactly once per delivered entry, in an unspecified order.

use vstd::prelude::*;
use crate::fs_tree::EntryKind;
use crate::fs_tree::FsTree;

verus! {

/// Which crawl implementation to run.
#[derive(Clone, Copy, PartialEq, Eq, Structural, Debug)]
pub enum Strategy {
    /// One worker, a private stack, iterative depth-first traversal.
    Single,
    /// A fixed pool of workers sharing one stack and an active-worker
    /// counter that drives the termination consensus.
    Pool,
    /// One task per entry, joined through an unbounded handle queue.
    Recursive,
}

/// Whether a strategy hands an entry of the given kind to the action.
/// Directories are expanded, never delivered.
pub open spec fn delivered(s: Strategy, k: EntryKind) -> bool {
    match s {
        Strategy::Single => k != EntryKind::Dir,
        Strategy::Pool => k == EntryKind::File,
        Strategy::Recursive => k == EntryKind::File || k == EntryKind::Symlink,
    }
}

/// The observable contract shared by all strategies: `visits` lists the
/// entries handed to the action, each delivered entry exactly once and
/// nothing else, in an unspecified order.
pub open spec fn crawl_post(t: FsTree, s: Strategy, visits: Seq<usize>) -> bool {
    &&& visits.no_duplicates()
    &&& forall|j: usize|
        j < t.nodes@.len() ==> (#[trigger] visits.contains(j) <==> delivered(
            s,
            t.kind_of(j as int),
        ))
    &&& forall|k: int| 0 <= k < visits.len() ==> (#[trigger] visits[k]) < t.nodes@.len()
}

/// The bookkeeping shared by the sequential crawl loops: `handled` holds
/// entries already taken out of the pending container; an entry is pending
/// or handled exactly when it is the root or its parent has been handled;
/// pending and handled entries never overlap; and the visit list holds
/// exactly the handled entries the strategy delivers.
pub open spec fn crawl_inv(
    t: FsTree,
    s: Strategy,
    pending: Seq<usize>,
    handled: Set<int>,
    visits: Seq<usize>,
) -> bool {
    &&& handled.finite()
    &&& (forall|x: int| #[trigger] handled.contains(x) ==> 0 <= x < t.nodes@.len())
    &&& pending.no_duplicates()
    &&& (forall|k: int| 0 <= k < pending.len() ==> (#[trigger] pending[k]) < t.nodes@.len())
    &&& (forall|k: int| 0 <= k < pending.len() ==> !handled.contains((#[trigger] pending[k]) as int))
    &&& (forall|j: usize|
        j < t.nodes@.len() ==> ((#[trigger] pending.contains(j) || handled.contains(j as int))
            <==> (j == 0 || handled.contains(t.parent_of(j as int)))))
    &&& visits.no_duplicates()
    &&& (forall|j: usize|
        j < t.nodes@.len() ==> (#[trigger] visits.contains(j) <==> (handled.contains(j as int)
            && delivered(s, t.kind_of(j as int)))))
    &&& (forall|k: int| 0 <= k < visits.len() ==> (#[trigger] visits[k]) < t.nodes@.len())
}

/// What a worker does with one popped work item.
#[derive(Clone, Copy, PartialEq, Eq, Structural, Debug)]
pub enum Disposition {
    /// Hand the item to the action.
    Invoke,
    /// Drop the item silently.
    Skip,
    /// Enumerate the item's children and push them as new work.
    Expand,
}

/// The disposition a strategy gives an entry of the given kind.
pub open spec fn spec_classify(s: Strategy, k: EntryKind) -> Disposition {
    if k == EntryKind::Dir {
        Disposition::Expand
    } else if delivered(s, k) {
        Disposition::Invoke
    } else {
        Disposition::Skip
    }
}

/// Decides what to do with one popped work item: directories are expanded,
/// delivered kinds invoke the action, the rest are dropped.
pub fn classify(s: Strategy, k: EntryKind) -> (d: Disposition)
    ensures
        d == spec_classify(s, k),
{
    if k == EntryKind::Dir {
        Disposition::Expand
    } else {
        let deliver = match s {
            Strategy::Single => true,
            Strategy::Pool => k == EntryKind::File,
            Strategy::Recursive => k == EntryKind::File || k == EntryKind::Symlink,
        };
        if deliver {
            Disposition::Invoke
        } else {
            Disposition::Skip
        }
    }
}

/// The pool worker's decision after popping an empty stack.  An active
/// worker has just decremented the shared counter and observed its previous
/// value; it exits when it was the last active worker.  An idle worker has
/// loaded the counter; it exits when the count has reached zero.
pub fn should_exit(was_active: bool, observed_count: usize) -> (b: bool)
    ensures
        b == if was_active {
            observed_count == 1
        } else {
            observed_count == 0
        },
{
    if was_active {
        observed_count == 1
    } else {
        observed_count == 0
    }
}

} // verus!
