//! The single-worker strategy: iterative depth-first traversal over a
//! private stack.
//!
//! The stack is seeded with the root.  Each round pops one item; a
//! directory is expanded by pushing all of its children, and every other
//! entry is handed to the action.  The proof tracks the set of entries
//! already taken off the stack: an entry is pending or handled exactly when
//! it is the root or its parent has been handled, so when the stack drains
//! the handled set is closed under listing and covers the whole snapshot.

use vstd::prelude::*;
use crate::fs_tree::EntryKind;
use crate::fs_tree::FsTree;
use crate::fs_tree::lemma_closed_set_is_all;
use crate::fs_tree::lemma_handled_bounded;
use crate::seq_facts::lemma_pop_facts;
use crate::seq_facts::lemma_push_contains;
use crate::seq_facts::lemma_push_no_dup;
use crate::strategy::Disposition;
use crate::strategy::Strategy;
use crate::strategy::classify;
use crate::strategy::crawl_inv;
use crate::strategy::crawl_post;
use crate::strategy::delivered;

verus! {

/// Crawls the snapshot with one worker and reports the entries handed to
/// the action, in delivery order.  Every non-directory entry is delivered
/// exactly once.
pub fn crawl_single(t: &FsTree) -> (visits: Vec<usize>)
    requires
        t.wf(),
    ensures
        crawl_post(*t, Strategy::Single, visits@),
{
    let mut visits: Vec<usize> = Vec::new();
    let mut stack: Vec<usize> = Vec::new();
    stack.push(0);
    let ghost mut handled: Set<int> = Set::empty();
    proof {
        assert forall|j: usize| j < t.nodes@.len() implies ((#[trigger] stack@.contains(j)
            || handled.contains(j as int)) <==> (j == 0 || handled.contains(
            t.parent_of(j as int),
        ))) by {
            lemma_push_contains(Seq::<usize>::empty(), 0, j);
        }
        assert(stack@.no_duplicates());
    }
    while stack.len() > 0
        invariant
            t.wf(),
            crawl_inv(*t, Strategy::Single, stack@, handled, visits@),
        decreases t.nodes@.len() - handled.len(),
    {
        let ghost stack_pre = stack@;
        let i = stack.pop().unwrap();
        proof {
            assert(stack_pre[stack_pre.len() - 1] == i);
            lemma_pop_facts(stack_pre);
            assert(stack@ == stack_pre.drop_last());
            // after the pop the item is neither pending nor handled
            assert(!stack@.contains(i));
            assert(!handled.contains(i as int));
            assert(i < t.nodes@.len());
            // the pre-pop characterisation, with the popped item set aside
            assert forall|j: usize| j < t.nodes@.len() implies ((stack@.contains(j)
                || handled.contains(j as int) || j == i) <==> (j == 0 || handled.contains(
                t.parent_of(j as int),
            ))) by {
                assert(stack_pre.contains(j) <==> (stack@.contains(j) || stack_pre.last() == j));
            }
        }
        let kind = t.nodes[i].kind;
        let disposition = classify(Strategy::Single, kind);
        if disposition == Disposition::Expand {
            let ghost stack0 = stack@;
            let mut c: usize = 1;
            while c < t.nodes.len()
                invariant
                    t.wf(),
                    i < t.nodes@.len(),
                    t.kind_of(i as int) == EntryKind::Dir,
                    1 <= c <= t.nodes@.len(),
                    handled.finite(),
                    forall|x: int| #[trigger] handled.contains(x) ==> 0 <= x < t.nodes@.len(),
                    !handled.contains(i as int),
                    !stack0.contains(i),
                    forall|j: usize|
                        j < t.nodes@.len() ==> ((#[trigger] stack0.contains(j)
                            || handled.contains(j as int) || j == i) <==> (j == 0
                            || handled.contains(t.parent_of(j as int)))),
                    stack@.no_duplicates(),
                    forall|k: int| 0 <= k < stack@.len() ==> (#[trigger] stack@[k]) < t.nodes@.len(),
                    forall|k: int|
                        0 <= k < stack@.len() ==> !handled.contains((#[trigger] stack@[k]) as int),
                    forall|k: int| 0 <= k < stack@.len() ==> (#[trigger] stack@[k]) != i,
                    forall|j: usize|
                        j < t.nodes@.len() ==> (#[trigger] stack@.contains(j) <==> (stack0.contains(
                            j,
                        ) || (1 <= j < c && t.parent_of(j as int) == i as int))),
                decreases t.nodes@.len() - c,
            {
                if t.nodes[c].parent == i {
                    let ghost stack_cur = stack@;
                    proof {
                        assert(t.parent_of(c as int) == i as int);
                        assert(!stack_cur.contains(c)) by {
                            if stack0.contains(c) {
                                assert(c == 0 || handled.contains(t.parent_of(c as int)));
                            }
                        }
                        lemma_push_no_dup(stack_cur, c);
                    }
                    stack.push(c);
                    proof {
                        assert(stack@ == stack_cur.push(c));
                        assert forall|j: usize| j < t.nodes@.len() implies (#[trigger] stack@.contains(
                            j,
                        ) <==> (stack0.contains(j) || (1 <= j < c + 1 && t.parent_of(j as int)
                            == i as int))) by {
                            lemma_push_contains(stack_cur, c, j);
                        }
                        assert(c != i);
                    }
                }
                c = c + 1;
            }
            proof {
                let ghost handled_pre = handled;
                handled = handled.insert(i as int);
                lemma_handled_bounded(*t, handled);
                assert forall|j: usize| j < t.nodes@.len() implies ((#[trigger] stack@.contains(j)
                    || handled.contains(j as int)) <==> (j == 0 || handled.contains(
                    t.parent_of(j as int),
                ))) by {}
                assert forall|j: usize| j < t.nodes@.len() implies (#[trigger] visits@.contains(j)
                    <==> (handled.contains(j as int) && delivered(
                    Strategy::Single,
                    t.kind_of(j as int),
                ))) by {}
                assert(handled.len() == handled_pre.len() + 1);
            }
        } else {
            proof {
                // the single worker delivers every non-directory
                assert(disposition == Disposition::Invoke);
            }
            let ghost visits_pre = visits@;
            proof {
                assert(!visits_pre.contains(i));
                lemma_push_no_dup(visits_pre, i);
            }
            visits.push(i);
            proof {
                let ghost handled_pre = handled;
                handled = handled.insert(i as int);
                lemma_handled_bounded(*t, handled);
                // a well-formed snapshot lists children only below
                // directories, so this leaf has none
                assert forall|j: usize| j < t.nodes@.len() implies ((#[trigger] stack@.contains(j)
                    || handled.contains(j as int)) <==> (j == 0 || handled.contains(
                    t.parent_of(j as int),
                ))) by {
                    if 1 <= j && t.parent_of(j as int) == i as int {
                        assert(t.kind_of(t.parent_of(j as int)) == EntryKind::Dir);
                    }
                }
                assert forall|j: usize| j < t.nodes@.len() implies (#[trigger] visits@.contains(j)
                    <==> (handled.contains(j as int) && delivered(
                    Strategy::Single,
                    t.kind_of(j as int),
                ))) by {
                    lemma_push_contains(visits_pre, i, j);
                }
                assert(handled.len() == handled_pre.len() + 1);
            }
        }
    }
    proof {
        assert forall|j: usize| j < t.nodes@.len() implies (#[trigger] handled.contains(j as int)
            <==> (j == 0 || handled.contains(t.parent_of(j as int)))) by {
            assert(!stack@.contains(j));
        }
        lemma_closed_set_is_all(*t, handled);
        assert forall|j: usize| j < t.nodes@.len() implies (#[trigger] visits@.contains(j) <==>
        delivered(Strategy::Single, t.kind_of(j as int))) by {
            assert(handled.contains(j as int));
        }
    }
    visits
}

} // verus!
