//! The recursive-spawn strategy: one task per entry, joined through a
//! handle queue.
//!
//! Each directory expansion spawns a fresh task per child, and the driver
//! drains the join queue until every producer has been dropped.  The model
//! keeps the outstanding tasks in a bag and lets a schedule choose which
//! task runs next; any choice is sound, so the proof covers every
//! interleaving of task completions, and the crawl terminates for every
//! schedule because each round retires exactly one entry.  Files and
//! symlinks are handed to the action; a symlink is a leaf, never followed.

use vstd::prelude::*;
use crate::fs_tree::EntryKind;
use crate::fs_tree::FsTree;
use crate::fs_tree::lemma_closed_set_is_all;
use crate::fs_tree::lemma_handled_bounded;
use crate::seq_facts::lemma_push_contains;
use crate::seq_facts::lemma_push_no_dup;
use crate::seq_facts::lemma_swap_remove_facts;
use crate::strategy::Disposition;
use crate::strategy::Strategy;
use crate::strategy::classify;
use crate::strategy::crawl_inv;
use crate::strategy::crawl_post;
use crate::strategy::delivered;

verus! {

/// Crawls the snapshot by spawning one task per entry, retiring outstanding
/// tasks in the order the given schedule picks them.  Every file and
/// symlink is delivered exactly once, whatever the schedule says, and the
/// crawl returns for every schedule.
pub fn crawl_recursive(t: &FsTree, picks: &Vec<usize>) -> (visits: Vec<usize>)
    requires
        t.wf(),
    ensures
        crawl_post(*t, Strategy::Recursive, visits@),
{
    let mut visits: Vec<usize> = Vec::new();
    let mut pending: Vec<usize> = Vec::new();
    pending.push(0);
    let mut pi: usize = 0;
    let ghost mut handled: Set<int> = Set::empty();
    proof {
        assert forall|j: usize| j < t.nodes@.len() implies ((#[trigger] pending@.contains(j)
            || handled.contains(j as int)) <==> (j == 0 || handled.contains(
            t.parent_of(j as int),
        ))) by {
            lemma_push_contains(Seq::<usize>::empty(), 0, j);
        }
        assert(pending@.no_duplicates());
    }
    while pending.len() > 0
        invariant
            t.wf(),
            crawl_inv(*t, Strategy::Recursive, pending@, handled, visits@),
            picks.len() > 0 ==> pi < picks.len(),
        decreases t.nodes@.len() - handled.len(),
    {
        let k = if picks.len() == 0 {
            pending.len() - 1
        } else {
            let chosen = picks[pi] % pending.len();
            pi = if pi + 1 >= picks.len() {
                0
            } else {
                pi + 1
            };
            chosen
        };
        let ghost pending_pre = pending@;
        let task = pending.swap_remove(k);
        proof {
            lemma_swap_remove_facts(pending_pre, k as int);
            assert(!pending@.contains(task));
            assert(!handled.contains(task as int));
            assert(task < t.nodes@.len());
            assert forall|k2: int| 0 <= k2 < pending@.len() implies (#[trigger] pending@[k2])
                < t.nodes@.len() && !handled.contains(pending@[k2] as int) && pending@[k2]
                != task by {
                let src: int = if k2 == k {
                    pending_pre.len() - 1
                } else {
                    k2
                };
                assert(pending@[k2] == pending_pre[src]);
            }
            assert forall|j: usize| j < t.nodes@.len() implies ((pending@.contains(j)
                || handled.contains(j as int) || j == task) <==> (j == 0 || handled.contains(
                t.parent_of(j as int),
            ))) by {
                assert(pending_pre.contains(j) <==> (pending@.contains(j) || pending_pre[k as int]
                    == j));
            }
        }
        let kind = t.nodes[task].kind;
        let disposition = classify(Strategy::Recursive, kind);
        if disposition == Disposition::Expand {
            let ghost pending0 = pending@;
            let mut c: usize = 1;
            while c < t.nodes.len()
                invariant
                    t.wf(),
                    task < t.nodes@.len(),
                    t.kind_of(task as int) == EntryKind::Dir,
                    1 <= c <= t.nodes@.len(),
                    handled.finite(),
                    forall|x: int| #[trigger] handled.contains(x) ==> 0 <= x < t.nodes@.len(),
                    !handled.contains(task as int),
                    !pending0.contains(task),
                    forall|j: usize|
                        j < t.nodes@.len() ==> ((#[trigger] pending0.contains(j)
                            || handled.contains(j as int) || j == task) <==> (j == 0
                            || handled.contains(t.parent_of(j as int)))),
                    pending@.no_duplicates(),
                    forall|k2: int|
                        0 <= k2 < pending@.len() ==> (#[trigger] pending@[k2]) < t.nodes@.len(),
                    forall|k2: int|
                        0 <= k2 < pending@.len() ==> !handled.contains(
                            (#[trigger] pending@[k2]) as int,
                        ),
                    forall|k2: int| 0 <= k2 < pending@.len() ==> (#[trigger] pending@[k2]) != task,
                    forall|j: usize|
                        j < t.nodes@.len() ==> (#[trigger] pending@.contains(j) <==> (
                        pending0.contains(j) || (1 <= j < c && t.parent_of(j as int)
                            == task as int))),
                decreases t.nodes@.len() - c,
            {
                if t.nodes[c].parent == task {
                    let ghost pending_cur = pending@;
                    proof {
                        assert(t.parent_of(c as int) == task as int);
                        assert(!pending_cur.contains(c)) by {
                            if pending0.contains(c) {
                                assert(c == 0 || handled.contains(t.parent_of(c as int)));
                            }
                        }
                        lemma_push_no_dup(pending_cur, c);
                    }
                    pending.push(c);
                    proof {
                        assert(pending@ == pending_cur.push(c));
                        assert forall|j: usize| j < t.nodes@.len() implies (
                        #[trigger] pending@.contains(j) <==> (pending0.contains(j) || (1 <= j < c
                            + 1 && t.parent_of(j as int) == task as int))) by {
                            lemma_push_contains(pending_cur, c, j);
                        }
                        assert(c != task);
                    }
                }
                c = c + 1;
            }
            proof {
                let ghost handled_pre = handled;
                handled = handled.insert(task as int);
                lemma_handled_bounded(*t, handled);
                assert forall|j: usize| j < t.nodes@.len() implies ((#[trigger] pending@.contains(j)
                    || handled.contains(j as int)) <==> (j == 0 || handled.contains(
                    t.parent_of(j as int),
                ))) by {}
                assert(handled.len() == handled_pre.len() + 1);
            }
        } else {
            if disposition == Disposition::Invoke {
                let ghost visits_pre = visits@;
                proof {
                    assert(!visits_pre.contains(task));
                    lemma_push_no_dup(visits_pre, task);
                }
                visits.push(task);
                proof {
                    assert forall|j: usize| j < t.nodes@.len() implies (
                    #[trigger] visits@.contains(j) <==> (handled.insert(task as int).contains(
                        j as int,
                    ) && delivered(Strategy::Recursive, t.kind_of(j as int)))) by {
                        lemma_push_contains(visits_pre, task, j);
                    }
                }
            }
            proof {
                let ghost handled_pre = handled;
                handled = handled.insert(task as int);
                lemma_handled_bounded(*t, handled);
                // a well-formed snapshot lists children only below
                // directories, so this leaf has none
                assert forall|j: usize| j < t.nodes@.len() implies ((#[trigger] pending@.contains(j)
                    || handled.contains(j as int)) <==> (j == 0 || handled.contains(
                    t.parent_of(j as int),
                ))) by {
                    if 1 <= j && t.parent_of(j as int) == task as int {
                        assert(t.kind_of(t.parent_of(j as int)) == EntryKind::Dir);
                    }
                    assert((pending@.contains(j) || handled_pre.contains(j as int) || j == task)
                        <==> (j == 0 || handled_pre.contains(t.parent_of(j as int))));
                }
                assert forall|j: usize| j < t.nodes@.len() implies (#[trigger] visits@.contains(j)
                    <==> (handled.contains(j as int) && delivered(
                    Strategy::Recursive,
                    t.kind_of(j as int),
                ))) by {}
                assert(handled.len() == handled_pre.len() + 1);
            }
        }
    }
    proof {
        assert forall|j: usize| j < t.nodes@.len() implies (#[trigger] handled.contains(j as int)
            <==> (j == 0 || handled.contains(t.parent_of(j as int)))) by {
            assert(!pending@.contains(j));
        }
        lemma_closed_set_is_all(*t, handled);
        assert forall|j: usize| j < t.nodes@.len() implies (#[trigger] visits@.contains(j) <==>
        delivered(Strategy::Recursive, t.kind_of(j as int))) by {
            assert(handled.contains(j as int));
        }
    }
    visits
}

} // verus!
