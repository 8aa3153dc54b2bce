//! The pool strategy: a fixed set of workers sharing one stack, with an
//! atomic count of active workers driving the termination consensus.
//!
//! The model makes every atomic action of the protocol a separate step, so
//! a schedule can interleave the workers arbitrarily: popping the stack,
//! re-raising the counter after finding work while idle, expanding one item
//! and pushing its children under a single lock acquisition, decrementing
//! the counter after popping an empty stack, and the idle worker's load of
//! the counter.  The invariant carries the consensus argument: the counter
//! always equals the number of active workers, a worker holding unexpanded
//! work is never `Done`, and while the stack is non-empty some active
//! worker is still scanning or expanding.  Hence when a worker decrements
//! the counter to zero, or an idle worker loads zero, no item remains on
//! the stack and no worker will ever push again, so exiting is sound and
//! every reachable entry has been handled.

use vstd::prelude::*;
use crate::fs_tree::EntryKind;
use crate::fs_tree::FsTree;
use crate::fs_tree::lemma_closed_set_is_all;
use crate::fs_tree::lemma_handled_bounded;
use crate::seq_facts::lemma_pop_facts;
use crate::seq_facts::lemma_push_contains;
use crate::seq_facts::lemma_push_no_dup;
use crate::strategy::Disposition;
use crate::strategy::Strategy;
use crate::strategy::classify;
use crate::strategy::crawl_post;
use crate::strategy::delivered;
use crate::strategy::should_exit;

verus! {

/// Where a worker stands in its loop; each variant's next step is one
/// atomic action of the protocol.
#[derive(Clone, Copy)]
pub enum Phase {
    /// About to pop the shared stack.
    Scan,
    /// Holding a popped item, about to re-raise the counter if it was idle,
    /// then expand the item.
    Work {
        /// The popped entry.
        item: usize,
    },
    /// Just popped an empty stack; about to decrement the counter if it was
    /// active, or to load it if it was already idle.
    SawEmpty,
    /// Exited its loop.
    Done,
}

/// One worker of the pool: its local activity flag and its position in the
/// loop.
#[derive(Clone, Copy)]
pub struct Worker {
    /// The worker's local belief that it is counted in `active_count`.
    pub active: bool,
    /// Position in the worker loop.
    pub phase: Phase,
}

impl Worker {
    /// A freshly spawned worker: counted active, about to pop.
    pub fn new() -> (wk: Worker)
        ensures
            wk.active,
            wk.phase == Phase::Scan,
    {
        Worker { active: true, phase: Phase::Scan }
    }
}

/// True iff the phase holds a popped, unexpanded item.
pub open spec fn is_work_phase(ph: Phase) -> bool {
    match ph {
        Phase::Work { .. } => true,
        _ => false,
    }
}

/// The item a `Work` phase holds.
pub open spec fn work_item_of(ph: Phase) -> usize {
    match ph {
        Phase::Work { item } => item,
        _ => 0,
    }
}

/// True iff some worker holds entry `j` popped but not yet expanded.
pub open spec fn holds_item(ws: Seq<Worker>, j: usize) -> bool {
    exists|w: int|
        0 <= w < ws.len() && is_work_phase(#[trigger] ws[w].phase) && work_item_of(ws[w].phase)
            == j
}

/// True iff some worker other than `w` holds entry `j`.
pub open spec fn holds_item_other(ws: Seq<Worker>, j: usize, w: int) -> bool {
    exists|w2: int|
        0 <= w2 < ws.len() && w2 != w && is_work_phase(#[trigger] ws[w2].phase) && work_item_of(
            ws[w2].phase,
        ) == j
}

/// The number of workers whose activity flag is raised.
pub open spec fn num_active(ws: Seq<Worker>) -> nat
    decreases ws.len(),
{
    if ws.len() == 0 {
        0
    } else {
        num_active(ws.drop_last()) + if ws.last().active {
            1nat
        } else {
            0nat
        }
    }
}

/// The termination weight of one worker: every protocol action except the
/// idle worker's fruitless re-scan strictly lowers the pool's measure.
pub open spec fn phase_weight(wk: Worker) -> nat {
    match wk.phase {
        Phase::Scan => if wk.active {
            4nat
        } else {
            2nat
        },
        Phase::Work { .. } => if wk.active {
            0nat
        } else {
            1nat
        },
        Phase::SawEmpty => if wk.active {
            3nat
        } else {
            1nat
        },
        Phase::Done => 0nat,
    }
}

/// Sum of the workers' termination weights.
pub open spec fn sum_weights(ws: Seq<Worker>) -> nat
    decreases ws.len(),
{
    if ws.len() == 0 {
        0
    } else {
        sum_weights(ws.drop_last()) + phase_weight(ws.last())
    }
}

/// How replacing one worker changes the two sums.
pub proof fn lemma_sums_update(ws: Seq<Worker>, w: int, x: Worker)
    requires
        0 <= w < ws.len(),
    ensures
        num_active(ws.update(w, x)) + (if ws[w].active {
            1nat
        } else {
            0nat
        }) == num_active(ws) + (if x.active {
            1nat
        } else {
            0nat
        }),
        sum_weights(ws.update(w, x)) + phase_weight(ws[w]) == sum_weights(ws) + phase_weight(x),
    decreases ws.len(),
{
    if w == ws.len() - 1 {
        assert(ws.update(w, x).drop_last() =~= ws.drop_last());
        assert(ws.update(w, x).last() == x);
    } else {
        assert(ws.update(w, x).drop_last() =~= ws.drop_last().update(w, x));
        assert(ws.update(w, x).last() == ws.last());
        lemma_sums_update(ws.drop_last(), w, x);
    }
}

/// How appending a worker changes the two sums.
pub proof fn lemma_sums_push(ws: Seq<Worker>, x: Worker)
    ensures
        num_active(ws.push(x)) == num_active(ws) + (if x.active {
            1nat
        } else {
            0nat
        }),
        sum_weights(ws.push(x)) == sum_weights(ws) + phase_weight(x),
{
    assert(ws.push(x).drop_last() =~= ws);
    assert(ws.push(x).last() == x);
}

/// A positive count names an active worker.
pub proof fn lemma_active_exists(ws: Seq<Worker>)
    requires
        num_active(ws) > 0,
    ensures
        exists|w: int| 0 <= w < ws.len() && (#[trigger] ws[w]).active,
    decreases ws.len(),
{
    if ws.last().active {
        assert(ws[ws.len() - 1].active);
    } else {
        lemma_active_exists(ws.drop_last());
        let w = choose|w: int| 0 <= w < ws.drop_last().len() && (#[trigger] ws.drop_last()[w]).active;
        assert(ws[w].active);
    }
}

/// An active worker keeps the count at one or more.
pub proof fn lemma_active_at_least_one(ws: Seq<Worker>, w: int)
    requires
        0 <= w < ws.len(),
        ws[w].active,
    ensures
        num_active(ws) >= 1,
    decreases ws.len(),
{
    if w == ws.len() - 1 {
    } else {
        assert(ws.drop_last()[w] == ws[w]);
        lemma_active_at_least_one(ws.drop_last(), w);
    }
}

/// An idle worker keeps the count below the worker total.
pub proof fn lemma_idle_bounds_count(ws: Seq<Worker>, w: int)
    requires
        0 <= w < ws.len(),
        !ws[w].active,
    ensures
        num_active(ws) < ws.len(),
    decreases ws.len(),
{
    lemma_count_at_most(ws);
    if w == ws.len() - 1 {
        lemma_count_at_most(ws.drop_last());
    } else {
        assert(ws.drop_last()[w] == ws[w]);
        lemma_idle_bounds_count(ws.drop_last(), w);
    }
}

/// The count never exceeds the worker total.
pub proof fn lemma_count_at_most(ws: Seq<Worker>)
    ensures
        num_active(ws) <= ws.len(),
    decreases ws.len(),
{
    if ws.len() > 0 {
        lemma_count_at_most(ws.drop_last());
    }
}

/// How replacing one worker changes who holds which item.
pub proof fn lemma_holds_after_update(ws: Seq<Worker>, w: int, x: Worker, j: usize)
    requires
        0 <= w < ws.len(),
    ensures
        holds_item(ws.update(w, x), j) <==> ((is_work_phase(x.phase) && work_item_of(x.phase) == j)
            || holds_item_other(ws, j, w)),
{
    let updated = ws.update(w, x);
    if holds_item(updated, j) {
        let w2 = choose|w2: int|
            0 <= w2 < updated.len() && is_work_phase(#[trigger] updated[w2].phase) && work_item_of(
                updated[w2].phase,
            ) == j;
        if w2 != w {
            assert(ws[w2] == updated[w2]);
        }
    }
    if is_work_phase(x.phase) && work_item_of(x.phase) == j {
        assert(is_work_phase(updated[w].phase) && work_item_of(updated[w].phase) == j);
    }
    if holds_item_other(ws, j, w) {
        let w2 = choose|w2: int|
            0 <= w2 < ws.len() && w2 != w && is_work_phase(#[trigger] ws[w2].phase) && work_item_of(
                ws[w2].phase,
            ) == j;
        assert(is_work_phase(updated[w2].phase) && work_item_of(updated[w2].phase) == j);
    }
}

/// Replacing a worker that held no item with one that holds none leaves the
/// held items unchanged.
pub proof fn lemma_holds_unchanged(ws: Seq<Worker>, w: int, x: Worker)
    requires
        0 <= w < ws.len(),
        !is_work_phase(ws[w].phase),
        !is_work_phase(x.phase),
    ensures
        forall|j: usize| #[trigger] holds_item(ws.update(w, x), j) <==> holds_item(ws, j),
{
    assert forall|j: usize| #[trigger] holds_item(ws.update(w, x), j) <==> holds_item(ws, j) by {
        lemma_holds_after_update(ws, w, x, j);
        if holds_item(ws, j) {
            let w2 = choose|w2: int|
                0 <= w2 < ws.len() && is_work_phase(#[trigger] ws[w2].phase) && work_item_of(
                    ws[w2].phase,
                ) == j;
            assert(w2 != w);
            assert(holds_item_other(ws, j, w));
        }
        if holds_item_other(ws, j, w) {
            let w2 = choose|w2: int|
                0 <= w2 < ws.len() && w2 != w && is_work_phase(#[trigger] ws[w2].phase)
                    && work_item_of(ws[w2].phase) == j;
            assert(holds_item(ws, j));
        }
    }
}

/// The shared state of one pool crawl: the stack, the counter, the workers,
/// the entries delivered so far, and the ghost record of handled entries.
pub struct Pool {
    /// The shared work stack, top at the end.
    pub stack: Vec<usize>,
    /// The shared count of active workers.
    pub active_count: usize,
    /// The workers.
    pub workers: Vec<Worker>,
    /// Entries handed to the action so far, in delivery order.
    pub visited: Vec<usize>,
    /// Entries already popped and expanded or dropped.
    pub handled: Ghost<Set<int>>,
}

impl Pool {
    /// Every worker has exited.
    pub open spec fn all_done(self) -> bool {
        forall|w: int|
            0 <= w < self.workers@.len() ==> (#[trigger] self.workers@[w]).phase == Phase::Done
    }

    /// Some active worker is still scanning or expanding.  While the stack
    /// is non-empty such a worker exists, which is why a counter that has
    /// reached zero certifies an empty stack.
    pub open spec fn has_guard(self) -> bool {
        exists|w: int|
            0 <= w < self.workers@.len() && (#[trigger] self.workers@[w]).active && (
            self.workers@[w].phase == Phase::Scan || is_work_phase(self.workers@[w].phase))
    }

    /// Worker `w`'s next step would do nothing: it has exited.
    pub open spec fn step_noop(self, w: int) -> bool {
        self.workers@[w].phase == Phase::Done
    }

    /// Worker `w`'s next step would be the busy-wait: idle, stack seen
    /// empty, counter still positive, so it yields and rescans.
    pub open spec fn step_yield(self, w: int) -> bool {
        &&& self.workers@[w].phase == Phase::SawEmpty
        &&& !self.workers@[w].active
        &&& self.active_count != 0
    }

    /// The protocol invariant.
    pub open spec fn inv(self, t: FsTree) -> bool {
        &&& t.wf()
        &&& self.workers@.len() >= 1
        // the shared counter tracks exactly the active workers
        &&& self.active_count == num_active(self.workers@)
        &&& self.handled@.finite()
        &&& self.handled@.len() <= t.nodes@.len()
        &&& (forall|x: int| #[trigger] self.handled@.contains(x) ==> 0 <= x < t.nodes@.len())
        &&& self.stack@.no_duplicates()
        &&& (forall|k: int| 0 <= k < self.stack@.len() ==> (#[trigger] self.stack@[k]) < t.nodes@.len())
        &&& (forall|k: int|
            0 <= k < self.stack@.len() ==> !self.handled@.contains((#[trigger] self.stack@[k]) as int))
        &&& (forall|k: int|
            0 <= k < self.stack@.len() ==> !holds_item(self.workers@, #[trigger] self.stack@[k]))
        // a held item is in range, unhandled, and held by one worker only
        &&& (forall|w: int|
            0 <= w < self.workers@.len() && is_work_phase(#[trigger] self.workers@[w].phase)
                ==> work_item_of(self.workers@[w].phase) < t.nodes@.len() && !self.handled@.contains(
                work_item_of(self.workers@[w].phase) as int,
            ))
        &&& (forall|w1: int, w2: int|
            0 <= w1 < self.workers@.len() && 0 <= w2 < self.workers@.len() && w1 != w2
                && is_work_phase(#[trigger] self.workers@[w1].phase) && is_work_phase(
                #[trigger] self.workers@[w2].phase,
            ) ==> work_item_of(self.workers@[w1].phase) != work_item_of(self.workers@[w2].phase))
        // an exited worker is idle
        &&& (forall|w: int|
            0 <= w < self.workers@.len() && (#[trigger] self.workers@[w]).phase == Phase::Done
                ==> !self.workers@[w].active)
        // pending work keeps a guard awake
        &&& (self.stack@.len() > 0 ==> self.has_guard())
        // an entry is pending, held or handled exactly when it is the root
        // or its parent has been handled
        &&& (forall|j: usize|
            j < t.nodes@.len() ==> ((#[trigger] self.stack@.contains(j) || holds_item(
                self.workers@,
                j,
            ) || self.handled@.contains(j as int)) <==> (j == 0 || self.handled@.contains(
                t.parent_of(j as int),
            ))))
        // the action saw exactly the handled files
        &&& self.visited@.no_duplicates()
        &&& (forall|j: usize|
            j < t.nodes@.len() ==> (#[trigger] self.visited@.contains(j) <==> (
            self.handled@.contains(j as int) && delivered(Strategy::Pool, t.kind_of(j as int)))))
        &&& (forall|k: int|
            0 <= k < self.visited@.len() ==> (#[trigger] self.visited@[k]) < t.nodes@.len())
    }

    /// The termination measure: five points per entry still unhandled, plus
    /// each worker's phase weight.  Every protocol action except the idle
    /// busy-wait lowers it.
    pub open spec fn measure(self, t: FsTree) -> int {
        5 * (t.nodes@.len() - self.handled@.len()) + sum_weights(self.workers@)
    }

    /// Builds a pool of `n` workers, all active, with the root seeded on
    /// the shared stack.
    pub fn new(t: &FsTree, n: usize) -> (p: Pool)
        requires
            t.wf(),
            1 <= n,
        ensures
            p.inv(*t),
            p.workers@.len() == n,
            p.visited@ =~= Seq::<usize>::empty(),
    {
        let mut workers: Vec<Worker> = Vec::new();
        let mut k: usize = 0;
        while k < n
            invariant
                k <= n,
                workers@.len() == k,
                num_active(workers@) == k,
                sum_weights(workers@) == 4 * k,
                forall|w: int|
                    0 <= w < k ==> (#[trigger] workers@[w]).active && workers@[w].phase
                        == Phase::Scan,
            decreases n - k,
        {
            let ghost ws_pre = workers@;
            workers.push(Worker::new());
            proof {
                lemma_sums_push(ws_pre, workers@.last());
            }
            k = k + 1;
        }
        let mut stack: Vec<usize> = Vec::new();
        stack.push(0);
        let p = Pool {
            stack,
            active_count: n,
            workers,
            visited: Vec::new(),
            handled: Ghost(Set::empty()),
        };
        proof {
            assert forall|j: usize| j < t.nodes@.len() implies ((#[trigger] p.stack@.contains(j)
                || holds_item(p.workers@, j) || p.handled@.contains(j as int)) <==> (j == 0
                || p.handled@.contains(t.parent_of(j as int)))) by {
                lemma_push_contains(Seq::<usize>::empty(), 0, j);
                if holds_item(p.workers@, j) {
                    let w = choose|w: int|
                        0 <= w < p.workers@.len() && is_work_phase(#[trigger] p.workers@[w].phase)
                            && work_item_of(p.workers@[w].phase) == j;
                    assert(p.workers@[w].phase == Phase::Scan);
                }
            }
            assert(p.stack@.no_duplicates());
            assert(p.has_guard()) by {
                assert(p.workers@[0].active && p.workers@[0].phase == Phase::Scan);
            }
            assert forall|k2: int| 0 <= k2 < p.stack@.len() implies !holds_item(
                p.workers@,
                #[trigger] p.stack@[k2],
            ) by {
                if holds_item(p.workers@, p.stack@[k2]) {
                    let w = choose|w: int|
                        0 <= w < p.workers@.len() && is_work_phase(#[trigger] p.workers@[w].phase)
                            && work_item_of(p.workers@[w].phase) == p.stack@[k2];
                    assert(p.workers@[w].phase == Phase::Scan);
                }
            }
        }
        p
    }

    /// When every worker has exited, the consensus was sound: the stack is
    /// empty, the counter sits at zero, nobody holds work, and the action
    /// saw every file exactly once.
    pub proof fn lemma_all_done_complete(self, t: FsTree)
        requires
            self.inv(t),
            self.all_done(),
        ensures
            crawl_post(t, Strategy::Pool, self.visited@),
            self.stack@.len() == 0,
            self.active_count == 0,
    {
        // no worker still holds work, and none guards the stack
        assert forall|j: usize| j < t.nodes@.len() implies !holds_item(self.workers@, j) by {
            if holds_item(self.workers@, j) {
                let w = choose|w: int|
                    0 <= w < self.workers@.len() && is_work_phase(
                        #[trigger] self.workers@[w].phase,
                    ) && work_item_of(self.workers@[w].phase) == j;
                assert(self.workers@[w].phase == Phase::Done);
            }
        }
        if self.stack@.len() > 0 {
            let w = choose|w: int|
                0 <= w < self.workers@.len() && (#[trigger] self.workers@[w]).active && (
                self.workers@[w].phase == Phase::Scan || is_work_phase(self.workers@[w].phase));
            assert(self.workers@[w].phase == Phase::Done);
            assert(false);
        }
        if self.active_count != 0 {
            lemma_active_exists(self.workers@);
            let w = choose|w: int|
                0 <= w < self.workers@.len() && (#[trigger] self.workers@[w]).active;
            assert(self.workers@[w].phase == Phase::Done);
            assert(false);
        }
        assert forall|j: usize| j < t.nodes@.len() implies (#[trigger] self.handled@.contains(
            j as int,
        ) <==> (j == 0 || self.handled@.contains(t.parent_of(j as int)))) by {
            assert(!self.stack@.contains(j));
            assert(!holds_item(self.workers@, j));
        }
        lemma_closed_set_is_all(t, self.handled@);
        assert forall|j: usize| j < t.nodes@.len() implies (#[trigger] self.visited@.contains(j)
            <==> delivered(Strategy::Pool, t.kind_of(j as int))) by {
            assert(self.handled@.contains(j as int));
        }
    }

    /// Dropping a worker's held item (as it turns to scanning) removes
    /// exactly that item from the held collection.
    proof fn lemma_holds_after_drop(self, t: FsTree, w: int, x: Worker)
        requires
            self.inv(t),
            0 <= w < self.workers@.len(),
            is_work_phase(self.workers@[w].phase),
            !is_work_phase(x.phase),
        ensures
            forall|j: usize|
                #[trigger] holds_item(self.workers@.update(w, x), j) <==> (holds_item(
                    self.workers@,
                    j,
                ) && j != work_item_of(self.workers@[w].phase)),
    {
        let ws = self.workers@;
        let item = work_item_of(ws[w].phase);
        assert forall|j: usize| #[trigger] holds_item(ws.update(w, x), j) <==> (holds_item(ws, j)
            && j != item) by {
            lemma_holds_after_update(ws, w, x, j);
            if holds_item_other(ws, j, w) {
                let w2 = choose|w2: int|
                    0 <= w2 < ws.len() && w2 != w && is_work_phase(#[trigger] ws[w2].phase)
                        && work_item_of(ws[w2].phase) == j;
                assert(holds_item(ws, j));
                self.lemma_held_distinct_instance(t, w, w2);
            }
            if holds_item(ws, j) && j != item {
                let w2 = choose|w2: int|
                    0 <= w2 < ws.len() && is_work_phase(#[trigger] ws[w2].phase) && work_item_of(
                        ws[w2].phase,
                    ) == j;
                assert(w2 != w);
                assert(holds_item_other(ws, j, w));
            }
        }
    }

    /// One atomic pop by worker `w`: take the top of the stack and carry it
    /// into the `Work` phase, or record that the stack was empty.
    fn step_scan(&mut self, t: &FsTree, w: usize)
        requires
            old(self).inv(*t),
            w < old(self).workers@.len(),
            old(self).workers@[w as int].phase == Phase::Scan,
        ensures
            final(self).inv(*t),
            final(self).workers@.len() == old(self).workers@.len(),
            final(self).measure(*t) < old(self).measure(*t),
    {
        let ghost p0 = *self;
        proof {
            assert(p0.inv(*t));
        }
        let wk = self.workers[w];
        let ghost ws_pre = p0.workers@;
        let ghost stack_at_entry = p0.stack@;
        let ghost handled_at_entry = p0.handled@;
        if self.stack.len() > 0 {
            let ghost stack_pre = self.stack@;
            let item = self.stack.pop().unwrap();
            self.workers[w] = Worker { active: wk.active, phase: Phase::Work { item } };
            proof {
                let ghost ws_new = self.workers@;
                let ghost x = ws_new[w as int];
                assert(stack_pre[stack_pre.len() - 1] == item);
                lemma_pop_facts(stack_pre);
                assert(self.stack@ == stack_pre.drop_last());
                lemma_sums_update(ws_pre, w as int, x);
                assert(stack_pre.contains(item)) by {
                    assert(stack_pre[stack_pre.len() - 1] == item);
                }
                assert(!holds_item(ws_pre, item));
                assert(!self.handled@.contains(item as int));
                // who holds what, after the update
                assert forall|j: usize| #[trigger] holds_item(ws_new, j) <==> (j == item
                    || holds_item(ws_pre, j)) by {
                    lemma_holds_after_update(ws_pre, w as int, x, j);
                    if holds_item(ws_pre, j) {
                        let w2 = choose|w2: int|
                            0 <= w2 < ws_pre.len() && is_work_phase(#[trigger] ws_pre[w2].phase)
                                && work_item_of(ws_pre[w2].phase) == j;
                        assert(w2 != w as int);
                        assert(holds_item_other(ws_pre, j, w as int));
                    }
                    if holds_item_other(ws_pre, j, w as int) {
                        let w2 = choose|w2: int|
                            0 <= w2 < ws_pre.len() && w2 != w as int && is_work_phase(
                                #[trigger] ws_pre[w2].phase,
                            ) && work_item_of(ws_pre[w2].phase) == j;
                        assert(holds_item(ws_pre, j));
                    }
                }
                // the stack's remaining entries are still held by nobody
                assert forall|k: int| 0 <= k < self.stack@.len() implies !holds_item(
                    ws_new,
                    #[trigger] self.stack@[k],
                ) by {
                    assert(self.stack@[k] == stack_pre[k]);
                    assert(!holds_item(ws_pre, stack_pre[k]));
                    assert(self.stack@[k] != item);
                }
                // pending-or-handled membership is unchanged
                assert forall|j: usize| j < t.nodes@.len() implies ((#[trigger] self.stack@.contains(
                    j,
                ) || holds_item(ws_new, j) || self.handled@.contains(j as int)) <==> (j == 0
                    || self.handled@.contains(t.parent_of(j as int)))) by {
                    assert(stack_pre.contains(j) <==> (self.stack@.contains(j) || j == item));
                }
                // a guard survives the pop
                if self.stack@.len() > 0 {
                    assert(self.has_guard()) by {
                        if wk.active {
                            assert(ws_new[w as int].active && is_work_phase(ws_new[w as int].phase));
                        } else {
                            let g = choose|g: int|
                                0 <= g < ws_pre.len() && (#[trigger] ws_pre[g]).active && (
                                ws_pre[g].phase == Phase::Scan || is_work_phase(ws_pre[g].phase));
                            assert(g != w as int);
                            assert(ws_new[g] == ws_pre[g]);
                            assert(ws_new[g].active && (ws_new[g].phase == Phase::Scan
                                || is_work_phase(ws_new[g].phase)));
                        }
                    }
                }
            }
        } else {
            self.workers[w] = Worker { active: wk.active, phase: Phase::SawEmpty };
            proof {
                let ghost ws_new = self.workers@;
                lemma_sums_update(ws_pre, w as int, ws_new[w as int]);
                lemma_holds_unchanged(ws_pre, w as int, ws_new[w as int]);
                assert forall|j: usize| j < t.nodes@.len() implies ((#[trigger] self.stack@.contains(
                    j,
                ) || holds_item(ws_new, j) || self.handled@.contains(j as int)) <==> (j == 0
                    || self.handled@.contains(t.parent_of(j as int)))) by {
                    assert(holds_item(ws_new, j) <==> holds_item(ws_pre, j));
                    p0.lemma_char_instance(*t, j);
                    assert(self.stack@ == p0.stack@);
                    assert(self.handled@ == p0.handled@);
                    assert(ws_pre == p0.workers@);
                }
            }
        }
    }

    /// One atomic counter action by worker `w` after it popped an empty
    /// stack: an active worker decrements the counter and exits when it was
    /// the last active one; an idle worker loads the counter and exits when
    /// it has reached zero, otherwise it yields and rescans.
    fn step_saw_empty(&mut self, t: &FsTree, w: usize)
        requires
            old(self).inv(*t),
            w < old(self).workers@.len(),
            old(self).workers@[w as int].phase == Phase::SawEmpty,
        ensures
            final(self).inv(*t),
            final(self).workers@.len() == old(self).workers@.len(),
            final(self).measure(*t) <= old(self).measure(*t) + 1,
            !old(self).step_yield(w as int) ==> final(self).measure(*t) < old(self).measure(*t),
    {
        let ghost p0 = *self;
        proof {
            assert(p0.inv(*t));
        }
        let wk = self.workers[w];
        let ghost ws_pre = p0.workers@;
        let ghost stack_at_entry = p0.stack@;
        let ghost handled_at_entry = p0.handled@;
        if wk.active {
            proof {
                lemma_active_at_least_one(ws_pre, w as int);
            }
            let prev = self.active_count;
            self.active_count = self.active_count - 1;
            let exiting = should_exit(true, prev);
            self.workers[w] = Worker {
                active: false,
                phase: if exiting {
                    Phase::Done
                } else {
                    Phase::Scan
                },
            };
            proof {
                let ghost ws_new = self.workers@;
                lemma_sums_update(ws_pre, w as int, ws_new[w as int]);
                lemma_holds_unchanged(ws_pre, w as int, ws_new[w as int]);
                assert forall|j: usize| j < t.nodes@.len() implies ((#[trigger] self.stack@.contains(
                    j,
                ) || holds_item(ws_new, j) || self.handled@.contains(j as int)) <==> (j == 0
                    || self.handled@.contains(t.parent_of(j as int)))) by {
                    assert(holds_item(ws_new, j) <==> holds_item(ws_pre, j));
                    p0.lemma_char_instance(*t, j);
                    assert(self.stack@ == p0.stack@);
                    assert(self.handled@ == p0.handled@);
                    assert(ws_pre == p0.workers@);
                }
                if self.stack@.len() > 0 {
                    assert(self.has_guard()) by {
                        let g = choose|g: int|
                            0 <= g < ws_pre.len() && (#[trigger] ws_pre[g]).active && (
                            ws_pre[g].phase == Phase::Scan || is_work_phase(ws_pre[g].phase));
                        assert(g != w as int);
                        assert(ws_new[g] == ws_pre[g]);
                        assert(ws_new[g].active && (ws_new[g].phase == Phase::Scan
                            || is_work_phase(ws_new[g].phase)));
                    }
                }
            }
        } else {
            let exiting = should_exit(false, self.active_count);
            self.workers[w] = Worker {
                active: false,
                phase: if exiting {
                    Phase::Done
                } else {
                    Phase::Scan
                },
            };
            proof {
                let ghost ws_new = self.workers@;
                lemma_sums_update(ws_pre, w as int, ws_new[w as int]);
                lemma_holds_unchanged(ws_pre, w as int, ws_new[w as int]);
                assert forall|j: usize| j < t.nodes@.len() implies ((#[trigger] self.stack@.contains(
                    j,
                ) || holds_item(ws_new, j) || self.handled@.contains(j as int)) <==> (j == 0
                    || self.handled@.contains(t.parent_of(j as int)))) by {
                    assert(holds_item(ws_new, j) <==> holds_item(ws_pre, j));
                    p0.lemma_char_instance(*t, j);
                    assert(self.stack@ == p0.stack@);
                    assert(self.handled@ == p0.handled@);
                    assert(ws_pre == p0.workers@);
                }
                if self.stack@.len() > 0 {
                    assert(self.has_guard()) by {
                        let g = choose|g: int|
                            0 <= g < ws_pre.len() && (#[trigger] ws_pre[g]).active && (
                            ws_pre[g].phase == Phase::Scan || is_work_phase(ws_pre[g].phase));
                        assert(g != w as int);
                        assert(ws_new[g] == ws_pre[g]);
                        assert(ws_new[g].active && (ws_new[g].phase == Phase::Scan
                            || is_work_phase(ws_new[g].phase)));
                    }
                }
            }
        }
    }

    /// One instance of the invariant's membership characterisation.
    pub proof fn lemma_char_instance(self, t: FsTree, j: usize)
        requires
            self.inv(t),
            j < t.nodes@.len(),
        ensures
            (self.stack@.contains(j) || holds_item(self.workers@, j) || self.handled@.contains(
                j as int,
            )) <==> (j == 0 || self.handled@.contains(t.parent_of(j as int))),
    {
    }

    /// One instance of the invariant's visit characterisation.
    pub proof fn lemma_visited_instance(self, t: FsTree, j: usize)
        requires
            self.inv(t),
            j < t.nodes@.len(),
        ensures
            self.visited@.contains(j) <==> (self.handled@.contains(j as int) && delivered(
                Strategy::Pool,
                t.kind_of(j as int),
            )),
    {
    }

    /// One instance of the invariant's facts about a held item.
    pub proof fn lemma_held_instance(self, t: FsTree, w2: int)
        requires
            self.inv(t),
            0 <= w2 < self.workers@.len(),
            is_work_phase(self.workers@[w2].phase),
        ensures
            work_item_of(self.workers@[w2].phase) < t.nodes@.len(),
            !self.handled@.contains(work_item_of(self.workers@[w2].phase) as int),
    {
    }

    /// Two workers never hold the same item.
    pub proof fn lemma_held_distinct_instance(self, t: FsTree, w1: int, w2: int)
        requires
            self.inv(t),
            0 <= w1 < self.workers@.len(),
            0 <= w2 < self.workers@.len(),
            w1 != w2,
            is_work_phase(self.workers@[w1].phase),
            is_work_phase(self.workers@[w2].phase),
        ensures
            work_item_of(self.workers@[w1].phase) != work_item_of(self.workers@[w2].phase),
    {
    }

    /// One atomic action by worker `w` while it holds a popped item.  A
    /// holder that was idle first re-raises the shared counter, becoming
    /// active again before any expansion; an active holder expands the item
    /// under one lock acquisition, handing a file to the action, dropping
    /// any other leaf, and pushing a directory's children as new work.
    fn step_work(&mut self, t: &FsTree, w: usize)
        requires
            old(self).inv(*t),
            w < old(self).workers@.len(),
            is_work_phase(old(self).workers@[w as int].phase),
        ensures
            final(self).inv(*t),
            final(self).workers@.len() == old(self).workers@.len(),
            final(self).measure(*t) < old(self).measure(*t),
    {
        let ghost p0 = *self;
        proof {
            assert(p0.inv(*t));
        }
        let wk = self.workers[w];
        let item = match wk.phase {
            Phase::Work { item } => item,
            _ => 0,
        };
        proof {
            assert(item == work_item_of(wk.phase));
            p0.lemma_held_instance(*t, w as int);
            assert(item < t.nodes@.len());
            assert(!p0.handled@.contains(item as int));
        }
        if !wk.active {
            let n = self.workers.len();
            proof {
                lemma_idle_bounds_count(p0.workers@, w as int);
            }
            self.active_count = self.active_count + 1;
            self.workers[w] = Worker { active: true, phase: wk.phase };
            proof {
                let ghost ws_new = self.workers@;
                lemma_sums_update(p0.workers@, w as int, ws_new[w as int]);
                assert forall|k: int| 0 <= k < ws_new.len() implies (#[trigger] ws_new[k]).phase
                    == p0.workers@[k].phase by {}
                assert forall|j: usize| #[trigger] holds_item(ws_new, j) <==> holds_item(
                    p0.workers@,
                    j,
                ) by {
                    lemma_holds_after_update(p0.workers@, w as int, ws_new[w as int], j);
                    if holds_item(p0.workers@, j) {
                        let w2 = choose|w2: int|
                            0 <= w2 < p0.workers@.len() && is_work_phase(
                                #[trigger] p0.workers@[w2].phase,
                            ) && work_item_of(p0.workers@[w2].phase) == j;
                        if w2 == w as int {
                            assert(j == item);
                        } else {
                            assert(holds_item_other(p0.workers@, j, w as int));
                        }
                    }
                    if holds_item_other(p0.workers@, j, w as int) {
                        let w2 = choose|w2: int|
                            0 <= w2 < p0.workers@.len() && w2 != w as int && is_work_phase(
                                #[trigger] p0.workers@[w2].phase,
                            ) && work_item_of(p0.workers@[w2].phase) == j;
                        assert(holds_item(p0.workers@, j));
                    }
                    if j == item {
                        assert(is_work_phase(p0.workers@[w as int].phase) && work_item_of(
                            p0.workers@[w as int].phase,
                        ) == j);
                        assert(holds_item(p0.workers@, j));
                    }
                }
                assert forall|j: usize| j < t.nodes@.len() implies ((#[trigger] self.stack@.contains(
                    j,
                ) || holds_item(ws_new, j) || self.handled@.contains(j as int)) <==> (j == 0
                    || self.handled@.contains(t.parent_of(j as int)))) by {
                    p0.lemma_char_instance(*t, j);
                    assert(self.stack@ == p0.stack@);
                    assert(self.handled@ == p0.handled@);
                }
                assert forall|k: int| 0 <= k < self.stack@.len() implies !holds_item(
                    ws_new,
                    #[trigger] self.stack@[k],
                ) by {
                    assert(self.stack@ == p0.stack@);
                    assert(!holds_item(p0.workers@, p0.stack@[k]));
                }
                assert forall|w2: int|
                    0 <= w2 < ws_new.len() && is_work_phase(
                        #[trigger] ws_new[w2].phase,
                    ) implies work_item_of(ws_new[w2].phase) < t.nodes@.len()
                    && !self.handled@.contains(work_item_of(ws_new[w2].phase) as int) by {
                    assert(ws_new[w2].phase == p0.workers@[w2].phase);
                    p0.lemma_held_instance(*t, w2);
                    assert(self.handled@ == p0.handled@);
                }
                assert forall|w1: int, w2: int|
                    0 <= w1 < ws_new.len() && 0 <= w2 < ws_new.len() && w1 != w2 && is_work_phase(
                        #[trigger] ws_new[w1].phase,
                    ) && is_work_phase(#[trigger] ws_new[w2].phase) implies work_item_of(
                    ws_new[w1].phase,
                ) != work_item_of(ws_new[w2].phase) by {
                    assert(ws_new[w1].phase == p0.workers@[w1].phase);
                    assert(ws_new[w2].phase == p0.workers@[w2].phase);
                    p0.lemma_held_distinct_instance(*t, w1, w2);
                }
                if self.stack@.len() > 0 {
                    assert(self.has_guard()) by {
                        assert(ws_new[w as int].active && is_work_phase(ws_new[w as int].phase));
                    }
                }
                assert forall|j: usize| j < t.nodes@.len() implies (
                #[trigger] self.visited@.contains(j) <==> (self.handled@.contains(j as int)
                    && delivered(Strategy::Pool, t.kind_of(j as int)))) by {
                    p0.lemma_visited_instance(*t, j);
                    assert(self.visited@ == p0.visited@);
                    assert(self.handled@ == p0.handled@);
                }
            }
        } else {
            let kind = t.nodes[item].kind;
            let disposition = classify(Strategy::Pool, kind);
            self.workers[w] = Worker { active: true, phase: Phase::Scan };
            let ghost ws_new = self.workers@;
            proof {
                assert(ws_new == p0.workers@.update(w as int, ws_new[w as int]));
                lemma_sums_update(p0.workers@, w as int, ws_new[w as int]);
                p0.lemma_holds_after_drop(*t, w as int, ws_new[w as int]);
                assert forall|j: usize| #[trigger] holds_item(ws_new, j) <==> (holds_item(
                    p0.workers@,
                    j,
                ) && j != item) by {
                    assert(holds_item(
                        p0.workers@.update(w as int, ws_new[w as int]),
                        j,
                    ) <==> (holds_item(p0.workers@, j) && j != work_item_of(
                        p0.workers@[w as int].phase,
                    )));
                }
                // the expansion's combined view of what is accounted for
                assert forall|j: usize| j < t.nodes@.len() implies ((#[trigger] p0.stack@.contains(
                    j,
                ) || holds_item(ws_new, j) || p0.handled@.contains(j as int) || j == item) <==> (j
                    == 0 || p0.handled@.contains(t.parent_of(j as int)))) by {
                    p0.lemma_char_instance(*t, j);
                    if j == item {
                        assert(is_work_phase(p0.workers@[w as int].phase) && work_item_of(
                            p0.workers@[w as int].phase,
                        ) == item);
                        assert(holds_item(p0.workers@, item));
                    }
                }
                assert forall|k: int| 0 <= k < p0.stack@.len() implies (#[trigger] p0.stack@[k])
                    != item by {
                    assert(!holds_item(p0.workers@, p0.stack@[k]));
                    assert(is_work_phase(p0.workers@[w as int].phase) && work_item_of(
                        p0.workers@[w as int].phase,
                    ) == item);
                }
            }
            if disposition == Disposition::Expand {
                let ghost stack0 = self.stack@;
                let mut c: usize = 1;
                while c < t.nodes.len()
                    invariant
                        t.wf(),
                        item < t.nodes@.len(),
                        t.kind_of(item as int) == EntryKind::Dir,
                        1 <= c <= t.nodes@.len(),
                        self.workers@ == ws_new,
                        self.handled@ == p0.handled@,
                        self.visited@ == p0.visited@,
                        self.active_count == p0.active_count,
                        stack0 == p0.stack@,
                        !p0.handled@.contains(item as int),
                        forall|j: usize| #[trigger]
                            holds_item(ws_new, j) ==> holds_item(p0.workers@, j) && j != item,
                        forall|j: usize|
                            j < t.nodes@.len() ==> ((#[trigger] stack0.contains(j) || holds_item(
                                ws_new,
                                j,
                            ) || p0.handled@.contains(j as int) || j == item) <==> (j == 0
                                || p0.handled@.contains(t.parent_of(j as int)))),
                        self.stack@.no_duplicates(),
                        forall|k: int|
                            0 <= k < self.stack@.len() ==> (#[trigger] self.stack@[k])
                                < t.nodes@.len(),
                        forall|k: int|
                            0 <= k < self.stack@.len() ==> !p0.handled@.contains(
                                (#[trigger] self.stack@[k]) as int,
                            ),
                        forall|k: int|
                            0 <= k < self.stack@.len() ==> (#[trigger] self.stack@[k]) != item,
                        forall|k: int|
                            0 <= k < self.stack@.len() ==> !holds_item(
                                ws_new,
                                #[trigger] self.stack@[k],
                            ),
                        forall|j: usize|
                            j < t.nodes@.len() ==> (#[trigger] self.stack@.contains(j) <==> (
                            stack0.contains(j) || (1 <= j < c && t.parent_of(j as int)
                                == item as int))),
                    decreases t.nodes@.len() - c,
                {
                    if t.nodes[c].parent == item {
                        let ghost stack_cur = self.stack@;
                        proof {
                            assert(t.parent_of(c as int) == item as int);
                            assert(c != item);
                            assert(!stack_cur.contains(c)) by {
                                if stack0.contains(c) {
                                    assert(c == 0 || p0.handled@.contains(t.parent_of(c as int)));
                                }
                            }
                            lemma_push_no_dup(stack_cur, c);
                            assert(!holds_item(ws_new, c)) by {
                                if holds_item(ws_new, c) {
                                    assert(c == 0 || p0.handled@.contains(t.parent_of(c as int)));
                                }
                            }
                        }
                        self.stack.push(c);
                        proof {
                            assert(self.stack@ == stack_cur.push(c));
                            assert forall|j: usize| j < t.nodes@.len() implies (
                            #[trigger] self.stack@.contains(j) <==> (stack0.contains(j) || (1 <= j
                                < c + 1 && t.parent_of(j as int) == item as int))) by {
                                lemma_push_contains(stack_cur, c, j);
                            }
                        }
                    }
                    c = c + 1;
                }
                proof {
                    let ghost handled_pre = self.handled@;
                    self.handled@ = self.handled@.insert(item as int);
                    lemma_handled_bounded(*t, self.handled@);
                    assert(self.handled@.len() == handled_pre.len() + 1);
                    assert(num_active(ws_new) == num_active(p0.workers@));
                    assert(sum_weights(ws_new) == sum_weights(p0.workers@) + 4);
                    assert forall|j: usize| j < t.nodes@.len() implies ((
                    #[trigger] self.stack@.contains(j) || holds_item(self.workers@, j)
                        || self.handled@.contains(j as int)) <==> (j == 0
                        || self.handled@.contains(t.parent_of(j as int)))) by {
                        assert(self.workers@ == ws_new);
                        assert(handled_pre == p0.handled@);
                        assert(stack0 == p0.stack@);
                        assert(self.stack@.contains(j) <==> (stack0.contains(j) || (1 <= j
                            < t.nodes@.len() && t.parent_of(j as int) == item as int)));
                        p0.lemma_char_instance(*t, j);
                        assert(holds_item(ws_new, j) <==> (holds_item(p0.workers@, j) && j
                            != item));
                        if j == item {
                            assert(is_work_phase(p0.workers@[w as int].phase) && work_item_of(
                                p0.workers@[w as int].phase,
                            ) == item);
                            assert(holds_item(p0.workers@, item));
                        }
                    }
                    assert forall|k: int| 0 <= k < self.stack@.len() implies !self.handled@.contains(
                        (#[trigger] self.stack@[k]) as int,
                    ) by {}
                    assert forall|w2: int|
                        0 <= w2 < ws_new.len() && is_work_phase(
                            #[trigger] ws_new[w2].phase,
                        ) implies work_item_of(ws_new[w2].phase) < t.nodes@.len()
                        && !self.handled@.contains(work_item_of(ws_new[w2].phase) as int) by {
                        assert(w2 != w as int);
                        assert(ws_new[w2] == p0.workers@[w2]);
                        p0.lemma_held_instance(*t, w2);
                        p0.lemma_held_distinct_instance(*t, w as int, w2);
                    }
                    assert forall|w1: int, w2: int|
                        0 <= w1 < ws_new.len() && 0 <= w2 < ws_new.len() && w1 != w2
                            && is_work_phase(#[trigger] ws_new[w1].phase) && is_work_phase(
                            #[trigger] ws_new[w2].phase,
                        ) implies work_item_of(ws_new[w1].phase) != work_item_of(
                        ws_new[w2].phase,
                    ) by {
                        assert(ws_new[w1] == p0.workers@[w1]);
                        assert(ws_new[w2] == p0.workers@[w2]);
                        p0.lemma_held_distinct_instance(*t, w1, w2);
                    }
                    assert forall|w2: int|
                        0 <= w2 < ws_new.len() && (#[trigger] ws_new[w2]).phase
                            == Phase::Done implies !ws_new[w2].active by {
                        assert(ws_new[w2] == p0.workers@[w2]);
                    }
                    if self.stack@.len() > 0 {
                        assert(self.has_guard()) by {
                            assert(ws_new[w as int].active && ws_new[w as int].phase
                                == Phase::Scan);
                        }
                    }
                    assert forall|j: usize| j < t.nodes@.len() implies (
                    #[trigger] self.visited@.contains(j) <==> (self.handled@.contains(j as int)
                        && delivered(Strategy::Pool, t.kind_of(j as int)))) by {
                        p0.lemma_visited_instance(*t, j);
                        assert(self.visited@ == p0.visited@);
                        if j == item {
                            assert(delivered(Strategy::Pool, t.kind_of(j as int)) == false);
                        }
                    }
                }
            } else {
                if disposition == Disposition::Invoke {
                    let ghost visited_pre = self.visited@;
                    proof {
                        assert(!visited_pre.contains(item)) by {
                            p0.lemma_visited_instance(*t, item);
                        }
                        lemma_push_no_dup(visited_pre, item);
                    }
                    self.visited.push(item);
                }
                proof {
                    assert forall|j: usize|
                        j < t.nodes@.len() implies ((#[trigger] p0.stack@.contains(j)
                        || holds_item(ws_new, j) || p0.handled@.contains(j as int) || j == item)
                        <==> (j == 0 || p0.handled@.contains(t.parent_of(j as int)))) by {
                        p0.lemma_char_instance(*t, j);
                    }
                    // a leaf has no children, so nothing new becomes pending
                    assert forall|j: usize|
                        j < t.nodes@.len() && 1 <= j implies t.parent_of(j as int)
                        != item as int by {
                        if t.parent_of(j as int) == item as int {
                            assert(t.kind_of(t.parent_of(j as int)) == EntryKind::Dir);
                        }
                    }
                }
                proof {
                    let ghost handled_pre = self.handled@;
                    self.handled@ = self.handled@.insert(item as int);
                    lemma_handled_bounded(*t, self.handled@);
                    assert(self.handled@.len() == handled_pre.len() + 1);
                    assert(num_active(ws_new) == num_active(p0.workers@));
                    assert(sum_weights(ws_new) == sum_weights(p0.workers@) + 4);
                    assert forall|j: usize| j < t.nodes@.len() implies ((
                    #[trigger] self.stack@.contains(j) || holds_item(self.workers@, j)
                        || self.handled@.contains(j as int)) <==> (j == 0
                        || self.handled@.contains(t.parent_of(j as int)))) by {
                        assert(self.stack@ == p0.stack@);
                        assert(self.workers@ == ws_new);
                        assert(handled_pre == p0.handled@);
                        p0.lemma_char_instance(*t, j);
                        assert(holds_item(ws_new, j) <==> (holds_item(p0.workers@, j) && j
                            != item));
                        if 1 <= j && t.parent_of(j as int) == item as int {
                            assert(t.kind_of(t.parent_of(j as int)) == EntryKind::Dir);
                        }
                        if j == item {
                            assert(is_work_phase(p0.workers@[w as int].phase) && work_item_of(
                                p0.workers@[w as int].phase,
                            ) == item);
                            assert(holds_item(p0.workers@, item));
                        }
                    }
                    assert forall|k: int| 0 <= k < self.stack@.len() implies !self.handled@.contains(
                        (#[trigger] self.stack@[k]) as int,
                    ) by {}
                    assert forall|w2: int|
                        0 <= w2 < ws_new.len() && is_work_phase(
                            #[trigger] ws_new[w2].phase,
                        ) implies work_item_of(ws_new[w2].phase) < t.nodes@.len()
                        && !self.handled@.contains(work_item_of(ws_new[w2].phase) as int) by {
                        assert(w2 != w as int);
                        assert(ws_new[w2] == p0.workers@[w2]);
                        p0.lemma_held_instance(*t, w2);
                        p0.lemma_held_distinct_instance(*t, w as int, w2);
                    }
                    assert forall|w1: int, w2: int|
                        0 <= w1 < ws_new.len() && 0 <= w2 < ws_new.len() && w1 != w2
                            && is_work_phase(#[trigger] ws_new[w1].phase) && is_work_phase(
                            #[trigger] ws_new[w2].phase,
                        ) implies work_item_of(ws_new[w1].phase) != work_item_of(
                        ws_new[w2].phase,
                    ) by {
                        assert(ws_new[w1] == p0.workers@[w1]);
                        assert(ws_new[w2] == p0.workers@[w2]);
                        p0.lemma_held_distinct_instance(*t, w1, w2);
                    }
                    assert forall|w2: int|
                        0 <= w2 < ws_new.len() && (#[trigger] ws_new[w2]).phase
                            == Phase::Done implies !ws_new[w2].active by {
                        assert(ws_new[w2] == p0.workers@[w2]);
                    }
                    if self.stack@.len() > 0 {
                        assert(self.has_guard()) by {
                            assert(ws_new[w as int].active && ws_new[w as int].phase
                                == Phase::Scan);
                        }
                    }
                    assert forall|j: usize| j < t.nodes@.len() implies (
                    #[trigger] self.visited@.contains(j) <==> (self.handled@.contains(j as int)
                        && delivered(Strategy::Pool, t.kind_of(j as int)))) by {
                        p0.lemma_visited_instance(*t, j);
                        if kind == EntryKind::File {
                            assert(disposition == Disposition::Invoke);
                            lemma_push_contains(p0.visited@, item, j);
                        } else {
                            assert(disposition != Disposition::Invoke);
                            assert(self.visited@ == p0.visited@);
                            if j == item {
                                assert(delivered(Strategy::Pool, t.kind_of(j as int)) == false);
                            }
                        }
                    }
                }
            }
        }
    }

    /// One atomic step of worker `w`, whatever its phase.  A step by an
    /// exited worker does nothing; the idle busy-wait may raise the measure
    /// by one; every other step strictly lowers it.
    pub fn step(&mut self, t: &FsTree, w: usize)
        requires
            old(self).inv(*t),
            w < old(self).workers@.len(),
        ensures
            final(self).inv(*t),
            final(self).workers@.len() == old(self).workers@.len(),
            !old(self).step_noop(w as int) && !old(self).step_yield(w as int)
                ==> final(self).measure(*t) < old(self).measure(*t),
    {
        let ph = self.workers[w].phase;
        match ph {
            Phase::Done => {
            }
            Phase::Scan => {
                self.step_scan(t, w);
            }
            Phase::Work { .. } => {
                self.step_work(t, w);
            }
            Phase::SawEmpty => {
                self.step_saw_empty(t, w);
            }
        }
    }

    /// Picks a worker whose next step makes progress, or reports that every
    /// worker has exited.  Such a worker always exists while any worker is
    /// still running: that is the protocol's freedom from deadlock.
    fn next_runnable(&self, t: &FsTree) -> (r: Option<usize>)
        requires
            self.inv(*t),
        ensures
            match r {
                Option::Some(w) => w < self.workers@.len() && !self.step_noop(w as int)
                    && !self.step_yield(w as int),
                Option::None => self.all_done(),
            },
    {
        let n = self.workers.len();
        let mut w: usize = 0;
        while w < n
            invariant
                n == self.workers@.len(),
                w <= n,
                forall|w2: int|
                    0 <= w2 < w ==> self.step_noop(w2) || #[trigger] self.step_yield(w2),
            decreases n - w,
        {
            let runnable = match self.workers[w].phase {
                Phase::Done => false,
                Phase::SawEmpty => self.workers[w].active || self.active_count == 0,
                _ => true,
            };
            if runnable {
                return Some(w);
            }
            w = w + 1;
        }
        proof {
            if !self.all_done() {
                self.lemma_progress_exists(*t);
                let wx = choose|wx: int|
                    0 <= wx < self.workers@.len() && !(#[trigger] self.step_noop(wx))
                        && !self.step_yield(wx);
                assert(self.step_noop(wx) || self.step_yield(wx));
                assert(false);
            }
        }
        None
    }

    /// True iff every worker has exited.
    pub fn all_done_check(&self) -> (b: bool)
        ensures
            b == self.all_done(),
    {
        let n = self.workers.len();
        let mut w: usize = 0;
        while w < n
            invariant
                n == self.workers@.len(),
                w <= n,
                forall|w2: int| 0 <= w2 < w ==> (#[trigger] self.workers@[w2]).phase == Phase::Done,
            decreases n - w,
        {
            let is_done = match self.workers[w].phase {
                Phase::Done => true,
                _ => false,
            };
            if !is_done {
                assert(!self.all_done()) by {
                    if self.all_done() {
                        assert(self.workers@[w as int].phase == Phase::Done);
                    }
                }
                return false;
            }
            w = w + 1;
        }
        true
    }

    /// The shared counter always equals the number of active workers, so
    /// it stays between zero and the worker count: it can never underflow,
    /// and a decrement is only ever taken by a worker the counter counts.
    pub proof fn lemma_counter_in_range(self, t: FsTree)
        requires
            self.inv(t),
        ensures
            self.active_count == num_active(self.workers@),
            self.active_count <= self.workers@.len(),
    {
        lemma_count_at_most(self.workers@);
    }

    /// While some worker has not exited, some worker can take a step that
    /// is neither a no-op nor the busy-wait: the crawl cannot get stuck.
    pub proof fn lemma_progress_exists(self, t: FsTree)
        requires
            self.inv(t),
            !self.all_done(),
        ensures
            exists|w: int|
                0 <= w < self.workers@.len() && !(#[trigger] self.step_noop(w))
                    && !self.step_yield(w),
    {
        if self.active_count != 0 {
            lemma_active_exists(self.workers@);
            let w = choose|w: int|
                0 <= w < self.workers@.len() && (#[trigger] self.workers@[w]).active;
            assert(!self.step_noop(w) && !self.step_yield(w));
        } else {
            let w = choose|w: int|
                0 <= w < self.workers@.len() && (#[trigger] self.workers@[w]).phase != Phase::Done;
            assert(!self.step_noop(w) && !self.step_yield(w));
        }
    }
}

/// Crawls the snapshot with a pool of `n` workers sharing one stack and
/// one active-worker counter, scheduling the workers' atomic steps until
/// the termination consensus lets every worker exit.  The scheduler always
/// steps a worker that can progress, so the loop's measure proves that the
/// crawl terminates on every input.  Every file is delivered exactly once.
pub fn crawl_pool(t: &FsTree, n: usize) -> (visits: Vec<usize>)
    requires
        t.wf(),
        1 <= n,
    ensures
        crawl_post(*t, Strategy::Pool, visits@),
{
    let mut pool = Pool::new(t, n);
    loop
        invariant
            t.wf(),
            pool.inv(*t),
        ensures
            pool.inv(*t),
            pool.all_done(),
        decreases pool.measure(*t),
    {
        let r = pool.next_runnable(t);
        match r {
            Option::None => {
                break;
            }
            Option::Some(w) => {
                pool.step(t, w);
                proof {
                    assert(pool.measure(*t) >= 0);
                }
            }
        }
    }
    proof {
        pool.lemma_all_done_complete(*t);
    }
    pool.visited
}

/// Runs the pool under an arbitrary interleaving: entry `i` of the schedule
/// names the worker (modulo `n`) whose next atomic action runs at instant
/// `i`.  Whatever the schedule, the entries delivered are distinct files of
/// the snapshot; and whenever the schedule suffices to let every worker
/// exit, the crawl is complete: every file was delivered exactly once.
pub fn crawl_pool_trace(t: &FsTree, n: usize, schedule: &Vec<usize>) -> (r: (Vec<usize>, bool))
    requires
        t.wf(),
        1 <= n,
    ensures
        r.1 ==> crawl_post(*t, Strategy::Pool, r.0@),
        r.0@.no_duplicates(),
        forall|k: int|
            0 <= k < r.0@.len() ==> (#[trigger] r.0@[k]) < t.nodes@.len() && delivered(
                Strategy::Pool,
                t.kind_of(r.0@[k] as int),
            ),
{
    let mut pool = Pool::new(t, n);
    let mut i: usize = 0;
    while i < schedule.len()
        invariant
            t.wf(),
            pool.inv(*t),
            pool.workers@.len() == n,
            1 <= n,
            i <= schedule.len(),
        decreases schedule.len() - i,
    {
        let w = schedule[i] % n;
        pool.step(t, w);
        i = i + 1;
    }
    let done = pool.all_done_check();
    proof {
        if done {
            pool.lemma_all_done_complete(*t);
        }
        assert forall|k: int| 0 <= k < pool.visited@.len() implies (#[trigger] pool.visited@[k])
            < t.nodes@.len() && delivered(Strategy::Pool, t.kind_of(pool.visited@[k] as int)) by {
            let j = pool.visited@[k];
            assert(pool.visited@.contains(j));
        }
    }
    (pool.visited, done)
}

} // verus!
