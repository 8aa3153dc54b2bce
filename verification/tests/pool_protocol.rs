//! The pool strategy's termination protocol, driven step by step under
//! chosen and adversarial interleavings.

use crawl::fs_tree::EntryKind;
use crawl::fs_tree::FsTree;
use crawl::pool_crawler::Pool;
use crawl::pool_crawler::crawl_pool;
use crawl::pool_crawler::crawl_pool_trace;
use crawl::single_crawler::crawl_single;

fn sorted_pool(mut v: Vec<usize>) -> Vec<usize> {
    v.sort();
    v
}

fn sample_tree() -> (FsTree, Vec<usize>) {
    let mut t = FsTree::new_root(EntryKind::Dir);
    let mut files = Vec::new();
    let d1 = t.push_node(0, EntryKind::Dir);
    let d2 = t.push_node(d1, EntryKind::Dir);
    files.push(t.push_node(0, EntryKind::File));
    files.push(t.push_node(d1, EntryKind::File));
    files.push(t.push_node(d2, EntryKind::File));
    files.push(t.push_node(d2, EntryKind::File));
    t.push_node(0, EntryKind::Symlink);
    t.push_node(d1, EntryKind::Other);
    files.sort();
    assert!(t.check_wf());
    (t, files)
}

/// The pool delivers every file exactly once for worker counts one, two,
/// eight and sixty-four.
#[test]
fn pool_covers_for_every_worker_count() {
    let (t, files) = sample_tree();
    for n in [1, 2, 8, 64] {
        assert_eq!(sorted_pool(crawl_pool(&t, n)), files);
    }
}

/// The pool agrees with the single-worker strategy on files.
#[test]
fn pool_agrees_with_single_on_files() {
    let (t, files) = sample_tree();
    let single: Vec<usize> = crawl_single(&t)
        .into_iter()
        .filter(|j| matches!(t.nodes[*j].kind, EntryKind::File))
        .collect();
    assert_eq!(sorted_pool(single), files);
    assert_eq!(sorted_pool(crawl_pool(&t, 3)), files);
}

/// A schedule long enough under round-robin completes the crawl, and the
/// completed trace delivers exactly the files.
#[test]
fn round_robin_trace_completes() {
    let (t, files) = sample_tree();
    let n = 3;
    let schedule: Vec<usize> = (0..500).map(|i| i % n).collect();
    let (visits, done) = crawl_pool_trace(&t, n, &schedule);
    assert!(done);
    assert_eq!(sorted_pool(visits), files);
}

/// A schedule that starves all workers but one: the lone worker drains the
/// whole stack itself but cannot exit while its starved peers keep the
/// counter up, so the trace ends incomplete yet with full delivery; a
/// round-robin tail then lets every worker exit.
#[test]
fn starved_schedule_stalls_then_finishes() {
    let (t, files) = sample_tree();
    let head: Vec<usize> = vec![0; 300];
    let (visits, done) = crawl_pool_trace(&t, 4, &head);
    assert!(!done);
    assert_eq!(sorted_pool(visits), files);

    let mut full = head;
    full.extend((0..100).map(|i| i % 4));
    let (visits, done) = crawl_pool_trace(&t, 4, &full);
    assert!(done);
    assert_eq!(sorted_pool(visits), files);
}

/// A pseudo-random interleaving never delivers a duplicate or a non-file,
/// and on completion delivers everything.
#[test]
fn scrambled_trace_is_safe() {
    let (t, files) = sample_tree();
    let mut x: u64 = 0x2545_f491_4f6c_dd1d;
    let mut schedule = Vec::new();
    for _ in 0..2000 {
        x ^= x << 13;
        x ^= x >> 7;
        x ^= x << 17;
        schedule.push((x % 8) as usize);
    }
    let (visits, done) = crawl_pool_trace(&t, 8, &schedule);
    let s = sorted_pool(visits);
    for w in s.windows(2) {
        assert!(w[0] != w[1]);
    }
    for j in &s {
        assert!(matches!(t.nodes[*j].kind, EntryKind::File));
    }
    if done {
        assert_eq!(s, files);
    }
}

/// A schedule too short to finish reports the crawl incomplete and has
/// delivered only files, each at most once.
#[test]
fn truncated_trace_reports_incomplete() {
    let (t, _) = sample_tree();
    let (visits, done) = crawl_pool_trace(&t, 2, &vec![0, 1]);
    assert!(!done);
    let s = sorted_pool(visits);
    for w in s.windows(2) {
        assert!(w[0] != w[1]);
    }
}

/// Driving the pool by hand: the active counter starts at the worker count,
/// never underflows, and reaches zero exactly when every worker has
/// exited with the stack empty.
#[test]
fn counter_reaches_zero_only_at_exit() {
    let (t, files) = sample_tree();
    let n = 4;
    let mut pool = Pool::new(&t, n);
    assert_eq!(pool.active_count, n);
    let mut steps = 0usize;
    while !pool.all_done_check() {
        let w = steps % n;
        pool.step(&t, w);
        assert!(pool.active_count <= n);
        if pool.active_count == 0 {
            assert!(pool.stack.is_empty());
        }
        steps += 1;
        assert!(steps < 10_000, "the pool did not terminate in bounded steps");
    }
    assert_eq!(pool.active_count, 0);
    assert!(pool.stack.is_empty());
    assert_eq!(sorted_pool(pool.visited), files);
}

/// The subtle interleaving the consensus tolerates: a worker pops an item
/// while idle and is preempted before re-raising the counter, so its peer
/// decrements to zero and exits early — yet nothing is lost, because the
/// holder is still running and finishes the subtree alone.
#[test]
fn early_exit_with_held_work_still_covers() {
    let mut t = FsTree::new_root(EntryKind::Dir);
    let d = t.push_node(0, EntryKind::Dir);
    let f = t.push_node(d, EntryKind::File);
    assert!(t.check_wf());

    let n = 2;
    let mut pool = Pool::new(&t, n);
    // worker 0 takes the root; worker 1 pops empty and goes idle
    pool.step(&t, 0); // pop root
    pool.step(&t, 1); // pop empty
    pool.step(&t, 1); // decrement: 2 -> 1, worker 1 idle
    pool.step(&t, 0); // expand root, pushing the subdirectory
    pool.step(&t, 1); // worker 1, still idle, pops the subdirectory
    pool.step(&t, 0); // worker 0 pops empty
    pool.step(&t, 0); // decrement: 1 -> 0, worker 0 exits
    assert!(matches!(pool.workers[0].phase, crawl::pool_crawler::Phase::Done));
    assert_eq!(pool.active_count, 0);
    // worker 1 still holds unexpanded work and finishes alone
    let mut steps = 0usize;
    while !pool.all_done_check() {
        pool.step(&t, 1);
        steps += 1;
        assert!(steps < 100, "the lone holder did not finish");
    }
    assert_eq!(pool.visited, vec![f]);
}

/// A crawl whose root probe failed: the pool delivers nothing and returns.
#[test]
fn errored_root_is_dropped_by_the_pool() {
    let t = FsTree::new_root(EntryKind::Other);
    assert!(t.check_wf());
    assert_eq!(crawl_pool(&t, 3), Vec::<usize>::new());
}

/// A one-worker pool behaves like the single-worker strategy restricted to
/// files.
#[test]
fn one_worker_pool_is_sequential() {
    let mut t = FsTree::new_root(EntryKind::Dir);
    let a = t.push_node(0, EntryKind::File);
    let d = t.push_node(0, EntryKind::Dir);
    let b = t.push_node(d, EntryKind::File);
    t.push_node(d, EntryKind::Symlink);
    assert!(t.check_wf());
    assert_eq!(sorted_pool(crawl_pool(&t, 1)), vec![a, b]);
}
