//! Concrete crawl scenarios, run under every strategy.

use crawl::crawl;
use crawl::fs_tree::EntryKind;
use crawl::fs_tree::FsTree;
use crawl::pool_crawler::crawl_pool;
use crawl::recursive_crawler::crawl_recursive;
use crawl::single_crawler::crawl_single;
use crawl::strategy::Strategy;

fn sorted(mut v: Vec<usize>) -> Vec<usize> {
    v.sort();
    v
}

fn all_strategies(t: &FsTree, workers: usize) -> Vec<Vec<usize>> {
    vec![
        sorted(crawl_single(t)),
        sorted(crawl_pool(t, workers)),
        sorted(crawl_recursive(t, &vec![])),
    ]
}

/// Three regular files directly under the root: each is delivered exactly
/// once, under every strategy.
#[test]
fn flat_tree_delivers_each_file_once() {
    let mut t = FsTree::new_root(EntryKind::Dir);
    let a = t.push_node(0, EntryKind::File);
    let b = t.push_node(0, EntryKind::File);
    let c = t.push_node(0, EntryKind::File);
    assert!(t.check_wf());
    for visits in all_strategies(&t, 4) {
        assert_eq!(visits, vec![a, b, c]);
    }
}

/// A single file behind one intermediate directory is found.
#[test]
fn nested_file_is_found() {
    let mut t = FsTree::new_root(EntryKind::Dir);
    let sub = t.push_node(0, EntryKind::Dir);
    let x = t.push_node(sub, EntryKind::File);
    assert!(t.check_wf());
    for visits in all_strategies(&t, 4) {
        assert_eq!(visits, vec![x]);
    }
}

/// An empty root directory: the action is never invoked and every crawl
/// returns.
#[test]
fn empty_tree_delivers_nothing() {
    let t = FsTree::new_root(EntryKind::Dir);
    assert!(t.check_wf());
    for visits in all_strategies(&t, 4) {
        assert_eq!(visits, Vec::<usize>::new());
    }
}

/// A deep chain of directories with one file at the bottom.
#[test]
fn deep_chain_delivers_the_leaf() {
    let mut t = FsTree::new_root(EntryKind::Dir);
    let d1 = t.push_node(0, EntryKind::Dir);
    let d2 = t.push_node(d1, EntryKind::Dir);
    let d3 = t.push_node(d2, EntryKind::Dir);
    let d4 = t.push_node(d3, EntryKind::Dir);
    let f = t.push_node(d4, EntryKind::File);
    assert!(t.check_wf());
    for visits in all_strategies(&t, 4) {
        assert_eq!(visits, vec![f]);
    }
}

/// A wide tree: one thousand sibling files are all delivered, each once,
/// including under the pool strategy with eight workers.
#[test]
fn wide_tree_delivers_all_thousand() {
    let mut t = FsTree::new_root(EntryKind::Dir);
    let mut expected = Vec::new();
    for _ in 0..1000 {
        expected.push(t.push_node(0, EntryKind::File));
    }
    assert!(t.check_wf());
    for visits in all_strategies(&t, 8) {
        assert_eq!(visits.len(), 1000);
        assert_eq!(visits, expected);
    }
}

/// A symlink to a sibling directory: the link is a leaf (delivered by the
/// strategies whose policy includes symlinks), the real subtree is
/// delivered through its real path, and nothing is traversed through the
/// link.
#[test]
fn symlink_to_directory_is_a_leaf() {
    let mut t = FsTree::new_root(EntryKind::Dir);
    let link = t.push_node(0, EntryKind::Symlink);
    let sub = t.push_node(0, EntryKind::Dir);
    let f = t.push_node(sub, EntryKind::File);
    assert!(t.check_wf());
    assert_eq!(sorted(crawl_single(&t)), vec![link, f]);
    assert_eq!(sorted(crawl_recursive(&t, &vec![])), vec![link, f]);
    assert_eq!(sorted(crawl_pool(&t, 4)), vec![f]);
}

/// The per-strategy leaf policies on a tree holding every kind of entry:
/// the single worker delivers every non-directory, the recursive strategy
/// files and symlinks, the pool only files.
#[test]
fn leaf_policies_differ_only_off_files() {
    let mut t = FsTree::new_root(EntryKind::Dir);
    let f = t.push_node(0, EntryKind::File);
    let l = t.push_node(0, EntryKind::Symlink);
    let o = t.push_node(0, EntryKind::Other);
    let d = t.push_node(0, EntryKind::Dir);
    let g = t.push_node(d, EntryKind::File);
    assert!(t.check_wf());
    assert_eq!(sorted(crawl_single(&t)), vec![f, l, o, g]);
    assert_eq!(sorted(crawl_recursive(&t, &vec![])), vec![f, l, g]);
    assert_eq!(sorted(crawl_pool(&t, 2)), vec![f, g]);
}

/// A root that is itself a regular file is delivered.
#[test]
fn file_root_is_delivered() {
    let t = FsTree::new_root(EntryKind::File);
    assert!(t.check_wf());
    for visits in all_strategies(&t, 2) {
        assert_eq!(visits, vec![0]);
    }
}

/// The facade selects the strategy and reports the same deliveries.
#[test]
fn facade_matches_the_strategies() {
    let mut t = FsTree::new_root(EntryKind::Dir);
    let f = t.push_node(0, EntryKind::File);
    let l = t.push_node(0, EntryKind::Symlink);
    assert!(t.check_wf());
    assert_eq!(sorted(crawl(&t, Strategy::Single, 1)), vec![f, l]);
    assert_eq!(sorted(crawl(&t, Strategy::Recursive, 1)), vec![f, l]);
    assert_eq!(sorted(crawl(&t, Strategy::Pool, 3)), vec![f]);
}

/// The recursive strategy delivers the same set whatever order the
/// schedule retires the outstanding tasks in.
#[test]
fn recursive_schedules_agree() {
    let mut t = FsTree::new_root(EntryKind::Dir);
    let mut expected = Vec::new();
    let d1 = t.push_node(0, EntryKind::Dir);
    let d2 = t.push_node(0, EntryKind::Dir);
    for _ in 0..5 {
        expected.push(t.push_node(d1, EntryKind::File));
        expected.push(t.push_node(d2, EntryKind::File));
    }
    expected.push(t.push_node(0, EntryKind::Symlink));
    expected.sort();
    assert!(t.check_wf());
    let schedules: Vec<Vec<usize>> = vec![
        vec![],
        vec![0],
        vec![0, 1, 2, 3, 4, 5, 6],
        vec![7, 3, 5, 11, 2, 13, 1],
        vec![1, 0],
    ];
    for s in &schedules {
        assert_eq!(sorted(crawl_recursive(&t, s)), expected);
    }
}
