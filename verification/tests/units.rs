//! The work-item interface, the per-strategy dispositions, the idle-exit
//! decision, and the snapshot well-formedness check.

use crawl::dir_work::DirWork;
use crawl::fs_tree::EntryKind;
use crawl::fs_tree::FsNode;
use crawl::fs_tree::FsTree;
use crawl::strategy::Disposition;
use crawl::strategy::Strategy;
use crawl::strategy::classify;
use crawl::strategy::should_exit;

/// Directories are expanded under every strategy.
#[test]
fn directories_are_expanded() {
    for s in [Strategy::Single, Strategy::Pool, Strategy::Recursive] {
        assert_eq!(classify(s, EntryKind::Dir), Disposition::Expand);
    }
}

/// Files are delivered under every strategy.
#[test]
fn files_are_invoked() {
    for s in [Strategy::Single, Strategy::Pool, Strategy::Recursive] {
        assert_eq!(classify(s, EntryKind::File), Disposition::Invoke);
    }
}

/// Symlinks and other leaves follow each strategy's policy.
#[test]
fn non_file_leaves_follow_policy() {
    assert_eq!(classify(Strategy::Single, EntryKind::Symlink), Disposition::Invoke);
    assert_eq!(classify(Strategy::Single, EntryKind::Other), Disposition::Invoke);
    assert_eq!(classify(Strategy::Pool, EntryKind::Symlink), Disposition::Skip);
    assert_eq!(classify(Strategy::Pool, EntryKind::Other), Disposition::Skip);
    assert_eq!(classify(Strategy::Recursive, EntryKind::Symlink), Disposition::Invoke);
    assert_eq!(classify(Strategy::Recursive, EntryKind::Other), Disposition::Skip);
}

/// An active worker exits exactly when its decrement saw the counter at
/// one; an idle worker exits exactly on a zero load.
#[test]
fn idle_exit_decision() {
    assert!(should_exit(true, 1));
    assert!(!should_exit(true, 2));
    assert!(!should_exit(true, 0));
    assert!(should_exit(false, 0));
    assert!(!should_exit(false, 1));
}

/// Both work-item variants answer the predicates alike, from the kind
/// alone.
#[test]
fn work_item_variants_agree() {
    let from_listing = DirWork::Listing { path: String::from("root/a"), kind: EntryKind::File };
    let from_path = DirWork::Path { path: String::from("root/a"), kind: EntryKind::File };
    for w in [&from_listing, &from_path] {
        assert!(w.is_file());
        assert!(!w.is_dir());
        assert!(!w.is_symlink());
        assert_eq!(w.classify_work(Strategy::Pool), Disposition::Invoke);
    }
    assert_eq!(from_listing.into_path(), "root/a");
    assert_eq!(from_path.into_path(), "root/a");
}

/// A failed metadata probe, recorded as `Other`, answers no to every
/// predicate and is dropped by the pool.
#[test]
fn errored_probe_is_no_kind() {
    let w = DirWork::Path { path: String::from("root/ghost"), kind: EntryKind::Other };
    assert!(!w.is_file());
    assert!(!w.is_dir());
    assert!(!w.is_symlink());
    assert_eq!(w.classify_work(Strategy::Pool), Disposition::Skip);
    assert_eq!(w.classify_work(Strategy::Single), Disposition::Invoke);
}

/// The well-formedness check accepts trees built through the builder and
/// rejects hand-made snapshots whose parents are out of order, missing, or
/// not directories.
#[test]
fn well_formedness_check() {
    let mut good = FsTree::new_root(EntryKind::Dir);
    let d = good.push_node(0, EntryKind::Dir);
    good.push_node(d, EntryKind::File);
    assert!(good.check_wf());

    let empty = FsTree { nodes: vec![] };
    assert!(!empty.check_wf());

    let forward = FsTree {
        nodes: vec![
            FsNode { kind: EntryKind::Dir, parent: 0 },
            FsNode { kind: EntryKind::File, parent: 2 },
            FsNode { kind: EntryKind::Dir, parent: 0 },
        ],
    };
    assert!(!forward.check_wf());

    let below_file = FsTree {
        nodes: vec![
            FsNode { kind: EntryKind::Dir, parent: 0 },
            FsNode { kind: EntryKind::File, parent: 0 },
            FsNode { kind: EntryKind::File, parent: 1 },
        ],
    };
    assert!(!below_file.check_wf());

    let self_parent = FsTree {
        nodes: vec![
            FsNode { kind: EntryKind::Dir, parent: 0 },
            FsNode { kind: EntryKind::File, parent: 1 },
        ],
    };
    assert!(!self_parent.check_wf());
}
