//! One unit of pending traversal.
//!
//! A work item is either an entry taken from a directory listing, whose
//! record already carried type metadata, or a bare path, probed separately.
//! Both variants present the same interface: callers never branch on which
//! one they hold.  A failed probe is recorded as `EntryKind::Other`, so
//! every predicate answers `false` for it and the item is treated as a
//! non-directory leaf.

use vstd::prelude::*;
use crate::fs_tree::EntryKind;
use crate::strategy::Disposition;
use crate::strategy::Strategy;
use crate::strategy::classify;
use crate::strategy::spec_classify;

verus! {

/// A pending unit of traversal: a listing record or a bare path, together
/// with what its metadata probe reported.
pub enum DirWork {
    /// An entry obtained from enumerating a directory.
    Listing {
        /// The entry's path.
        path: String,
        /// What the listing record's cached metadata reported.
        kind: EntryKind,
    },
    /// A path supplied directly, such as the crawl root.
    Path {
        /// The path itself.
        path: String,
        /// What a separate metadata probe reported.
        kind: EntryKind,
    },
}

impl DirWork {
    /// The kind carried by either variant.
    pub open spec fn spec_kind(self) -> EntryKind {
        match self {
            DirWork::Listing { kind, .. } => kind,
            DirWork::Path { kind, .. } => kind,
        }
    }

    /// The path carried by either variant.
    pub open spec fn spec_path(self) -> Seq<char> {
        match self {
            DirWork::Listing { path, .. } => path@,
            DirWork::Path { path, .. } => path@,
        }
    }

    /// The kind carried by either variant.
    pub fn kind(&self) -> (k: EntryKind)
        ensures
            k == self.spec_kind(),
    {
        match self {
            DirWork::Listing { kind, .. } => *kind,
            DirWork::Path { kind, .. } => *kind,
        }
    }

    /// True iff the item refers to a directory reached without following a
    /// symlink.  A failed probe answers `false`.
    pub fn is_dir(&self) -> (b: bool)
        ensures
            b == (self.spec_kind() == EntryKind::Dir),
    {
        self.kind() == EntryKind::Dir
    }

    /// True iff the item refers to a regular file.  A failed probe answers
    /// `false`.
    pub fn is_file(&self) -> (b: bool)
        ensures
            b == (self.spec_kind() == EntryKind::File),
    {
        self.kind() == EntryKind::File
    }

    /// True iff the item is a symbolic link, judged by link-level metadata.
    /// A failed probe answers `false`.
    pub fn is_symlink(&self) -> (b: bool)
        ensures
            b == (self.spec_kind() == EntryKind::Symlink),
    {
        self.kind() == EntryKind::Symlink
    }

    /// Consumes the item, yielding its path.
    pub fn into_path(self) -> (p: String)
        ensures
            p@ == self.spec_path(),
    {
        match self {
            DirWork::Listing { path, .. } => path,
            DirWork::Path { path, .. } => path,
        }
    }

    /// The disposition a strategy gives this item; both variants answer
    /// alike.
    pub fn classify_work(&self, s: Strategy) -> (d: Disposition)
        ensures
            d == spec_classify(s, self.spec_kind()),
    {
        classify(s, self.kind())
    }
}

} // verus!
