//! A plain-value model of the one-level directory tree that a scan walks.
//!
//! The scan itself never touches the filesystem: the caller enumerates each
//! configured root and each of the root's immediate child directories, and
//! hands the result over as these types. A listing that could not be obtained
//! is `None`; how an entry was classified (in particular whether a symbolic
//! link counts as a directory) is the caller's policy and must simply be
//! applied consistently to every entry.

use vstd::prelude::*;

use crate::names::extension_is;

verus! {

/// What kind of filesystem object a directory entry is.
#[derive(Clone, Copy, Debug, PartialEq, Eq, Structural)]
pub enum EntryKind {
    File,
    Dir,
    Other,
}

/// A direct child of a candidate folder: its file name and kind.
#[derive(Clone, Debug)]
pub struct Entry {
    pub name: String,
    pub kind: EntryKind,
}

/// An immediate child of a root: its name, its kind, and — when it is a
/// directory whose contents could be listed — its direct children.
/// `listing` is `None` both for non-directories (where it is never consulted)
/// and for directories whose listing failed.
#[derive(Clone, Debug)]
pub struct CandidateFolder {
    pub name: String,
    pub kind: EntryKind,
    pub listing: Option<Vec<Entry>>,
}

/// One configured root: its path and its immediate children, or `None` when
/// the root itself could not be enumerated.
#[derive(Clone, Debug)]
pub struct RootListing {
    pub path: String,
    pub children: Option<Vec<CandidateFolder>>,
}

/// The entry is a regular file whose extension equals the lossless marker.
pub open spec fn is_lossless_entry(e: Entry, marker: Seq<char>) -> bool {
    e.kind is File && extension_is(e.name@, marker)
}

/// Some entry among `entries` is a lossless file.
pub open spec fn any_lossless(entries: Seq<Entry>, marker: Seq<char>) -> bool {
    exists|i: int| 0 <= i < entries.len() && is_lossless_entry(#[trigger] entries[i], marker)
}

/// The folder is a directory that directly contains at least one file with
/// the lossless extension.
pub open spec fn folder_matches(f: CandidateFolder, marker: Seq<char>) -> bool {
    match f.listing {
        Some(entries) => f.kind is Dir && any_lossless(entries@, marker),
        None => false,
    }
}

/// The folder's own contents could be listed where they had to be: a
/// directory comes with a listing; anything else needs none.
pub open spec fn folder_readable(f: CandidateFolder) -> bool {
    f.kind is Dir ==> f.listing is Some
}

/// Every child directory of the root that was enumerated has its listing.
/// An unreadable root (`children` absent) is skipped, not an error.
pub open spec fn root_readable(r: RootListing) -> bool {
    match r.children {
        Some(cs) => forall|i: int| 0 <= i < cs@.len() ==> folder_readable(#[trigger] cs@[i]),
        None => true,
    }
}

/// `root_readable` holds of every root.
pub open spec fn all_readable(roots: Seq<RootListing>) -> bool {
    forall|i: int| 0 <= i < roots.len() ==> root_readable(#[trigger] roots[i])
}

/// How many of the given children are directories.
pub open spec fn dir_count(children: Seq<CandidateFolder>) -> int
    decreases children.len(),
{
    if children.len() == 0 {
        0
    } else {
        dir_count(children.drop_last()) + if children.last().kind is Dir {
            1int
        } else {
            0int
        }
    }
}

/// The number of immediate child directories of the root; zero when the root
/// could not be enumerated.
pub open spec fn subfolder_count(root: RootListing) -> int {
    match root.children {
        Some(cs) => dir_count(cs@),
        None => 0,
    }
}

} // verus!
