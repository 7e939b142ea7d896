//! The scan itself: the lossless-content predicate, the subfolder count used
//! for progress accounting, and the orchestrator that turns a set of root
//! listings into match records.
//!
//! A record is produced for exactly the folders that directly contain a file
//! with the lossless extension; its candidate paths are the derived sibling
//! names joined back under the folder's own root. A directory whose listing
//! could not be obtained aborts the whole scan; an unreadable root is merely
//! skipped.

use vstd::prelude::*;

use crate::fsmodel::{
    all_readable, dir_count, folder_matches, folder_readable, root_readable, subfolder_count,
    CandidateFolder, EntryKind, RootListing,
};
use crate::names::{
    derive_candidate_name, derived_candidate, has_extension, join_path, joined, opt_str_view,
};

verus! {

/// Why a scan aborted.
#[derive(Clone, Copy, Debug, PartialEq, Eq, Structural)]
pub enum ScanError {
    /// A candidate folder's own contents could not be enumerated.
    FolderListingFailed,
}

/// One matched folder: its path, and the candidate sibling paths for the two
/// transcode tiers, each absent when no candidate name could be derived.
#[derive(Clone, Debug)]
pub struct Match {
    pub folder: String,
    pub v0: Option<String>,
    pub v320: Option<String>,
}

/// The collected match records of a scan.
#[derive(Debug)]
pub struct Matches {
    pub to_be_downsampled: Vec<Match>,
}

/// The candidate sibling path for a folder name under a root: the derived
/// leaf name joined under the root, absent when no name could be derived.
pub open spec fn candidate_path(
    root: Seq<char>,
    name: Seq<char>,
    marker: Seq<char>,
    replacement: Seq<char>,
) -> Option<Seq<char>> {
    match derived_candidate(name, marker, replacement) {
        Some(leaf) => Some(joined(root, leaf)),
        None => None,
    }
}

/// The record `rec` is exactly what the folder `f` under the root at `root`
/// must produce.
pub open spec fn record_matches(
    rec: Match,
    root: Seq<char>,
    f: CandidateFolder,
    marker: Seq<char>,
    replacement_a: Seq<char>,
    replacement_b: Seq<char>,
) -> bool {
    &&& rec.folder@ == joined(root, f.name@)
    &&& opt_str_view(rec.v0) == candidate_path(root, f.name@, marker, replacement_a)
    &&& opt_str_view(rec.v320) == candidate_path(root, f.name@, marker, replacement_b)
}

/// The matching folders among `children`, in order, each paired with the root
/// path they live under.
pub open spec fn pairs_in(
    path: Seq<char>,
    children: Seq<CandidateFolder>,
    marker: Seq<char>,
) -> Seq<(Seq<char>, CandidateFolder)>
    decreases children.len(),
{
    if children.len() == 0 {
        Seq::empty()
    } else {
        pairs_in(path, children.drop_last(), marker) + if folder_matches(
            children.last(),
            marker,
        ) {
            seq![(path, children.last())]
        } else {
            Seq::empty()
        }
    }
}

/// The matching folders of one root, in discovery order; an unreadable root
/// contributes nothing.
pub open spec fn root_pairs(root: RootListing, marker: Seq<char>) -> Seq<
    (Seq<char>, CandidateFolder),
> {
    match root.children {
        Some(cs) => pairs_in(root.path@, cs@, marker),
        None => Seq::empty(),
    }
}

/// The matching folders of all roots, in root order then discovery order.
pub open spec fn scan_matches(roots: Seq<RootListing>, marker: Seq<char>) -> Seq<
    (Seq<char>, CandidateFolder),
>
    decreases roots.len(),
{
    if roots.len() == 0 {
        Seq::empty()
    } else {
        scan_matches(roots.drop_last(), marker) + root_pairs(roots.last(), marker)
    }
}

/// What a scan promises: on success every candidate folder was readable and
/// exactly the matching folders were appended, in order, each record derived
/// from its folder; on failure some candidate folder was unreadable and
/// nothing was appended.
pub open spec fn scan_post(
    pre: Seq<Match>,
    post: Seq<Match>,
    roots: Seq<RootListing>,
    marker: Seq<char>,
    replacement_a: Seq<char>,
    replacement_b: Seq<char>,
    r: Result<usize, ScanError>,
) -> bool {
    match r {
        Ok(n) => {
            let pairs = scan_matches(roots, marker);
            &&& all_readable(roots)
            &&& post.len() == pre.len() + pairs.len()
            &&& post.subrange(0, pre.len() as int) == pre
            &&& (forall|k: int|
                0 <= k < pairs.len() ==> record_matches(
                    #[trigger] post[pre.len() + k],
                    pairs[k].0,
                    pairs[k].1,
                    marker,
                    replacement_a,
                    replacement_b,
                ))
            &&& n as int == post.len()
        },
        Err(e) => {
            &&& !all_readable(roots)
            &&& e is FolderListingFailed
            &&& post == pre
        },
    }
}

/// Only folders that satisfy the lossless-content predicate appear among the
/// matching pairs of a child list: no record is ever produced for a folder
/// without a lossless file.
pub proof fn lemma_pairs_in_only_matching(
    path: Seq<char>,
    children: Seq<CandidateFolder>,
    marker: Seq<char>,
)
    ensures
        forall|k: int|
            0 <= k < pairs_in(path, children, marker).len() ==> folder_matches(
                (#[trigger] pairs_in(path, children, marker)[k]).1,
                marker,
            ),
    decreases children.len(),
{
    if children.len() > 0 {
        lemma_pairs_in_only_matching(path, children.drop_last(), marker);
        let prev = pairs_in(path, children.drop_last(), marker);
        let all = pairs_in(path, children, marker);
        assert forall|k: int| 0 <= k < all.len() implies folder_matches(
            (#[trigger] all[k]).1,
            marker,
        ) by {
            if k < prev.len() {
                assert(all[k] == prev[k]);
            } else {
                assert(all[k] == (path, children.last()));
            }
        }
    }
}

/// Only folders that satisfy the lossless-content predicate produce a match
/// record, over all roots of a scan.
pub proof fn lemma_scan_matches_only_matching(roots: Seq<RootListing>, marker: Seq<char>)
    ensures
        forall|k: int|
            0 <= k < scan_matches(roots, marker).len() ==> folder_matches(
                (#[trigger] scan_matches(roots, marker)[k]).1,
                marker,
            ),
    decreases roots.len(),
{
    if roots.len() > 0 {
        lemma_scan_matches_only_matching(roots.drop_last(), marker);
        match roots.last().children {
            Some(cs) => lemma_pairs_in_only_matching(roots.last().path@, cs@, marker),
            None => {},
        }
        let prev = scan_matches(roots.drop_last(), marker);
        let tail = root_pairs(roots.last(), marker);
        let all = scan_matches(roots, marker);
        assert forall|k: int| 0 <= k < all.len() implies folder_matches(
            (#[trigger] all[k]).1,
            marker,
        ) by {
            if k < prev.len() {
                assert(all[k] == prev[k]);
            } else {
                assert(all[k] == tail[k - prev.len()]);
            }
        }
    }
}

/// Scanning an empty root yields no match records and a zero subfolder
/// count, without error.
pub proof fn lemma_empty_root_scans_clean(root: RootListing, marker: Seq<char>)
    requires
        match root.children {
            Some(cs) => cs@.len() == 0,
            None => false,
        },
    ensures
        root_pairs(root, marker) == Seq::<(Seq<char>, CandidateFolder)>::empty(),
        scan_matches(seq![root], marker) == Seq::<(Seq<char>, CandidateFolder)>::empty(),
        root_readable(root),
        subfolder_count(root) == 0,
{
    assert(seq![root].drop_last() =~= Seq::<RootListing>::empty());
    assert(seq![root].last() == root);
    assert(scan_matches(Seq::<RootListing>::empty(), marker) == Seq::<
        (Seq<char>, CandidateFolder),
    >::empty());
    assert(scan_matches(seq![root], marker) =~= root_pairs(root, marker));
}

/// Whether `folder` is a directory directly containing at least one file
/// whose extension equals `marker`; fails exactly when it is a directory
/// whose own listing could not be obtained.
pub fn contains_lossless(folder: &CandidateFolder, marker: &str) -> (r: Result<bool, ScanError>)
    ensures
        match r {
            Ok(b) => folder_readable(*folder) && b == folder_matches(*folder, marker@),
            Err(e) => !folder_readable(*folder) && e is FolderListingFailed,
        },
{
    match folder.kind {
        EntryKind::Dir => match &folder.listing {
            Some(entries) => {
                let mut i: usize = 0;
                while i < entries.len()
                    invariant
                        0 <= i <= entries@.len(),
                        folder.listing == Some(*entries),
                        folder.kind is Dir,
                        forall|k: int|
                            0 <= k < i ==> !crate::fsmodel::is_lossless_entry(
                                #[trigger] entries@[k],
                                marker@,
                            ),
                    decreases entries@.len() - i,
                {
                    let e = &entries[i];
                    if matches!(e.kind, EntryKind::File) {
                        if has_extension(e.name.as_str(), marker) {
                            proof {
                                assert(crate::fsmodel::is_lossless_entry(
                                    entries@[i as int],
                                    marker@,
                                ));
                                assert(crate::fsmodel::any_lossless(entries@, marker@));
                            }
                            return Ok(true);
                        }
                    }
                    i += 1;
                }
                proof {
                    assert(!crate::fsmodel::any_lossless(entries@, marker@)) by {
                        if crate::fsmodel::any_lossless(entries@, marker@) {
                            let k = choose|k: int|
                                0 <= k < entries@.len() && crate::fsmodel::is_lossless_entry(
                                    #[trigger] entries@[k],
                                    marker@,
                                );
                        }
                    }
                }
                Ok(false)
            },
            None => Err(ScanError::FolderListingFailed),
        },
        _ => Ok(false),
    }
}

/// One matched folder turned into its record: the folder's path under its
/// root, and the candidate sibling path per tier.
fn build_record(
    root_path: &str,
    f: &CandidateFolder,
    marker: &str,
    replacement_a: &str,
    replacement_b: &str,
) -> (rec: Match)
    ensures
        record_matches(rec, root_path@, *f, marker@, replacement_a@, replacement_b@),
{
    let folder = join_path(root_path, f.name.as_str());
    let v0 = match derive_candidate_name(f.name.as_str(), marker, replacement_a) {
        Some(leaf) => Some(join_path(root_path, leaf.as_str())),
        None => None,
    };
    let v320 = match derive_candidate_name(f.name.as_str(), marker, replacement_b) {
        Some(leaf) => Some(join_path(root_path, leaf.as_str())),
        None => None,
    };
    Match { folder, v0, v320 }
}

/// Scans one root, appending a record for each matching child folder; fails
/// exactly when some child directory's listing is missing.
fn scan_root(
    buf: &mut Vec<Match>,
    root: &RootListing,
    marker: &str,
    replacement_a: &str,
    replacement_b: &str,
) -> (r: Result<(), ScanError>)
    ensures
        match r {
            Ok(()) => {
                let pairs = root_pairs(*root, marker@);
                &&& root_readable(*root)
                &&& final(buf)@.len() == old(buf)@.len() + pairs.len()
                &&& final(buf)@.subrange(0, old(buf)@.len() as int) == old(buf)@
                &&& (forall|k: int|
                    0 <= k < pairs.len() ==> record_matches(
                        #[trigger] final(buf)@[old(buf)@.len() + k],
                        pairs[k].0,
                        pairs[k].1,
                        marker@,
                        replacement_a@,
                        replacement_b@,
                    ))
            },
            Err(e) => {
                &&& !root_readable(*root)
                &&& e is FolderListingFailed
            },
        },
{
    match &root.children {
        None => {
            proof {
                assert(buf@.subrange(0, buf@.len() as int) =~= buf@);
            }
            Ok(())
        },
        Some(cs) => {
            let mut j: usize = 0;
            while j < cs.len()
                invariant
                    0 <= j <= cs@.len(),
                    root.children == Some(*cs),
                    buf@.len() == old(buf)@.len() + pairs_in(
                        root.path@,
                        cs@.take(j as int),
                        marker@,
                    ).len(),
                    buf@.subrange(0, old(buf)@.len() as int) == old(buf)@,
                    forall|k: int|
                        0 <= k < pairs_in(root.path@, cs@.take(j as int), marker@).len()
                            ==> record_matches(
                            #[trigger] buf@[old(buf)@.len() + k],
                            pairs_in(root.path@, cs@.take(j as int), marker@)[k].0,
                            pairs_in(root.path@, cs@.take(j as int), marker@)[k].1,
                            marker@,
                            replacement_a@,
                            replacement_b@,
                        ),
                    forall|k: int| 0 <= k < j ==> folder_readable(#[trigger] cs@[k]),
                decreases cs@.len() - j,
            {
                let ghost prev = pairs_in(root.path@, cs@.take(j as int), marker@);
                let f = &cs[j];
                match contains_lossless(f, marker) {
                    Err(e) => {
                        proof {
                            assert(*f == cs@[j as int]);
                            assert(!root_readable(*root)) by {
                                if root_readable(*root) {
                                    assert(match root.children {
                                        Some(cs2) => cs2 == *cs,
                                        None => false,
                                    });
                                    assert(folder_readable(cs@[j as int]));
                                }
                            }
                        }
                        return Err(e);
                    },
                    Ok(found) => {
                        proof {
                            assert(cs@.take(j as int + 1).drop_last() =~= cs@.take(j as int));
                            assert(cs@.take(j as int + 1).last() == cs@[j as int]);
                        }
                        if found {
                            let rec = build_record(
                                root.path.as_str(),
                                f,
                                marker,
                                replacement_a,
                                replacement_b,
                            );
                            buf.push(rec);
                            proof {
                                let now = pairs_in(root.path@, cs@.take(j as int + 1), marker@);
                                assert(now == prev + seq![(root.path@, cs@[j as int])]);
                                assert(buf@.subrange(0, old(buf)@.len() as int) =~= old(buf)@);
                                assert forall|k: int| 0 <= k < now.len() implies record_matches(
                                    #[trigger] buf@[old(buf)@.len() + k],
                                    now[k].0,
                                    now[k].1,
                                    marker@,
                                    replacement_a@,
                                    replacement_b@,
                                ) by {
                                    if k < prev.len() {
                                        assert(now[k] == prev[k]);
                                    } else {
                                        assert(now[k] == (root.path@, cs@[j as int]));
                                    }
                                }
                            }
                        } else {
                            proof {
                                let now = pairs_in(root.path@, cs@.take(j as int + 1), marker@);
                                assert(now == prev);
                            }
                        }
                    },
                }
                j += 1;
            }
            proof {
                assert(cs@.take(cs@.len() as int) =~= cs@);
            }
            Ok(())
        },
    }
}

impl Matches {
    /// A fresh, empty collection of match records.
    pub fn new() -> (m: Matches)
        ensures
            m.to_be_downsampled@ =~= Seq::<Match>::empty(),
    {
        Matches { to_be_downsampled: Vec::new() }
    }

    /// How many immediate child directories the root has; zero when the root
    /// could not be enumerated. Used only for progress accounting.
    pub fn count_subfolders(root: &RootListing) -> (n: u64)
        ensures
            n as int == subfolder_count(*root),
    {
        match &root.children {
            Some(cs) => {
                let mut n: u64 = 0;
                let mut i: usize = 0;
                while i < cs.len()
                    invariant
                        0 <= i <= cs@.len(),
                        root.children == Some(*cs),
                        n as int == dir_count(cs@.take(i as int)),
                        n <= i,
                    decreases cs@.len() - i,
                {
                    proof {
                        assert(cs@.take(i as int + 1).drop_last() =~= cs@.take(i as int));
                        assert(cs@.take(i as int + 1).last() == cs@[i as int]);
                    }
                    let c = &cs[i];
                    if matches!(c.kind, EntryKind::Dir) {
                        n = n + 1;
                    }
                    i += 1;
                }
                proof {
                    assert(cs@.take(cs@.len() as int) =~= cs@);
                }
                n
            },
            None => 0,
        }
    }

    /// Whether `folder` directly contains at least one file with the `flac`
    /// extension; fails exactly when it is a directory whose listing is
    /// missing.
    pub fn folder_contains_flac(folder: &CandidateFolder) -> (r: Result<bool, ScanError>)
        ensures
            match r {
                Ok(b) => folder_readable(*folder) && b == folder_matches(*folder, "flac"@),
                Err(e) => !folder_readable(*folder) && e is FolderListingFailed,
            },
    {
        contains_lossless(folder, "flac")
    }

    /// The candidate sibling leaf name for a folder name, with the `flac`
    /// marker replaced by `replace_to`; absent when the lowercased name does
    /// not contain the marker.
    pub fn replace_folder_format(folder_name: &str, replace_to: &str) -> (r: Option<String>)
        ensures
            opt_str_view(r) == derived_candidate(folder_name@, "flac"@, replace_to@),
    {
        derive_candidate_name(folder_name, "flac", replace_to)
    }

    /// Scans every root in order and appends one record per matching folder;
    /// on failure the collection is left unchanged. Returns the total number
    /// of collected records.
    pub fn scan(
        &mut self,
        roots: &Vec<RootListing>,
        marker: &str,
        replacement_a: &str,
        replacement_b: &str,
    ) -> (r: Result<usize, ScanError>)
        ensures
            scan_post(
                old(self).to_be_downsampled@,
                final(self).to_be_downsampled@,
                roots@,
                marker@,
                replacement_a@,
                replacement_b@,
                r,
            ),
    {
        let mut buf: Vec<Match> = Vec::new();
        let mut i: usize = 0;
        while i < roots.len()
            invariant
                0 <= i <= roots@.len(),
                *self == *old(self),
                buf@.len() == scan_matches(roots@.take(i as int), marker@).len(),
                forall|k: int|
                    0 <= k < scan_matches(roots@.take(i as int), marker@).len() ==> record_matches(
                        #[trigger] buf@[k],
                        scan_matches(roots@.take(i as int), marker@)[k].0,
                        scan_matches(roots@.take(i as int), marker@)[k].1,
                        marker@,
                        replacement_a@,
                        replacement_b@,
                    ),
                forall|k: int| 0 <= k < i ==> root_readable(#[trigger] roots@[k]),
            decreases roots@.len() - i,
        {
            let ghost prev = scan_matches(roots@.take(i as int), marker@);
            let root = &roots[i];
            match scan_root(&mut buf, root, marker, replacement_a, replacement_b) {
                Err(e) => {
                    proof {
                        assert(!all_readable(roots@)) by {
                            if all_readable(roots@) {
                                assert(root_readable(roots@[i as int]));
                            }
                        }
                    }
                    return Err(e);
                },
                Ok(()) => {
                    proof {
                        assert(roots@.take(i as int + 1).drop_last() =~= roots@.take(i as int));
                        assert(roots@.take(i as int + 1).last() == roots@[i as int]);
                        let now = scan_matches(roots@.take(i as int + 1), marker@);
                        let pairs = root_pairs(roots@[i as int], marker@);
                        assert(now == prev + pairs);
                        assert forall|k: int| 0 <= k < now.len() implies record_matches(
                            #[trigger] buf@[k],
                            now[k].0,
                            now[k].1,
                            marker@,
                            replacement_a@,
                            replacement_b@,
                        ) by {
                            if k < prev.len() {
                                assert(buf@.subrange(0, prev.len() as int)[k] == buf@[k]);
                                assert(now[k] == prev[k]);
                            } else {
                                assert(now[k] == pairs[k - prev.len()]);
                                assert(record_matches(
                                    buf@[prev.len() + (k - prev.len())],
                                    pairs[k - prev.len()].0,
                                    pairs[k - prev.len()].1,
                                    marker@,
                                    replacement_a@,
                                    replacement_b@,
                                ));
                            }
                        }
                    }
                },
            }
            i += 1;
        }
        proof {
            assert(roots@.take(roots@.len() as int) =~= roots@);
        }
        let ghost pre = self.to_be_downsampled@;
        self.to_be_downsampled.append(&mut buf);
        proof {
            assert(self.to_be_downsampled@.subrange(0, pre.len() as int) =~= pre);
        }
        let n = self.to_be_downsampled.len();
        Ok(n)
    }

    /// Scans every root for folders holding `flac` files and appends one
    /// record per match, with candidate sibling paths for the `V0` and `320`
    /// tiers; on failure the collection is left unchanged.
    pub fn find_data_to_be_downsampled(&mut self, music_locations: Vec<RootListing>) -> (r: Result<
        usize,
        ScanError,
    >)
        ensures
            scan_post(
                old(self).to_be_downsampled@,
                final(self).to_be_downsampled@,
                music_locations@,
                "flac"@,
                "V0"@,
                "320"@,
                r,
            ),
    {
        self.scan(&music_locations, "flac", "V0", "320")
    }
}

} // verus!
