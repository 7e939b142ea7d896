use music_sampling::config::{classify_music_location, ClientConfig, ConfigPaths, InputAction};
use music_sampling::fsmodel::{CandidateFolder, Entry, EntryKind, RootListing};
use music_sampling::names::{
    derive_candidate_name, find_last_occurrence, has_extension, join_path, replace_last,
};
use music_sampling::scan::{Match, Matches, ScanError};

fn file(name: &str) -> Entry {
    Entry { name: String::from(name), kind: EntryKind::File }
}

fn folder(name: &str, entries: Vec<Entry>) -> CandidateFolder {
    CandidateFolder { name: String::from(name), kind: EntryKind::Dir, listing: Some(entries) }
}

fn root(path: &str, children: Vec<CandidateFolder>) -> RootListing {
    RootListing { path: String::from(path), children: Some(children) }
}

#[test]
fn derive_case_folds_and_replaces_last() {
    let r = derive_candidate_name("My Album FLAC", "flac", "V0");
    assert_eq!(r.as_deref(), Some("my album v0"));
}

#[test]
fn derive_replaces_only_last_occurrence() {
    let r = derive_candidate_name("FLAC Flac Collection", "flac", "320");
    assert_eq!(r.as_deref(), Some("flac 320 collection"));
}

#[test]
fn derive_absent_when_marker_missing() {
    let r = derive_candidate_name("Jazz Standards", "flac", "V0");
    assert_eq!(r, None);
}

#[test]
fn derive_is_deterministic() {
    let a = derive_candidate_name("Artist - Album (FLAC)", "flac", "V0");
    let b = derive_candidate_name("Artist - Album (FLAC)", "flac", "V0");
    assert_eq!(a, b);
    let c = Matches::replace_folder_format("Artist - Album (FLAC)", "320");
    let d = Matches::replace_folder_format("Artist - Album (FLAC)", "320");
    assert_eq!(c, d);
    assert_eq!(c.as_deref(), Some("artist - album (320)"));
}

#[test]
fn derive_folds_uppercase_input() {
    // Would be None if the name were not lowercased before matching.
    let r = derive_candidate_name("MY ALBUM FLAC", "flac", "V0");
    assert_eq!(r.as_deref(), Some("my album v0"));
}

#[test]
fn replace_last_keeps_surrounding_text() {
    assert_eq!(
        replace_last("my album flac", "flac", "v0").as_deref(),
        Some("my album v0")
    );
    assert_eq!(replace_last("My FLAC", "FLAC", "x").as_deref(), Some("My x"));
    assert_eq!(replace_last("abc", "z", "x"), None);
    // An empty marker occurs last at the very end of the string.
    assert_eq!(replace_last("ab", "", "X").as_deref(), Some("abX"));
}

#[test]
fn find_last_occurrence_picks_highest_index() {
    assert_eq!(find_last_occurrence("abcabc", "abc"), Some(3));
    assert_eq!(find_last_occurrence("abcabc", "b"), Some(4));
    assert_eq!(find_last_occurrence("xyz", "abc"), None);
    assert_eq!(find_last_occurrence("ab", ""), Some(2));
    assert_eq!(find_last_occurrence("", "a"), None);
}

#[test]
fn extension_matching_is_exact_and_case_sensitive() {
    assert!(has_extension("song.flac", "flac"));
    assert!(has_extension("a.b.flac", "flac"));
    assert!(!has_extension("song.FLAC", "flac"));
    assert!(!has_extension("song.mp3", "flac"));
    assert!(!has_extension("noextension", "flac"));
    assert!(!has_extension(".flac", "flac"));
    assert!(!has_extension("song.flac.bak", "flac"));
}

#[test]
fn contains_lossless_true_with_one_flac_among_others() {
    let f = folder(
        "Artist - Album (FLAC)",
        vec![file("cover.jpg"), file("01 track.flac"), file("notes.txt")],
    );
    assert_eq!(Matches::folder_contains_flac(&f), Ok(true));
}

#[test]
fn contains_lossless_false_without_flac() {
    let f = folder("Artist - Other", vec![file("01.mp3"), file("02.mp3")]);
    assert_eq!(Matches::folder_contains_flac(&f), Ok(false));
}

#[test]
fn contains_lossless_false_for_empty_or_non_directory() {
    let empty = folder("Empty", vec![]);
    assert_eq!(Matches::folder_contains_flac(&empty), Ok(false));
    let plain = CandidateFolder {
        name: String::from("stray.flac"),
        kind: EntryKind::File,
        listing: None,
    };
    assert_eq!(Matches::folder_contains_flac(&plain), Ok(false));
}

#[test]
fn contains_lossless_fails_on_missing_listing() {
    let f = CandidateFolder {
        name: String::from("Locked"),
        kind: EntryKind::Dir,
        listing: None,
    };
    assert_eq!(
        Matches::folder_contains_flac(&f),
        Err(ScanError::FolderListingFailed)
    );
}

#[test]
fn only_regular_files_count_as_lossless_content() {
    // A subdirectory named like a lossless file is not a match: the check is
    // non-recursive and looks at regular files only.
    let f = CandidateFolder {
        name: String::from("Odd Album"),
        kind: EntryKind::Dir,
        listing: Some(vec![Entry { name: String::from("sub.flac"), kind: EntryKind::Dir }]),
    };
    assert_eq!(Matches::folder_contains_flac(&f), Ok(false));
}

#[test]
fn hidden_file_name_is_not_an_extension_match() {
    let f = folder("Dotfiles", vec![file(".flac")]);
    assert_eq!(Matches::folder_contains_flac(&f), Ok(false));
}

#[test]
fn count_subfolders_counts_directories_only() {
    let r = root(
        "/music",
        vec![
            folder("A", vec![]),
            CandidateFolder {
                name: String::from("readme.txt"),
                kind: EntryKind::File,
                listing: None,
            },
            folder("B", vec![]),
            CandidateFolder {
                name: String::from("link"),
                kind: EntryKind::Other,
                listing: None,
            },
        ],
    );
    assert_eq!(Matches::count_subfolders(&r), 2);
}

#[test]
fn count_subfolders_is_zero_for_unreadable_root() {
    let r = RootListing { path: String::from("/gone"), children: None };
    assert_eq!(Matches::count_subfolders(&r), 0);
}

#[test]
fn scan_end_to_end_reports_one_match_with_both_tiers() {
    let roots = vec![root(
        "/music",
        vec![
            folder("Artist - Album (FLAC)", vec![file("01 track.flac")]),
            folder("Artist - Other", vec![file("01.mp3"), file("02.mp3")]),
        ],
    )];
    let mut matches = Matches::new();
    let total = matches.find_data_to_be_downsampled(roots);
    assert_eq!(total, Ok(1));
    assert_eq!(matches.to_be_downsampled.len(), 1);
    let rec = &matches.to_be_downsampled[0];
    assert_eq!(rec.folder, "/music/Artist - Album (FLAC)");
    assert_eq!(rec.v0.as_deref(), Some("/music/artist - album (v0)"));
    assert_eq!(rec.v320.as_deref(), Some("/music/artist - album (320)"));
}

#[test]
fn scan_empty_root_yields_nothing_without_error() {
    let roots = vec![root("/music", vec![])];
    let mut matches = Matches::new();
    assert_eq!(matches.find_data_to_be_downsampled(roots), Ok(0));
    assert_eq!(matches.to_be_downsampled.len(), 0);
}

#[test]
fn scan_records_match_without_derivable_candidates() {
    // A folder holding lossless files whose name lacks the marker still
    // produces a record; both candidates are absent.
    let roots = vec![root(
        "/music",
        vec![folder("Jazz Standards", vec![file("take five.flac")])],
    )];
    let mut matches = Matches::new();
    assert_eq!(matches.find_data_to_be_downsampled(roots), Ok(1));
    let rec = &matches.to_be_downsampled[0];
    assert_eq!(rec.folder, "/music/Jazz Standards");
    assert_eq!(rec.v0, None);
    assert_eq!(rec.v320, None);
}

#[test]
fn scan_skips_unreadable_root_and_keeps_going() {
    let roots = vec![
        RootListing { path: String::from("/gone"), children: None },
        root("/music", vec![folder("Band FLAC", vec![file("x.flac")])]),
    ];
    let mut matches = Matches::new();
    assert_eq!(matches.find_data_to_be_downsampled(roots), Ok(1));
    assert_eq!(matches.to_be_downsampled[0].folder, "/music/Band FLAC");
}

#[test]
fn scan_aborts_on_unlistable_folder_and_leaves_records_alone() {
    let prior = Match {
        folder: String::from("/old/record"),
        v0: None,
        v320: None,
    };
    let mut matches = Matches::new();
    matches.to_be_downsampled.push(prior);
    let roots = vec![root(
        "/music",
        vec![
            folder("Fine FLAC", vec![file("a.flac")]),
            CandidateFolder {
                name: String::from("Locked"),
                kind: EntryKind::Dir,
                listing: None,
            },
        ],
    )];
    let r = matches.find_data_to_be_downsampled(roots);
    assert_eq!(r, Err(ScanError::FolderListingFailed));
    assert_eq!(matches.to_be_downsampled.len(), 1);
    assert_eq!(matches.to_be_downsampled[0].folder, "/old/record");
}

#[test]
fn scan_takes_marker_and_tier_texts() {
    let roots = vec![root(
        "/library",
        vec![folder("Show [WAV]", vec![file("tape.wav")])],
    )];
    let mut matches = Matches::new();
    let r = matches.scan(&roots, "wav", "Opus", "AAC");
    assert_eq!(r, Ok(1));
    let rec = &matches.to_be_downsampled[0];
    assert_eq!(rec.folder, "/library/Show [WAV]");
    assert_eq!(rec.v0.as_deref(), Some("/library/show [opus]"));
    assert_eq!(rec.v320.as_deref(), Some("/library/show [aac]"));
}

#[test]
fn matches_and_config_start_empty() {
    assert_eq!(Matches::new().to_be_downsampled.len(), 0);
    assert_eq!(ClientConfig::new().music_locations.len(), 0);
    assert_eq!(ClientConfig::default(), ClientConfig::new());
}

#[test]
fn config_file_path_sits_under_home() {
    let p = ConfigPaths::under_home("/home/user");
    assert_eq!(
        p.config_file_path,
        "/home/user/.config/music-sampling/client.yml"
    );
    assert_eq!(ConfigPaths::home_config_dir("/home/user"), "/home/user/.config");
    assert_eq!(
        ConfigPaths::app_config_dir("/home/user"),
        "/home/user/.config/music-sampling"
    );
}

#[test]
fn join_path_inserts_separator() {
    assert_eq!(join_path("/music", "album"), "/music/album");
    assert_eq!(join_path("", "x"), "/x");
}

#[test]
fn input_lines_are_classified() {
    assert_eq!(classify_music_location("", true), InputAction::Finish);
    assert_eq!(classify_music_location("", false), InputAction::Finish);
    assert_eq!(classify_music_location("/no/such", false), InputAction::Reject);
    assert_eq!(classify_music_location("/music", true), InputAction::Accept);
}
