//! Client configuration: the list of music-library root paths, and where the
//! configuration file lives under the user's home directory.
//!
//! Reading and writing the configuration file, and prompting the user for
//! paths, are the caller's concern; this module holds the plain data and the
//! decisions, so that a caller only performs the reads and writes it is told
//! to.

use vstd::prelude::*;

use crate::names::{join_path, joined};

verus! {

/// The client configuration: an ordered list of music-library root paths.
#[derive(Clone, Debug, PartialEq)]
pub struct ClientConfig {
    pub music_locations: Vec<String>,
}

/// Where the configuration file lives.
pub struct ConfigPaths {
    pub config_file_path: String,
}

impl ClientConfig {
    /// A fresh configuration with no music locations.
    pub fn new() -> (c: ClientConfig)
        ensures
            c.music_locations@ =~= Seq::<String>::empty(),
    {
        ClientConfig { music_locations: Vec::new() }
    }
}

impl Default for ClientConfig {
    fn default() -> (c: ClientConfig)
        ensures
            c.music_locations@ =~= Seq::<String>::empty(),
    {
        ClientConfig::new()
    }
}

impl ConfigPaths {
    /// The directory that holds every application's configuration under the
    /// given home directory.
    pub fn home_config_dir(home: &str) -> (p: String)
        ensures
            p@ == joined(home@, ".config"@),
    {
        join_path(home, ".config")
    }

    /// This application's own configuration directory under the given home
    /// directory.
    pub fn app_config_dir(home: &str) -> (p: String)
        ensures
            p@ == joined(joined(home@, ".config"@), "music-sampling"@),
    {
        let dir = ConfigPaths::home_config_dir(home);
        join_path(dir.as_str(), "music-sampling")
    }

    /// Where the configuration file lives under the given home directory.
    pub fn under_home(home: &str) -> (p: ConfigPaths)
        ensures
            p.config_file_path@ == joined(
                joined(joined(home@, ".config"@), "music-sampling"@),
                "client.yml"@,
            ),
    {
        let dir = ConfigPaths::app_config_dir(home);
        ConfigPaths { config_file_path: join_path(dir.as_str(), "client.yml") }
    }
}

/// What to do with one line of music-location input.
#[derive(Clone, Copy, Debug, PartialEq, Eq, Structural)]
pub enum InputAction {
    /// An empty line: stop prompting and keep what was collected so far.
    Finish,
    /// The path does not exist: reject it and prompt again.
    Reject,
    /// The path exists: accept it as a music location.
    Accept,
}

/// The decision for one (already trimmed) line of music-location input: an
/// empty line finishes, a path that does not exist is rejected, and an
/// existing path is accepted. Whether the path exists is a fact the caller
/// establishes.
pub fn classify_music_location(line: &str, path_exists: bool) -> (a: InputAction)
    ensures
        a == (if line@.len() == 0 {
            InputAction::Finish
        } else if !path_exists {
            InputAction::Reject
        } else {
            InputAction::Accept
        }),
{
    if line.unicode_len() == 0 {
        InputAction::Finish
    } else if !path_exists {
        InputAction::Reject
    } else {
        InputAction::Accept
    }
}

} // verus!
