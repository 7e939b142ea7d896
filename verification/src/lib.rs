//! Finds music-library folders that hold lossless audio and predicts the
//! sibling folder names where their lossy transcodes would live.
//!
//! The scan works on a plain-value listing of each configured root (one level
//! deep): for every immediate child directory that directly contains a file
//! with the lossless extension, a match record is produced, carrying the
//! folder's path and — where the folder's lowercased name contains the format
//! marker — one candidate sibling path per transcode tier, derived by
//! replacing the marker's last occurrence.

use vstd::prelude::*;

pub mod config;
pub mod fsmodel;
pub mod names;
pub mod scan;

verus! {

} // verus!
