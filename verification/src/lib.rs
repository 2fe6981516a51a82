//! Verified core of an endless beat-level jukebox: beat-graph construction
//! over ordered distance keys, the structural playback walk, the beat grid
//! and beat slicing around the signal processing, playback session and
//! dashboard bookkeeping, and the statistics of simulated walks.

pub mod analysis;
pub mod cache;
pub mod cli;
pub mod dashboard;
pub mod decoding;
pub mod graph;
pub mod planner;
pub mod remote;
pub mod report;
pub mod session;
pub mod simulation;
pub mod slicing;

pub use graph::{Branch, BranchConfig, BranchGraph};
pub use planner::{PlaybackPlanner, Step};
