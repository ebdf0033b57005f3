//! BeatCrate's library logic: deriving track titles from file names,
//! classifying the files of a crate folder, reconciling a scanned music folder
//! with the stored library (renames, moves, re-exports, grace-window pruning),
//! reading Ableton Live Set metadata, and the validation rules of the command
//! surface.

pub mod text;
pub mod title;
pub mod library;
pub mod changes;
pub mod scan;
pub mod xml;
pub mod als;
pub mod commands;
pub mod profile;
pub mod analysis;
pub mod storage;
pub mod laws;
