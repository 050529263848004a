//! Finding duplicate files.
//!
//! The library holds every decision of the duplicate finder: how settings and
//! answers are read, how the hash cache is stored, how files are hashed,
//! grouped and ordered, and what is done with each file of a group. Reading
//! directories, files and the terminal is left to the program around it.

pub mod text;
pub mod encoding;
pub mod settings;
pub mod hash;
pub mod order;
pub mod split;
pub mod files;
pub mod cache;
pub mod cache_laws;
pub mod grouping;
pub mod duplicates;
pub mod duplicates_laws;
pub mod run_laws;
pub mod search;
pub mod actions;
pub mod session;
pub mod answer_laws;
pub mod destination;
pub mod moving_laws;
