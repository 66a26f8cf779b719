//! Finds the cache and output directories that build tools leave behind
//! under a directory tree, and removes them or runs a cleanup command.
//!
//! A [`scan::Scan`] decides what a walk of a tree does: it applies every
//! [`matcher::Matcher`] to the entries of each directory, says which
//! directory is to be listed next, and says what is to be reported. A
//! [`walker::Walker`] puts its questions to a [`filesystem::FileSystem`] and
//! hands its notes to a [`walker::WalkNotifier`]. A [`cleaner::CleanRun`]
//! decides in the same way how the candidates that were found are carried
//! out, and a [`cleaner::Cleaner`] carries them out. What a scan of a whole
//! tree reports is stated in [`tree`], and what holds of every scan is
//! proved in [`laws`].

pub mod cleaner;
pub mod command;
pub mod filesystem;
pub mod format;
pub mod ignore;
pub mod laws;
pub mod matcher;
pub mod matchers;
pub mod models;
pub mod pattern;
pub mod plan;
pub mod scan;
pub mod test_utils;
pub mod text;
pub mod tree;
pub mod walker;
