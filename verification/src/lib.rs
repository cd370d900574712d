//! A plain-text journal of timestamped, taggable entries: the on-disk entry
//! format and its parser, tag handling, search and highlighting, the
//! human-facing display with its elapsed-time annotation, and the
//! command-line rules, each stated and proved with Verus.
pub mod text;
pub mod calendar;
pub mod cli;
pub mod config;
pub mod editor;
pub mod entry;
pub mod interactive;
pub mod elapsed;
pub mod search;
pub mod storage;
pub mod tags;
pub mod output;
