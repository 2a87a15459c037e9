//! A personal command-history store: saved shell commands, lexical and
//! nearest-neighbour retrieval, a one-shot importer from the older JSON store,
//! and the interactive picker with its output protocol.

pub mod text;
pub mod db;
pub mod ops;
pub mod rank;
pub mod migrate;
pub mod selector;
pub mod history;
