//! Tag-based organisation of a collection of files: entries, tags that can imply
//! one another, sequences of entries, and the filters that select entries.
pub mod db;
pub mod entry;
pub mod id_map;
pub mod preferences;
pub mod recently_used_list;
pub mod sequence;
pub mod tag;
pub mod util;
pub mod collection;
pub mod entry_utils;
pub mod filter_lang;
pub mod filter_reqs;
pub mod filter_spec;
pub mod set_ext;
pub mod gui;
