//! The state behind the user interface that is not drawing.
pub mod autocomplete;
pub mod debug;
pub mod keys;
pub mod load_folder;
pub mod open;
pub mod selection;
pub mod thumbnails;
pub mod view;
pub mod viewer;
pub mod windows;
