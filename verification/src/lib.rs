//! Core editing logic of the pepper modal text editor: the pattern language
//! used for searching and syntax highlighting, fuzzy matching for pickers,
//! word completion storage, undo history, registers, navigation history and
//! the small data structures around them.

pub mod text;
pub mod pattern;
pub mod word_database;
pub mod picker;
pub mod register;
pub mod theme;
pub mod plugin;
pub mod slot_vec;
pub mod task;
pub mod buffer;
pub mod buffer_position;
pub mod buffer_view;
pub mod viewport;
pub mod ui;
pub mod select;
pub mod platform;
pub mod platforms;
pub mod script_bindings;
pub mod navigation_history;
pub mod undo;
pub mod serialization;
pub mod syntax;
