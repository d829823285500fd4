//! The logic of a tmux popup that switches between sessions and starts new ones from directories.
pub mod ansi;
pub mod command_laws;
pub mod commands;
pub mod directory_laws;
pub mod fuzzy;
pub mod indexing;
pub mod input;
pub mod input_laws;
pub mod layout;
pub mod layout_laws;
pub mod names;
pub mod order;
pub mod path_laws;
pub mod paths;
pub mod popup;
pub mod popup_laws;
pub mod screen;
pub mod screen_laws;
pub mod search;
pub mod search_laws;
pub mod session_laws;
pub mod sessions;
pub mod store;
pub mod store_laws;
pub mod text;
pub mod text_laws;
pub mod tree;
pub mod tree_laws;
pub mod update_laws;
pub mod updates;
