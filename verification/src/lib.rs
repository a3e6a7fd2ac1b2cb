pub mod adapter;
pub mod cli_args;
pub mod config;
pub mod doctor;
pub mod editor;
pub mod errors;
pub mod frontmatter;
pub mod fuzzy;
pub mod id_state;
pub mod identity;
pub mod keys;
pub mod renumber;
pub mod reorder;
pub mod report;
pub mod search;
pub mod sidebar;
pub mod tags;
pub mod text;
pub mod tui_state;
