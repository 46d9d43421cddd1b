//! hot_manager: temporarily repoints configuration symlinks at editable sources.
//!
//! The library holds the decisions of the tool: how paths are read and combined,
//! which configuration files are matched to which dotfiles sources, how the
//! settings are assembled, which directories are watched and which hotlinked
//! files are touched when an event arrives. The program in `app/` performs the
//! file-system work that these decisions describe.
pub mod assemble;
pub mod collections;
pub mod config;
pub mod detect;
pub mod fix;
pub mod glob_search;
pub mod hotlink;
pub mod matching;
pub mod order;
pub mod output;
pub mod path;
pub mod watch;
