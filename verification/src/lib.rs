//! privconf: a private config manager that keeps project-specific files in a
//! separate store and links them into project directories.
//!
//! The library holds the decisions of the tool: where the store lives, how
//! paths are composed, how `.git/info/exclude` is edited, how the config and
//! the link state change, which project a directory belongs to, and what each
//! command does with the facts it has gathered. The program around it
//! performs the file-system and git work.
pub mod text;
pub mod paths;
pub mod exclude;
pub mod error;
pub mod model;
pub mod matching;
pub mod store;
pub mod plan;
pub mod report;
