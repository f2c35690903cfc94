//! Finds duplicate files and folders, and plans what to do about them.

pub mod actions;
pub mod bucket;
pub mod checkpoint_laws;
pub mod command;
pub mod command_laws;
pub mod digest;
pub mod filetype_laws;
pub mod filetypes;
pub mod folder_copies;
pub mod folder_laws;
pub mod folder_sums;
pub mod folders;
pub mod formatting;
pub mod groups;
pub mod guarantees;
pub mod history;
pub mod history_laws;
pub mod interruptions;
pub mod json;
pub mod manifest;
pub mod order;
pub mod path_laws;
pub mod paths;
pub mod picks;
pub mod progress;
pub mod removal;
pub mod removal_laws;
pub mod report;
pub mod report_laws;
pub mod results;
pub mod resuming;
pub mod resume;
pub mod reuse_laws;
pub mod scan;
pub mod scan_laws;
pub mod scan_rules;
pub mod session;
pub mod session_laws;
pub mod session_updates;
pub mod store_laws;
pub mod summary;
pub mod table_laws;
pub mod tables;
pub mod text;
pub mod text_laws;
pub mod tree_laws;
pub mod walk;
pub mod walk_laws;
