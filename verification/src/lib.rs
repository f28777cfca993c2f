//! Core logic of the Oxen data version control tool: how file versions are
//! encoded for storage, the offline-content index, line blame, log paging,
//! status reporting and text diffs.

pub mod blame;
pub mod cat;
pub mod commands;
pub mod error;
pub mod log;
pub mod model;
pub mod offline;
pub mod paths;
pub mod reset;
pub mod show;
pub mod status;
pub mod text;
pub mod tree;
pub mod utf8_diff;
pub mod version_encoding;
