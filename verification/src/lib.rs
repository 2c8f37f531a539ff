//! Storage core of a small version-control tool: the canonical encoding of
//! blobs, trees, commits and tags, content addressing by SHA-1, the decisions
//! of the loose-object store, repository validation and name resolution.
//!
//! Everything here works on plain values; reading and writing files is left to
//! the caller, who hands in what was found on disk.

pub mod bytes;
pub mod record;
pub mod tree;
pub mod object;
pub mod error;
pub mod digest;
pub mod store;
pub mod config;
pub mod repo;
pub mod refs;
pub mod cmd;

pub use crate::cmd::{
    cmd_add, cmd_cat_file, cmd_check_ignore, cmd_checkout, cmd_commit, cmd_hash_object, cmd_init,
    cmd_log, cmd_ls_files, cmd_ls_trees, cmd_rev_parse, cmd_rm, cmd_show_ref, cmd_status, cmd_tag,
};
