//! Derives pull-request metadata (title, target branch, labels and a body
//! listing the commits) from a branch name and a configuration.

pub mod commits;
pub mod config;
pub mod errors;
pub mod git;
pub mod pattern;
pub mod request;
pub mod text;
pub mod utils;
