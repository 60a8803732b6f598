//! Turning a Git repository into a prompt-ready context digest: the verified core.

pub mod cli;
pub mod filter;
pub mod path;
pub mod render;
pub mod repo;
pub mod text;
pub mod tree;
pub mod walk;
