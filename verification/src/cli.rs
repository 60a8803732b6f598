//! The command's options.

use vstd::prelude::*;

verus! {

/// Copy the current local repository into prompt-ready context.
#[derive(Debug, Clone)]
pub struct Cli {
    /// Include only files matching these glob-style patterns.
    pub includes: Vec<String>,
    /// Exclude files matching these glob-style patterns.
    pub excludes: Vec<String>,
    /// Print the generated digest to stdout instead of copying it to the clipboard.
    pub stdout: bool,
}

} // verus!
