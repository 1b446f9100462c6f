//! The options of a run.

use crate::binary64::Binary64;
use vstd::prelude::*;

verus! {

/// A hash algorithm.
#[derive(Clone, Copy, Debug, PartialEq, Eq, Structural)]
pub enum HashAlgo {
    Blake3,
    Sha256,
    Md5,
}

/// The options of a run.
pub struct Cli {
    /// Paths to scan (files or directories).
    pub paths: Vec<String>,
    /// Maximum recursion depth. 0 = files directly in the given paths only.
    pub max_depth: Option<usize>,
    /// Only scan files with these extensions.
    pub types: Vec<String>,
    /// Within each duplicate group, prefer keeping the smallest file.
    pub keep_smaller: bool,
    /// Delete duplicate files.
    pub delete: bool,
    /// Assume "yes" for all deletion prompts.
    pub yes: bool,
    /// Hash algorithm used for content comparison.
    pub hash: HashAlgo,
    /// Only detect byte-identical duplicates.
    pub exact: bool,
    /// Similarity threshold in percent; `None` where the number given is
    /// negative, infinite or no number.
    pub similarity: Option<Binary64>,
    /// Do not read or write the fingerprint cache.
    pub no_cache: bool,
    /// Minimum file size to consider.
    pub min_size: Option<String>,
    /// Maximum file size to consider.
    pub max_size: Option<String>,
    /// Skip directories whose name contains one of these.
    pub exclude_dir: Vec<String>,
    /// Skip files whose full path contains one of these.
    pub exclude_path: Vec<String>,
    /// Emit machine-readable JSON instead of the human report.
    pub json: bool,
    /// Report media metadata for each file.
    pub verbose: bool,
    /// Suppress progress output.
    pub quiet: bool,
}

} // verus!
