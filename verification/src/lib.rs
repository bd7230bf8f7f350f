//! Line-oriented diffing of two token sequences with the longest common
//! subsequence (LCS) algorithm: a dense dynamic-programming grid, a backtrace
//! that turns the grid into an edit script, and a renderer that folds the
//! script into a textual report.

pub mod diff;
pub mod files;
pub mod grid;
pub mod lcs;
