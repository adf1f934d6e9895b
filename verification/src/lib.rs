//! Line-oriented difference between two texts.
//!
//! A text is split into its lines at every line feed. The lengths of the
//! longest common subsequences of all pairs of prefixes of the two line
//! sequences are laid out in a table, and a walk back through the table gives
//! the script of unchanged, added and deleted lines that turns the old text
//! into the new one.
//!
//! - `lcs`: what a common subsequence is and how long the longest one is.
//! - `script`: the edit script of two sequences and the laws it obeys.
//! - `lines`: the lines of a text, and the splitter.
//! - `table`: the similarity table and the functions that build it.
//! - `diff`: the line type and the engine itself.

pub mod diff;
pub mod lcs;
pub mod lines;
pub mod script;
pub mod table;
