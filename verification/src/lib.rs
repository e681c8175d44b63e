//! Literal text search over the files of one directory: which lines of which
//! files hold a pattern, with the pattern marked in each reported line.
//!
//! The library computes and decides; it reads no file and starts no task.
//! Its caller lists the directory, reads the files and runs the searches, and
//! hands over what that produced:
//!
//! - `selector` chooses the candidates among the entries of the directory;
//! - `reader` says which lines a file has, given what reading it produced;
//! - `matcher` searches the lines of one file, all at once or line by line;
//! - `scheduler` admits searches under a cap and collects their outcomes;
//! - `report` gathers the outcomes into the report and says how it prints;
//! - `grep` searches a whole candidate set one file after another, and proves
//!   that the search under a scheduler reports the same.
//!
//! `text` holds the substring search, `emphasis` the marking of the pattern,
//! `positions` and `permutation` the lemmas that several modules share.

pub mod emphasis;
pub mod error;
pub mod grep;
pub mod matcher;
pub mod permutation;
pub mod positions;
pub mod reader;
pub mod report;
pub mod scheduler;
pub mod selector;
pub mod text;
