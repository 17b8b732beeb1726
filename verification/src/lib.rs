//! Tab organisation by registrable domain.
//!
//! `domain` takes a URL to its domain and counts and ranks domains;
//! `operations` orders and deduplicates the open tabs and `search` filters
//! them; `archive` turns them into a session and `storage` keeps the
//! sessions; `groups`, `dates` and `numbers` prepare what is shown. `text`
//! holds the string operations that the others are stated over, and
//! `tab_data` and `counts` the records.
//!
//! Nothing in this crate touches a browser or a disk: every function takes
//! values and gives values or plans back.

pub mod archive;
pub mod counts;
pub mod dates;
pub mod domain;
pub mod groups;
pub mod numbers;
pub mod operations;
pub mod search;
pub mod storage;
pub mod tab_data;
pub mod text;
