//! Finding the lines of a text that contain a given query, exactly or
//! ignoring case.

pub mod config;
pub mod lines;
pub mod search;
pub mod text;

pub use config::{ArgError, Config};
pub use search::{find_matches, search, search_case_insensitive};
pub use text::contains;
