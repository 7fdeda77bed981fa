//! An incremental fetch-and-search engine over a growing store of digits that come in
//! bounded chunks from a remote source: parallel preloading up to a target length, and a
//! search that extends the store chunk by chunk until its pattern turns up.
//!
//! The engine decides and the caller acts: it tells which ranges to fetch, takes the
//! chunks that came back, and keeps the store, whose contents its contracts state.
pub mod input;
pub mod matching;
pub mod plan;
pub mod response;
pub mod search;

pub use input::{parse_count, is_decimal_text, FoundInfo, InputInfo};
pub use matching::find;
pub use plan::{split, FetchRange, MAX_DIGITS_PER_REQUEST};
pub use response::extract_digits;
pub use search::{Search, SearchState, SearchView, SessionError};
