//! Fuzzy lookup of the entries of a word list that are closest to a query.
//!
//! A query and each candidate are turned into character profiles; a cheap
//! filter on length and a forced prefix prunes the corpus; the survivors are
//! scored, and the lowest scores are kept in a bounded result set, which is
//! finally ordered by score.
//!
//! Scores are exact rationals: every term of the composite dissimilarity is a
//! ratio of character counts, so the library computes them without rounding.

pub mod filter;
pub mod profile;
pub mod ratio;
pub mod score;
pub mod search;
pub mod text;
pub mod topk;

pub use filter::{accepts, forced_letter_count, SearchConfig};
pub use profile::Profile;
pub use ratio::Ratio;
pub use score::{score, MAX_WORD_LEN};
pub use search::{search, SearchError};
pub use text::chars_of;
pub use topk::{rank, Suggestion, TopK};
