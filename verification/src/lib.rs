//! A natural-language date/time expression scanner.
//!
//! The engine tokenizes free-form text, recognizes words with a typo
//! tolerance (Damerau-Levenshtein distance) and numbers within bounds,
//! resolves ambiguity between competing alternatives, and runs prioritized
//! rules across the input to produce non-overlapping matches with exact
//! character spans and a derived time value.

pub mod best_fit;
pub mod clock;
pub mod distance;
pub mod en;
pub mod interpret;
pub mod recognize;
pub mod rule;
pub mod scan;
pub mod text;
pub mod tokens;

pub use tokens::ErrorKind;
pub use tokens::PToken;
pub use tokens::Token;
pub use tokens::Weekday;
pub use tokens::When;
