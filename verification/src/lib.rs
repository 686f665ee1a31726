//! Builds a per-language word-frequency table from compressed, line-delimited
//! social-media post records.
//!
//! The pipeline: decode a file into posts, split each post's text on spaces,
//! trim and classify every token, count the survivors per language in a local
//! table, merge local tables additively into a global table, and finally prune
//! words whose global count falls below a threshold.

pub mod maps;
pub mod text;
pub mod tweet;
pub mod tweet_compiler;
pub mod util;

mod foreign;

pub use maps::LanguageMap;
pub use maps::WordMap;
pub use tweet::Tweet;
pub use tweet_compiler::TweetCompiler;
pub use util::cleanup_word;
pub use util::word_qualifies;
