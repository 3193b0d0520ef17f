//! A word-presence service over one fixed two-testament corpus: parse the
//! text once, index every document's words, then answer what share of an
//! input's words the corpus holds, which words those are, and where one of
//! them stands.
pub mod bible;
pub mod index;
pub mod query;
pub mod text;
pub mod tokenize;

pub use bible::{parse, verse_number, Bible, BiblicalError, Book, Testament, Verse};
pub use index::{build_bible_map, BibleMap, BibleService, WordMap};
pub use query::{
    are_any_of_these_words_in_the_bible, matching_words, ratio_of_words_in_the_bible,
    what_words_are_in_the_bible, where_in_the_bible, WhereWasWord,
};
