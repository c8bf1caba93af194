//! Random words from per-language word lists, filtered by length or by
//! first character.
//!
//! A word list arrives as brotli-compressed text, one word per line. A
//! [`Corpus`] decompresses it once, splits it into its word table and builds
//! two indexes over that table: one keyed by a word's length in characters,
//! one keyed by its first character.

mod corpus;
mod index;
mod lang;
mod text;

pub use corpus::{
    all, all_len, all_starts_with, brotli_decoded, get, get_len, get_starts_with, table_error,
    utf8_decoded, Corpus, CorpusError,
};
pub use index::{
    char_entries, is_len_index, is_start_index, leads_with, lemma_len_buckets_multiset,
    lemma_of_len_member, lemma_one_len_bucket, lemma_one_start_bucket,
    lemma_start_buckets_multiset, lemma_starting_with_member, len_entries, of_len,
    starting_with, views,
};
pub use lang::Lang;
pub use text::{lines_of, newline_pieces, split_lines, strip_cr};
