//! A prefix tree (trie) over sequences of characters, with verified
//! insertion, exact membership lookup, prefix search, deletion, and a
//! level-order textual dump.

mod laws;
mod order;
mod trie;

pub use laws::{
    lemma_delete_correct, lemma_delete_reinsert, lemma_insert_idempotent, lemma_insert_round_trip,
    lemma_never_inserted, prefix_matches, words_of,
};
pub use order::{lex_lt, sorted_desc};
pub use trie::Trie;
