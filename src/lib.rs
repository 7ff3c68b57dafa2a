//! A Scrabble move solver: a dictionary trie with constrained anagram
//! search, a 15x15 board model, and a solver that combines them.

mod anagram;
mod board;
mod constraints;
mod solver;
mod str_tree;
mod text;
mod tile;
mod transposition;
mod values;

pub use anagram::{
    anagram_query, ascending, extends, lemma_word_lt_irreflexive, lemma_word_lt_total, lemma_word_lt_transitive, word_lt, Dictionnary, is_rack, joker_count, lemma_single_length, lemma_unconstrained, lemma_unconstrained_counts, lengths_allow, opt_cross, opt_seq,
    rack_part, rack_use, rack_uses, usable_rack, AnagramQuery, MAX_WORD_LEN,
};
pub use board::{
    deserialize, deserialized, lemma_round_trip, lower_seq, score_value, serialized, tile_char, token_tile, tokens,
    Board, BoardView, DeserializingError, WordError, SIDE, SIZE,
};
pub use constraints::{
    has_u8, last_at, last_cross, last_fixed, positions_descending, shifted, words_view, ConstraintLetters,
    ConstraintNbLetters, ConstraintWords, NoWordToFillError, PotentialWord, WordToFill,
};
pub use solver::{
    anchor_rank, below_before, best_word_among, bounded_before, candidate_at, candidate_score, find_best_word, first_at, is_candidate, is_found,
    lemma_best_word_score, lemma_candidate_score_ok, query_at, scan_coord, BestWord,
};
pub use str_tree::{
    is_lexicon_word, lemma_added_word_is_word, line_word, listed_words, text_lines, text_words, word_lines, StrTree,
};
pub use tile::{lower, upper, BoardTile, PlayedTile, Tile};
pub use transposition::{NotTransposed, Transposed, TransposedBool, TransposedState};
pub use values::{char_value, get_str_value, get_value, is_lower, is_upper, letter_value, str_value, LetterValueError};
