//! Word-granularity edit scripts between two versions of a text.
//!
//! A text is cut into tokens (runs of word characters, runs of whitespace,
//! runs of one repeated punctuation character), the two token sequences are
//! compared by a patience diff, and the comparison is folded into a short
//! list of byte ranges of the old text, each with the text that replaces it.

pub mod differ;
pub mod edits;
pub mod encoding;
pub mod laws;
pub mod tokens;
pub mod utils;
pub mod words;

pub use edits::{
    build_edits, diff_data_data, diff_data_end, diff_data_len, diff_data_start, DiffData,
};
pub use differ::DiffOperation;
pub use tokens::tokenize;
pub use utils::{CharClassifier, CharKind};
pub use words::{can_diff, diff_words_pos};
