//! The edit script between two versions of a text, word by word.

use vstd::prelude::*;
use vstd::utf8::encode_utf8;
use crate::differ::{patience_changes, patience_diff};
use crate::edits::{build_edits, edit_script, script_view, DiffData, EditEntry};
use crate::encoding::byte_len;
use crate::laws::{
    apply_edits, lemma_cursor_is_old_length, lemma_equal_steps_no_edits,
    lemma_offset_shifts_script, lemma_script_ordered, lemma_script_round_trip, new_text, old_text,
    ordered, shifted,
};
use crate::tokens::{lemma_token_count, lemma_tokens_tile, tokenize, tokens_of};

verus! {

/// The edit script from `old` to `new`: both are cut into tokens, the token
/// sequences are compared, and the comparison is folded from `offset`.
pub open spec fn diff_script(old: Seq<char>, new: Seq<char>, offset: int) -> Seq<EditEntry> {
    edit_script(patience_diff(tokens_of(old), tokens_of(new)), offset)
}

/// What the machine asks of two texts and an offset: the ranges of the
/// script fit its addresses, and the two texts together stay under the
/// 32-bit numbering of tokens that the comparison uses.
pub open spec fn within_limits(text: Seq<char>, alt_text: Seq<char>, offset: int) -> bool {
    &&& offset + byte_len(text) <= usize::MAX
    &&& byte_len(text) + byte_len(alt_text) + 2 <= u32::MAX
}

/// Tells whether `diff_words_pos` can be called on these texts and this offset.
pub fn can_diff(text: &str, alt_text: &str, offset: u64) -> (b: bool)
    ensures
        b == within_limits(text@, alt_text@, offset as int),
{
    let n: usize = text.as_bytes().len();
    let m: usize = alt_text.as_bytes().len();
    n <= 0xFFFF_FFFD && m <= 0xFFFF_FFFD - n && offset <= (usize::MAX - n) as u64
}

/// Computes the edit script that turns `text` into `alt_text`. The ranges
/// count bytes of `text`, to which `offset` is added.
pub fn diff_words_pos(text: String, alt_text: String, offset: u64) -> (edits: DiffData)
    requires
        within_limits(text@, alt_text@, offset as int),
    ensures
        script_view(edits@) == diff_script(text@, alt_text@, offset as int),
        apply_edits(encode_utf8(text@), script_view(edits@), offset as int) == encode_utf8(
            alt_text@,
        ),
        ordered(script_view(edits@), offset as int, offset + byte_len(text@)),
        text@ == alt_text@ ==> edits@.len() == 0,
{
    let old_tokens = tokenize(text.as_str());
    let new_tokens = tokenize(alt_text.as_str());
    proof {
        lemma_token_count(text@);
        lemma_token_count(alt_text@);
    }
    let ops = patience_changes(&old_tokens, &new_tokens);
    let ghost steps = ops.deep_view();
    proof {
        lemma_tokens_tile(text@);
        lemma_tokens_tile(alt_text@);
        assert(old_text(steps) == text@);
        assert(new_text(steps) == alt_text@);
        lemma_cursor_is_old_length(steps, offset as int);
    }
    let edits = build_edits(&ops, offset as usize);
    proof {
        lemma_script_round_trip(steps, offset as int);
        lemma_script_ordered(steps, offset as int);
        if text@ == alt_text@ {
            lemma_equal_steps_no_edits(steps, offset as int);
        }
    }
    edits
}

/// Moving the offset moves the ranges and nothing else: the script from
/// `offset` is the script from zero with `offset` added to every range.
pub proof fn lemma_offset_translation(old: Seq<char>, new: Seq<char>, offset: int)
    ensures
        diff_script(old, new, offset) == shifted(diff_script(old, new, 0), offset),
{
    lemma_offset_shifts_script(patience_diff(tokens_of(old), tokens_of(new)), offset);
}

} // verus!
