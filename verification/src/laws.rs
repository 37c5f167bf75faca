//! What holds of every edit script that a comparison folds into.

use vstd::prelude::*;
use vstd::utf8::encode_utf8;
use crate::differ::{new_side, old_side, Change};
use crate::edits::{abuts, apply_change, cursor_after, edit_script, EditEntry};
use crate::encoding::{byte_len, lemma_encode_concat};

verus! {

/// Whether the entries lie in order inside the old text as far as it has
/// been walked: no entry starts before `offset` or ends before it starts,
/// each entry starts strictly after the one before it has ended, and the
/// last one ends at or before `cursor`.
pub open spec fn ordered(edits: Seq<EditEntry>, offset: int, cursor: int) -> bool {
    &&& forall|i: int| 0 <= i < edits.len() ==> offset <= (#[trigger] edits[i]).start <= edits[i].end
    &&& forall|i: int|
        0 <= i < edits.len() - 1 ==> (#[trigger] edits[i]).end < edits[i + 1].start
    &&& edits.len() > 0 ==> edits.last().end <= cursor
}

/// The entries of every edit script are in increasing order, do not overlap
/// and do not touch, and none reaches past the cursor.
pub proof fn lemma_script_ordered(ops: Seq<Change>, offset: int)
    ensures
        ordered(edit_script(ops, offset), offset, cursor_after(ops, offset)),
        offset <= cursor_after(ops, offset),
    decreases ops.len(),
{
    if ops.len() > 0 {
        let before = edit_script(ops.drop_last(), offset);
        let cursor = cursor_after(ops.drop_last(), offset);
        lemma_script_ordered(ops.drop_last(), offset);
        let after = edit_script(ops, offset);
        assert(after == apply_change(before, cursor, ops.last()));
        if after.len() > before.len() {
            assert(after.drop_last() =~= before);
            assert forall|i: int| 0 <= i < after.len() - 1 implies (#[trigger] after[i]).end
                < after[i + 1].start by {
                if i < before.len() - 1 {
                    assert(before[i].end < before[i + 1].start);
                }
            }
        } else if after.len() > 0 {
            assert forall|i: int| 0 <= i < after.len() - 1 implies (#[trigger] after[i]).end
                < after[i + 1].start by {
                assert(before[i].end < before[i + 1].start);
            }
        }
    }
}

/// Any two entries of an edit script, taken in order, are apart: the later
/// one starts strictly after the earlier one has ended, so the starts are
/// strictly increasing and no two ranges overlap or touch.
pub proof fn lemma_entries_apart(ops: Seq<Change>, offset: int, i: int, j: int)
    requires
        0 <= i < j < edit_script(ops, offset).len(),
    ensures
        edit_script(ops, offset)[i].start <= edit_script(ops, offset)[i].end,
        edit_script(ops, offset)[i].end < edit_script(ops, offset)[j].start,
        edit_script(ops, offset)[i].start < edit_script(ops, offset)[j].start,
    decreases j - i,
{
    let edits = edit_script(ops, offset);
    lemma_script_ordered(ops, offset);
    assert(edits[i].start <= edits[i].end);
    if j == i + 1 {
        assert(edits[i].end < edits[i + 1].start);
    } else {
        lemma_entries_apart(ops, offset, i, j - 1);
        assert(edits[j - 1].start <= edits[j - 1].end);
        assert(edits[j - 1].end < edits[j - 1 + 1].start);
    }
}

/// The entries of `edits`, each moved by `by` bytes.
pub open spec fn shifted(edits: Seq<EditEntry>, by: int) -> Seq<EditEntry> {
    Seq::new(
        edits.len(),
        |i: int| EditEntry { start: edits[i].start + by, end: edits[i].end + by, ..edits[i] },
    )
}

/// Folding a comparison from `offset` gives the script that folding it from
/// zero gives, with every range moved by `offset` and every replacement kept.
pub proof fn lemma_offset_shifts_script(ops: Seq<Change>, offset: int)
    ensures
        cursor_after(ops, offset) == cursor_after(ops, 0) + offset,
        edit_script(ops, offset) == shifted(edit_script(ops, 0), offset),
    decreases ops.len(),
{
    if ops.len() == 0 {
        assert(edit_script(ops, offset) =~= shifted(edit_script(ops, 0), offset));
    } else {
        lemma_offset_shifts_script(ops.drop_last(), offset);
        let base = edit_script(ops.drop_last(), 0);
        let moved = edit_script(ops.drop_last(), offset);
        let cursor = cursor_after(ops.drop_last(), 0);
        assert(moved == shifted(base, offset));
        assert(abuts(moved, cursor + offset) == abuts(base, cursor));
        assert(apply_change(moved, cursor + offset, ops.last()) =~= shifted(
            apply_change(base, cursor, ops.last()),
            offset,
        ));
    }
}

/// A comparison that only keeps tokens folds into the empty script.
pub proof fn lemma_equal_steps_no_edits(ops: Seq<Change>, offset: int)
    requires
        forall|i: int| 0 <= i < ops.len() ==> #[trigger] ops[i] is Equal,
    ensures
        edit_script(ops, offset).len() == 0,
    decreases ops.len(),
{
    if ops.len() > 0 {
        assert forall|i: int| 0 <= i < ops.drop_last().len() implies #[trigger] ops.drop_last()[i] is Equal by {
            assert(ops[i] is Equal);
        }
        lemma_equal_steps_no_edits(ops.drop_last(), offset);
        assert(ops[ops.len() - 1] is Equal);
    }
}

/// The old text that `ops` walks over: its kept and deleted tokens in a row.
pub open spec fn old_text(ops: Seq<Change>) -> Seq<char> {
    old_side(ops).flatten()
}

/// The new text that `ops` walks over: its kept and inserted tokens in a row.
pub open spec fn new_text(ops: Seq<Change>) -> Seq<char> {
    new_side(ops).flatten()
}

/// What the last step adds to the old and to the new text.
pub proof fn lemma_texts_step(ops: Seq<Change>)
    requires
        ops.len() > 0,
    ensures
        old_text(ops) == if ops.last().in_old() {
            old_text(ops.drop_last()) + ops.last().token()
        } else {
            old_text(ops.drop_last())
        },
        new_text(ops) == if ops.last().in_new() {
            new_text(ops.drop_last()) + ops.last().token()
        } else {
            new_text(ops.drop_last())
        },
{
    broadcast use Seq::lemma_flatten_push;

}

/// The cursor has moved by the bytes of the old text walked over.
pub proof fn lemma_cursor_is_old_length(ops: Seq<Change>, offset: int)
    ensures
        cursor_after(ops, offset) == offset + byte_len(old_text(ops)),
    decreases ops.len(),
{
    if ops.len() == 0 {
        assert(old_text(ops) =~= Seq::<char>::empty());
    } else {
        lemma_cursor_is_old_length(ops.drop_last(), offset);
        lemma_texts_step(ops);
        if ops.last().in_old() {
            lemma_encode_concat(old_text(ops.drop_last()), ops.last().token());
        }
    }
}

/// The bytes that a script makes of the old text up to the position `upto`:
/// what lies between the entries is kept, and in place of each entry's range
/// stands its replacement.
pub open spec fn rebuilt_upto(old: Seq<u8>, edits: Seq<EditEntry>, offset: int, upto: int) -> Seq<
    u8,
>
    decreases edits.len(),
{
    if edits.len() == 0 {
        old.subrange(0, upto - offset)
    } else {
        rebuilt_upto(old, edits.drop_last(), offset, edits.last().start) + encode_utf8(
            edits.last().replacement,
        ) + old.subrange(edits.last().end - offset, upto - offset)
    }
}

/// The bytes that a script makes of the whole old text, which starts at `offset`.
pub open spec fn apply_edits(old: Seq<u8>, edits: Seq<EditEntry>, offset: int) -> Seq<u8> {
    rebuilt_upto(old, edits, offset, offset + old.len())
}

/// Rebuilding a little further appends the old bytes in between.
proof fn lemma_rebuilt_further(
    old: Seq<u8>,
    edits: Seq<EditEntry>,
    offset: int,
    upto: int,
    further: int,
)
    requires
        ordered(edits, offset, upto),
        offset <= upto <= further <= offset + old.len(),
    ensures
        rebuilt_upto(old, edits, offset, further) == rebuilt_upto(old, edits, offset, upto)
            + old.subrange(upto - offset, further - offset),
{
    if edits.len() == 0 {
        assert(old.subrange(0, further - offset) =~= old.subrange(0, upto - offset) + old.subrange(
            upto - offset,
            further - offset,
        ));
    } else {
        let e = edits.last();
        assert(offset <= e.start <= e.end);
        assert(old.subrange(e.end - offset, further - offset) =~= old.subrange(
            e.end - offset,
            upto - offset,
        ) + old.subrange(upto - offset, further - offset));
        assert(rebuilt_upto(old, edits, offset, further) =~= rebuilt_upto(
            old,
            edits,
            offset,
            upto,
        ) + old.subrange(upto - offset, further - offset));
    }
}

/// Walking a comparison rebuilds the new text step by step: where the old
/// text begins with what `ops` walks over, the script of `ops`, applied up
/// to the cursor, gives the bytes of the new text that `ops` walks over.
pub proof fn lemma_rebuilds_new_text(ops: Seq<Change>, offset: int, old: Seq<u8>)
    requires
        byte_len(old_text(ops)) <= old.len(),
        old.subrange(0, byte_len(old_text(ops)) as int) == encode_utf8(old_text(ops)),
    ensures
        rebuilt_upto(old, edit_script(ops, offset), offset, cursor_after(ops, offset))
            == encode_utf8(new_text(ops)),
    decreases ops.len(),
{
    if ops.len() == 0 {
        assert(new_text(ops) =~= Seq::<char>::empty());
        assert(old.subrange(0, 0) =~= encode_utf8(new_text(ops)));
    } else {
        let prior = ops.drop_last();
        let op = ops.last();
        let t = op.token();
        let before = edit_script(prior, offset);
        let cursor = cursor_after(prior, offset);
        let after = edit_script(ops, offset);
        let walked = byte_len(old_text(prior)) as int;
        lemma_texts_step(ops);
        lemma_cursor_is_old_length(prior, offset);
        lemma_cursor_is_old_length(ops, offset);
        lemma_script_ordered(prior, offset);
        lemma_encode_concat(old_text(prior), t);
        lemma_encode_concat(new_text(prior), t);
        if op.in_old() {
            assert(old.subrange(0, walked) =~= old.subrange(
                0,
                byte_len(old_text(ops)) as int,
            ).subrange(0, walked));
            assert(old.subrange(0, walked) =~= encode_utf8(old_text(prior)));
            assert(old.subrange(walked, walked + byte_len(t)) =~= old.subrange(
                0,
                byte_len(old_text(ops)) as int,
            ).subrange(walked, walked + byte_len(t)));
            assert(old.subrange(walked, walked + byte_len(t)) =~= encode_utf8(t));
        }
        lemma_rebuilds_new_text(prior, offset, old);
        assert(after == apply_change(before, cursor, op));
        let mid = rebuilt_upto(old, before, offset, cursor);
        assert(mid == encode_utf8(new_text(prior)));
        match op {
            Change::Equal(_) => {
                lemma_rebuilt_further(old, before, offset, cursor, cursor + byte_len(t));
            },
            Change::Delete(_) => {
                if abuts(before, cursor) {
                    assert(after.drop_last() =~= before.drop_last());
                    assert(old.subrange(cursor - offset, cursor - offset) =~= old.subrange(
                        cursor + byte_len(t) - offset,
                        cursor + byte_len(t) - offset,
                    ));
                } else {
                    assert(after.drop_last() =~= before);
                    assert(encode_utf8(Seq::<char>::empty()) =~= Seq::<u8>::empty());
                    assert(rebuilt_upto(old, after, offset, cursor + byte_len(t)) =~= mid);
                }
            },
            Change::Insert(_) => {
                if abuts(before, cursor) {
                    assert(after.drop_last() =~= before.drop_last());
                    lemma_encode_concat(before.last().replacement, t);
                    assert(rebuilt_upto(old, after, offset, cursor) =~= mid + encode_utf8(t));
                } else {
                    assert(after.drop_last() =~= before);
                    assert(rebuilt_upto(old, after, offset, cursor) =~= mid + encode_utf8(t));
                }
            },
        }
    }
}

/// Applying the script of a comparison to the old text gives the new text:
/// each range gives way to its replacement, and what lies between is kept.
pub proof fn lemma_script_round_trip(ops: Seq<Change>, offset: int)
    ensures
        apply_edits(encode_utf8(old_text(ops)), edit_script(ops, offset), offset) == encode_utf8(
            new_text(ops),
        ),
{
    let old = encode_utf8(old_text(ops));
    assert(old.subrange(0, old.len() as int) =~= old);
    lemma_rebuilds_new_text(ops, offset, old);
    lemma_cursor_is_old_length(ops, offset);
}

} // verus!
