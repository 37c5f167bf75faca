//! Folding a comparison into an edit script: byte ranges of the old text,
//! each with the text that replaces it.

use std::ops::Range;
use vstd::prelude::*;
use vstd::string::StringExecFns;
use crate::differ::{Change, DiffOperation};
use crate::encoding::byte_len;

verus! {

/// An edit script: ranges of the old text in bytes, in increasing order,
/// each with its replacement.
pub type DiffData = Vec<(Range<usize>, String)>;

/// One entry of an edit script, as contracts see it: the bytes from `start`
/// up to `end` of the old text give way to `replacement`.
pub ghost struct EditEntry {
    pub start: int,
    pub end: int,
    pub replacement: Seq<char>,
}

/// What one entry of an edit script stands for.
pub open spec fn entry_view(e: (Range<usize>, String)) -> EditEntry {
    EditEntry { start: e.0.start as int, end: e.0.end as int, replacement: e.1@ }
}

/// What an edit script stands for, entry by entry.
pub open spec fn script_view(d: Seq<(Range<usize>, String)>) -> Seq<EditEntry> {
    Seq::new(d.len(), |i: int| entry_view(d[i]))
}

/// How far a step moves the cursor in the old text: by the bytes of its
/// token, unless the token is inserted.
pub open spec fn advance(op: Change) -> nat {
    if op.in_old() {
        byte_len(op.token())
    } else {
        0
    }
}

/// Where the cursor stands in the old text after `ops`, having started at `offset`.
pub open spec fn cursor_after(ops: Seq<Change>, offset: int) -> int
    decreases ops.len(),
{
    if ops.len() == 0 {
        offset
    } else {
        cursor_after(ops.drop_last(), offset) + advance(ops.last())
    }
}

/// Whether the last entry of `edits` ends exactly at `cursor`.
pub open spec fn abuts(edits: Seq<EditEntry>, cursor: int) -> bool {
    edits.len() > 0 && edits.last().end == cursor
}

/// The script after one more step, taken with the cursor at `cursor`.
///
/// An equal token changes nothing. A deleted token lengthens the last entry
/// if that entry ends at the cursor, and else opens an entry for its own
/// range. An inserted token is appended to the replacement of the last entry
/// if that entry ends at the cursor, and else opens an entry with an empty
/// range at the cursor.
pub open spec fn apply_change(edits: Seq<EditEntry>, cursor: int, op: Change) -> Seq<EditEntry> {
    match op {
        Change::Equal(_) => edits,
        Change::Delete(t) => if abuts(edits, cursor) {
            edits.drop_last().push(EditEntry { end: cursor + byte_len(t), ..edits.last() })
        } else {
            edits.push(
                EditEntry { start: cursor, end: cursor + byte_len(t), replacement: Seq::empty() },
            )
        },
        Change::Insert(t) => if abuts(edits, cursor) {
            edits.drop_last().push(
                EditEntry { replacement: edits.last().replacement + t, ..edits.last() },
            )
        } else {
            edits.push(EditEntry { start: cursor, end: cursor, replacement: t })
        },
    }
}

/// The edit script that `ops` folds into when the old text starts at `offset`.
pub open spec fn edit_script(ops: Seq<Change>, offset: int) -> Seq<EditEntry>
    decreases ops.len(),
{
    if ops.len() == 0 {
        Seq::empty()
    } else {
        apply_change(
            edit_script(ops.drop_last(), offset),
            cursor_after(ops.drop_last(), offset),
            ops.last(),
        )
    }
}

/// The cursor only moves forward.
pub proof fn lemma_cursor_monotone(ops: Seq<Change>, offset: int, n: int)
    requires
        0 <= n <= ops.len(),
    ensures
        offset <= cursor_after(ops.take(n), offset) <= cursor_after(ops, offset),
    decreases ops.len() - n,
{
    if n == ops.len() {
        assert(ops.take(n) =~= ops);
        lemma_cursor_from_offset(ops, offset);
    } else {
        lemma_cursor_monotone(ops, offset, n + 1);
        lemma_cursor_from_offset(ops.take(n), offset);
        assert(ops.take(n + 1).drop_last() =~= ops.take(n));
        assert(cursor_after(ops.take(n + 1), offset) == cursor_after(ops.take(n), offset)
            + advance(ops.take(n + 1).last()));
    }
}

/// The cursor never stands before the offset.
pub proof fn lemma_cursor_from_offset(ops: Seq<Change>, offset: int)
    ensures
        offset <= cursor_after(ops, offset),
    decreases ops.len(),
{
    if ops.len() > 0 {
        lemma_cursor_from_offset(ops.drop_last(), offset);
    }
}

/// Folds a comparison into an edit script. `offset` is the byte position at
/// which the old text starts in the coordinates that the ranges are given in.
pub fn build_edits(ops: &Vec<DiffOperation<'_>>, offset: usize) -> (edits: DiffData)
    requires
        cursor_after(ops.deep_view(), offset as int) <= usize::MAX,
    ensures
        script_view(edits@) == edit_script(ops.deep_view(), offset as int),
{
    let mut edits: DiffData = Vec::new();
    let mut old_start: usize = offset;
    let ghost steps = ops.deep_view();
    let mut idx: usize = 0;
    proof {
        assert(steps.take(0) =~= Seq::<Change>::empty());
        assert(script_view(edits@) =~= Seq::<EditEntry>::empty());
    }
    while idx < ops.len()
        invariant
            0 <= idx <= ops.len(),
            steps == ops.deep_view(),
            steps.len() == ops.len(),
            old_start == cursor_after(steps.take(idx as int), offset as int),
            script_view(edits@) == edit_script(steps.take(idx as int), offset as int),
            cursor_after(steps, offset as int) <= usize::MAX,
        decreases ops.len() - idx,
    {
        let ghost before = script_view(edits@);
        let ghost step = steps[idx as int];
        proof {
            lemma_cursor_monotone(steps, offset as int, idx + 1);
            assert(steps.take(idx + 1).drop_last() =~= steps.take(idx as int));
            assert(steps.take(idx + 1).last() == step);
            assert(step == ops[idx as int]@);
        }
        let n = edits.len();
        let merge = n > 0 && edits[n - 1].0.end == old_start;
        assert(merge == abuts(before, old_start as int));
        match ops[idx] {
            DiffOperation::Equal(value) => {
                old_start += value.len();
            },
            DiffOperation::Delete(value) => {
                let old_end = old_start + value.len();
                if merge {
                    let (range, text) = edits.pop().unwrap();
                    edits.push((Range { start: range.start, end: old_end }, text));
                } else {
                    edits.push((Range { start: old_start, end: old_end }, String::new()));
                }
                old_start = old_end;
            },
            DiffOperation::Insert(value) => {
                if merge {
                    let (range, mut text) = edits.pop().unwrap();
                    text.append(value);
                    edits.push((range, text));
                } else {
                    edits.push((Range { start: old_start, end: old_start }, value.to_owned()));
                }
            },
        }
        assert(script_view(edits@) =~= apply_change(
            before,
            cursor_after(steps.take(idx as int), offset as int),
            step,
        ));
        idx += 1;
    }
    assert(steps.take(idx as int) =~= steps);
    edits
}

/// The number of entries of an edit script.
pub fn diff_data_len(diff_data: &DiffData) -> (n: usize)
    ensures
        n == diff_data@.len(),
{
    diff_data.len()
}

/// Where the range of entry `i` starts, if there is an entry `i`.
pub fn diff_data_start(diff_data: &DiffData, i: u64) -> (r: Option<usize>)
    ensures
        i < diff_data@.len() ==> r == Some(diff_data@[i as int].0.start),
        i >= diff_data@.len() ==> r is None,
{
    if i < diff_data.len() as u64 {
        Some(diff_data[i as usize].0.start)
    } else {
        None
    }
}

/// Where the range of entry `i` ends, if there is an entry `i`.
pub fn diff_data_end(diff_data: &DiffData, i: u64) -> (r: Option<usize>)
    ensures
        i < diff_data@.len() ==> r == Some(diff_data@[i as int].0.end),
        i >= diff_data@.len() ==> r is None,
{
    if i < diff_data.len() as u64 {
        Some(diff_data[i as usize].0.end)
    } else {
        None
    }
}

/// The replacement of entry `i`, if there is an entry `i`.
pub fn diff_data_data(diff_data: &DiffData, i: u64) -> (r: Option<String>)
    ensures
        i < diff_data@.len() ==> r is Some && r->0@ == diff_data@[i as int].1@,
        i >= diff_data@.len() ==> r is None,
{
    if i < diff_data.len() as u64 {
        Some(diff_data[i as usize].1.clone())
    } else {
        None
    }
}

} // verus!
