//! The comparison of two token sequences, as a list of tagged tokens.

use vstd::prelude::*;

verus! {

/// One step of a comparison: a token that both sides share, a token that
/// only the old side has, or a token that only the new side has.
#[derive(Debug, Clone, Copy)]
pub enum DiffOperation<'a> {
    Equal(&'a str),
    Delete(&'a str),
    Insert(&'a str),
}

/// A step of a comparison with the token's characters in place of the slice.
pub ghost enum Change {
    Equal(Seq<char>),
    Delete(Seq<char>),
    Insert(Seq<char>),
}

impl<'a> View for DiffOperation<'a> {
    type V = Change;

    open spec fn view(&self) -> Change {
        match *self {
            DiffOperation::Equal(t) => Change::Equal(t@),
            DiffOperation::Delete(t) => Change::Delete(t@),
            DiffOperation::Insert(t) => Change::Insert(t@),
        }
    }
}

impl<'a> DeepView for DiffOperation<'a> {
    type V = Change;

    open spec fn deep_view(&self) -> Change {
        self@
    }
}

impl Change {
    /// The token that the step carries.
    pub open spec fn token(self) -> Seq<char> {
        match self {
            Change::Equal(t) => t,
            Change::Delete(t) => t,
            Change::Insert(t) => t,
        }
    }

    /// Whether the token stands in the old sequence.
    pub open spec fn in_old(self) -> bool {
        !(self is Insert)
    }

    /// Whether the token stands in the new sequence.
    pub open spec fn in_new(self) -> bool {
        !(self is Delete)
    }
}

/// The tokens of the old sequence that `ops` walks over, in order.
pub open spec fn old_side(ops: Seq<Change>) -> Seq<Seq<char>>
    decreases ops.len(),
{
    if ops.len() == 0 {
        Seq::empty()
    } else if ops.last().in_old() {
        old_side(ops.drop_last()).push(ops.last().token())
    } else {
        old_side(ops.drop_last())
    }
}

/// The tokens of the new sequence that `ops` walks over, in order.
pub open spec fn new_side(ops: Seq<Change>) -> Seq<Seq<char>>
    decreases ops.len(),
{
    if ops.len() == 0 {
        Seq::empty()
    } else if ops.last().in_new() {
        new_side(ops.drop_last()).push(ops.last().token())
    } else {
        new_side(ops.drop_last())
    }
}

/// Whether `ops` is a comparison of `old` with `new`: what it keeps and
/// deletes is `old`, what it keeps and inserts is `new`, and where the two
/// are the same sequence it keeps everything.
pub open spec fn compares(ops: Seq<Change>, old: Seq<Seq<char>>, new: Seq<Seq<char>>) -> bool {
    &&& old_side(ops) == old
    &&& new_side(ops) == new
    &&& (old == new ==> forall|i: int| 0 <= i < ops.len() ==> #[trigger] ops[i] is Equal)
}

/// The steps that the patience comparison of `similar` gives for two token
/// sequences.
pub uninterp spec fn patience_diff(old: Seq<Seq<char>>, new: Seq<Seq<char>>) -> Seq<Change>;

/// Runs `similar`'s patience diff (`TextDiffConfig::diff_slices` with
/// `Algorithm::Patience` and no deadline) on two token sequences and reads
/// the result off `TextDiff::iter_all_changes`, one step for each change.
///
/// Believed of it, not proved: with no deadline the steps depend on the two
/// sequences alone, compared by content; the tokens tagged equal or deleted
/// are the old sequence in order, those tagged equal or inserted are the new
/// one in order; and two sequences that are the same come back as equal
/// steps only. The bound on the lengths keeps the 32-bit numbering that
/// `similar` gives to distinct tokens from running over.
#[verifier::external_body]
pub(crate) fn patience_changes<'a>(old: &Vec<&'a str>, new: &Vec<&'a str>) -> (ops: Vec<
    DiffOperation<'a>,
>)
    requires
        old@.len() + new@.len() <= u32::MAX,
    ensures
        ops.deep_view() == patience_diff(old.deep_view(), new.deep_view()),
        compares(ops.deep_view(), old.deep_view(), new.deep_view()),
{
    let diff = similar::TextDiffConfig::default()
        .algorithm(similar::Algorithm::Patience)
        .diff_slices(old, new);
    diff.iter_all_changes()
        .map(|change| match change.tag() {
            similar::ChangeTag::Equal => DiffOperation::Equal(change.value()),
            similar::ChangeTag::Delete => DiffOperation::Delete(change.value()),
            similar::ChangeTag::Insert => DiffOperation::Insert(change.value()),
        })
        .collect()
}

} // verus!
