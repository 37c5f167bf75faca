//! Cutting a text into tokens.
//!
//! A token is a longest run of neighbouring characters that belong together:
//! word characters with word characters, whitespace with whitespace, and a
//! punctuation character only with repetitions of itself.

use vstd::prelude::*;
use vstd::seq_lib::lemma_flatten_concat;
use vstd::std_specs::iter::IteratorSpec;
use vstd::string::{axiom_spec_iter, next_postcondition};
use crate::encoding::{
    byte_len, lemma_byte_len_prefix, lemma_byte_len_step, lemma_char_width_bounds,
    lemma_encode_injective, lemma_encode_subrange, lemma_prefix_is_boundary,
};
use crate::utils::{char_kind, CharClassifier, CharKind};

verus! {

/// Whether `b`, standing directly after `a`, continues the token of `a`.
pub open spec fn joined(a: char, b: char) -> bool {
    let k = char_kind(b, false);
    char_kind(a, false) == k && (k == CharKind::Punctuation ==> a == b)
}

/// How many characters after position `i` continue the run that `s[i]` is in.
pub open spec fn run_tail(s: Seq<char>, i: int) -> nat
    decreases s.len() - i,
{
    if 0 <= i && i + 1 < s.len() && joined(s[i], s[i + 1]) {
        1 + run_tail(s, i + 1)
    } else {
        0
    }
}

/// A run that starts inside the text ends inside it.
pub proof fn lemma_run_tail_bound(s: Seq<char>, i: int)
    requires
        0 <= i < s.len(),
    ensures
        i + 1 + run_tail(s, i) <= s.len(),
    decreases s.len() - i,
{
    if i + 1 < s.len() && joined(s[i], s[i + 1]) {
        lemma_run_tail_bound(s, i + 1);
    }
}

/// The tokens of `s` from position `i` on, where a token starts at `i`.
pub open spec fn tokens_from(s: Seq<char>, i: int) -> Seq<Seq<char>>
    decreases s.len() - i,
    via tokens_from_terminates
{
    if 0 <= i < s.len() {
        seq![s.subrange(i, i + 1 + run_tail(s, i))] + tokens_from(s, i + 1 + run_tail(s, i))
    } else {
        Seq::empty()
    }
}

#[via_fn]
proof fn tokens_from_terminates(s: Seq<char>, i: int) {
    if 0 <= i < s.len() {
        lemma_run_tail_bound(s, i);
    }
}

/// The tokens of `s`. The empty text has one token, which is empty.
pub open spec fn tokens_of(s: Seq<char>) -> Seq<Seq<char>> {
    if s.len() == 0 {
        seq![Seq::empty()]
    } else {
        tokens_from(s, 0)
    }
}

/// Whether all neighbours inside `t` belong together.
pub open spec fn is_run(t: Seq<char>) -> bool {
    forall|j: int| 0 < j < t.len() ==> joined(#[trigger] t[j - 1], t[j])
}

/// Inside a run every character continues the one before it.
pub proof fn lemma_run_tail_joined(s: Seq<char>, i: int, j: int)
    requires
        0 <= i <= j < i + run_tail(s, i),
    ensures
        j + 1 < s.len(),
        joined(s[j], s[j + 1]),
    decreases j - i,
{
    if j > i {
        lemma_run_tail_joined(s, i + 1, j);
    }
}

/// A run ends at the end of the text or before a character that does not
/// continue it.
pub proof fn lemma_run_tail_stops(s: Seq<char>, i: int)
    requires
        0 <= i < s.len(),
    ensures
        i + 1 + run_tail(s, i) == s.len() || !joined(
            s[i + run_tail(s, i)],
            s[i + 1 + run_tail(s, i)],
        ),
    decreases s.len() - i,
{
    if i + 1 < s.len() && joined(s[i], s[i + 1]) {
        lemma_run_tail_stops(s, i + 1);
    }
}

/// The tokens from a position on, put in a row, are the text from there on.
pub proof fn lemma_tokens_from_tile(s: Seq<char>, i: int)
    requires
        0 <= i <= s.len(),
    ensures
        tokens_from(s, i).flatten() == s.skip(i),
        tokens_from(s, i).len() <= s.len() - i,
    decreases s.len() - i,
{
    if i < s.len() {
        let e = i + 1 + run_tail(s, i);
        lemma_run_tail_bound(s, i);
        lemma_tokens_from_tile(s, e);
        let first = seq![s.subrange(i, e)];
        lemma_flatten_concat(first, tokens_from(s, e));
        first.lemma_flatten_one_element();
        assert(s.subrange(i, e) + s.skip(e) =~= s.skip(i));
    } else {
        assert(tokens_from(s, i).flatten() =~= s.skip(i));
    }
}

/// The tokens of a text, put in a row, are the text, and there is at least
/// one token, also for the empty text.
pub proof fn lemma_tokens_tile(s: Seq<char>)
    ensures
        tokens_of(s).flatten() == s,
        tokens_of(s).len() >= 1,
{
    if s.len() == 0 {
        tokens_of(s).lemma_flatten_one_element();
        assert(tokens_of(s).first() =~= s);
    } else {
        lemma_tokens_from_tile(s, 0);
        assert(s.skip(0) =~= s);
        lemma_run_tail_bound(s, 0);
    }
}

/// A text has at most as many tokens as characters, the empty text one, and
/// at most as many characters as bytes.
pub proof fn lemma_token_count(s: Seq<char>)
    ensures
        1 <= tokens_of(s).len() <= s.len() + 1,
        s.len() <= byte_len(s),
{
    lemma_tokens_tile(s);
    if s.len() > 0 {
        lemma_tokens_from_tile(s, 0);
    }
    lemma_chars_within_bytes(s);
}

/// A text has at most as many characters as bytes.
pub proof fn lemma_chars_within_bytes(s: Seq<char>)
    ensures
        s.len() <= byte_len(s),
    decreases s.len(),
{
    if s.len() > 0 {
        lemma_chars_within_bytes(s.drop_last());
        lemma_byte_len_step(s, s.len() - 1);
        lemma_char_width_bounds(s.last());
        assert(s.take(s.len() - 1) =~= s.drop_last());
        assert(s.take(s.len() as int) =~= s);
    }
}

/// Every token from a position on is a run that is not empty, and no token
/// continues the token before it.
pub proof fn lemma_tokens_from_maximal_runs(s: Seq<char>, i: int, k: int)
    requires
        0 <= i < s.len(),
        0 <= k < tokens_from(s, i).len(),
    ensures
        is_run(tokens_from(s, i)[k]),
        tokens_from(s, i)[k].len() > 0,
        k > 0 ==> !joined(tokens_from(s, i)[k - 1].last(), tokens_from(s, i)[k].first()),
    decreases k,
{
    let e = i + 1 + run_tail(s, i);
    let first = s.subrange(i, e);
    lemma_run_tail_bound(s, i);
    assert(tokens_from(s, i) == seq![first] + tokens_from(s, e));
    if k == 0 {
        assert forall|j: int| 0 < j < first.len() implies joined(#[trigger] first[j - 1], first[j]) by {
            lemma_run_tail_joined(s, i, i + j - 1);
        }
    } else {
        assert(tokens_from(s, i)[k] == tokens_from(s, e)[k - 1]);
        assert(e < s.len());
        lemma_tokens_from_maximal_runs(s, e, k - 1);
        if k == 1 {
            lemma_run_tail_stops(s, i);
            lemma_run_tail_bound(s, e);
            assert(tokens_from(s, e)[0] == s.subrange(e, e + 1 + run_tail(s, e)));
            assert(tokens_from(s, i)[0] == first);
            assert(first.last() == s[e - 1]);
        } else {
            assert(tokens_from(s, i)[k - 1] == tokens_from(s, e)[k - 2]);
        }
    }
}

/// Every token of a text is a run, and is empty only if the text is; no
/// token continues the token before it, so each is a longest run.
pub proof fn lemma_tokens_maximal_runs(s: Seq<char>, k: int)
    requires
        0 <= k < tokens_of(s).len(),
    ensures
        is_run(tokens_of(s)[k]),
        s.len() > 0 ==> tokens_of(s)[k].len() > 0,
        k > 0 ==> !joined(tokens_of(s)[k - 1].last(), tokens_of(s)[k].first()),
{
    if s.len() > 0 {
        lemma_tokens_from_maximal_runs(s, 0, k);
    }
}

/// Whether `toks` cuts the text from position `i` on into longest runs:
/// the tokens in a row are that text, each is a run that is not empty, and
/// none continues the one before it.
pub open spec fn cuts_into_runs(s: Seq<char>, i: int, toks: Seq<Seq<char>>) -> bool {
    &&& toks.flatten() == s.skip(i)
    &&& forall|k: int| 0 <= k < toks.len() ==> is_run(#[trigger] toks[k]) && toks[k].len() > 0
    &&& forall|k: int|
        0 < k < toks.len() ==> !joined(toks[k - 1].last(), (#[trigger] toks[k]).first())
}

/// Whether `toks` is a tokenization of `s`: a cut into longest runs, and
/// for the empty text the one empty token.
pub open spec fn is_tokenization(s: Seq<char>, toks: Seq<Seq<char>>) -> bool {
    if s.len() == 0 {
        toks == seq![Seq::<char>::empty()]
    } else {
        cuts_into_runs(s, 0, toks)
    }
}

/// The tokens of a text are a tokenization of it.
pub proof fn lemma_tokens_of_is_tokenization(s: Seq<char>)
    ensures
        is_tokenization(s, tokens_of(s)),
{
    if s.len() > 0 {
        let toks = tokens_of(s);
        lemma_tokens_tile(s);
        assert(s.skip(0) =~= s);
        assert forall|k: int| 0 <= k < toks.len() implies is_run(#[trigger] toks[k])
            && toks[k].len() > 0 by {
            lemma_tokens_maximal_runs(s, k);
        }
        assert forall|k: int| 0 < k < toks.len() implies !joined(
            toks[k - 1].last(),
            (#[trigger] toks[k]).first(),
        ) by {
            lemma_tokens_maximal_runs(s, k);
        }
    }
}

/// There is one way only to cut a text into longest runs.
pub proof fn lemma_cut_is_unique(s: Seq<char>, i: int, toks: Seq<Seq<char>>)
    requires
        0 <= i <= s.len(),
        cuts_into_runs(s, i, toks),
    ensures
        toks == tokens_from(s, i),
    decreases s.len() - i,
{
    if toks.len() == 0 {
        assert(s.skip(i).len() == 0);
        assert(toks =~= tokens_from(s, i));
    } else {
        let first = toks[0];
        let rest = toks.drop_first();
        let n = first.len() as int;
        assert(is_run(first) && n > 0);
        assert(toks.flatten() == first + rest.flatten());
        assert(i + n <= s.len());
        assert(first =~= s.subrange(i, i + n)) by {
            assert forall|j: int| 0 <= j < n implies first[j] == s[i + j] by {
                assert((first + rest.flatten())[j] == s.skip(i)[j]);
            }
        }
        assert(rest.flatten() =~= s.skip(i + n)) by {
            assert forall|j: int| 0 <= j < rest.flatten().len() implies rest.flatten()[j] == s[i
                + n + j] by {
                assert((first + rest.flatten())[n + j] == s.skip(i)[n + j]);
            }
        }
        let e = i + 1 + run_tail(s, i);
        lemma_run_tail_bound(s, i);
        if i + n > e {
            lemma_run_tail_stops(s, i);
            assert(joined(first[e - i - 1], first[e - i]));
        }
        if i + n < e {
            lemma_run_tail_joined(s, i, i + n - 1);
            if rest.len() == 0 {
                assert(rest.flatten().len() == 0);
            }
            assert(toks[1] == rest[0]);
            assert(toks[1].len() > 0);
            assert(rest.flatten() == rest[0] + rest.drop_first().flatten());
            assert(toks[1].first() == rest.flatten()[0]);
            assert(toks[0].last() == s[i + n - 1]);
            assert(!joined(toks[1 - 1].last(), toks[1].first()));
        }
        assert(i + n == e);
        assert forall|k: int| 0 <= k < rest.len() implies is_run(#[trigger] rest[k])
            && rest[k].len() > 0 by {
            assert(rest[k] == toks[k + 1]);
        }
        assert forall|k: int| 0 < k < rest.len() implies !joined(
            rest[k - 1].last(),
            (#[trigger] rest[k]).first(),
        ) by {
            assert(rest[k] == toks[k + 1]);
            assert(rest[k - 1] == toks[k + 1 - 1]);
        }
        lemma_cut_is_unique(s, e, rest);
        assert(toks =~= seq![first] + rest);
    }
}

/// A text has one tokenization only, which `tokens_of` names.
pub proof fn lemma_tokenization_is_unique(s: Seq<char>, toks: Seq<Seq<char>>)
    requires
        is_tokenization(s, toks),
    ensures
        toks == tokens_of(s),
{
    if s.len() > 0 {
        lemma_cut_is_unique(s, 0, toks);
    }
}

/// The part of `text` between two byte positions, each given with the number
/// of characters that stand before it.
fn slice_between<'a>(text: &'a str, start: usize, end: usize, Ghost(i): Ghost<int>, Ghost(j): Ghost<int>) -> (tok: &'a str)
    requires
        0 <= i <= j <= text@.len(),
        start == byte_len(text@.take(i)),
        end == byte_len(text@.take(j)),
    ensures
        tok@ == text@.subrange(i, j),
{
    proof {
        lemma_prefix_is_boundary(text@, j);
        lemma_encode_subrange(text@, 0, j);
        assert(text@.take(0).len() == 0);
    }
    let (head, _) = text.split_at(end);
    proof {
        lemma_encode_injective(head@, text@.take(j));
        assert(head@.take(i) =~= text@.take(i));
        lemma_prefix_is_boundary(head@, i);
        lemma_encode_subrange(head@, i, j);
        assert(head@.take(j) =~= head@);
    }
    let (_, tok) = head.split_at(start);
    proof {
        lemma_encode_injective(tok@, head@.subrange(i, j));
        assert(head@.subrange(i, j) =~= text@.subrange(i, j));
    }
    tok
}

/// Cuts `text` into its tokens, in order. Each token is a slice of `text`.
pub fn tokenize(text: &str) -> (tokens: Vec<&str>)
    ensures
        tokens.deep_view() == tokens_of(text@),
{
    broadcast use {axiom_spec_iter, next_postcondition};

    let classifier = CharClassifier::new().for_completion(true);
    let mut chars = text.chars();
    let mut prev_ch: Option<char> = None;
    let mut tokens: Vec<&str> = Vec::new();
    let mut start: usize = 0;
    let mut end: usize = 0;
    let ghost s = text@;
    let ghost mut i: int = 0;
    let ghost mut st: int = 0;
    let total = text.as_bytes().len();
    proof {
        assert(s.take(0).len() == 0);
        assert(s.skip(0) =~= s);
        assert(tokens.deep_view() =~= Seq::<Seq<char>>::empty());
    }
    loop
        invariant
            s == text@,
            total == byte_len(s),
            !classifier@.ignore_punctuation,
            chars.obeys_prophetic_iter_laws(),
            chars.remaining() == s.skip(i),
            0 <= st <= i <= s.len(),
            i > 0 ==> st < i && prev_ch == Some(s[i - 1]),
            i == 0 ==> prev_ch is None,
            start == byte_len(s.take(st)),
            end == byte_len(s.take(i)),
            i > st ==> run_tail(s, st) == (i - 1 - st) + run_tail(s, i - 1),
            s.len() > 0 ==> tokens.deep_view() + tokens_from(s, st) == tokens_from(s, 0),
            s.len() == 0 ==> tokens.deep_view() == Seq::<Seq<char>>::empty(),
        ensures
            i == s.len(),
        decreases s.len() - i,
    {
        let next = chars.next();
        match next {
            None => {
                break ;
            },
            Some(ch) => {
                assert(ch == s[i]);
                assert(s.skip(i).drop_first() =~= s.skip(i + 1));
                let kind = classifier.kind(ch);
                let split = match prev_ch {
                    None => false,
                    Some(p) => {
                        let prev_kind = classifier.kind(p);
                        kind != prev_kind || (kind == CharKind::Punctuation && ch != p)
                    },
                };
                assert(split == (i > 0 && !joined(s[i - 1], s[i])));
                if split {
                    let tok = slice_between(text, start, end, Ghost(st), Ghost(i));
                    let ghost before = tokens.deep_view();
                    tokens.push(tok);
                    proof {
                        assert(tokens.deep_view() =~= before.push(s.subrange(st, i)));
                        assert(run_tail(s, i - 1) == 0);
                        assert(tokens_from(s, st) == seq![s.subrange(st, i)] + tokens_from(s, i));
                        assert(tokens.deep_view() + tokens_from(s, i) =~= before + tokens_from(
                            s,
                            st,
                        ));
                        st = i;
                    }
                    start = end;
                }
                proof {
                    lemma_byte_len_step(s, i);
                    lemma_byte_len_prefix(s, 0, i + 1);
                    if i > st {
                        assert(run_tail(s, i - 1) == 1 + run_tail(s, i));
                    }
                }
                end += ch.len_utf8();
                prev_ch = Some(ch);
                proof {
                    i = i + 1;
                }
            },
        }
    }
    let tok = slice_between(text, start, end, Ghost(st), Ghost(i));
    let ghost before = tokens.deep_view();
    tokens.push(tok);
    proof {
        assert(tokens.deep_view() =~= before.push(s.subrange(st, i)));
        if s.len() > 0 {
            assert(run_tail(s, i - 1) == 0);
            assert(tokens_from(s, i) =~= Seq::<Seq<char>>::empty());
            assert(tokens_from(s, st) =~= seq![s.subrange(st, i)]);
            assert(tokens.deep_view() =~= before + tokens_from(s, st));
        } else {
            assert(s.subrange(0, 0) =~= Seq::<char>::empty());
            assert(tokens.deep_view() =~= seq![Seq::<char>::empty()]);
        }
    }
    tokens
}

} // verus!
