//! Classification of single characters.

use vstd::prelude::*;

verus! {

/// Whether `c` is whitespace in the sense of `char::is_whitespace`.
pub uninterp spec fn unicode_whitespace(c: char) -> bool;

/// Whether `c` is a letter or a number in the sense of `char::is_alphanumeric`.
pub uninterp spec fn unicode_alphanumeric(c: char) -> bool;

/// `char::is_whitespace` looks the character up in the Unicode tables that
/// std carries; the answer depends on the character alone and is called
/// [`unicode_whitespace`] here. Nothing else is claimed of it.
pub assume_specification[ char::is_whitespace ](c: char) -> (b: bool)
    ensures
        b == unicode_whitespace(c),
;

/// `char::is_alphanumeric` looks the character up in the Unicode tables that
/// std carries; the answer depends on the character alone and is called
/// [`unicode_alphanumeric`] here. Nothing else is claimed of it.
pub assume_specification[ char::is_alphanumeric ](c: char) -> (b: bool)
    ensures
        b == unicode_alphanumeric(c),
;

/// A class of characters, used for characterizing a run of text.
#[derive(Copy, Clone, Eq, PartialEq, PartialOrd, Ord, Debug, Structural)]
pub enum CharKind {
    /// Whitespace.
    Whitespace,
    /// Punctuation.
    Punctuation,
    /// Word.
    Word,
}

/// The class of `c`: whitespace first, then letters, numbers and `_` as word
/// characters; whatever is left is punctuation, or a word character too when
/// `ignore_punctuation` is set.
pub open spec fn char_kind(c: char, ignore_punctuation: bool) -> CharKind {
    if unicode_whitespace(c) {
        CharKind::Whitespace
    } else if unicode_alphanumeric(c) || c == '_' {
        CharKind::Word
    } else if ignore_punctuation {
        CharKind::Word
    } else {
        CharKind::Punctuation
    }
}

/// The two switches of a classifier, as contracts see them.
pub ghost struct ClassifierConfig {
    pub for_completion: bool,
    pub ignore_punctuation: bool,
}

/// Classifies characters. `for_completion` is kept as a switch and has no
/// effect on any answer; `ignore_punctuation` turns punctuation into word
/// characters.
#[derive(Debug)]
pub struct CharClassifier {
    for_completion: bool,
    ignore_punctuation: bool,
}

impl View for CharClassifier {
    type V = ClassifierConfig;

    closed spec fn view(&self) -> ClassifierConfig {
        ClassifierConfig {
            for_completion: self.for_completion,
            ignore_punctuation: self.ignore_punctuation,
        }
    }
}

impl Default for CharClassifier {
    fn default() -> (r: Self)
        ensures
            !r@.for_completion,
            !r@.ignore_punctuation,
    {
        CharClassifier { for_completion: false, ignore_punctuation: false }
    }
}

impl CharClassifier {
    /// The class that this classifier gives `c`.
    pub open spec fn kind_of(&self, c: char) -> CharKind {
        char_kind(c, self@.ignore_punctuation)
    }

    pub fn new() -> (r: Self)
        ensures
            !r@.for_completion,
            !r@.ignore_punctuation,
    {
        Self { for_completion: false, ignore_punctuation: false }
    }

    pub fn for_completion(self, for_completion: bool) -> (r: Self)
        ensures
            r@.for_completion == for_completion,
            r@.ignore_punctuation == self@.ignore_punctuation,
    {
        Self { for_completion, ..self }
    }

    pub fn ignore_punctuation(self, ignore_punctuation: bool) -> (r: Self)
        ensures
            r@.for_completion == self@.for_completion,
            r@.ignore_punctuation == ignore_punctuation,
    {
        Self { ignore_punctuation, ..self }
    }

    pub fn is_whitespace(&self, c: char) -> (b: bool)
        ensures
            b == (self.kind_of(c) == CharKind::Whitespace),
    {
        self.kind(c) == CharKind::Whitespace
    }

    pub fn is_word(&self, c: char) -> (b: bool)
        ensures
            b == (self.kind_of(c) == CharKind::Word),
    {
        self.kind(c) == CharKind::Word
    }

    pub fn is_punctuation(&self, c: char) -> (b: bool)
        ensures
            b == (self.kind_of(c) == CharKind::Punctuation),
    {
        self.kind(c) == CharKind::Punctuation
    }

    pub fn kind_with(&self, c: char, ignore_punctuation: bool) -> (k: CharKind)
        ensures
            k == char_kind(c, ignore_punctuation),
    {
        if c.is_whitespace() {
            return CharKind::Whitespace;
        } else if c.is_alphanumeric() || c == '_' {
            return CharKind::Word;
        }
        if ignore_punctuation {
            CharKind::Word
        } else {
            CharKind::Punctuation
        }
    }

    pub fn kind(&self, c: char) -> (k: CharKind)
        ensures
            k == self.kind_of(c),
    {
        self.kind_with(c, self.ignore_punctuation)
    }
}

} // verus!
