use zeta_dyn::{CharClassifier, CharKind};

#[test]
fn whitespace_comes_first() {
    let c = CharClassifier::new();
    assert_eq!(c.kind(' '), CharKind::Whitespace);
    assert_eq!(c.kind('\n'), CharKind::Whitespace);
    assert_eq!(c.kind('\t'), CharKind::Whitespace);
    assert_eq!(c.kind('\u{3000}'), CharKind::Whitespace);
    assert!(c.is_whitespace(' '));
    assert!(!c.is_word(' '));
    assert!(!c.is_punctuation(' '));
}

#[test]
fn letters_digits_and_underscore_are_word_characters() {
    let c = CharClassifier::new();
    for ch in ['a', 'Z', '0', '9', '_', 'é', 'ß', '中', '٣'] {
        assert_eq!(c.kind(ch), CharKind::Word, "{:?}", ch);
        assert!(c.is_word(ch));
        assert!(!c.is_whitespace(ch));
        assert!(!c.is_punctuation(ch));
    }
}

#[test]
fn the_rest_is_punctuation() {
    let c = CharClassifier::new();
    for ch in ['+', '-', '=', '(', ')', '.', ',', '"', '€', '\u{0}'] {
        assert_eq!(c.kind(ch), CharKind::Punctuation, "{:?}", ch);
        assert!(c.is_punctuation(ch));
        assert!(!c.is_word(ch));
        assert!(!c.is_whitespace(ch));
    }
}

#[test]
fn ignore_punctuation_turns_punctuation_into_word() {
    let c = CharClassifier::new().ignore_punctuation(true);
    assert_eq!(c.kind('+'), CharKind::Word);
    assert_eq!(c.kind('-'), CharKind::Word);
    assert_eq!(c.kind('a'), CharKind::Word);
    assert_eq!(c.kind(' '), CharKind::Whitespace);
    assert!(c.is_word('+'));
    assert!(!c.is_punctuation('+'));
    let back = c.ignore_punctuation(false);
    assert_eq!(back.kind('+'), CharKind::Punctuation);
}

#[test]
fn kind_with_overrides_the_switch_for_one_call() {
    let plain = CharClassifier::new();
    assert_eq!(plain.kind_with('+', true), CharKind::Word);
    assert_eq!(plain.kind_with('+', false), CharKind::Punctuation);
    assert_eq!(plain.kind('+'), CharKind::Punctuation);
    let ignoring = CharClassifier::new().ignore_punctuation(true);
    assert_eq!(ignoring.kind_with('+', false), CharKind::Punctuation);
    assert_eq!(ignoring.kind_with('+', true), CharKind::Word);
    assert_eq!(ignoring.kind_with(' ', true), CharKind::Whitespace);
    assert_eq!(ignoring.kind_with('_', false), CharKind::Word);
}

#[test]
fn for_completion_changes_no_answer() {
    let off = CharClassifier::new().for_completion(false);
    let on = CharClassifier::new().for_completion(true);
    for ch in [' ', 'a', '_', '-', '+', '.', 'é', '\n'] {
        assert_eq!(off.kind(ch), on.kind(ch));
        assert_eq!(off.kind_with(ch, true), on.kind_with(ch, true));
    }
    assert_eq!(on.kind('-'), CharKind::Punctuation);
}

#[test]
fn default_is_new() {
    let d = CharClassifier::default();
    let n = CharClassifier::new();
    for ch in [' ', 'a', '_', '-', '+'] {
        assert_eq!(d.kind(ch), n.kind(ch));
    }
    assert_eq!(d.kind('+'), CharKind::Punctuation);
}

#[test]
fn exactly_one_class_holds() {
    let c = CharClassifier::new();
    for ch in [' ', 'a', '_', '-', '+', '.', 'é', '\n', '0'] {
        let n = [c.is_whitespace(ch), c.is_word(ch), c.is_punctuation(ch)]
            .iter()
            .filter(|b| **b)
            .count();
        assert_eq!(n, 1);
    }
}

#[test]
fn kinds_are_ordered_as_declared() {
    assert!(CharKind::Whitespace < CharKind::Punctuation);
    assert!(CharKind::Punctuation < CharKind::Word);
    assert_eq!(CharKind::Word, CharKind::Word);
}
