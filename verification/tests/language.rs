use mutilate::context::build_context;
use mutilate::hyphenation::{Language, LanguageError};

#[test]
fn english_and_german_are_supported() {
    assert_eq!(Language::from_iso("en"), Ok(Language { first: b'e', second: b'n' }));
    assert_eq!(Language::from_iso("de"), Ok(Language { first: b'd', second: b'e' }));
}

#[test]
fn a_code_of_another_length_is_malformed() {
    assert_eq!(Language::from_iso(""), Err(LanguageError::Malformed));
    assert_eq!(Language::from_iso("e"), Err(LanguageError::Malformed));
    assert_eq!(Language::from_iso("eng"), Err(LanguageError::Malformed));
}

#[test]
fn a_code_without_patterns_is_unsupported() {
    assert_eq!(Language::from_iso("xx"), Err(LanguageError::Unsupported));
    assert_eq!(Language::from_iso("EN"), Err(LanguageError::Unsupported));
}

#[test]
fn the_length_of_a_code_counts_in_bytes() {
    // One character, two bytes.
    assert_eq!(Language::from_iso("\u{e9}"), Err(LanguageError::Unsupported));
    // Two characters, four bytes.
    assert_eq!(Language::from_iso("\u{e9}\u{e9}"), Err(LanguageError::Malformed));
}

#[test]
fn signature_counts_the_characters_of_each_syllable() {
    let english = Language::from_iso("en").unwrap();
    assert_eq!(english.signature("extensive"), vec![2u8, 3, 4]);
    assert_eq!(english.signature("wonderful"), vec![3u8, 3, 3]);
    assert_eq!(english.signature("hello"), vec![5u8]);
    assert_eq!(english.signature("hi"), vec![2u8]);
}

#[test]
fn signature_of_the_empty_word_is_empty() {
    let english = Language::from_iso("en").unwrap();
    assert_eq!(english.signature(""), Vec::<u8>::new());
}

#[test]
fn signature_depends_on_the_language() {
    let german = Language::from_iso("de").unwrap();
    assert_eq!(german.signature("Tomate"), vec![2u8, 2, 2]);
    assert_eq!(german.signature("h\u{e4}sslich"), vec![4u8, 4]);
}

#[test]
fn signature_saturates_long_syllables() {
    let english = Language::from_iso("en").unwrap();
    // Characters no pattern knows of are never split.
    let long: String = std::iter::repeat('\u{4e2d}').take(300).collect();
    assert_eq!(english.signature(&long), vec![255u8]);
    let edge: String = std::iter::repeat('\u{4e2d}').take(255).collect();
    assert_eq!(english.signature(&edge), vec![255u8]);
    let below: String = std::iter::repeat('\u{4e2d}').take(254).collect();
    assert_eq!(english.signature(&below), vec![254u8]);
}

#[test]
fn build_context_turns_down_a_bad_language() {
    assert!(matches!(build_context([0u8; 32], "english", None, false), Err(LanguageError::Malformed)));
    assert!(matches!(build_context([0u8; 32], "zz", None, true), Err(LanguageError::Unsupported)));
    assert!(matches!(
        build_context([0u8; 32], "zz", Some("word\n"), true),
        Err(LanguageError::Unsupported)
    ));
}

#[test]
fn build_context_keeps_flag_and_language() {
    let context = build_context([3u8; 32], "de", None, true).unwrap();
    assert!(context.aggressive);
    assert_eq!(context.index.language, Language { first: b'd', second: b'e' });
    assert!(context.index.by_length.is_empty());
    assert!(context.index.by_signature.is_empty());
    let plain = build_context([3u8; 32], "en", None, false).unwrap();
    assert!(!plain.aggressive);
}
