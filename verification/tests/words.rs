use mutilate::alphabet::{digit_table, letter_table};
use mutilate::context::{build_context, Context, Generator};
use mutilate::hyphenation::Language;
use mutilate::strings::{push_range, to_chars};
use mutilate::word::{classify, is_number, mutilate_word, Source, MINIMUM_WORD_COUNT};

fn plain(seed: u8) -> Context {
    build_context([seed; 32], "en", None, false).unwrap()
}

fn with_words(seed: u8, words: &[&str]) -> Context {
    let mut source = String::new();
    for word in words {
        source.push_str(word);
        source.push('\n');
    }
    build_context([seed; 32], "en", Some(&source), false).unwrap()
}

fn substitute(word: &str, context: &mut Context) -> String {
    let mut out = String::new();
    mutilate_word(word, context, &mut out);
    out
}

#[test]
fn the_threshold_is_sixteen() {
    assert_eq!(MINIMUM_WORD_COUNT, 16);
}

#[test]
fn letter_table_is_lower_case_then_upper_case() {
    let table: String = letter_table().into_iter().collect();
    assert_eq!(table, "abcdefghijklmnopqrstuvwxyzABCDEFGHIJKLMNOPQRSTUVWXYZ");
}

#[test]
fn digit_table_is_zero_to_nine() {
    let table: String = digit_table().into_iter().collect();
    assert_eq!(table, "0123456789");
}

#[test]
fn is_number_wants_every_character_a_digit() {
    assert!(is_number(&to_chars("2024")));
    assert!(is_number(&to_chars("7")));
    assert!(!is_number(&to_chars("20a4")));
    assert!(!is_number(&to_chars("x")));
    assert!(is_number(&to_chars("")));
    assert!(!is_number(&to_chars("1.5")));
    assert!(!is_number(&to_chars("-1")));
}

#[test]
fn is_number_takes_numerals_of_other_scripts() {
    assert!(is_number(&to_chars("\u{663}\u{664}")));
    assert!(is_number(&to_chars("\u{bd}")));
    assert!(is_number(&to_chars("4\u{b2}")));
    assert!(!is_number(&to_chars("\u{663}x")));
    assert!(!is_number(&to_chars("\u{e9}")));
}

#[test]
fn a_number_of_another_script_collapses_to_an_ascii_digit() {
    let mut context = plain(3);
    for word in ["\u{663}\u{664}\u{665}", "\u{bd}", "12\u{b3}"] {
        let out = substitute(word, &mut context);
        assert_eq!(out.len(), 1);
        assert!(out.chars().all(|c| c.is_ascii_digit()));
    }
}

#[test]
fn to_chars_gives_the_characters_in_order() {
    assert_eq!(to_chars("a\u{e9}z"), vec!['a', '\u{e9}', 'z']);
    assert_eq!(to_chars(""), Vec::<char>::new());
}

#[test]
fn push_range_appends_the_range() {
    let chars = to_chars("hello");
    let mut out = String::from(">");
    push_range(&mut out, &chars, 1, 4);
    assert_eq!(out, ">ell");
    push_range(&mut out, &chars, 2, 2);
    assert_eq!(out, ">ell");
}

#[test]
fn a_number_collapses_to_one_digit() {
    for seed in 0..20u8 {
        let mut context = plain(seed);
        for word in ["0", "42", "123", "00000000001234567890"] {
            let out = substitute(word, &mut context);
            assert_eq!(out.chars().count(), 1);
            assert!(out.chars().all(|c| c.is_ascii_digit()));
        }
    }
}

#[test]
fn a_number_collapses_even_with_a_word_list() {
    let numbers: Vec<String> = (0..20).map(|i| format!("{}", 100 + i)).collect();
    let refs: Vec<&str> = numbers.iter().map(|s| s.as_str()).collect();
    let mut context = with_words(1, &refs);
    let out = substitute("555", &mut context);
    assert_eq!(out.chars().count(), 1);
    assert!(out.chars().all(|c| c.is_ascii_digit()));
}

#[test]
fn without_a_word_list_a_word_becomes_as_many_letters() {
    for seed in 0..20u8 {
        let mut context = plain(seed);
        for word in ["a", "Hello", "w0rld", "extraordinarily", "\u{fc}ber", "\u{4e2d}\u{6587}"] {
            let out = substitute(word, &mut context);
            assert_eq!(out.chars().count(), word.chars().count());
            assert!(out.chars().all(|c| c.is_ascii_alphabetic()));
        }
    }
}

#[test]
fn a_substitute_is_appended_to_what_is_there() {
    let mut context = plain(9);
    let mut out = String::from("kept ");
    mutilate_word("word", &mut context, &mut out);
    assert!(out.starts_with("kept "));
    assert_eq!(out.len(), 9);
}

#[test]
fn fifteen_words_are_too_few_to_draw_from() {
    // Every listed word holds a digit, so a drawn word would show.
    let listed: Vec<String> = (0..15).map(|i| format!("w{:02}rd", i)).collect();
    let refs: Vec<&str> = listed.iter().map(|s| s.as_str()).collect();
    for seed in 0..20u8 {
        let mut context = with_words(seed, &refs);
        let out = substitute("hello", &mut context);
        assert_eq!(out.chars().count(), 5);
        assert!(out.chars().all(|c| c.is_ascii_alphabetic()));
    }
}

#[test]
fn sixteen_words_of_one_length_are_drawn_from() {
    let listed: Vec<String> = (0..16).map(|i| format!("w{:02}rd", i)).collect();
    let refs: Vec<&str> = listed.iter().map(|s| s.as_str()).collect();
    for seed in 0..20u8 {
        let mut context = with_words(seed, &refs);
        let out = substitute("hello", &mut context);
        assert!(listed.contains(&out));
        let other = substitute("hi", &mut context);
        assert_eq!(other.chars().count(), 2);
        assert!(other.chars().all(|c| c.is_ascii_alphabetic()));
    }
}

#[test]
fn a_full_signature_bucket_comes_before_the_length_bucket() {
    let english = Language::from_iso("en").unwrap();
    assert_eq!(english.signature("expensive"), english.signature("extensive"));
    assert_ne!(english.signature("expensive"), english.signature("wonderful"));
    let mut listed: Vec<&str> = Vec::new();
    for _ in 0..40 {
        listed.push("wonderful");
    }
    for _ in 0..16 {
        listed.push("extensive");
    }
    for seed in 0..20u8 {
        let mut context = with_words(seed, &listed);
        assert_eq!(substitute("expensive", &mut context), "extensive");
    }
}

#[test]
fn the_substitute_keeps_the_signature_of_the_word() {
    let english = Language::from_iso("en").unwrap();
    let listed = [
        "extensive", "wonderful", "expensive", "beautiful", "sometimes", "different", "important",
        "attention", "community", "president", "education", "political", "yesterday", "fantastic",
        "dangerous", "direction", "wonderful", "beautiful", "sometimes", "different", "important",
        "attention", "community", "president", "education", "political", "yesterday", "fantastic",
    ];
    let mut repeated: Vec<&str> = Vec::new();
    for _ in 0..16 {
        repeated.extend_from_slice(&listed);
    }
    for seed in 0..10u8 {
        let mut context = with_words(seed, &repeated);
        for word in listed {
            let out = substitute(word, &mut context);
            assert!(listed.contains(&out.as_str()));
            assert_eq!(english.signature(&out), english.signature(word));
        }
    }
}

#[test]
fn a_small_signature_bucket_falls_through_to_the_length_bucket() {
    let english = Language::from_iso("en").unwrap();
    assert_ne!(english.signature("extensive"), english.signature("wonderful"));
    let mut listed: Vec<&str> = Vec::new();
    for _ in 0..15 {
        listed.push("extensive");
    }
    listed.push("wonderful");
    let mut seen_other = false;
    for seed in 0..40u8 {
        let mut context = with_words(seed, &listed);
        let out = substitute("expensive", &mut context);
        assert!(out == "extensive" || out == "wonderful");
        seen_other = seen_other || out == "wonderful";
    }
    assert!(seen_other);
}

#[test]
fn classify_puts_numbers_first() {
    let listed: Vec<&str> = std::iter::repeat("123").take(20).collect();
    let context = with_words(0, &listed);
    assert_eq!(classify("123", &context.index), Source::Digit);
    assert_eq!(classify("7", &context.index), Source::Digit);
    assert_eq!(classify("abc", &context.index), Source::Signature);
}

#[test]
fn classify_without_words_is_synthetic() {
    let context = plain(0);
    assert_eq!(classify("hello", &context.index), Source::Synthetic);
    assert_eq!(classify("a1", &context.index), Source::Synthetic);
    assert_eq!(classify("42", &context.index), Source::Digit);
}

#[test]
fn classify_wants_sixteen_words_in_a_bucket() {
    let english = Language::from_iso("en").unwrap();
    assert_eq!(english.signature("hello"), english.signature("world"));
    assert_ne!(english.signature("hello"), english.signature("extra"));
    let fifteen: Vec<&str> = std::iter::repeat("hello").take(15).collect();
    let context = with_words(0, &fifteen);
    assert_eq!(classify("world", &context.index), Source::Synthetic);
    assert_eq!(classify("extra", &context.index), Source::Synthetic);
    let sixteen: Vec<&str> = std::iter::repeat("hello").take(16).collect();
    let context = with_words(0, &sixteen);
    assert_eq!(classify("world", &context.index), Source::Signature);
    assert_eq!(classify("extra", &context.index), Source::Length);
    assert_eq!(classify("worlds", &context.index), Source::Synthetic);
}

#[test]
fn classify_counts_each_bucket_by_itself() {
    let english = Language::from_iso("en").unwrap();
    assert_ne!(english.signature("extensive"), english.signature("wonderful"));
    let mut listed: Vec<&str> = std::iter::repeat("extensive").take(15).collect();
    listed.push("wonderful");
    let context = with_words(0, &listed);
    assert_eq!(classify("expensive", &context.index), Source::Length);
    listed.push("extensive");
    let context = with_words(0, &listed);
    assert_eq!(classify("expensive", &context.index), Source::Signature);
}

#[test]
fn a_draw_gives_one_of_the_items() {
    let items = ["a", "b", "c"];
    let mut seen = [false; 3];
    for seed in 0..40u8 {
        let mut generator = Generator::from_seed([seed; 32]);
        for _ in 0..4 {
            let picked = generator.draw(&items).unwrap();
            let at = items.iter().position(|item| item == picked).unwrap();
            seen[at] = true;
        }
    }
    assert_eq!(seen, [true; 3]);
}

#[test]
fn a_draw_from_nothing_gives_nothing() {
    let mut generator = Generator::from_seed([1u8; 32]);
    let items: [u8; 0] = [];
    assert_eq!(generator.draw(&items), None);
}

#[test]
fn generators_of_one_seed_draw_alike() {
    let items: Vec<u32> = (0..1000).collect();
    let mut first = Generator::from_seed([5u8; 32]);
    let mut second = Generator::from_seed([5u8; 32]);
    for _ in 0..50 {
        assert_eq!(first.draw(&items), second.draw(&items));
    }
}
