use mutilate::context::{build_context, Context};
use mutilate::text::mutilate_text;

fn plain(seed: u8) -> Context {
    build_context([seed; 32], "en", None, false).unwrap()
}

fn mutilated(text: &str, context: &mut Context) -> String {
    let mut out = String::new();
    mutilate_text(text, context, &mut out);
    out
}

fn same_shape(text: &str, out: &str) -> bool {
    let a: Vec<char> = text.chars().collect();
    let b: Vec<char> = out.chars().collect();
    a.len() == b.len()
        && a.iter().zip(b.iter()).all(|(x, y)| {
            if x.is_alphanumeric() {
                y.is_ascii_alphabetic() || (x.is_ascii_digit() && y.is_ascii_digit())
            } else {
                x == y
            }
        })
}

#[test]
fn the_empty_text_gives_nothing() {
    let mut context = plain(0);
    assert_eq!(mutilated("", &mut context), "");
}

#[test]
fn a_text_of_separators_is_echoed() {
    let mut context = plain(0);
    assert_eq!(mutilated(" \t\n", &mut context), " \t\n");
    assert_eq!(mutilated("...!?-_()", &mut context), "...!?-_()");
    assert_eq!(mutilated("\u{2014}\u{a0}\u{201c}", &mut context), "\u{2014}\u{a0}\u{201c}");
}

#[test]
fn hello_world_keeps_its_shape() {
    for seed in 0..20u8 {
        let mut context = plain(seed);
        let out = mutilated("Hello, world! 123.", &mut context);
        let chars: Vec<char> = out.chars().collect();
        assert_eq!(chars.len(), 16);
        assert!(chars[0..5].iter().all(|c| c.is_ascii_alphabetic()));
        assert_eq!(chars[5], ',');
        assert_eq!(chars[6], ' ');
        assert!(chars[7..12].iter().all(|c| c.is_ascii_alphabetic()));
        assert_eq!(chars[12], '!');
        assert_eq!(chars[13], ' ');
        assert!(chars[14].is_ascii_digit());
        assert_eq!(chars[15], '.');
    }
}

#[test]
fn every_separator_stays_where_it_was() {
    let texts = [
        "one two  three",
        " leading and trailing ",
        "a-b_c.d,e;f",
        "line one\nline two\r\n\tindented",
        "(nested [brackets] {here})",
        "x",
        "7 8 9",
        "caf\u{e9} na\u{ef}ve \u{fc}ber",
    ];
    for seed in 0..10u8 {
        let mut context = plain(seed);
        for text in texts {
            let out = mutilated(text, &mut context);
            assert!(same_shape(text, &out), "{:?} became {:?}", text, out);
        }
    }
}

#[test]
fn digits_among_letters_belong_to_the_word() {
    let mut context = plain(4);
    let out = mutilated("abc123 x86_64", &mut context);
    let chars: Vec<char> = out.chars().collect();
    assert_eq!(chars.len(), 12);
    assert!(chars[0..6].iter().all(|c| c.is_ascii_alphabetic()));
    assert_eq!(chars[6], ' ');
    assert!(chars[7..10].iter().all(|c| c.is_ascii_alphabetic()));
    assert_eq!(chars[10], '_');
    assert!(chars[11].is_ascii_digit());
}

#[test]
fn a_long_number_shortens_the_text() {
    let mut context = plain(5);
    let out = mutilated("in 2024, or 1999", &mut context);
    let chars: Vec<char> = out.chars().collect();
    assert_eq!(chars.len(), 10);
    assert!(chars[0..2].iter().all(|c| c.is_ascii_alphabetic()));
    assert_eq!(chars[2], ' ');
    assert!(chars[3].is_ascii_digit());
    assert_eq!(chars[4], ',');
    assert_eq!(chars[5], ' ');
    assert!(chars[6..8].iter().all(|c| c.is_ascii_alphabetic()));
    assert_eq!(chars[8], ' ');
    assert!(chars[9].is_ascii_digit());
}

#[test]
fn text_is_appended_to_what_is_there() {
    let mut context = plain(6);
    let mut out = String::from("[");
    mutilate_text("a b", &mut context, &mut out);
    mutilate_text("!", &mut context, &mut out);
    assert_eq!(out.len(), 5);
    assert!(out.starts_with('['));
    assert!(out.ends_with('!'));
    assert_eq!(out.as_bytes()[2], b' ');
}

#[test]
fn words_of_other_scripts_are_words() {
    let mut context = plain(7);
    let out = mutilated("\u{4e2d}\u{6587} \u{0440}\u{0443}\u{0441}", &mut context);
    let chars: Vec<char> = out.chars().collect();
    assert_eq!(chars.len(), 6);
    assert!(chars[0..2].iter().all(|c| c.is_ascii_alphabetic()));
    assert_eq!(chars[2], ' ');
    assert!(chars[3..6].iter().all(|c| c.is_ascii_alphabetic()));
}

#[test]
fn the_same_seed_gives_the_same_text() {
    let text = "The quick brown fox jumps over 13 lazy dogs.";
    let listed: String = (0..40).map(|i| format!("w{:02}rd\n", i)).collect();
    for seed in 0..5u8 {
        let mut first = build_context([seed; 32], "en", Some(&listed), false).unwrap();
        let mut second = build_context([seed; 32], "en", Some(&listed), false).unwrap();
        let a = mutilated(text, &mut first);
        let b = mutilated(text, &mut second);
        assert_eq!(a, b);
        assert_eq!(mutilated(text, &mut first), mutilated(text, &mut second));
    }
}

#[test]
fn another_seed_gives_another_text() {
    let text = "The quick brown fox jumps over the lazy dog and keeps on running.";
    let mut first = plain(1);
    let mut second = plain(2);
    assert_ne!(mutilated(text, &mut first), mutilated(text, &mut second));
}

#[test]
fn a_run_goes_on_where_the_last_one_stopped() {
    let text = "some words to replace by other words";
    let mut context = plain(3);
    let a = mutilated(text, &mut context);
    let b = mutilated(text, &mut context);
    assert_ne!(a, b);
}
