use phrase_splicer::index::Phrase;
use phrase_splicer::normalize::{clean_segment, normalize_text_into_phrases, split_text_at_periods};

#[test]
fn should_do_nothing_if_text_is_considered_to_be_normalized() {
    let phrases = normalize_text_into_phrases("hello world".into());

    assert_eq!(phrases, &[Phrase("hello world".into())]);
}

#[test]
fn should_convert_to_lowercase() {
    let phrases = normalize_text_into_phrases("HELLO WoRlD".into());

    assert_eq!(phrases, &[Phrase("hello world".into())]);
}

#[test]
fn should_remove_extra_spaces() {
    let phrases = normalize_text_into_phrases("   hello    world    ".into());

    assert_eq!(phrases, &[Phrase("hello world".into())]);
}

#[test]
fn should_replace_punctuation_except_period_with_whitespace() {
    let punctuations_except_period = ('\x00'..='\x7f')
        .filter(|&c| c.is_ascii_punctuation())
        .filter(|&c| c != '.' && c != ';')
        .collect::<String>();

    let phrases = normalize_text_into_phrases(format!("foo{}bar", punctuations_except_period));

    assert_eq!(phrases, &[Phrase("foo bar".into())]);
}

#[test]
fn should_split_text_at_period_punctuations() {
    let phrases =
        normalize_text_into_phrases("i think; therefore i am... it is hard to believe.".into());

    assert_eq!(
        phrases,
        &[
            Phrase("i think".into()),
            Phrase("therefore i am".into()),
            Phrase("it is hard to believe".into())
        ]
    );
}

#[test]
fn uppercase_and_extra_spaces_normalize_like_plain_text() {
    let a = normalize_text_into_phrases("HELLO   WoRlD".into());
    let b = normalize_text_into_phrases("hello world".into());

    assert_eq!(a, vec![Phrase("hello world".into())]);
    assert_eq!(a, b);
}

#[test]
fn only_delimiters_punctuation_and_spaces_give_no_phrase() {
    assert_eq!(normalize_text_into_phrases("  ...;  ,!? ;".into()), vec![]);
    assert_eq!(normalize_text_into_phrases("".into()), vec![]);
}

#[test]
fn split_drops_empty_pieces() {
    assert_eq!(split_text_at_periods("a.b;;c."), vec!["a".to_string(), "b".into(), "c".into()]);
    assert_eq!(split_text_at_periods(""), Vec::<String>::new());
    assert_eq!(split_text_at_periods(" x "), vec![" x ".to_string()]);
}

#[test]
fn clean_segment_spaces_punctuation_trims_and_collapses() {
    assert_eq!(clean_segment("  Foo,,  bar!  "), "Foo bar");
    assert_eq!(clean_segment("a\tb"), "a\tb");
    assert_eq!(clean_segment("a \t\n b"), "a b");
    assert_eq!(clean_segment("\u{a0}x\u{3000}"), "x");
}

#[test]
fn phrase_converts_to_its_text() {
    let phrases = normalize_text_into_phrases("Good Morning!".into());
    assert_eq!(phrases[0].as_str(), "good morning");
    assert_eq!(String::from(phrases[0].clone()), "good morning");
}
