use phrase_splicer::index::{IndexedPhrases, Phrase, Word, WordIndex};
use phrase_splicer::splice::IndexedPhraseContent;
use std::collections::HashSet;

#[test]
fn should_return_empty_vec_if_no_phrase_was_indexed() {
    let indexed_phrases = IndexedPhrases::new();
    let common_words: Vec<_> = indexed_phrases.get_common_words().into_iter().collect();

    assert_eq!(common_words, &[]);
}

#[test]
fn should_return_empty_vec_if_indexed_phrase_has_only_one_word() {
    let mut indexed_phrases = IndexedPhrases::new();

    indexed_phrases.insert_phrase(Phrase("hello".into()));
    indexed_phrases.insert_phrase(Phrase("you".into()));
    indexed_phrases.insert_phrase(Phrase("all".into()));

    let common_words: Vec<_> = indexed_phrases.get_common_words().into_iter().collect();

    assert_eq!(common_words, &[]);
}

#[test]
fn should_return_deduplicated_words_from_phrases_with_two_or_more_words() {
    let mut indexed_phrases = IndexedPhrases::new();

    indexed_phrases.insert_phrase(Phrase("hello hello you all".into()));
    indexed_phrases.insert_phrase(Phrase("nice".into()));
    indexed_phrases.insert_phrase(Phrase("how are you all doing".into()));

    let common_words: HashSet<_> = indexed_phrases.get_common_words().into_iter().collect();

    assert_eq!(
        common_words,
        HashSet::from_iter(["hello", "you", "all", "how", "are", "doing"].map(Word))
    );
}

#[test]
fn should_return_indexed_phrases_that_have_the_passed_word_in_common() {
    let indexed_phrases = {
        let mut ip = IndexedPhrases::new();
        ip.insert_phrase(Phrase("hello there friend".into()));
        ip.insert_phrase(Phrase("hey friend what are you up to".into()));
        ip.insert_phrase(Phrase("i have got lots of friends".into()));
        ip.insert_phrase(Phrase("good evening".into()));
        ip
    };

    let phrases: HashSet<_> = indexed_phrases
        .get_phrases_with_word_in_common(Word("friend"))
        .into_iter()
        .collect();

    assert_eq!(
        phrases,
        HashSet::from_iter([
            IndexedPhraseContent {
                phrase_content: "hello there friend",
                word_pos_in_phrase: 12,
            },
            IndexedPhraseContent {
                phrase_content: "hey friend what are you up to",
                word_pos_in_phrase: 4,
            }
        ])
    );
}

#[test]
fn should_not_duplicate_phrases() {
    let indexed_phrases = {
        let mut ip = IndexedPhrases::new();
        ip.insert_phrase(Phrase("hello there friend".into()));
        ip.insert_phrase(Phrase("hello there friend".into()));
        ip.insert_phrase(Phrase("hello there friend".into()));
        ip
    };

    let phrases: HashSet<_> = indexed_phrases
        .get_phrases_with_word_in_common(Word("friend"))
        .into_iter()
        .collect();

    assert_eq!(
        phrases,
        HashSet::from_iter([IndexedPhraseContent {
            phrase_content: "hello there friend",
            word_pos_in_phrase: 12,
        }])
    );
}

#[test]
fn inserting_a_phrase_twice_keeps_the_same_occurrences() {
    let mut ip = IndexedPhrases::new();
    let first = ip.insert_phrase(Phrase("see you all".into()));
    let after_first: HashSet<(String, usize)> = ip
        .get_phrases_with_word_in_common(Word("you"))
        .into_iter()
        .map(|c| (c.phrase_content.to_string(), c.word_pos_in_phrase))
        .collect();
    let second = ip.insert_phrase(Phrase("see you all".into()));
    let after_second: HashSet<(String, usize)> = ip
        .get_phrases_with_word_in_common(Word("you"))
        .into_iter()
        .map(|c| (c.phrase_content.to_string(), c.word_pos_in_phrase))
        .collect();

    assert_eq!(after_first, after_second);
    assert_eq!(after_second.len(), 1);
    assert!(first.has_inserted_phrase);
    assert!(second.has_inserted_phrase);
    assert_eq!(first.word_indices_from_phrase, second.word_indices_from_phrase);
}

#[test]
fn insertion_reports_word_ids_in_order_with_repeats() {
    let mut ip = IndexedPhrases::new();
    let res = ip.insert_phrase(Phrase("go go now".into()));
    assert!(res.has_inserted_phrase);
    let words = ip.get_words_for_indices(&res.word_indices_from_phrase);
    assert_eq!(words, vec![Word("go"), Word("go"), Word("now")]);
}

#[test]
fn single_word_phrase_reports_its_own_id_only() {
    let mut ip = IndexedPhrases::new();
    let res = ip.insert_phrase(Phrase("hello".into()));
    assert!(!res.has_inserted_phrase);
    assert_eq!(ip.get_words_for_indices(&res.word_indices_from_phrase), vec![Word("hello")]);
    let again = ip.insert_phrase(Phrase("hello".into()));
    assert_eq!(res.word_indices_from_phrase, again.word_indices_from_phrase);
}

#[test]
fn single_word_phrase_and_word_share_one_id() {
    let mut ip = IndexedPhrases::new();
    let single = ip.insert_phrase(Phrase("hey".into()));
    let multi = ip.insert_phrase(Phrase("hey you".into()));
    assert_eq!(single.word_indices_from_phrase[0], multi.word_indices_from_phrase[0]);
}

#[test]
fn interning_gives_sequential_stable_ids() {
    let mut ip = IndexedPhrases::new();
    assert_eq!(ip.intern_text("a".into()), 0);
    assert_eq!(ip.intern_text("b".into()), 1);
    assert_eq!(ip.intern_text("a".into()), 0);
    assert_eq!(ip.get_words_for_indices(&[WordIndex(1), WordIndex(0), WordIndex(1)]), vec![Word("b"), Word("a"), Word("b")]);
}

#[test]
fn linking_the_same_occurrence_twice_stores_it_once() {
    let mut ip = IndexedPhrases::new();
    let p = ip.intern_text("ab cd".into());
    let w = ip.intern_text("cd".into());
    ip.link_phrase_to_word(p, w, 3);
    ip.link_phrase_to_word(p, w, 3);
    let found = ip.get_phrases_with_word_in_common(Word("cd"));
    assert_eq!(found, vec![IndexedPhraseContent { phrase_content: "ab cd", word_pos_in_phrase: 3 }]);
}

#[test]
fn offsets_count_bytes_of_multibyte_characters() {
    let mut ip = IndexedPhrases::new();
    ip.insert_phrase(Phrase("café au lait".into()));
    let found = ip.get_phrases_with_word_in_common(Word("au"));
    assert_eq!(found, vec![IndexedPhraseContent { phrase_content: "café au lait", word_pos_in_phrase: 6 }]);
}

#[test]
fn insert_text_reports_multi_word_phrases_and_their_word_ids() {
    let mut ip = IndexedPhrases::new();
    let res = ip.insert_text("Hello there. Nice; how are YOU".into());
    assert_eq!(
        res.inserted_phrases,
        vec![Phrase("hello there".into()), Phrase("how are you".into())]
    );
    assert_eq!(
        ip.get_words_for_indices(&res.word_indices),
        vec![Word("hello"), Word("there"), Word("how"), Word("are"), Word("you")]
    );
    let common: HashSet<_> = ip.get_common_words().into_iter().collect();
    assert_eq!(common, HashSet::from_iter(["hello", "there", "how", "are", "you"].map(Word)));
}

#[test]
fn insert_text_of_single_words_inserts_nothing() {
    let mut ip = IndexedPhrases::new();
    let res = ip.insert_text("yes. no!".into());
    assert!(res.inserted_phrases.is_empty());
    assert!(res.word_indices.is_empty());
    assert!(ip.get_common_words().is_empty());
}
