use phrase_splicer::generate::{candidate_words, dedup_word_indices, generate_phrase, CandidatePolicy};
use phrase_splicer::index::{IndexedPhrases, Phrase, Word, WordIndex};
use phrase_splicer::splice::{concatenate_indexed_phrases, IndexedPhraseContent};
use rand::rngs::StdRng;
use rand::SeedableRng;

#[test]
fn should_split_phrases_and_concatenate_at_the_word_in_common() {
    let phrase_a = IndexedPhraseContent {
        phrase_content: "i have to go to the supermarket",
        word_pos_in_phrase: 10,
    };

    let phrase_b = IndexedPhraseContent {
        phrase_content: "does anyone need to go first",
        word_pos_in_phrase: 20,
    };

    assert_eq!(
        concatenate_indexed_phrases(phrase_a, phrase_b),
        "i have to go first"
    );

    assert_eq!(
        concatenate_indexed_phrases(phrase_b, phrase_a),
        "does anyone need to go to the supermarket"
    );
}

#[test]
fn should_swap_phrases_if_the_first_starts_with_word_and_the_second_ends_with_word() {
    let phrase_a = IndexedPhraseContent {
        phrase_content: "go to the supermarket",
        word_pos_in_phrase: 0,
    };

    let phrase_b = IndexedPhraseContent {
        phrase_content: "does anyone need to go",
        word_pos_in_phrase: 20,
    };

    let phrase_result = concatenate_indexed_phrases(phrase_a, phrase_b);

    assert_eq!(phrase_result, "does anyone need to go to the supermarket");
}

#[test]
fn splicing_an_occurrence_with_itself_gives_the_phrase() {
    let a = IndexedPhraseContent { phrase_content: "see you soon", word_pos_in_phrase: 4 };
    assert_eq!(concatenate_indexed_phrases(a, a), "see you soon");
    let b = IndexedPhraseContent { phrase_content: "bye now", word_pos_in_phrase: 0 };
    assert_eq!(concatenate_indexed_phrases(b, b), "bye now");
}

#[test]
fn splicing_counts_bytes_of_multibyte_characters() {
    let a = IndexedPhraseContent { phrase_content: "café au lait", word_pos_in_phrase: 6 };
    let b = IndexedPhraseContent { phrase_content: "x au y", word_pos_in_phrase: 2 };
    assert_eq!(concatenate_indexed_phrases(a, b), "café au y");
}

#[test]
fn generation_on_an_empty_index_reports_no_candidate() {
    let ip = IndexedPhrases::new();
    let mut rng = StdRng::seed_from_u64(7);
    assert_eq!(generate_phrase(&ip, &vec![], CandidatePolicy::Uniform, &mut rng), None);
}

#[test]
fn generation_from_one_phrase_gives_that_phrase() {
    let mut ip = IndexedPhrases::new();
    ip.insert_phrase(Phrase("hello there".into()));
    let mut rng = StdRng::seed_from_u64(11);
    for _ in 0..20 {
        let r = generate_phrase(&ip, &vec![], CandidatePolicy::Weighted, &mut rng);
        assert_eq!(r, Some("hello there".to_string()));
    }
}

#[test]
fn generation_splices_two_phrases_at_the_message_word() {
    let mut ip = IndexedPhrases::new();
    ip.insert_phrase(Phrase("i have to go to the supermarket".into()));
    let res = ip.insert_phrase(Phrase("does anyone need to go first".into()));
    let go: Vec<WordIndex> = res
        .word_indices_from_phrase
        .iter()
        .copied()
        .filter(|&id| ip.get_words_for_indices(&[id]) == vec![Word("go")])
        .collect();
    let allowed = [
        "i have to go to the supermarket",
        "does anyone need to go first",
        "i have to go first",
        "does anyone need to go to the supermarket",
    ];
    let mut rng = StdRng::seed_from_u64(3);
    for _ in 0..20 {
        let r = generate_phrase(&ip, &go, CandidatePolicy::Uniform, &mut rng).unwrap();
        assert!(allowed.contains(&r.as_str()), "{}", r);
    }
}

#[test]
fn dedup_keeps_first_appearance_order() {
    let ids = vec![WordIndex(2), WordIndex(1), WordIndex(2), WordIndex(0), WordIndex(1)];
    assert_eq!(dedup_word_indices(&ids), vec![WordIndex(2), WordIndex(1), WordIndex(0)]);
    assert_eq!(dedup_word_indices(&vec![]), vec![]);
}

#[test]
fn candidate_pool_follows_the_policy() {
    let mut ip = IndexedPhrases::new();
    let res = ip.insert_phrase(Phrase("go go now".into()));
    let ids = res.word_indices_from_phrase;
    let weighted = candidate_words(&ip, &ids, CandidatePolicy::Weighted);
    assert_eq!(weighted, vec![Word("go"), Word("go"), Word("now")]);
    let uniform = candidate_words(&ip, &ids, CandidatePolicy::Uniform);
    assert_eq!(uniform, vec![Word("go"), Word("now")]);
    let all = candidate_words(&ip, &vec![], CandidatePolicy::Weighted);
    assert_eq!(all.len(), 2);
    assert!(all.contains(&Word("go")) && all.contains(&Word("now")));
}
