//! Producing a new sentence from the index.

use rand::Rng;
use vstd::prelude::*;
use crate::index::{
    content_view, contents_view, ids_in_range, texts_of_ids, word_occurs_at, word_texts,
    IndexedPhrases, Word, WordIndex,
};
use crate::splice::{concatenate_indexed_phrases, splice_result};
use crate::text::is_char_boundary_at;

verus! {

#[verifier::external_type_specification]
#[verifier::external_body]
pub struct ExStdRng(rand::rngs::StdRng);

/// Relies on rand's `Rng::gen_range`: on the non-empty range `0..n` it returns
/// a value of that range (it panics on an empty one).
#[verifier::external_body]
fn random_below(rng: &mut rand::rngs::StdRng, n: usize) -> (r: usize)
    requires
        n > 0,
    ensures
        r < n,
{
    rng.gen_range(0..n)
}

/// How the ids of the words seen in a message weigh in the choice of the
/// pivot word.
#[derive(PartialEq, Eq, Debug, Copy, Clone)]
pub enum CandidatePolicy {
    /// Every id counts as often as it was seen: a repeated word is more likely.
    Weighted,
    /// Every distinct id counts once.
    Uniform,
}

/// The ids of `ids`, each once, in the order of their first appearance.
pub fn dedup_word_indices(ids: &Vec<WordIndex>) -> (r: Vec<WordIndex>)
    ensures
        r@.no_duplicates(),
        r@.to_set() == ids@.to_set(),
{
    let mut r: Vec<WordIndex> = Vec::new();
    let mut i: usize = 0;
    while i < ids.len()
        invariant
            i <= ids@.len(),
            r@.no_duplicates(),
            r@.to_set() == ids@.take(i as int).to_set(),
        decreases ids@.len() - i,
    {
        let x = ids[i];
        let mut j: usize = 0;
        let mut seen = false;
        while j < r.len()
            invariant
                j <= r@.len(),
                !seen ==> forall|m: int| 0 <= m < j ==> r@[m] != x,
                seen ==> r@.contains(x),
            decreases r@.len() - j,
        {
            if r[j].0 == x.0 {
                seen = true;
            }
            j = j + 1;
        }
        let ghost before = r@;
        if !seen {
            r.push(x);
        }
        proof {
            assert(ids@.take(i + 1) =~= ids@.take(i as int).push(x));
            ids@.take(i as int).lemma_push_to_set_commute(x);
            if !seen {
                before.lemma_push_to_set_commute(x);
            } else {
                assert(before.to_set().insert(x) =~= before.to_set());
            }
        }
        i = i + 1;
    }
    assert(ids@.take(i as int) =~= ids@);
    r
}

/// Word `w` is in the candidate pool for a message whose words have the ids
/// `ids`: one of those ids, or any common word when there are none.
pub open spec fn is_candidate(index: IndexedPhrases, w: int, ids: Seq<WordIndex>) -> bool {
    if ids.len() == 0 {
        index.is_common(w)
    } else {
        exists|k: int| 0 <= k < ids.len() && ids[k].0 == w
    }
}

/// `s` is one splice of two occurrences of word `w`, taken in either order.
pub open spec fn is_splice_of_word(index: IndexedPhrases, w: int, s: Seq<char>) -> bool {
    exists|c1: (Seq<char>, int), c2: (Seq<char>, int), ia: int, ib: int|
        index.phrase_occurrences(w).contains(c1) && index.phrase_occurrences(w).contains(c2)
            && is_char_boundary_at(c1.0, ia, c1.1 as nat) && is_char_boundary_at(c2.0, ib, c2.1 as nat)
            && s == splice_result(c1.0, ia, c2.0, ib)
}

/// The words to pick the pivot from: the words of `word_indices`, or every
/// common word when it is empty. Under the uniform policy each id counts once.
pub fn candidate_words<'a>(
    index: &'a IndexedPhrases,
    word_indices: &Vec<WordIndex>,
    policy: CandidatePolicy,
) -> (r: Vec<Word<'a>>)
    requires
        index.wf(),
        ids_in_range(index.texts(), word_indices@),
    ensures
        word_indices@.len() == 0 ==> {
            &&& word_texts(r@).no_duplicates()
            &&& forall|t: Seq<char>|
                word_texts(r@).contains(t) <==> exists|w: int| index.is_common(w) && index.texts()[w] == t
        },
        word_indices@.len() > 0 && policy == CandidatePolicy::Weighted ==> word_texts(r@)
            == texts_of_ids(index.texts(), word_indices@),
        word_indices@.len() > 0 && policy == CandidatePolicy::Uniform ==> {
            &&& word_texts(r@).no_duplicates()
            &&& word_texts(r@).to_set() == texts_of_ids(index.texts(), word_indices@).to_set()
        },
{
    if word_indices.len() == 0 {
        return index.get_common_words();
    }
    match policy {
        CandidatePolicy::Weighted => index.get_words_for_indices(word_indices.as_slice()),
        CandidatePolicy::Uniform => {
            let ids = dedup_word_indices(word_indices);
            proof {
                assert forall|k: int| 0 <= k < ids@.len() implies ids@[k].0 < index.texts().len() by {
                    assert(ids@.to_set().contains(ids@[k]));
                    assert(word_indices@.to_set().contains(ids@[k]));
                }
            }
            let r = index.get_words_for_indices(ids.as_slice());
            proof {
                let a = texts_of_ids(index.texts(), ids@);
                let b = texts_of_ids(index.texts(), word_indices@);
                assert forall|x: int, y: int| 0 <= x < a.len() && 0 <= y < a.len() && x != y implies a[x] != a[y] by {
                    index.lemma_id_of_text(ids@[x].0 as int);
                    index.lemma_id_of_text(ids@[y].0 as int);
                    assert(ids@[x] != ids@[y]);
                }
                assert forall|t: Seq<char>| a.to_set().contains(t) <==> b.to_set().contains(t) by {
                    if a.to_set().contains(t) {
                        let x = choose|x: int| 0 <= x < a.len() && a[x] == t;
                        assert(ids@.to_set().contains(ids@[x]));
                        assert(word_indices@.to_set().contains(ids@[x]));
                        let y = choose|y: int| 0 <= y < word_indices@.len() && word_indices@[y] == ids@[x];
                        assert(b[y] == t);
                    }
                    if b.to_set().contains(t) {
                        let y = choose|y: int| 0 <= y < b.len() && b[y] == t;
                        assert(word_indices@.to_set().contains(word_indices@[y]));
                        assert(ids@.to_set().contains(word_indices@[y]));
                        let x = choose|x: int| 0 <= x < ids@.len() && ids@[x] == word_indices@[y];
                        assert(a[x] == t);
                    }
                }
                assert(a.to_set() =~= b.to_set());
            }
            r
        },
    }
}

/// Generates a sentence: picks a pivot word at random from the candidates,
/// then two of its occurrences at random (possibly the same one twice), and
/// splices them. Returns `None` when there is no candidate word.
pub fn generate_phrase(
    index: &IndexedPhrases,
    word_indices: &Vec<WordIndex>,
    policy: CandidatePolicy,
    rng: &mut rand::rngs::StdRng,
) -> (r: Option<String>)
    requires
        index.wf(),
        forall|k: int| 0 <= k < word_indices@.len() ==> index.is_common(#[trigger] word_indices@[k].0 as int),
    ensures
        r is None <==> (word_indices@.len() == 0 && forall|w: int| !index.is_common(w)),
        r matches Some(s) ==> exists|w: int|
            is_candidate(*index, w, word_indices@) && is_splice_of_word(*index, w, s@),
{
    let words = candidate_words(index, word_indices, policy);
    if words.len() == 0 {
        proof {
            if word_indices@.len() > 0 {
                let t = index.texts()[word_indices@[0].0 as int];
                assert(texts_of_ids(index.texts(), word_indices@)[0] == t);
                assert(texts_of_ids(index.texts(), word_indices@).contains(t));
                assert(word_texts(words@).len() == 0);
                if policy == CandidatePolicy::Weighted {
                    assert(false);
                } else {
                    assert(texts_of_ids(index.texts(), word_indices@).to_set().contains(t));
                    assert(!word_texts(words@).contains(t));
                    assert(false);
                }
            } else {
                assert forall|w: int| !index.is_common(w) by {
                    if index.is_common(w) {
                        assert(word_texts(words@).contains(index.texts()[w]));
                    }
                }
            }
        }
        return None;
    }
    let k = random_below(rng, words.len());
    let word = words[k];
    let ghost mut w: int = 0;
    proof {
        let t = word.0@;
        assert(word_texts(words@)[k as int] == t);
        assert(word_texts(words@).contains(t));
        if word_indices@.len() == 0 {
            let c = choose|c: int| index.is_common(c) && index.texts()[c] == t;
            assert(is_candidate(*index, c, word_indices@));
        } else {
            let y: int = if policy == CandidatePolicy::Weighted {
                k as int
            } else {
                assert(word_texts(words@).to_set().contains(t));
                choose|y: int| 0 <= y < word_indices@.len() && texts_of_ids(index.texts(), word_indices@)[y] == t
            };
            assert(texts_of_ids(index.texts(), word_indices@)[y] == t);
            assert(is_candidate(*index, word_indices@[y].0 as int, word_indices@));
            assert(index.is_common(word_indices@[y].0 as int));
        }
        w = choose|w: int| is_candidate(*index, w, word_indices@) && index.texts()[w] == t;
        assert(is_candidate(*index, w, word_indices@) && index.texts()[w] == t);
        if word_indices@.len() > 0 {
            let y = choose|y: int| 0 <= y < word_indices@.len() && word_indices@[y].0 == w;
            assert(index.is_common(word_indices@[y].0 as int));
        }
        assert(index.is_common(w));
        index.lemma_id_of_text(w);
    }
    let phrases = index.get_phrases_with_word_in_common(word);
    let a = random_below(rng, phrases.len());
    let b = random_below(rng, phrases.len());
    let first = phrases[a];
    let second = phrases[b];
    proof {
        assert(word_occurs_at(first.phrase_content@, first.word_pos_in_phrase as int, word.0@));
        assert(word_occurs_at(second.phrase_content@, second.word_pos_in_phrase as int, word.0@));
        let ia = choose|i: int| crate::index::is_word_start(first.phrase_content@, i)
            && crate::index::word_at(first.phrase_content@, i) == word.0@
            && first.word_pos_in_phrase as int == crate::text::byte_offset(first.phrase_content@, i);
        let ib = choose|i: int| crate::index::is_word_start(second.phrase_content@, i)
            && crate::index::word_at(second.phrase_content@, i) == word.0@
            && second.word_pos_in_phrase as int == crate::text::byte_offset(second.phrase_content@, i);
        assert(is_char_boundary_at(first.phrase_content@, ia, first.word_pos_in_phrase as nat));
        assert(is_char_boundary_at(second.phrase_content@, ib, second.word_pos_in_phrase as nat));
    }
    let s = concatenate_indexed_phrases(first, second);
    proof {
        let c1 = content_view(first);
        let c2 = content_view(second);
        assert(contents_view(phrases@)[a as int] == c1);
        assert(contents_view(phrases@)[b as int] == c2);
        assert(contents_view(phrases@).to_set().contains(c1));
        assert(contents_view(phrases@).to_set().contains(c2));
        let ia = choose|i: int| is_char_boundary_at(first.phrase_content@, i, first.word_pos_in_phrase as nat);
        let ib = choose|i: int| is_char_boundary_at(second.phrase_content@, i, second.word_pos_in_phrase as nat);
        assert(s@ == splice_result(c1.0, ia, c2.0, ib));
        assert(is_splice_of_word(*index, w, s@));
    }
    Some(s)
}

} // verus!
