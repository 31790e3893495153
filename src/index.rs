//! The interned text table and the inverted index from words to the phrases
//! that hold them.

use vstd::prelude::*;
use crate::normalize::{normalize_text_into_phrases, normalized_phrases, phrase_texts, segments};
use crate::splice::IndexedPhraseContent;
use crate::text::{
    byte_len, byte_offset, chars_of, has_space_from, is_ascii_space, is_ascii_space_exec,
    lemma_byte_offset_bounded, lemma_byte_offset_step, string_of, utf8_len, utf8_width_exec,
};

verus! {

/// A normalized phrase: lowercase, punctuation replaced by spaces, whitespace
/// runs collapsed, trimmed, with no sentence delimiter in it.
#[derive(PartialEq, Debug, Clone)]
pub struct Phrase(pub String);

impl Phrase {
    pub fn as_str(&self) -> (r: &str)
        ensures
            r@ == self.0@,
    {
        self.0.as_str()
    }
}

impl From<Phrase> for String {
    fn from(phrase: Phrase) -> (r: String) {
        phrase.0
    }
}

impl vstd::std_specs::convert::FromSpecImpl<Phrase> for String {
    open spec fn obeys_from_spec() -> bool {
        true
    }

    open spec fn from_spec(v: Phrase) -> String {
        v.0
    }
}

/// A word known to the index, borrowed from its text table.
#[derive(PartialEq, Eq, Hash, Debug, Copy, Clone)]
pub struct Word<'s>(pub &'s str);

/// The id of an interned text.
#[derive(PartialEq, Eq, Hash, Copy, Clone, Debug)]
pub struct WordIndex(pub usize);

/// One occurrence of a word: the phrase that holds it and the byte offset at
/// which it starts there.
#[derive(PartialEq, Eq, Copy, Clone)]
struct IndexedPhrase {
    interned_phrase_index: usize,
    word_pos_in_phrase: usize,
}

/// What one insertion did: whether a multi-word phrase was indexed, and the
/// ids of the words seen in it, in order and with repeats.
pub struct InsertionResult {
    pub has_inserted_phrase: bool,
    pub word_indices_from_phrase: Vec<WordIndex>,
}

// ---- the words of a phrase ----

/// A word starts at character index `i` of `p`.
pub open spec fn is_word_start(p: Seq<char>, i: int) -> bool {
    0 <= i < p.len() && !is_ascii_space(p[i]) && (i == 0 || is_ascii_space(p[i - 1]))
}

/// Index of the first separator at or after `i`, or the length of `p`.
pub open spec fn word_end(p: Seq<char>, i: int) -> int
    decreases p.len() - i,
{
    if i < 0 || i >= p.len() || is_ascii_space(p[i]) {
        i
    } else {
        word_end(p, i + 1)
    }
}

/// The word of `p` that starts at character index `i`.
pub open spec fn word_at(p: Seq<char>, i: int) -> Seq<char> {
    p.subrange(i, word_end(p, i))
}

/// The start indices of the words of `p` at index `i` or later, in order.
pub open spec fn word_starts_from(p: Seq<char>, i: int) -> Seq<int>
    decreases p.len() - i,
{
    if i < 0 || i >= p.len() {
        Seq::empty()
    } else if is_word_start(p, i) {
        seq![i] + word_starts_from(p, i + 1)
    } else {
        word_starts_from(p, i + 1)
    }
}

/// The words of `p`, in order and with repeats.
pub open spec fn words_of(p: Seq<char>) -> Seq<Seq<char>> {
    word_starts_from(p, 0).map_values(|i: int| word_at(p, i))
}

/// The occurrences that phrase `p`, interned as `pid`, holds of the word `t`.
pub open spec fn occurrences_in(pid: int, p: Seq<char>, t: Seq<char>) -> Set<(int, int)> {
    Set::new(
        |o: (int, int)|
            o.0 == pid && exists|i: int|
                is_word_start(p, i) && word_at(p, i) == t && o.1 == byte_offset(p, i),
    )
}

/// The occurrences of the word `t` in phrase `p`, interned as `pid`, among the
/// words that start before character index `end`.
pub open spec fn occurrences_before(pid: int, p: Seq<char>, t: Seq<char>, end: int) -> Set<(int, int)> {
    Set::new(
        |o: (int, int)|
            o.0 == pid && exists|i: int|
                i < end && is_word_start(p, i) && word_at(p, i) == t && o.1 == byte_offset(p, i),
    )
}

/// The characters of the word that starts at `start`, and the index where it ends.
fn scan_word(cs: &Vec<char>, start: usize) -> (r: (Vec<char>, usize))
    requires
        start <= cs.len(),
    ensures
        r.1 == word_end(cs@, start as int),
        start <= r.1 <= cs.len(),
        r.0@ == cs@.subrange(start as int, r.1 as int),
{
    let mut word: Vec<char> = Vec::new();
    let mut j: usize = start;
    while j < cs.len() && !is_ascii_space_exec(cs[j])
        invariant
            start <= j <= cs.len(),
            word_end(cs@, start as int) == word_end(cs@, j as int),
            word@ == cs@.subrange(start as int, j as int),
        decreases cs.len() - j,
    {
        word.push(cs[j]);
        j = j + 1;
        assert(word@ =~= cs@.subrange(start as int, j as int));
    }
    (word, j)
}

/// A phrase text with a byte offset in it, as a pair of plain values.
pub open spec fn content_view(c: IndexedPhraseContent) -> (Seq<char>, int) {
    (c.phrase_content@, c.word_pos_in_phrase as int)
}

/// The pairs of `cs`, in order.
pub open spec fn contents_view(cs: Seq<IndexedPhraseContent>) -> Seq<(Seq<char>, int)> {
    cs.map_values(|c: IndexedPhraseContent| content_view(c))
}

/// The word `t` starts at byte `pos` of the phrase `p`.
pub open spec fn word_occurs_at(p: Seq<char>, pos: int, t: Seq<char>) -> bool {
    exists|i: int| is_word_start(p, i) && word_at(p, i) == t && pos == byte_offset(p, i)
}

/// Every id in `ids` names a text of `texts`.
pub open spec fn ids_in_range(texts: Seq<Seq<char>>, ids: Seq<WordIndex>) -> bool {
    forall|k: int| 0 <= k < ids.len() ==> ids[k].0 < texts.len()
}

/// The texts of `ws`, in order.
pub open spec fn word_texts(ws: Seq<Word>) -> Seq<Seq<char>> {
    ws.map_values(|w: Word| w.0@)
}

/// The texts that `ids` name, in order.
pub open spec fn texts_of_ids(texts: Seq<Seq<char>>, ids: Seq<WordIndex>) -> Seq<Seq<char>> {
    ids.map_values(|x: WordIndex| texts[x.0 as int])
}

/// The phrases of `ps` that hold a space, in order.
pub open spec fn multi_word(ps: Seq<Seq<char>>) -> Seq<Seq<char>>
    decreases ps.len(),
{
    if ps.len() == 0 {
        Seq::empty()
    } else if ps.last().contains(' ') {
        multi_word(ps.drop_last()).push(ps.last())
    } else {
        multi_word(ps.drop_last())
    }
}

/// The words of all of `ps`, phrase after phrase.
pub open spec fn all_words(ps: Seq<Seq<char>>) -> Seq<Seq<char>>
    decreases ps.len(),
{
    if ps.len() == 0 {
        Seq::empty()
    } else {
        all_words(ps.drop_last()) + words_of(ps.last())
    }
}

/// What indexing one message did: the multi-word phrases it indexed, and the
/// ids of their words, in order and with repeats.
pub struct MessageInsertion {
    pub inserted_phrases: Vec<Phrase>,
    pub word_indices: Vec<WordIndex>,
}

/// Each entry of `word_starts_from(p, i)` is a word start.
pub proof fn lemma_word_starts_are_starts(p: Seq<char>, i: int)
    ensures
        forall|k: int| 0 <= k < word_starts_from(p, i).len() ==> is_word_start(p, #[trigger] word_starts_from(p, i)[k]),
    decreases p.len() - i,
{
    if 0 <= i < p.len() {
        lemma_word_starts_are_starts(p, i + 1);
        if is_word_start(p, i) {
            assert forall|k: int| 0 <= k < word_starts_from(p, i).len() implies is_word_start(p, #[trigger] word_starts_from(p, i)[k]) by {
                if k > 0 {
                    assert(word_starts_from(p, i)[k] == word_starts_from(p, i + 1)[k - 1]);
                }
            }
        }
    }
}

/// The store: every text interned so far, and for each word the set of places
/// where it occurs in multi-word phrases.
pub struct IndexedPhrases {
    indexed_texts: Vec<String>,
    indexed_phrases_by_word: Vec<Vec<IndexedPhrase>>,
}

impl IndexedPhrases {
    /// The interned texts; a text's position is its id.
    pub closed spec fn texts(&self) -> Seq<Seq<char>> {
        self.indexed_texts@.map_values(|s: String| s@)
    }

    closed spec fn occ_list(&self, w: int) -> Seq<IndexedPhrase> {
        self.indexed_phrases_by_word@[w]@
    }

    /// The occurrences of word `w`, as (phrase id, byte offset) pairs.
    pub closed spec fn occurrences(&self, w: int) -> Set<(int, int)> {
        if 0 <= w < self.indexed_phrases_by_word@.len() {
            self.occ_list(w).map_values(
                |o: IndexedPhrase| (o.interned_phrase_index as int, o.word_pos_in_phrase as int),
            ).to_set()
        } else {
            Set::empty()
        }
    }

    /// Word `w` occurs in at least one multi-word phrase.
    pub open spec fn is_common(&self, w: int) -> bool {
        0 <= w < self.texts().len() && !self.occurrences(w).is_empty()
    }

    /// Some common word with an id below `bound` has the text `t`.
    pub open spec fn common_below(&self, t: Seq<char>, bound: int) -> bool {
        exists|w: int| 0 <= w < bound && self.is_common(w) && #[trigger] self.texts()[w] == t
    }

    /// The occurrences of word `w`, as (phrase text, byte offset) pairs.
    pub open spec fn phrase_occurrences(&self, w: int) -> Set<(Seq<char>, int)> {
        Set::new(
            |c: (Seq<char>, int)|
                exists|o: (int, int)| #[trigger] self.occurrences(w).contains(o) && c == (self.texts()[o.0], o.1),
        )
    }

    /// `self` is what inserting phrase `p` into `before` gives: the text table
    /// grows by `p` and its words where they are new, and a multi-word phrase
    /// adds, for each of its words, where that word starts in it.
    pub open spec fn is_insertion_of(&self, before: IndexedPhrases, p: Seq<char>) -> bool {
        &&& self.wf()
        &&& before.texts().len() <= self.texts().len()
        &&& self.texts().take(before.texts().len() as int) == before.texts()
        &&& forall|k: int|
            before.texts().len() <= k < self.texts().len() ==> #[trigger] self.texts()[k] == p || (
            p.contains(' ') && words_of(p).contains(self.texts()[k]))
        &&& self.texts().contains(p)
        &&& forall|t: Seq<char>| words_of(p).contains(t) && p.contains(' ') ==> self.texts().contains(t)
        &&& !p.contains(' ') ==> forall|w: int| #[trigger] self.occurrences(w) == before.occurrences(w)
        &&& p.contains(' ') ==> forall|w: int|
            0 <= w < self.texts().len() ==> #[trigger] self.occurrences(w) == before.occurrences(w).union(
                occurrences_in(self.id_of(p), p, self.texts()[w]),
            )
    }

    /// `self` is what inserting the phrases `ps` one after the other into
    /// `before` gives.
    pub open spec fn is_insertions_of(&self, before: IndexedPhrases, ps: Seq<Seq<char>>) -> bool
        decreases ps.len(),
    {
        if ps.len() == 0 {
            *self == before
        } else {
            exists|mid: IndexedPhrases|
                mid.is_insertions_of(before, ps.drop_last()) && #[trigger] self.is_insertion_of(mid, ps.last())
        }
    }

    /// The id of text `s`, when it was interned.
    pub open spec fn id_of(&self, s: Seq<char>) -> int {
        self.texts().index_of(s)
    }

    closed spec fn occurrence_valid(&self, w: int, o: IndexedPhrase) -> bool {
        let p = self.texts()[o.interned_phrase_index as int];
        &&& o.interned_phrase_index < self.texts().len()
        &&& p.contains(' ')
        &&& exists|i: int|
            is_word_start(p, i) && word_at(p, i) == self.texts()[w] && o.word_pos_in_phrase
                == byte_offset(p, i)
    }

    /// The index's invariant: ids are unique per text, each word's occurrences
    /// are stored once each and point at the word inside a multi-word phrase.
    pub closed spec fn wf(&self) -> bool {
        &&& self.indexed_phrases_by_word@.len() == self.indexed_texts@.len()
        &&& self.texts().no_duplicates()
        &&& forall|w: int|
            0 <= w < self.indexed_texts@.len() ==> {
                &&& self.occ_list(w).no_duplicates()
                &&& forall|k: int|
                    0 <= k < self.occ_list(w).len() ==> self.occurrence_valid(w, self.occ_list(w)[k])
            }
    }

    /// An empty store.
    pub fn new() -> (r: IndexedPhrases)
        ensures
            r.wf(),
            r.texts() == Seq::<Seq<char>>::empty(),
    {
        let r = IndexedPhrases { indexed_texts: Vec::new(), indexed_phrases_by_word: Vec::new() };
        assert(r.texts() =~= Seq::<Seq<char>>::empty());
        r
    }

    /// The texts that `word_indices` name, in the same order and with repeats.
    pub fn get_words_for_indices(&self, word_indices: &[WordIndex]) -> (words: Vec<Word<'_>>)
        requires
            ids_in_range(self.texts(), word_indices@),
        ensures
            word_texts(words@) == texts_of_ids(self.texts(), word_indices@),
    {
        let mut words: Vec<Word> = Vec::new();
        let mut i: usize = 0;
        while i < word_indices.len()
            invariant
                i <= word_indices@.len(),
                ids_in_range(self.texts(), word_indices@),
                word_texts(words@) == texts_of_ids(self.texts(), word_indices@).take(i as int),
            decreases word_indices@.len() - i,
        {
            let id = word_indices[i].0;
            assert(self.texts()[id as int] == self.indexed_texts@[id as int]@);
            let t = self.indexed_texts[id].as_str();
            assert(t@ == self.texts()[word_indices@[i as int].0 as int]);
            let ghost before = words@;
            words.push(Word(t));
            i = i + 1;
            assert(word_texts(words@) =~= word_texts(before).push(t@));
            assert(word_texts(words@) =~= texts_of_ids(self.texts(), word_indices@).take(i as int));
        }
        assert(texts_of_ids(self.texts(), word_indices@).take(i as int) =~= texts_of_ids(self.texts(), word_indices@));
        words
    }

    proof fn lemma_occurrences_empty(&self, w: int)
        requires
            0 <= w < self.indexed_phrases_by_word@.len(),
        ensures
            self.occurrences(w).is_empty() <==> self.occ_list(w).len() == 0,
    {
        let m = self.occ_list(w).map_values(
            |o: IndexedPhrase| (o.interned_phrase_index as int, o.word_pos_in_phrase as int),
        );
        if self.occ_list(w).len() == 0 {
            assert(m.to_set() =~= Set::empty());
        } else {
            assert(m.to_set().contains(m[0]));
        }
    }

    /// Returns the id of `text`, interning it under the next free id when it is new.
    pub fn intern_text(&mut self, text: String) -> (r: usize)
        requires
            old(self).wf(),
        ensures
            final(self).wf(),
            r < final(self).texts().len(),
            final(self).texts()[r as int] == text@,
            old(self).texts().contains(text@) ==> final(self).texts() == old(self).texts(),
            !old(self).texts().contains(text@) ==> final(self).texts() == old(self).texts().push(text@),
            forall|w: int| final(self).occurrences(w) == old(self).occurrences(w),
    {
        let mut i: usize = 0;
        while i < self.indexed_texts.len()
            invariant
                i <= self.indexed_texts@.len(),
                *self == *old(self),
                old(self).wf(),
                forall|k: int| 0 <= k < i ==> self.texts()[k] != text@,
            decreases self.indexed_texts@.len() - i,
        {
            if self.indexed_texts[i] == text {
                assert(self.texts()[i as int] == text@);
                return i;
            }
            i = i + 1;
        }
        let ghost old_self = *self;
        let new_index = self.indexed_texts.len();
        self.indexed_texts.push(text);
        self.indexed_phrases_by_word.push(Vec::new());
        proof {
            assert(self.texts() =~= old_self.texts().push(text@));
            assert(!old_self.texts().contains(text@));
            assert forall|w: int| 0 <= w < old_self.indexed_texts@.len() implies self.occ_list(w)
                == old_self.occ_list(w) by {}
            assert(self.occ_list(new_index as int) =~= Seq::<IndexedPhrase>::empty());
            assert forall|w: int| #[trigger] self.occurrences(w) == old_self.occurrences(w) by {
                if w == new_index {
                    self.lemma_occurrences_empty(w);
                    assert(self.occurrences(w) =~= Set::empty());
                }
            }
            assert forall|w: int, k: int|
                0 <= w < self.indexed_texts@.len() && 0 <= k < self.occ_list(w).len()
                implies self.occurrence_valid(w, self.occ_list(w)[k]) by {
                let o = old_self.occ_list(w)[k];
                assert(old_self.occurrence_valid(w, o));
                assert(self.texts()[o.interned_phrase_index as int] == old_self.texts()[o.interned_phrase_index as int]);
                assert(self.texts()[w] == old_self.texts()[w]);
            }
            assert(self.texts().no_duplicates());
            assert forall|w: int| 0 <= w < self.indexed_texts@.len() implies self.occ_list(w).no_duplicates() by {
                if w < new_index {
                    assert(self.occ_list(w) == old_self.occ_list(w));
                }
            }
        }
        new_index
    }

    /// Records that the word `word_index` starts at byte `word_pos_in_phrase` of
    /// the phrase `phrase_index`; an occurrence already recorded is kept once.
    pub fn link_phrase_to_word(&mut self, phrase_index: usize, word_index: usize, word_pos_in_phrase: usize)
        requires
            old(self).wf(),
            phrase_index < old(self).texts().len(),
            word_index < old(self).texts().len(),
            old(self).texts()[phrase_index as int].contains(' '),
            exists|i: int|
                is_word_start(old(self).texts()[phrase_index as int], i)
                    && word_at(old(self).texts()[phrase_index as int], i) == old(self).texts()[word_index as int]
                    && word_pos_in_phrase == byte_offset(old(self).texts()[phrase_index as int], i),
        ensures
            final(self).wf(),
            final(self).texts() == old(self).texts(),
            forall|w: int|
                #[trigger] final(self).occurrences(w) == if w == word_index {
                    old(self).occurrences(w).insert((phrase_index as int, word_pos_in_phrase as int))
                } else {
                    old(self).occurrences(w)
                },
    {
        let ghost old_self = *self;
        let ghost pair = (phrase_index as int, word_pos_in_phrase as int);
        let occ = IndexedPhrase { interned_phrase_index: phrase_index, word_pos_in_phrase };
        let mut k: usize = 0;
        while k < self.indexed_phrases_by_word[word_index].len()
            invariant
                *self == old_self,
                old_self.wf(),
                occ.interned_phrase_index == phrase_index,
                occ.word_pos_in_phrase == word_pos_in_phrase,
                pair == (phrase_index as int, word_pos_in_phrase as int),
                word_index < self.indexed_phrases_by_word@.len(),
                k <= self.occ_list(word_index as int).len(),
                forall|j: int| 0 <= j < k ==> self.occ_list(word_index as int)[j] != occ,
            decreases self.occ_list(word_index as int).len() - k,
        {
            let o = self.indexed_phrases_by_word[word_index][k];
            assert(o == self.occ_list(word_index as int)[k as int]);
            if o.interned_phrase_index == phrase_index && o.word_pos_in_phrase == word_pos_in_phrase {
                proof {
                    let m = self.occ_list(word_index as int).map_values(
                        |o: IndexedPhrase| (o.interned_phrase_index as int, o.word_pos_in_phrase as int),
                    );
                    assert(m[k as int] == pair);
                    assert(self.occurrences(word_index as int) =~= old_self.occurrences(word_index as int).insert(pair));
                }
                return;
            }
            k = k + 1;
        }
        self.indexed_phrases_by_word[word_index].push(occ);
        proof {
            let w0 = word_index as int;
            assert(self.texts() =~= old_self.texts());
            assert(self.occ_list(w0) =~= old_self.occ_list(w0).push(occ));
            let mo = old_self.occ_list(w0).map_values(
                |o: IndexedPhrase| (o.interned_phrase_index as int, o.word_pos_in_phrase as int),
            );
            let mn = self.occ_list(w0).map_values(
                |o: IndexedPhrase| (o.interned_phrase_index as int, o.word_pos_in_phrase as int),
            );
            assert(mn =~= mo.push(pair));
            mo.lemma_push_to_set_commute(pair);
            assert forall|w: int| #[trigger] self.occurrences(w) == if w == word_index {
                old_self.occurrences(w).insert(pair)
            } else {
                old_self.occurrences(w)
            } by {
                if w != w0 && 0 <= w < self.indexed_phrases_by_word@.len() {
                    assert(self.occ_list(w) == old_self.occ_list(w));
                }
            }
            assert forall|w: int, j: int|
                0 <= w < self.indexed_texts@.len() && 0 <= j < self.occ_list(w).len()
                implies self.occurrence_valid(w, self.occ_list(w)[j]) by {
                if w != w0 || j < old_self.occ_list(w).len() {
                    assert(self.occ_list(w)[j] == old_self.occ_list(w)[j]);
                    assert(old_self.occurrence_valid(w, old_self.occ_list(w)[j]));
                }
            }
            assert forall|w: int| 0 <= w < self.indexed_texts@.len() implies self.occ_list(w).no_duplicates() by {
                if w != w0 {
                    assert(self.occ_list(w) == old_self.occ_list(w));
                }
            }
        }
    }

    /// The words that occur in at least one multi-word phrase, each once.
    pub fn get_common_words(&self) -> (r: Vec<Word<'_>>)
        requires
            self.wf(),
        ensures
            word_texts(r@).no_duplicates(),
            forall|t: Seq<char>|
                word_texts(r@).contains(t) <==> exists|w: int| self.is_common(w) && self.texts()[w] == t,
    {
        let mut r: Vec<Word> = Vec::new();
        let mut i: usize = 0;
        while i < self.indexed_texts.len()
            invariant
                self.wf(),
                i <= self.indexed_texts@.len(),
                word_texts(r@).no_duplicates(),
                forall|k: int| 0 <= k < r@.len() ==> self.common_below(r@[k].0@, i as int),
                forall|w: int| 0 <= w < i && self.is_common(w) ==> word_texts(r@).contains(#[trigger] self.texts()[w]),
            decreases self.indexed_texts@.len() - i,
        {
            proof {
                self.lemma_occurrences_empty(i as int);
            }
            if self.indexed_phrases_by_word[i].len() > 0 {
                let t = self.indexed_texts[i].as_str();
                let ghost before = r@;
                proof {
                    assert(t@ == self.texts()[i as int]);
                    assert forall|k: int| 0 <= k < before.len() implies word_texts(before)[k] != t@ by {
                        assert(self.common_below(before[k].0@, i as int));
                        let w = choose|w: int| 0 <= w < i && self.is_common(w) && #[trigger] self.texts()[w] == before[k].0@;
                        assert(self.texts()[w] != self.texts()[i as int]);
                    }
                }
                r.push(Word(t));
                assert(word_texts(r@) =~= word_texts(before).push(t@));
                proof {
                    assert forall|w: int| 0 <= w < i + 1 && self.is_common(w) implies word_texts(r@).contains(#[trigger] self.texts()[w]) by {
                        if w < i {
                            let k = choose|k: int| 0 <= k < word_texts(before).len() && word_texts(before)[k] == self.texts()[w];
                            assert(word_texts(r@)[k] == self.texts()[w]);
                        } else {
                            assert(word_texts(r@)[before.len() as int] == self.texts()[w]);
                        }
                    }
                    assert forall|k: int| 0 <= k < r@.len() implies self.common_below(#[trigger] r@[k].0@, i + 1) by {
                        if k == before.len() {
                            assert(self.texts()[i as int] == r@[k].0@);
                        } else {
                            assert(r@[k] == before[k]);
                            assert(self.common_below(before[k].0@, i as int));
                        }
                    }
                }
            }
            i = i + 1;
        }
        proof {
            assert forall|t: Seq<char>|
                word_texts(r@).contains(t) implies exists|w: int| self.is_common(w) && self.texts()[w] == t by {
                let k = choose|k: int| 0 <= k < word_texts(r@).len() && word_texts(r@)[k] == t;
                assert(r@[k].0@ == t);
                assert(self.common_below(r@[k].0@, i as int));
            }
        }
        r
    }

    /// Indexes a phrase. A phrase without a space is a single word: only its
    /// text is interned. Otherwise the phrase text is interned, then each word
    /// of it, and the index records where each word starts in the phrase.
    pub fn insert_phrase(&mut self, phrase: Phrase) -> (r: InsertionResult)
        requires
            old(self).wf(),
        ensures
            final(self).is_insertion_of(*old(self), phrase.0@),
            r.has_inserted_phrase == phrase.0@.contains(' '),
            ids_in_range(final(self).texts(), r.word_indices_from_phrase@),
            !phrase.0@.contains(' ') ==> texts_of_ids(final(self).texts(), r.word_indices_from_phrase@)
                == seq![phrase.0@],
            phrase.0@.contains(' ') ==> texts_of_ids(final(self).texts(), r.word_indices_from_phrase@)
                == words_of(phrase.0@),
    {
        let ghost p = phrase.0@;
        let ghost old_len = self.texts().len();
        let text = phrase.0;
        let cs = chars_of(text.as_str());
        if !has_space_from(&cs, 0) {
            assert(cs@.skip(0) =~= cs@);
            let id = self.intern_text(text);
            let ids = vec![WordIndex(id)];
            proof {
                assert(texts_of_ids(self.texts(), ids@) =~= seq![p]);
                assert(self.texts().take(old_len as int) =~= old(self).texts());
                assert(self.texts().contains(p));
            }
            return InsertionResult { has_inserted_phrase: false, word_indices_from_phrase: ids };
        }
        assert(cs@.skip(0) =~= cs@);
        let total = utf8_len(text.as_str());
        let pid = self.intern_text(text);
        let mut ids: Vec<WordIndex> = Vec::new();
        let ghost mut seen: Seq<int> = Seq::empty();
        let mut i: usize = 0;
        let mut off: usize = 0;
        proof {
            assert(p.take(0) =~= Seq::<char>::empty());
            assert(texts_of_ids(self.texts(), ids@) =~= seen.map_values(|s: int| word_at(p, s)));
            assert forall|w: int| 0 <= w < self.texts().len() implies #[trigger] self.occurrences(w)
                == old(self).occurrences(w).union(occurrences_before(pid as int, p, self.texts()[w], 0)) by {
                assert(occurrences_before(pid as int, p, self.texts()[w], 0) =~= Set::empty());
                assert(self.occurrences(w) =~= old(self).occurrences(w).union(Set::empty()));
            }
        }
        while i < cs.len()
            invariant
                self.wf(),
                old(self).wf(),
                cs@ == p,
                p.contains(' '),
                total == byte_len(p),
                pid < self.texts().len(),
                self.texts()[pid as int] == p,
                i <= cs.len(),
                off == byte_offset(p, i as int),
                old_len == old(self).texts().len(),
                old_len <= self.texts().len(),
                self.texts().take(old_len as int) == old(self).texts(),
                forall|k: int|
                    old_len <= k < self.texts().len() ==> #[trigger] self.texts()[k] == p
                        || words_of(p).contains(self.texts()[k]),
                seen + word_starts_from(p, i as int) == word_starts_from(p, 0),
                forall|s: int| 0 <= s < i && is_word_start(p, s) ==> self.texts().contains(#[trigger] word_at(p, s)),
                ids_in_range(self.texts(), ids@),
                texts_of_ids(self.texts(), ids@) == seen.map_values(|s: int| word_at(p, s)),
                forall|w: int|
                    0 <= w < self.texts().len() ==> #[trigger] self.occurrences(w) == old(self).occurrences(w).union(
                        occurrences_before(pid as int, p, self.texts()[w], i as int),
                    ),
            decreases cs.len() - i,
        {
            let c = cs[i];
            let starts = !is_ascii_space_exec(c) && (i == 0 || is_ascii_space_exec(cs[i - 1]));
            let ghost before = *self;
            let ghost ids_before = ids@;
            if starts {
                let (word_cs, _end) = scan_word(&cs, i);
                let word = string_of(word_cs.as_slice());
                assert(word@ == word_at(p, i as int));
                proof {
                    assert(word_starts_from(p, i as int) == seq![i as int] + word_starts_from(p, i + 1));
                    assert(words_of(p)[seen.len() as int] == word_at(p, i as int));
                }
                let wid = self.intern_text(word);
                let ghost mid = *self;
                proof {
                    assert(mid.texts().take(before.texts().len() as int) =~= before.texts());
                    assert(mid.texts()[pid as int] == mid.texts().take(before.texts().len() as int)[pid as int]);
                    assert(is_word_start(p, i as int));
                }
                self.link_phrase_to_word(pid, wid, off);
                ids.push(WordIndex(wid));
                proof {
                    assert(mid.texts().take(before.texts().len() as int) =~= before.texts());
                    assert(self.texts() == mid.texts());
                    assert(self.texts().take(old_len as int) =~= old(self).texts()) by {
                        assert forall|k: int| 0 <= k < old_len implies self.texts()[k] == old(self).texts()[k] by {
                            assert(self.texts()[k] == before.texts()[k]);
                            assert(before.texts().take(old_len as int)[k] == old(self).texts()[k]);
                        }
                    }
                    assert forall|k: int|
                        old_len <= k < self.texts().len() implies #[trigger] self.texts()[k] == p
                            || words_of(p).contains(self.texts()[k]) by {
                        if k < before.texts().len() {
                            assert(self.texts()[k] == before.texts()[k]);
                        } else {
                            assert(self.texts()[k] == word_at(p, i as int));
                            assert(words_of(p).contains(word_at(p, i as int)));
                        }
                    }
                    assert forall|s0: int| 0 <= s0 < i + 1 && is_word_start(p, s0) implies self.texts().contains(#[trigger] word_at(p, s0)) by {
                        if s0 < i {
                            assert(before.texts().contains(word_at(p, s0)));
                            let x = choose|x: int| 0 <= x < before.texts().len() && before.texts()[x] == word_at(p, s0);
                            assert(self.texts()[x] == before.texts()[x]);
                        } else {
                            assert(self.texts()[wid as int] == word_at(p, s0));
                        }
                    }
                    let ghost seen_old = seen;
                    seen = seen.push(i as int);
                    assert(seen + word_starts_from(p, i + 1) =~= word_starts_from(p, 0));
                    assert forall|k: int| 0 <= k < ids_before.len() implies self.texts()[ids_before[k].0 as int]
                        == before.texts()[ids_before[k].0 as int] by {
                        let x = ids_before[k].0 as int;
                        assert(mid.texts().take(before.texts().len() as int)[x] == before.texts()[x]);
                    }
                    assert(texts_of_ids(self.texts(), ids_before) =~= texts_of_ids(before.texts(), ids_before));
                    assert(texts_of_ids(self.texts(), ids@) =~= texts_of_ids(self.texts(), ids_before).push(self.texts()[wid as int]));
                    assert(seen.map_values(|s: int| word_at(p, s)) =~= seen_old.map_values(|s: int| word_at(p, s)).push(word_at(p, i as int)));
                    assert forall|w: int| 0 <= w < self.texts().len() implies #[trigger] self.occurrences(w)
                        == old(self).occurrences(w).union(occurrences_before(pid as int, p, self.texts()[w], i + 1)) by {
                        let t = self.texts()[w];
                        let nb = occurrences_before(pid as int, p, t, i + 1);
                        let ob = occurrences_before(pid as int, p, t, i as int);
                        if w < before.texts().len() {
                            assert(before.texts()[w] == t);
                            assert(before.occurrences(w) == old(self).occurrences(w).union(ob));
                        } else {
                            assert(old(self).occurrences(w) =~= Set::empty());
                            assert forall|o: (int, int)| !ob.contains(o) by {
                                if ob.contains(o) {
                                    let s0 = choose|s0: int| s0 < i && is_word_start(p, s0) && word_at(p, s0) == t && o.1 == byte_offset(p, s0);
                                    assert(before.texts().contains(word_at(p, s0)));
                                    let x = choose|x: int| 0 <= x < before.texts().len() && before.texts()[x] == word_at(p, s0);
                                    assert(self.texts()[x] == before.texts()[x]);
                                }
                            }
                            assert(ob =~= Set::empty());
                        }
                        if w == wid {
                            assert(nb =~= ob.insert((pid as int, off as int)));
                        } else {
                            assert(t != word_at(p, i as int));
                            assert(nb =~= ob);
                        }
                        assert(self.occurrences(w) =~= old(self).occurrences(w).union(nb));
                    }
                }
            } else {
                proof {
                    assert(!is_word_start(p, i as int));
                    assert(word_starts_from(p, i as int) == word_starts_from(p, i + 1));
                    assert forall|w: int| 0 <= w < self.texts().len() implies #[trigger] self.occurrences(w)
                        == old(self).occurrences(w).union(occurrences_before(pid as int, p, self.texts()[w], i + 1)) by {
                        let t = self.texts()[w];
                        assert(occurrences_before(pid as int, p, t, i + 1) =~= occurrences_before(pid as int, p, t, i as int));
                    }
                }
            }
            proof {
                lemma_byte_offset_step(p, i as int);
                lemma_byte_offset_bounded(p, i + 1);
            }
            off = off + utf8_width_exec(c);
            i = i + 1;
        }
        proof {
            assert(seen =~= word_starts_from(p, 0));
            assert(self.texts().contains(p));
            assert(self.id_of(p) == pid);
            assert forall|t: Seq<char>| words_of(p).contains(t) implies self.texts().contains(t) by {
                let k = choose|k: int| 0 <= k < words_of(p).len() && words_of(p)[k] == t;
                assert(texts_of_ids(self.texts(), ids@)[k] == t);
                assert(self.texts()[ids@[k].0 as int] == t);
            }
            assert forall|w: int| 0 <= w < self.texts().len() implies #[trigger] self.occurrences(w)
                == old(self).occurrences(w).union(occurrences_in(self.id_of(p), p, self.texts()[w])) by {
                let t = self.texts()[w];
                assert(occurrences_before(pid as int, p, t, i as int) =~= occurrences_in(pid as int, p, t));
            }
        }
        InsertionResult { has_inserted_phrase: true, word_indices_from_phrase: ids }
    }

    /// An interned text's id is its position in the table.
    pub proof fn lemma_id_of_text(&self, w: int)
        requires
            self.wf(),
            0 <= w < self.texts().len(),
        ensures
            self.id_of(self.texts()[w]) == w,
    {
        assert(self.texts().contains(self.texts()[w]));
    }

    /// Position of `key` in the text table, if it was interned.
    fn find_text(&self, key: &String) -> (r: Option<usize>)
        requires
            self.wf(),
        ensures
            r is Some <==> self.texts().contains(key@),
            r matches Some(id) ==> id == self.id_of(key@) && id < self.texts().len(),
    {
        let mut i: usize = 0;
        while i < self.indexed_texts.len()
            invariant
                self.wf(),
                i <= self.indexed_texts@.len(),
                forall|k: int| 0 <= k < i ==> self.texts()[k] != key@,
            decreases self.indexed_texts@.len() - i,
        {
            if self.indexed_texts[i] == *key {
                assert(self.texts()[i as int] == key@);
                assert(self.texts().contains(key@));
                return Some(i);
            }
            i = i + 1;
        }
        None
    }

    /// Every place where `word` occurs in an indexed phrase, each once, as the
    /// phrase text and the byte offset at which the word starts there. The
    /// word must occur in at least one multi-word phrase.
    pub fn get_phrases_with_word_in_common(&self, word: Word) -> (r: Vec<IndexedPhraseContent<'_>>)
        requires
            self.wf(),
            exists|w: int| self.is_common(w) && self.texts()[w] == word.0@,
        ensures
            self.is_common(self.id_of(word.0@)),
            r@.len() > 0,
            contents_view(r@).no_duplicates(),
            contents_view(r@).to_set() == self.phrase_occurrences(self.id_of(word.0@)),
            forall|k: int|
                0 <= k < r@.len() ==> word_occurs_at(
                    #[trigger] r@[k].phrase_content@,
                    r@[k].word_pos_in_phrase as int,
                    word.0@,
                ),
    {
        let key = string_of(chars_of(word.0).as_slice());
        let ghost wg = choose|w: int| self.is_common(w) && self.texts()[w] == word.0@;
        proof {
            assert(self.texts().contains(word.0@));
        }
        let found = self.find_text(&key);
        let w = match found {
            Some(w) => w,
            None => {
                return Vec::new();
            }
        };
        proof {
            assert(self.texts()[w as int] == word.0@);
            assert(w == wg);
            self.lemma_occurrences_empty(w as int);
        }
        let ghost list = self.occ_list(w as int);
        let ghost f = |o: IndexedPhrase| (o.interned_phrase_index as int, o.word_pos_in_phrase as int);
        let mut r: Vec<IndexedPhraseContent> = Vec::new();
        let mut k: usize = 0;
        while k < self.indexed_phrases_by_word[w].len()
            invariant
                self.wf(),
                w < self.texts().len(),
                self.texts()[w as int] == word.0@,
                list == self.occ_list(w as int),
                k <= list.len(),
                r@.len() == k,
                forall|j: int|
                    0 <= j < k ==> content_view(#[trigger] r@[j]) == (
                        self.texts()[list[j].interned_phrase_index as int],
                        list[j].word_pos_in_phrase as int,
                    ),
            decreases list.len() - k,
        {
            let o = self.indexed_phrases_by_word[w][k];
            assert(o == list[k as int]);
            assert(self.occurrence_valid(w as int, o));
            let t = self.indexed_texts[o.interned_phrase_index].as_str();
            assert(t@ == self.texts()[o.interned_phrase_index as int]);
            r.push(IndexedPhraseContent { phrase_content: t, word_pos_in_phrase: o.word_pos_in_phrase });
            k = k + 1;
        }
        proof {
            let cv = contents_view(r@);
            let m = list.map_values(f);
            assert(self.occurrences(w as int) == m.to_set());
            assert forall|j: int| 0 <= j < r@.len() implies word_occurs_at(
                #[trigger] r@[j].phrase_content@, r@[j].word_pos_in_phrase as int, word.0@) by {
                assert(self.occurrence_valid(w as int, list[j]));
            }
            assert forall|a: int, b: int| 0 <= a < cv.len() && 0 <= b < cv.len() && a != b implies cv[a] != cv[b] by {
                assert(content_view(r@[a]) == cv[a]);
                assert(content_view(r@[b]) == cv[b]);
                assert(self.occurrence_valid(w as int, list[a]));
                assert(self.occurrence_valid(w as int, list[b]));
                assert(list[a] != list[b]);
            }
            assert forall|c: (Seq<char>, int)| cv.to_set().contains(c) <==> self.phrase_occurrences(w as int).contains(c) by {
                if cv.to_set().contains(c) {
                    let j = choose|j: int| 0 <= j < cv.len() && cv[j] == c;
                    assert(content_view(r@[j]) == cv[j]);
                    assert(m[j] == f(list[j]));
                    assert(self.occurrences(w as int).contains(m[j]));
                }
                if self.phrase_occurrences(w as int).contains(c) {
                    let o = choose|o: (int, int)| #[trigger] self.occurrences(w as int).contains(o) && c == (self.texts()[o.0], o.1);
                    let j = choose|j: int| 0 <= j < m.len() && m[j] == o;
                    assert(content_view(r@[j]) == cv[j]);
                    assert(cv.contains(c));
                }
            }
            assert(cv.to_set() =~= self.phrase_occurrences(w as int));
        }
        r
    }
}

/// Inserting the same phrase a second time changes nothing: the text table and
/// every word's set of occurrences stay as the first insertion left them.
pub proof fn lemma_insert_phrase_idempotent(
    s0: IndexedPhrases,
    s1: IndexedPhrases,
    s2: IndexedPhrases,
    p: Seq<char>,
)
    requires
        s0.wf(),
        s1.is_insertion_of(s0, p),
        s2.is_insertion_of(s1, p),
    ensures
        s2.texts() == s1.texts(),
        forall|w: int| 0 <= w < s2.texts().len() ==> #[trigger] s2.occurrences(w) == s1.occurrences(w),
{
    let n1 = s1.texts().len();
    if s2.texts().len() > n1 {
        let k = n1 as int;
        let t = s2.texts()[k];
        assert(s1.texts().contains(t)) by {
            if t != p {
                assert(words_of(p).contains(t));
            }
        }
        if s1.texts().contains(t) {
            let x = choose|x: int| 0 <= x < n1 && s1.texts()[x] == t;
            assert(s2.texts().take(n1 as int)[x] == s2.texts()[x]);
        }
    }
    assert(s2.texts() =~= s2.texts().take(n1 as int));
    if p.contains(' ') {
        assert forall|w: int| 0 <= w < s2.texts().len() implies #[trigger] s2.occurrences(w) == s1.occurrences(w) by {
            let extra = occurrences_in(s2.id_of(p), p, s2.texts()[w]);
            assert(s1.occurrences(w) == s0.occurrences(w).union(occurrences_in(s1.id_of(p), p, s1.texts()[w])));
            assert(s2.occurrences(w) =~= s1.occurrences(w).union(extra));
        }
    }
}

/// An insertion keeps every common word common and keeps the text table as a prefix.
pub proof fn lemma_insertion_keeps_common(s1: IndexedPhrases, s0: IndexedPhrases, p: Seq<char>)
    requires
        s1.is_insertion_of(s0, p),
    ensures
        forall|w: int| s0.is_common(w) ==> #[trigger] s1.is_common(w),
        forall|w: int| 0 <= w < s0.texts().len() ==> #[trigger] s1.texts()[w] == s0.texts()[w],
{
    assert forall|w: int| 0 <= w < s0.texts().len() implies #[trigger] s1.texts()[w] == s0.texts()[w] by {
        assert(s1.texts().take(s0.texts().len() as int)[w] == s1.texts()[w]);
    }
    assert forall|w: int| s0.is_common(w) implies #[trigger] s1.is_common(w) by {
        let o = s0.occurrences(w).choose();
        assert(s0.occurrences(w).contains(o));
        assert(s1.occurrences(w).contains(o));
    }
}

/// After a multi-word phrase is inserted, each of its words is common.
pub proof fn lemma_inserted_words_common(s1: IndexedPhrases, s0: IndexedPhrases, p: Seq<char>, w: int)
    requires
        s1.is_insertion_of(s0, p),
        p.contains(' '),
        0 <= w < s1.texts().len(),
        words_of(p).contains(s1.texts()[w]),
    ensures
        s1.is_common(w),
{
    let t = s1.texts()[w];
    let k = choose|k: int| 0 <= k < words_of(p).len() && words_of(p)[k] == t;
    let i = word_starts_from(p, 0)[k];
    lemma_word_starts_are_starts(p, 0);
    assert(is_word_start(p, i) && word_at(p, i) == t);
    let o = (s1.id_of(p), byte_offset(p, i) as int);
    assert(occurrences_in(s1.id_of(p), p, t).contains(o));
    assert(s1.occurrences(w).contains(o));
}

impl IndexedPhrases {
    /// Normalizes a message and inserts each of its phrases. Reports the
    /// multi-word phrases, which the index now holds, and the ids of their
    /// words; every such id is a common word.
    pub fn insert_text(&mut self, text: String) -> (r: MessageInsertion)
        requires
            old(self).wf(),
        ensures
            final(self).wf(),
            final(self).is_insertions_of(*old(self), normalized_phrases(segments(text@))),
            phrase_texts(r.inserted_phrases@) == multi_word(normalized_phrases(segments(text@))),
            ids_in_range(final(self).texts(), r.word_indices@),
            texts_of_ids(final(self).texts(), r.word_indices@) == all_words(phrase_texts(r.inserted_phrases@)),
            forall|k: int| 0 <= k < r.word_indices@.len() ==> final(self).is_common(#[trigger] r.word_indices@[k].0 as int),
    {
        let ghost ps = normalized_phrases(segments(text@));
        let phrases = normalize_text_into_phrases(text);
        let mut inserted: Vec<Phrase> = Vec::new();
        let mut ids: Vec<WordIndex> = Vec::new();
        let mut k: usize = 0;
        assert(phrase_texts(phrases@).take(0) =~= Seq::<Seq<char>>::empty());
        while k < phrases.len()
            invariant
                self.wf(),
                k <= phrases@.len(),
                phrase_texts(phrases@) == ps,
                self.is_insertions_of(*old(self), ps.take(k as int)),
                phrase_texts(inserted@) == multi_word(ps.take(k as int)),
                ids_in_range(self.texts(), ids@),
                texts_of_ids(self.texts(), ids@) == all_words(phrase_texts(inserted@)),
                forall|j: int| 0 <= j < ids@.len() ==> self.is_common(#[trigger] ids@[j].0 as int),
            decreases phrases@.len() - k,
        {
            let phrase = Phrase(phrases[k].0.clone());
            let ghost p = phrases@[k as int].0@;
            assert(phrase.0@ == p);
            assert(phrase_texts(phrases@)[k as int] == p);
            let ghost before = *self;
            let ghost ids_before = ids@;
            let ghost ins_before = inserted@;
            let res = self.insert_phrase(Phrase(phrase.0.clone()));
            proof {
                assert(ps.take(k + 1).drop_last() =~= ps.take(k as int));
                assert(ps.take(k + 1).last() == p);
                assert(before.is_insertions_of(*old(self), ps.take(k + 1).drop_last()));
                assert(self.is_insertion_of(before, ps.take(k + 1).last()));
                assert(self.is_insertions_of(*old(self), ps.take(k + 1)));
                lemma_insertion_keeps_common(*self, before, p);
                assert(texts_of_ids(self.texts(), ids_before) =~= texts_of_ids(before.texts(), ids_before));
            }
            if res.has_inserted_phrase {
                let mut j: usize = 0;
                let new_ids = res.word_indices_from_phrase;
                while j < new_ids.len()
                    invariant
                        j <= new_ids@.len(),
                        ids_in_range(self.texts(), new_ids@),
                        ids_in_range(self.texts(), ids@),
                        ids@ == ids_before + new_ids@.take(j as int),
                    decreases new_ids@.len() - j,
                {
                    ids.push(new_ids[j]);
                    j = j + 1;
                    assert(ids@ =~= ids_before + new_ids@.take(j as int));
                }
                inserted.push(phrase);
                proof {
                    assert(new_ids@.take(j as int) =~= new_ids@);
                    assert(phrase_texts(inserted@) =~= phrase_texts(ins_before).push(p));
                    assert(phrase_texts(inserted@).drop_last() =~= phrase_texts(ins_before));
                    assert(texts_of_ids(self.texts(), ids@) =~= texts_of_ids(self.texts(), ids_before) + texts_of_ids(self.texts(), new_ids@));
                    assert forall|m: int| 0 <= m < ids@.len() implies self.is_common(#[trigger] ids@[m].0 as int) by {
                        if m >= ids_before.len() {
                            let x = new_ids@[m - ids_before.len()].0 as int;
                            assert(ids@[m] == new_ids@[m - ids_before.len()]);
                            assert(texts_of_ids(self.texts(), new_ids@)[m - ids_before.len()] == self.texts()[x]);
                            assert(words_of(p).contains(self.texts()[x]));
                            lemma_inserted_words_common(*self, before, p, x);
                        } else {
                            assert(ids@[m] == ids_before[m]);
                        }
                    }
                }
            }
            k = k + 1;
        }
        assert(ps.take(k as int) =~= ps);
        MessageInsertion { inserted_phrases: inserted, word_indices: ids }
    }
}

} // verus!
