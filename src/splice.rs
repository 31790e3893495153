//! Splicing two phrases together at a shared word.

use vstd::prelude::*;
use crate::text::{
    byte_offset, chars_of, has_space_from, is_char_boundary, is_char_boundary_at, lemma_boundary_unique,
    lemma_byte_offset_step, lemma_byte_offset_strict, string_of, utf8_width_exec,
};

verus! {

/// A phrase text together with the byte offset at which a word of interest starts.
#[derive(PartialEq, Eq, Hash, Debug, Copy, Clone)]
pub struct IndexedPhraseContent<'s> {
    pub phrase_content: &'s str,
    pub word_pos_in_phrase: usize,
}

/// Everything of `a` before character index `ia`, followed by everything of `b`
/// from character index `ib` on.
pub open spec fn spliced(a: Seq<char>, ia: int, b: Seq<char>, ib: int) -> Seq<char> {
    a.take(ia) + b.skip(ib)
}

/// The shared word opens the first phrase and closes the second one, so the
/// second phrase would add nothing but the word itself.
pub open spec fn needs_swap(pos_a: nat, b: Seq<char>, ib: int) -> bool {
    pos_a == 0 && !b.skip(ib).contains(' ')
}

/// The sentence made of the two occurrences given as text and character index of
/// the shared word, with the tie-break swap applied.
pub open spec fn splice_result(a: Seq<char>, ia: int, b: Seq<char>, ib: int) -> Seq<char> {
    if needs_swap(byte_offset(a, ia), b, ib) {
        spliced(b, ib, a, ia)
    } else {
        spliced(a, ia, b, ib)
    }
}

/// Character index at which the byte offset `pos` of `cs` lies.
fn char_index_of(cs: &Vec<char>, pos: usize) -> (r: usize)
    requires
        is_char_boundary(cs@, pos as nat),
    ensures
        is_char_boundary_at(cs@, r as int, pos as nat),
{
    let ghost j = choose|j: int| is_char_boundary_at(cs@, j, pos as nat);
    let mut i: usize = 0;
    let mut off: usize = 0;
    assert(cs@.take(0) =~= Seq::<char>::empty());
    while off < pos
        invariant
            is_char_boundary_at(cs@, j, pos as nat),
            i <= j <= cs.len(),
            off == byte_offset(cs@, i as int),
            off <= pos,
        decreases j - i,
    {
        proof {
            if j == i {
                assert(false);
            }
            lemma_byte_offset_step(cs@, i as int);
            if i + 1 < j {
                lemma_byte_offset_strict(cs@, i + 1, j);
            }
        }
        off = off + utf8_width_exec(cs[i]);
        i = i + 1;
    }
    proof {
        if i < j {
            lemma_byte_offset_strict(cs@, i as int, j);
        }
    }
    i
}

/// Builds one sentence from two occurrences of a shared word: what comes before
/// the word in the first phrase, then the word and what follows it in the second.
/// When the word opens the first phrase and is the last word of the second one,
/// the two are taken in the other order.
pub fn concatenate_indexed_phrases<'s>(
    first_phrase: IndexedPhraseContent<'s>,
    second_phrase: IndexedPhraseContent<'s>,
) -> (r: String)
    requires
        is_char_boundary(first_phrase.phrase_content@, first_phrase.word_pos_in_phrase as nat),
        is_char_boundary(second_phrase.phrase_content@, second_phrase.word_pos_in_phrase as nat),
    ensures
        forall|ia: int, ib: int|
            is_char_boundary_at(first_phrase.phrase_content@, ia, first_phrase.word_pos_in_phrase as nat)
                && is_char_boundary_at(second_phrase.phrase_content@, ib, second_phrase.word_pos_in_phrase as nat)
                ==> r@ == splice_result(first_phrase.phrase_content@, ia, second_phrase.phrase_content@, ib),
{
    let a = chars_of(first_phrase.phrase_content);
    let b = chars_of(second_phrase.phrase_content);
    let ia = char_index_of(&a, first_phrase.word_pos_in_phrase);
    let ib = char_index_of(&b, second_phrase.word_pos_in_phrase);
    let swap = first_phrase.word_pos_in_phrase == 0 && !has_space_from(&b, ib);
    let (head, head_end, tail, tail_start) = if swap {
        (&b, ib, &a, ia)
    } else {
        (&a, ia, &b, ib)
    };
    let mut out: Vec<char> = Vec::new();
    let mut i: usize = 0;
    while i < head_end
        invariant
            head_end <= head.len(),
            i <= head_end,
            out@ == head@.take(i as int),
        decreases head_end - i,
    {
        out.push(head[i]);
        i = i + 1;
        assert(out@ =~= head@.take(i as int));
    }
    let mut k: usize = tail_start;
    while k < tail.len()
        invariant
            tail_start <= k <= tail.len(),
            out@ == head@.take(head_end as int) + tail@.subrange(tail_start as int, k as int),
        decreases tail.len() - k,
    {
        out.push(tail[k]);
        k = k + 1;
        assert(out@ =~= head@.take(head_end as int) + tail@.subrange(tail_start as int, k as int));
    }
    assert(tail@.subrange(tail_start as int, tail.len() as int) =~= tail@.skip(tail_start as int));
    let r = string_of(out.as_slice());
    proof {
        assert forall|ja: int, jb: int|
            is_char_boundary_at(first_phrase.phrase_content@, ja, first_phrase.word_pos_in_phrase as nat)
                && is_char_boundary_at(second_phrase.phrase_content@, jb, second_phrase.word_pos_in_phrase as nat)
            implies r@ == splice_result(first_phrase.phrase_content@, ja, second_phrase.phrase_content@, jb) by {
            lemma_boundary_unique(a@, ia as int, ja, first_phrase.word_pos_in_phrase as nat);
            lemma_boundary_unique(b@, ib as int, jb, second_phrase.word_pos_in_phrase as nat);
        }
    }
    r
}

} // verus!
