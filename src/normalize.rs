//! Turning raw message text into normalized phrases.

use vstd::prelude::*;
use crate::index::Phrase;
use crate::text::{chars_of, is_white_space, string_of};

verus! {

/// A sentence delimiter: the text is split into phrases at these.
pub open spec fn is_delimiter(c: char) -> bool {
    c == '.' || c == ';'
}

/// The pieces of `s` between delimiters, empty ones included.
pub open spec fn pieces(s: Seq<char>) -> Seq<Seq<char>>
    decreases s.len(),
{
    if s.len() == 0 {
        seq![Seq::empty()]
    } else {
        let prev = pieces(s.drop_last());
        if is_delimiter(s.last()) {
            prev.push(Seq::empty())
        } else {
            prev.update(prev.len() - 1, prev.last().push(s.last()))
        }
    }
}

/// `segs` without its empty entries, in order.
pub open spec fn keep_nonempty(segs: Seq<Seq<char>>) -> Seq<Seq<char>>
    decreases segs.len(),
{
    if segs.len() == 0 {
        Seq::empty()
    } else if segs.last().len() > 0 {
        keep_nonempty(segs.drop_last()).push(segs.last())
    } else {
        keep_nonempty(segs.drop_last())
    }
}

/// The non-empty pieces of `s` between sentence delimiters.
pub open spec fn segments(s: Seq<char>) -> Seq<Seq<char>> {
    keep_nonempty(pieces(s))
}

/// ASCII punctuation, the `[[:punct:]]` class: `!` to `/`, `:` to `@`, `[` to
/// the backquote, and `{` to `~`.
pub open spec fn is_ascii_punctuation(c: char) -> bool {
    ('!' <= c && c <= '/') || (':' <= c && c <= '@') || ('[' <= c && c <= '`') || ('{' <= c
        && c <= '~')
}

/// `s` with every ASCII punctuation character replaced by a space.
pub open spec fn punctuation_to_space(s: Seq<char>) -> Seq<char> {
    s.map_values(|c: char| if is_ascii_punctuation(c) { ' ' } else { c })
}

/// `s` without its leading white space.
pub open spec fn trim_start(s: Seq<char>) -> Seq<char>
    decreases s.len(),
{
    if s.len() > 0 && is_white_space(s[0]) {
        trim_start(s.skip(1))
    } else {
        s
    }
}

/// `s` without its trailing white space.
pub open spec fn trim_end(s: Seq<char>) -> Seq<char>
    decreases s.len(),
{
    if s.len() > 0 && is_white_space(s.last()) {
        trim_end(s.drop_last())
    } else {
        s
    }
}

/// `s` without leading and trailing white space.
pub open spec fn trimmed(s: Seq<char>) -> Seq<char> {
    trim_end(trim_start(s))
}

/// From index `i` of `s` on: every run of two or more white-space characters
/// becomes one space; a lone white-space character stays as it is.
pub open spec fn collapse_from(s: Seq<char>, i: int) -> Seq<char>
    decreases s.len() - i,
{
    if i < 0 || i >= s.len() {
        Seq::empty()
    } else if is_white_space(s[i]) && i > 0 && is_white_space(s[i - 1]) {
        collapse_from(s, i + 1)
    } else if is_white_space(s[i]) && i + 1 < s.len() && is_white_space(s[i + 1]) {
        seq![' '] + collapse_from(s, i + 1)
    } else {
        seq![s[i]] + collapse_from(s, i + 1)
    }
}

/// `s` with every run of two or more white-space characters replaced by one space.
pub open spec fn collapse_white_space(s: Seq<char>) -> Seq<char> {
    collapse_from(s, 0)
}

/// What lowercasing `s` gives (`str::to_lowercase`).
pub uninterp spec fn lower_of(s: Seq<char>) -> Seq<char>;

/// A segment with punctuation spaced out, trimmed and its white space collapsed.
pub open spec fn cleaned(seg: Seq<char>) -> Seq<char> {
    collapse_white_space(trimmed(punctuation_to_space(seg)))
}

/// The phrase that a segment normalizes to.
pub open spec fn normal_form(seg: Seq<char>) -> Seq<char> {
    lower_of(cleaned(seg))
}

/// The normal forms of `segs` that are not empty, in order.
pub open spec fn normalized_phrases(segs: Seq<Seq<char>>) -> Seq<Seq<char>>
    decreases segs.len(),
{
    if segs.len() == 0 {
        Seq::empty()
    } else if normal_form(segs.last()).len() > 0 {
        normalized_phrases(segs.drop_last()).push(normal_form(segs.last()))
    } else {
        normalized_phrases(segs.drop_last())
    }
}

/// The texts of `ps`, in order.
pub open spec fn phrase_texts(ps: Seq<Phrase>) -> Seq<Seq<char>> {
    ps.map_values(|p: Phrase| p.0@)
}

/// The texts of `ss`, in order.
pub open spec fn string_texts(ss: Seq<String>) -> Seq<Seq<char>> {
    ss.map_values(|s: String| s@)
}

/// Relies on the `regex` crate: `[[:punct:]]` matches exactly the ASCII
/// punctuation characters, and `replace_all` puts the literal replacement in
/// place of each match.
#[verifier::external_body]
fn normalize_punctuation_to_whitespace(text: &str) -> (r: String)
    ensures
        r@ == punctuation_to_space(text@),
{
    let pattern = regex::Regex::new(r"[[:punct:]]").expect("valid pattern");
    pattern.replace_all(text, " ").into_owned()
}

/// Relies on `str::trim`: it removes leading and trailing characters with the
/// Unicode `White_Space` property.
#[verifier::external_body]
fn trim_text(text: &str) -> (r: String)
    ensures
        r@ == trimmed(text@),
{
    text.trim().to_string()
}

/// Relies on the `regex` crate: `\s` matches the Unicode `White_Space`
/// characters, `\s\s+` matches greedily, and `replace_all` replaces the
/// leftmost non-overlapping matches, so each maximal run of two or more
/// becomes one space.
#[verifier::external_body]
fn collapse_whitespace_runs(text: &str) -> (r: String)
    ensures
        r@ == collapse_white_space(text@),
{
    let pattern = regex::Regex::new(r"\s\s+").expect("valid pattern");
    pattern.replace_all(text, " ").into_owned()
}

/// Relies on `str::to_lowercase`: the result depends on the characters alone,
/// and the empty string stays empty.
#[verifier::external_body]
fn lowercase(text: &str) -> (r: String)
    ensures
        r@ == lower_of(text@),
        text@.len() == 0 ==> r@.len() == 0,
{
    text.to_lowercase()
}

/// Trims `text` and collapses each run of two or more white-space characters
/// into one space.
fn normalize_extra_whitespaces(text: &str) -> (r: String)
    ensures
        r@ == collapse_white_space(trimmed(text@)),
{
    let t = trim_text(text);
    collapse_whitespace_runs(t.as_str())
}

/// A segment with punctuation replaced by spaces, trimmed, and its white-space
/// runs collapsed; everything of the normalization but lowercasing.
pub fn clean_segment(segment: &str) -> (r: String)
    ensures
        r@ == cleaned(segment@),
{
    let spaced = normalize_punctuation_to_whitespace(segment);
    normalize_extra_whitespaces(spaced.as_str())
}

/// The non-empty pieces of `text` between periods and semicolons, in order.
pub fn split_text_at_periods(text: &str) -> (r: Vec<String>)
    ensures
        string_texts(r@) == segments(text@),
{
    let cs = chars_of(text);
    let mut out: Vec<String> = Vec::new();
    let mut cur: Vec<char> = Vec::new();
    let ghost mut done: Seq<Seq<char>> = Seq::empty();
    let mut i: usize = 0;
    assert(cs@.take(0) =~= Seq::<char>::empty());
    assert(pieces(Seq::<char>::empty()) =~= done.push(cur@));
    while i < cs.len()
        invariant
            cs@ == text@,
            i <= cs.len(),
            pieces(cs@.take(i as int)) == done.push(cur@),
            string_texts(out@) == keep_nonempty(done),
        decreases cs.len() - i,
    {
        let c = cs[i];
        assert(cs@.take(i + 1).drop_last() =~= cs@.take(i as int));
        assert(cs@.take(i + 1).last() == c);
        if c == '.' || c == ';' {
            let ghost old_done = done;
            if cur.len() > 0 {
                let piece = string_of(cur.as_slice());
                out.push(piece);
                proof {
                    assert(old_done.push(cur@).drop_last() =~= old_done);
                }
                assert(string_texts(out@) =~= keep_nonempty(old_done).push(cur@));
            } else {
                proof {
                    assert(old_done.push(cur@).drop_last() =~= old_done);
                }
            }
            proof {
                done = done.push(cur@);
            }
            cur = Vec::new();
            assert(pieces(cs@.take(i + 1)) =~= done.push(cur@));
        } else {
            cur.push(c);
            assert(pieces(cs@.take(i + 1)) =~= done.push(cur@));
        }
        i = i + 1;
    }
    assert(cs@.take(i as int) =~= cs@);
    let ghost old_done = done;
    proof {
        assert(old_done.push(cur@).drop_last() =~= old_done);
    }
    if cur.len() > 0 {
        let piece = string_of(cur.as_slice());
        out.push(piece);
        assert(string_texts(out@) =~= keep_nonempty(old_done).push(cur@));
    }
    out
}

/// Splits `text` at periods and semicolons and normalizes each piece:
/// punctuation becomes spaces, the piece is trimmed, white-space runs are
/// collapsed and letters are lowercased. Pieces that end up empty are dropped.
pub fn normalize_text_into_phrases(text: String) -> (r: Vec<Phrase>)
    ensures
        phrase_texts(r@) == normalized_phrases(segments(text@)),
{
    let segs = split_text_at_periods(text.as_str());
    let mut out: Vec<Phrase> = Vec::new();
    let mut k: usize = 0;
    while k < segs.len()
        invariant
            k <= segs.len(),
            string_texts(segs@) == segments(text@),
            phrase_texts(out@) == normalized_phrases(string_texts(segs@).take(k as int)),
        decreases segs.len() - k,
    {
        let cleaned_text = clean_segment(segs[k].as_str());
        let lowered = lowercase(cleaned_text.as_str());
        let ghost seg = string_texts(segs@)[k as int];
        assert(segs[k as int]@ == seg);
        assert(string_texts(segs@).take(k + 1).drop_last() =~= string_texts(segs@).take(k as int));
        assert(string_texts(segs@).take(k + 1).last() == seg);
        let n = chars_of(lowered.as_str()).len();
        if n > 0 {
            let ghost before = out@;
            out.push(Phrase(lowered));
            assert(phrase_texts(out@) =~= phrase_texts(before).push(normal_form(seg)));
        }
        k = k + 1;
    }
    assert(string_texts(segs@).take(k as int) =~= string_texts(segs@));
    out
}

} // verus!
