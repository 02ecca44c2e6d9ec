//! Splitting a text into sentences.
//!
//! A sentence ends with a terminator that stands outside every quotation.
//! Quotations nest, and a counter keeps the depth: each opening mark raises
//! it and each closing mark lowers it, whichever opening mark it answers.
//! The counter is not held at zero, so a closing mark without an opening one
//! leaves the depth negative and no terminator after it ends a sentence
//! until an opening mark makes up for it.

use crate::text::{chars_of, string_of, trim_bounds, trimmed};
use vstd::prelude::*;

verus! {

/// Whether a character ends a sentence: the ideographic full stop, the line
/// feed, the fullwidth exclamation mark and the fullwidth question mark.
pub open spec fn is_terminator(c: char) -> bool {
    c == '\u{3002}' || c == '\n' || c == '\u{ff01}' || c == '\u{ff1f}'
}

/// Whether a character opens a quotation: the left corner bracket, the left
/// white corner bracket and the fullwidth left parenthesis.
pub open spec fn is_open_quote(c: char) -> bool {
    c == '\u{300c}' || c == '\u{300e}' || c == '\u{ff08}'
}

/// Whether a character closes a quotation: the right corner bracket, the
/// right white corner bracket and the fullwidth right parenthesis.
pub open spec fn is_close_quote(c: char) -> bool {
    c == '\u{300d}' || c == '\u{300f}' || c == '\u{ff09}'
}

/// What is known after reading a text from its start.
pub struct Scan {
    /// Opening marks read less closing marks read.
    pub depth: int,
    /// The characters read since the last sentence ended.
    pub pending: Seq<char>,
    /// The sentences that have ended, in order.
    pub sentences: Seq<Seq<char>>,
}

/// The state after reading all of `text`.
pub open spec fn scan(text: Seq<char>) -> Scan
    decreases text.len(),
{
    if text.len() == 0 {
        Scan { depth: 0, pending: Seq::empty(), sentences: Seq::empty() }
    } else {
        let before = scan(text.drop_last());
        let c = text.last();
        let pending = before.pending.push(c);
        if is_open_quote(c) {
            Scan { depth: before.depth + 1, pending, sentences: before.sentences }
        } else if is_close_quote(c) {
            Scan { depth: before.depth - 1, pending, sentences: before.sentences }
        } else if before.depth == 0 && is_terminator(c) {
            let sentence = trimmed(pending);
            Scan {
                depth: 0,
                pending: Seq::empty(),
                sentences: if sentence.len() > 0 {
                    before.sentences.push(sentence)
                } else {
                    before.sentences
                },
            }
        } else {
            Scan { depth: before.depth, pending, sentences: before.sentences }
        }
    }
}

/// The sentences of a text: each span up to and with a terminator outside
/// every quotation, without the white space around it, unless nothing is
/// left of it. What follows the last such terminator is no sentence.
pub open spec fn sentences_of(text: Seq<char>) -> Seq<Seq<char>> {
    scan(text).sentences
}

/// Every sentence of a text has at least one character, and neither starts
/// nor ends with white space.
pub proof fn law_sentences_are_trimmed(text: Seq<char>)
    ensures
        forall|k: int|
            0 <= k < sentences_of(text).len() ==> {
                let sentence = #[trigger] sentences_of(text)[k];
                &&& sentence.len() > 0
                &&& !crate::text::is_white_space(sentence[0])
                &&& !crate::text::is_white_space(sentence.last())
            },
    decreases text.len(),
{
    if text.len() > 0 {
        let before = scan(text.drop_last());
        law_sentences_are_trimmed(text.drop_last());
        crate::text::law_trimmed_is_the_middle(before.pending.push(text.last()));
        assert forall|k: int| 0 <= k < sentences_of(text).len() implies {
            let sentence = #[trigger] sentences_of(text)[k];
            &&& sentence.len() > 0
            &&& !crate::text::is_white_space(sentence[0])
            &&& !crate::text::is_white_space(sentence.last())
        } by {
            if k < before.sentences.len() {
                assert(sentences_of(text)[k] == sentences_of(text.drop_last())[k]);
            }
        }
    }
}

fn terminator(c: char) -> (b: bool)
    ensures
        b == is_terminator(c),
{
    c == '\u{3002}' || c == '\n' || c == '\u{ff01}' || c == '\u{ff1f}'
}

fn open_quote(c: char) -> (b: bool)
    ensures
        b == is_open_quote(c),
{
    c == '\u{300c}' || c == '\u{300e}' || c == '\u{ff08}'
}

fn close_quote(c: char) -> (b: bool)
    ensures
        b == is_close_quote(c),
{
    c == '\u{300d}' || c == '\u{300f}' || c == '\u{ff09}'
}

/// Splits a text into its sentences.
pub fn iterate_sentences(text: &str) -> (sentences: Vec<String>)
    ensures
        sentences.deep_view() == sentences_of(text@),
{
    let chars: Vec<char> = chars_of(text);
    let mut sentences: Vec<String> = Vec::new();
    let mut depth: i128 = 0;
    let mut start: usize = 0;
    let mut i: usize = 0;
    assert(chars@.take(0) =~= Seq::<char>::empty());
    assert(sentences.deep_view() =~= Seq::<Seq<char>>::empty());
    while i < chars.len()
        invariant
            start <= i <= chars.len(),
            -(i as int) <= depth <= i as int,
            depth == scan(chars@.take(i as int)).depth,
            chars@.subrange(start as int, i as int) == scan(chars@.take(i as int)).pending,
            sentences.deep_view() == scan(chars@.take(i as int)).sentences,
        decreases chars.len() - i,
    {
        let c: char = chars[i];
        let ghost before = scan(chars@.take(i as int));
        proof {
            let read = chars@.take(i as int + 1);
            assert(read.drop_last() =~= chars@.take(i as int));
            assert(read.last() == c);
            assert(chars@.subrange(start as int, i as int + 1) =~= before.pending.push(c));
        }
        if open_quote(c) {
            depth = depth + 1;
        } else if close_quote(c) {
            depth = depth - 1;
        } else if depth == 0 && terminator(c) {
            let (a, b) = trim_bounds(&chars, start, i + 1);
            if a < b {
                let sentence: String = string_of(&chars, a, b);
                let ghost earlier = sentences.deep_view();
                sentences.push(sentence);
                assert(sentences.deep_view() =~= earlier.push(sentence@));
            }
            start = i + 1;
            assert(chars@.subrange(start as int, i as int + 1) =~= Seq::<char>::empty());
        }
        i += 1;
    }
    assert(chars@.take(i as int) =~= chars@);
    sentences
}

} // verus!
