//! Reading the answer of the morphological analyzer.
//!
//! The analyzer stands outside this library. It is given one sentence and
//! finds the words in it, each in its dictionary form. An analyzer may hand
//! out the words themselves. The analyzer that this library reads the output
//! of is a program that answers with one line for each token: the fields of
//! a line are separated by single spaces, and the third field is the
//! dictionary form of the token. A line that starts with `@` gives another
//! reading of the token before it and is passed over, as is a line with
//! fewer than twelve fields and a line whose dictionary form is the
//! analyzer's mark for a space.

use crate::error::KnowledgeError;
use crate::text::{chars_of, cut, line_ranges, lines_of, split_on, split_ranges, string_of};
use vstd::prelude::*;
use vstd::string::StringSliceAdditionalSpecFns;
use vstd::utf8::{decode_utf8, valid_utf8};

verus! {

/// The error of `core::str::from_utf8`.
#[verifier::external_type_specification]
#[verifier::external_body]
pub struct ExUtf8Error(core::str::Utf8Error);

/// `core::str::from_utf8` succeeds on the byte strings that are UTF-8 and on
/// no others, and the text it returns is made of the bytes it was given.
pub assume_specification<'a>[ core::str::from_utf8 ](v: &'a [u8]) -> (r: Result<
    &'a str,
    core::str::Utf8Error,
>)
    ensures
        r is Ok <==> valid_utf8(v@),
        r matches Ok(s) ==> s.spec_bytes() == v@,
;

/// The fewest fields of a line that describes a token.
pub const MIN_FIELDS: usize = 12;

/// The place of the dictionary form among the fields of a line, from 0.
pub const BASE_FORM_FIELD: usize = 2;

/// The dictionary form that the analyzer gives to a space: a backslash and
/// the open box.
pub open spec fn space_marker() -> Seq<char> {
    seq!['\\', '\u{2423}']
}

/// Whether a line gives another reading of the token before it.
pub open spec fn is_alias_line(line: Seq<char>) -> bool {
    line.len() > 0 && line[0] == '@'
}

/// The word that a line of the analyzer's answer stands for, if any.
pub open spec fn token_of_line(line: Seq<char>) -> Option<Seq<char>> {
    let fields = split_on(line, ' ');
    if is_alias_line(line) || fields.len() < MIN_FIELDS || fields[BASE_FORM_FIELD as int]
        == space_marker() {
        None
    } else {
        Some(fields[BASE_FORM_FIELD as int])
    }
}

/// The words that a run of lines stands for, in order.
pub open spec fn tokens_of_lines(lines: Seq<Seq<char>>) -> Seq<Seq<char>>
    decreases lines.len(),
{
    if lines.len() == 0 {
        Seq::empty()
    } else {
        let before = tokens_of_lines(lines.drop_last());
        match token_of_line(lines.last()) {
            Some(token) => before.push(token),
            None => before,
        }
    }
}

/// The words of a sentence, from the text that the analyzer wrote about it.
pub open spec fn tokens_of_output(output: Seq<char>) -> Seq<Seq<char>> {
    tokens_of_lines(lines_of(output))
}

/// Reads the words of a sentence from the text that the analyzer wrote.
pub fn parse_jumanpp_output(output: &str) -> (words: Vec<String>)
    ensures
        words.deep_view() == tokens_of_output(output@),
{
    let chars: Vec<char> = chars_of(output);
    let lines: Vec<(usize, usize)> = line_ranges(&chars);
    let ghost all = cut(chars@, lines@);
    let mut words: Vec<String> = Vec::new();
    let mut k: usize = 0;
    assert(all.take(0) =~= Seq::<Seq<char>>::empty());
    assert(words.deep_view() =~= Seq::<Seq<char>>::empty());
    while k < lines.len()
        invariant
            k <= lines.len(),
            all == cut(chars@, lines@),
            crate::text::ranges_within(lines@, 0, chars.len() as int),
            words.deep_view() == tokens_of_lines(all.take(k as int)),
        decreases lines.len() - k,
    {
        let (a, b) = lines[k];
        let ghost line = chars@.subrange(a as int, b as int);
        proof {
            assert(all.take(k as int + 1).drop_last() =~= all.take(k as int));
            assert(all.take(k as int + 1).last() == line);
        }
        if !(a < b && chars[a] == '@') {
            let fields: Vec<(usize, usize)> = split_ranges(&chars, a, b, ' ');
            assert(cut(chars@, fields@).len() == fields.len());
            if fields.len() >= MIN_FIELDS {
                let (fa, fb) = fields[BASE_FORM_FIELD];
                let ghost form = chars@.subrange(fa as int, fb as int);
                assert(form == split_on(line, ' ')[BASE_FORM_FIELD as int]) by {
                    assert(cut(chars@, fields@)[BASE_FORM_FIELD as int] == form);
                }
                let is_space: bool = fb - fa == 2 && chars[fa] == '\\' && chars[fa + 1]
                    == '\u{2423}';
                proof {
                    if is_space {
                        assert(form =~= space_marker());
                    } else if form == space_marker() {
                        assert(form.len() == 2);
                        assert(form[0] == '\\');
                        assert(form[1] == '\u{2423}');
                    }
                }
                if !is_space {
                    let word: String = string_of(&chars, fa, fb);
                    let ghost earlier = words.deep_view();
                    words.push(word);
                    assert(words.deep_view() =~= earlier.push(word@));
                }
            }
        }
        k += 1;
    }
    assert(all.take(k as int) =~= all);
    words
}

/// What became of one run of an analyzer on a sentence.
#[derive(Clone, Debug)]
pub enum AnalyzerReply {
    /// The analyzer could not be started, or no answer came back.
    Unreachable,
    /// The analyzer is a program that ran and ended.
    Exited {
        /// Whether it reported success when it ended.
        success: bool,
        /// What it wrote.
        output: Vec<u8>,
    },
    /// The analyzer handed out the words of the sentence itself, in their
    /// dictionary forms and in order.
    Words(Vec<String>),
}

impl AnalyzerReply {
    /// The words that the reply gives for its sentence; `None` where the
    /// analyzer was not reached, reported a failure, or wrote bytes that are
    /// not UTF-8.
    pub open spec fn tokens(&self) -> Option<Seq<Seq<char>>> {
        match self {
            AnalyzerReply::Unreachable => None,
            AnalyzerReply::Exited { success, output } => if *success && valid_utf8(output@) {
                Some(tokens_of_output(decode_utf8(output@)))
            } else {
                None
            },
            AnalyzerReply::Words(words) => Some(words.deep_view()),
        }
    }
}

/// A list with the same words.
fn copy_of(words: &Vec<String>) -> (copy: Vec<String>)
    ensures
        copy.deep_view() == words.deep_view(),
{
    let mut copy: Vec<String> = Vec::new();
    let mut k: usize = 0;
    assert(copy.deep_view() =~= words.deep_view().take(0));
    while k < words.len()
        invariant
            k <= words.len(),
            copy.deep_view() == words.deep_view().take(k as int),
        decreases words.len() - k,
    {
        let word: String = words[k].clone();
        let ghost earlier = copy.deep_view();
        copy.push(word);
        k += 1;
        assert(copy.deep_view() =~= earlier.push(word@));
        assert(copy.deep_view() =~= words.deep_view().take(k as int));
    }
    assert(words.deep_view().take(k as int) =~= words.deep_view());
    copy
}

/// The words of a sentence, from what became of the analyzer's run on it.
pub fn tokenize_reply(reply: &AnalyzerReply) -> (r: Result<Vec<String>, KnowledgeError>)
    ensures
        match r {
            Ok(words) => reply.tokens() == Some(words.deep_view()),
            Err(e) => reply.tokens() is None && e is TokenizeError,
        },
{
    match reply {
        AnalyzerReply::Unreachable => Err(KnowledgeError::TokenizeError),
        AnalyzerReply::Exited { success, output } => {
            if !*success {
                return Err(KnowledgeError::TokenizeError);
            }
            match core::str::from_utf8(output.as_slice()) {
                Ok(text) => {
                    proof {
                        vstd::utf8::encode_utf8_decode_utf8(text@);
                    }
                    Ok(parse_jumanpp_output(text))
                },
                Err(_) => Err(KnowledgeError::TokenizeError),
            }
        },
        AnalyzerReply::Words(words) => Ok(copy_of(words)),
    }
}

} // verus!
