//! The frequency index: how common a word is, by its place in a list that
//! starts with the most common word.

use crate::text::{chars_of, cut, line_ranges, lines_of, string_of};
use vstd::prelude::*;

verus! {

/// Whether a list holds a word.
pub open spec fn listed(list: Seq<Seq<char>>, word: Seq<char>) -> bool {
    exists|i: int| 0 <= i < list.len() && list[i] == word
}

/// The last place of a word in a list, counted from 0.
pub open spec fn last_place(list: Seq<Seq<char>>, word: Seq<char>) -> Option<int>
    decreases list.len(),
{
    if list.len() == 0 {
        None
    } else if list.last() == word {
        Some(list.len() - 1)
    } else {
        last_place(list.drop_last(), word)
    }
}

/// The rank of a word in a list: its place, and its last place where the
/// list holds it more than once; the length of the list for a word that it
/// does not hold, which so ranks behind every listed word.
pub open spec fn rank_of(list: Seq<Seq<char>>, word: Seq<char>) -> nat {
    match last_place(list, word) {
        Some(place) => place as nat,
        None => list.len(),
    }
}

/// Whether `rank` is the last place of the word in the list, or the length
/// of a list that does not hold the word.
pub open spec fn is_rank(list: Seq<Seq<char>>, word: Seq<char>, rank: nat) -> bool {
    if listed(list, word) {
        &&& rank < list.len()
        &&& list[rank as int] == word
        &&& forall|j: int| rank < j < list.len() ==> list[j] != word
    } else {
        rank == list.len()
    }
}

/// The last place of a word holds the word and nothing behind it does;
/// where there is none, no place holds the word.
pub proof fn lemma_last_place(list: Seq<Seq<char>>, word: Seq<char>)
    ensures
        match last_place(list, word) {
            Some(place) => {
                &&& 0 <= place < list.len()
                &&& list[place] == word
                &&& forall|j: int| place < j < list.len() ==> list[j] != word
            },
            None => forall|j: int| 0 <= j < list.len() ==> list[j] != word,
        },
    decreases list.len(),
{
    if list.len() > 0 && list.last() != word {
        let shorter = list.drop_last();
        lemma_last_place(shorter, word);
        match last_place(shorter, word) {
            Some(place) => {
                assert(list[place] == shorter[place]);
                assert forall|j: int| place < j < list.len() implies list[j] != word by {
                    if j < shorter.len() {
                        assert(shorter[j] == list[j]);
                    }
                }
            },
            None => {
                assert forall|j: int| 0 <= j < list.len() implies list[j] != word by {
                    if j < shorter.len() {
                        assert(shorter[j] == list[j]);
                    }
                }
            },
        }
    }
}

/// The rank of a listed word is the last place that holds it, and the rank
/// of any other word is the length of the list. No other number is either.
pub proof fn law_rank_is_last_place(list: Seq<Seq<char>>, word: Seq<char>)
    ensures
        is_rank(list, word, rank_of(list, word)),
        forall|rank: nat| is_rank(list, word, rank) ==> rank == rank_of(list, word),
{
    lemma_last_place(list, word);
    if listed(list, word) {
        let i = choose|i: int| 0 <= i < list.len() && list[i] == word;
        assert(list[i] == word);
        assert(last_place(list, word) is Some);
    } else {
        match last_place(list, word) {
            Some(place) => {
                assert(list[place] == word);
            },
            None => {},
        }
    }
    assert forall|rank: nat| is_rank(list, word, rank) implies rank == rank_of(list, word) by {
        if listed(list, word) {
            let place = last_place(list, word)->0;
            assert(list[rank as int] == word);
            assert(list[place] == word);
        }
    }
}

/// A lookup table for word frequency.
#[derive(Clone, Debug)]
pub struct WordFrequencyList {
    words: Vec<String>,
}

impl View for WordFrequencyList {
    type V = Seq<Seq<char>>;

    closed spec fn view(&self) -> Seq<Seq<char>> {
        self.words.deep_view()
    }
}

impl WordFrequencyList {
    /// Reads a list of words, one on each line and the most common first.
    pub fn new(wordlist: &str) -> (list: WordFrequencyList)
        ensures
            list@ == lines_of(wordlist@),
    {
        let chars: Vec<char> = chars_of(wordlist);
        let lines: Vec<(usize, usize)> = line_ranges(&chars);
        let mut words: Vec<String> = Vec::new();
        let mut k: usize = 0;
        assert(words.deep_view() =~= cut(chars@, lines@).take(0));
        while k < lines.len()
            invariant
                k <= lines.len(),
                crate::text::ranges_within(lines@, 0, chars.len() as int),
                words.deep_view() == cut(chars@, lines@).take(k as int),
            decreases lines.len() - k,
        {
            let (a, b) = lines[k];
            let word: String = string_of(&chars, a, b);
            let ghost earlier = words.deep_view();
            words.push(word);
            k += 1;
            assert(words.deep_view() =~= earlier.push(word@));
            assert(words.deep_view() =~= cut(chars@, lines@).take(k as int));
        }
        assert(cut(chars@, lines@).take(k as int) =~= cut(chars@, lines@));
        WordFrequencyList { words }
    }

    /// The number of words on the list.
    pub fn len(&self) -> (n: usize)
        ensures
            n == self@.len(),
    {
        self.words.len()
    }

    /// The rank of a word on the list. Common words have low ranks and rare
    /// words high ones; a word that is not on the list ranks behind all that
    /// are.
    pub fn get_word_freq(&self, word: &str) -> (rank: u64)
        ensures
            rank == rank_of(self@, word@),
    {
        let key: String = word.to_owned();
        let mut i: usize = self.words.len();
        while i > 0
            invariant
                i <= self.words.len(),
                key@ == word@,
                forall|j: int| i <= j < self.words.len() ==> self@[j] != word@,
            decreases i,
        {
            i -= 1;
            if self.words[i] == key {
                proof {
                    lemma_last_place(self@, word@);
                    assert(self@[i as int] == word@);
                }
                return i as u64;
            }
        }
        proof {
            lemma_last_place(self@, word@);
            if last_place(self@, word@) is Some {
                assert(self@[last_place(self@, word@)->0] == word@);
            }
        }
        self.words.len() as u64
    }
}

} // verus!
