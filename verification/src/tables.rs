//! The tables of the store and the work on them: reading in sentences,
//! choosing the next one and recording reviews.

use crate::analyzer::{tokenize_reply, AnalyzerReply};
use crate::clock::LocalTime;
use crate::error::KnowledgeError;
use crate::frequency::{last_place, lemma_last_place, rank_of, WordFrequencyList};
use crate::knowledge::{
    analyses, graph_of, link_rows, named_words, places, sentence_rows, word_rows,
    IPlusOneSentenceData, ReviewInfoData, Sentence, Word,
};
use crate::model::{
    all_analysed, analysis_at, distinct, easiness_kept, ingest_tokens, lemma_filter_next,
    lemma_filter_none, lemma_ingest_tokens, lemma_relink, lemma_uncounted, links_fit, relink,
    sentence_texts, token_lists, uncounted, word_texts, Graph, Ingest, Outcome,
    Relinked, SentenceRow, WordRow,
};
use crate::scheduler::{super_memo_2, SuperMemoItem};
use crate::sentences::{iterate_sentences, sentences_of};
use vstd::prelude::*;

verus! {

/// What the selection needs to know of one sentence.
struct Tally {
    /// The number of its new words.
    new: usize,
    /// The number of its due words.
    due: usize,
    /// The sum of the occurrence counts of its new words.
    met: u128,
}

/// The tables of the store.
pub(crate) struct Tables {
    word_freq: WordFrequencyList,
    words: Vec<Word>,
    sentences: Vec<Sentence>,
    links: Vec<Vec<usize>>,
}

impl View for Tables {
    type V = Graph;

    closed spec fn view(&self) -> Graph {
        Graph {
            frequency: self.word_freq@,
            words: word_rows(self.words@),
            sentences: sentence_rows(self.sentences@),
            links: link_rows(self.links@),
        }
    }
}

impl Tables {
    /// What holds of every store: see `Graph::wf`.
    pub(crate) open spec fn wf(&self) -> bool {
        self@.wf()
    }

    /// A store without words and sentences.
    pub(crate) fn new(word_freq: WordFrequencyList) -> (tables: Tables)
        ensures
            tables@ == Graph::empty(word_freq@),
            tables.wf(),
    {
        let tables = Tables {
            word_freq,
            words: Vec::new(),
            sentences: Vec::new(),
            links: Vec::new(),
        };
        assert(tables@.words =~= Seq::<WordRow>::empty());
        assert(tables@.sentences =~= Seq::<SentenceRow>::empty());
        assert(tables@.links =~= Seq::<Seq<int>>::empty());
        tables
    }

    /// The words, in the order of their ids: the word at place `i` has the
    /// id `i + 1`.
    pub(crate) fn words(&self) -> (words: &Vec<Word>)
        ensures
            word_rows(words@) == self@.words,
    {
        &self.words
    }

    /// The sentences, in the order of their ids: the sentence at place `s`
    /// has the id `s + 1`.
    pub(crate) fn sentences(&self) -> (sentences: &Vec<Sentence>)
        ensures
            sentence_rows(sentences@) == self@.sentences,
    {
        &self.sentences
    }

    /// For each sentence the places of its words in the list of words.
    pub(crate) fn links(&self) -> (links: &Vec<Vec<usize>>)
        ensures
            link_rows(links@) == self@.links,
    {
        &self.links
    }

    /// The frequency list that new words are ranked by.
    pub(crate) fn word_freq(&self) -> (list: &WordFrequencyList)
        ensures
            list@ == self@.frequency,
    {
        &self.word_freq
    }

    /// The words at the given places, each with its id.
    fn named(&self, list: &Vec<usize>) -> (words: Vec<(u64, String)>)
        requires
            forall|k: int| 0 <= k < list.len() ==> list[k] < self.words.len(),
        ensures
            named_words(words@) == self@.named(places(list@)),
    {
        let mut words: Vec<(u64, String)> = Vec::new();
        let mut k: usize = 0;
        while k < list.len()
            invariant
                k <= list.len(),
                forall|j: int| 0 <= j < list.len() ==> list[j] < self.words.len(),
                named_words(words@) == self@.named(places(list@)).take(k as int),
            decreases list.len() - k,
        {
            let place: usize = list[k];
            let id: u64 = place as u64 + 1;
            let text: String = self.words[place].text.clone();
            let ghost before = named_words(words@);
            words.push((id, text));
            k += 1;
            assert(named_words(words@) =~= before.push((id as nat, text@)));
            assert(self@.named(places(list@))[k - 1] == (id as nat, text@));
            assert(named_words(words@) =~= self@.named(places(list@)).take(k as int));
        }
        assert(self@.named(places(list@)).take(k as int) =~= self@.named(places(list@)));
        words
    }

    /// The places of the due words among the links of the sentence at place
    /// `s`.
    fn due_places(&self, s: usize, now: i64, boundary: i64) -> (list: Vec<usize>)
        requires
            self.wf(),
            s < self.sentences.len(),
        ensures
            places(list@) == self@.due_words(s as int, now as int, boundary as int),
            forall|k: int| 0 <= k < list.len() ==> list[k] < self.words.len(),
    {
        let ghost keep = self@.due_filter(now as int, boundary as int);
        let ghost all = self@.links[s as int];
        let mut list: Vec<usize> = Vec::new();
        let mut k: usize = 0;
        assert(links_fit_here(self@, s as int));
        proof {
            lemma_filter_none(keep);
            assert(all.take(0) =~= Seq::<int>::empty());
            assert(places(list@) =~= Seq::<int>::empty());
        }
        while k < self.links[s].len()
            invariant
                self.wf(),
                s < self.sentences.len(),
                k <= self.links[s as int].len(),
                all == self@.links[s as int],
                keep == self@.due_filter(now as int, boundary as int),
                places(list@) == all.take(k as int).filter(keep),
                forall|j: int| 0 <= j < list.len() ==> list[j] < self.words.len(),
            decreases self.links[s as int].len() - k,
        {
            let place: usize = self.links[s][k];
            assert(links_fit_here(self@, s as int));
            assert(all[k as int] == place);
            proof {
                lemma_filter_next(all, k as int, keep);
            }
            if self.words[place].is_due(now, boundary) {
                let ghost before = places(list@);
                list.push(place);
                assert(places(list@) =~= before.push(place as int));
            }
            k += 1;
        }
        assert(all.take(k as int) =~= all);
        list
    }

    /// The places of the new words among the links of the sentence at place
    /// `s`.
    fn new_places(&self, s: usize) -> (list: Vec<usize>)
        requires
            self.wf(),
            s < self.sentences.len(),
        ensures
            places(list@) == self@.new_words(s as int),
            forall|k: int| 0 <= k < list.len() ==> list[k] < self.words.len(),
    {
        let ghost keep = self@.new_filter();
        let ghost all = self@.links[s as int];
        let mut list: Vec<usize> = Vec::new();
        let mut k: usize = 0;
        assert(links_fit_here(self@, s as int));
        proof {
            lemma_filter_none(keep);
            assert(all.take(0) =~= Seq::<int>::empty());
            assert(places(list@) =~= Seq::<int>::empty());
        }
        while k < self.links[s].len()
            invariant
                self.wf(),
                s < self.sentences.len(),
                k <= self.links[s as int].len(),
                all == self@.links[s as int],
                keep == self@.new_filter(),
                places(list@) == all.take(k as int).filter(keep),
                forall|j: int| 0 <= j < list.len() ==> list[j] < self.words.len(),
            decreases self.links[s as int].len() - k,
        {
            let place: usize = self.links[s][k];
            assert(links_fit_here(self@, s as int));
            assert(all[k as int] == place);
            proof {
                lemma_filter_next(all, k as int, keep);
            }
            if !self.words[place].reviewed {
                let ghost before = places(list@);
                list.push(place);
                assert(places(list@) =~= before.push(place as int));
            }
            k += 1;
        }
        assert(all.take(k as int) =~= all);
        list
    }

    /// The words of a sentence, each with its id; none for a sentence that
    /// does not exist.
    pub(crate) fn get_words_in_sentence(&self, sentence_id: u64) -> (words: Vec<(u64, String)>)
        requires
            self.wf(),
        ensures
            named_words(words@) == self@.words_in_sentence(sentence_id as nat),
    {
        if 1 <= sentence_id && sentence_id <= self.sentences.len() as u64 {
            let s: usize = (sentence_id - 1) as usize;
            assert(links_fit_here(self@, s as int));
            assert forall|k: int| 0 <= k < self.links[s as int].len() implies self.links[s as int][k]
                < self.words.len() by {
                assert(self@.links[s as int][k] == self.links[s as int][k]);
            }
            self.named(&self.links[s])
        } else {
            let words: Vec<(u64, String)> = Vec::new();
            assert(named_words(words@) =~= self@.words_in_sentence(sentence_id as nat));
            words
        }
    }

    /// The words of a sentence that are due at `now`, each with its id.
    pub(crate) fn get_words_in_sentence_that_need_reviewing(
        &self,
        sentence_id: u64,
        now: LocalTime,
    ) -> (words: Vec<(u64, String)>)
        requires
            self.wf(),
        ensures
            named_words(words@) == self@.due_in_sentence(sentence_id as nat, now@),
    {
        if 1 <= sentence_id && sentence_id <= self.sentences.len() as u64 {
            let s: usize = (sentence_id - 1) as usize;
            let list: Vec<usize> = self.due_places(s, now.unix_secs(), now.end_of_day());
            self.named(&list)
        } else {
            let words: Vec<(u64, String)> = Vec::new();
            proof {
                lemma_filter_none(self@.due_filter(now@.secs, now@.end_of_day()));
                assert(named_words(words@) =~= self@.due_in_sentence(sentence_id as nat, now@));
            }
            words
        }
    }

    /// The words of a sentence that were never reviewed, each with its id.
    pub(crate) fn get_words_in_sentence_that_are_new(&self, sentence_id: u64) -> (words: Vec<
        (u64, String),
    >)
        requires
            self.wf(),
        ensures
            named_words(words@) == self@.new_in_sentence(sentence_id as nat),
    {
        if 1 <= sentence_id && sentence_id <= self.sentences.len() as u64 {
            let s: usize = (sentence_id - 1) as usize;
            let list: Vec<usize> = self.new_places(s);
            self.named(&list)
        } else {
            let words: Vec<(u64, String)> = Vec::new();
            proof {
                lemma_filter_none(self@.new_filter());
                assert(named_words(words@) =~= self@.new_in_sentence(sentence_id as nat));
            }
            words
        }
    }

    /// How many words are due at `now`.
    pub(crate) fn get_review_info(&self, now: LocalTime) -> (info: ReviewInfoData)
        ensures
            info.reviews_remaining == self@.reviews_remaining(now@),
    {
        let now_secs: i64 = now.unix_secs();
        let boundary: i64 = now.end_of_day();
        let ghost keep = Graph::due_row_filter(now_secs as int, boundary as int);
        let ghost all = self@.words;
        let mut count: usize = 0;
        let mut i: usize = 0;
        proof {
            lemma_filter_none(keep);
            assert(all.take(0) =~= Seq::<WordRow>::empty());
        }
        while i < self.words.len()
            invariant
                i <= self.words.len(),
                all == self@.words,
                keep == Graph::due_row_filter(now_secs as int, boundary as int),
                count == all.take(i as int).filter(keep).len(),
                count <= i,
            decreases self.words.len() - i,
        {
            proof {
                lemma_filter_next(all, i as int, keep);
            }
            if self.words[i].is_due(now_secs, boundary) {
                count += 1;
            }
            i += 1;
        }
        assert(all.take(i as int) =~= all);
        ReviewInfoData { reviews_remaining: count as u64 }
    }
}

/// Whether a list of tallies tells of each sentence how many of its words
/// are new and how many are due, and how often its new words were met.
spec fn tallied(graph: Graph, tallies: Seq<Tally>, now: int, boundary: int) -> bool {
    &&& tallies.len() == graph.sentences.len()
    &&& forall|s: int|
        0 <= s < tallies.len() ==> {
            &&& (#[trigger] tallies[s]).new == graph.new_count(s)
            &&& tallies[s].due == graph.due_count(s, now, boundary)
            &&& tallies[s].met == graph.new_occurrences(s)
        }
}

/// One place more adds the count of the word there to the sum.
proof fn lemma_occurrences_push(words: Seq<WordRow>, list: Seq<int>, place: int)
    ensures
        crate::model::occurrences(words, list.push(place)) == crate::model::occurrences(
            words,
            list,
        ) + words[place].occurrence_count,
{
    assert(list.push(place).drop_last() =~= list);
}

impl Tables {
    /// What the selection needs to know of the sentence at place `s`.
    fn tally(&self, s: usize, now: i64, boundary: i64) -> (t: Tally)
        requires
            self.wf(),
            s < self.sentences.len(),
        ensures
            t.new == self@.new_count(s as int),
            t.due == self@.due_count(s as int, now as int, boundary as int),
            t.met == self@.new_occurrences(s as int),
    {
        let ghost fresh = self@.new_filter();
        let ghost due = self@.due_filter(now as int, boundary as int);
        let ghost all = self@.links[s as int];
        let mut new_count: usize = 0;
        let mut due_count: usize = 0;
        let mut met: u128 = 0;
        let mut k: usize = 0;
        proof {
            lemma_filter_none(fresh);
            lemma_filter_none(due);
            assert(all.take(0) =~= Seq::<int>::empty());
        }
        while k < self.links[s].len()
            invariant
                self.wf(),
                s < self.sentences.len(),
                k <= self.links[s as int].len(),
                all == self@.links[s as int],
                fresh == self@.new_filter(),
                due == self@.due_filter(now as int, boundary as int),
                new_count == all.take(k as int).filter(fresh).len(),
                due_count == all.take(k as int).filter(due).len(),
                met == crate::model::occurrences(self@.words, all.take(k as int).filter(fresh)),
                new_count <= k,
                due_count <= k,
                met <= k * 0xffff_ffff_ffff_ffff,
            decreases self.links[s as int].len() - k,
        {
            let place: usize = self.links[s][k];
            assert(links_fit_here(self@, s as int));
            assert(all[k as int] == place);
            proof {
                lemma_filter_next(all, k as int, fresh);
                lemma_filter_next(all, k as int, due);
                lemma_occurrences_push(self@.words, all.take(k as int).filter(fresh), place as int);
            }
            if !self.words[place].reviewed {
                new_count += 1;
                met = met + self.words[place].occurrence_count as u128;
            }
            if self.words[place].is_due(now, boundary) {
                due_count += 1;
            }
            k += 1;
        }
        assert(all.take(k as int) =~= all);
        Tally { new: new_count, due: due_count, met }
    }

    /// The tallies of all sentences.
    fn tallies(&self, now: i64, boundary: i64) -> (tallies: Vec<Tally>)
        requires
            self.wf(),
        ensures
            tallied(self@, tallies@, now as int, boundary as int),
            tallies.len() == self.sentences.len(),
    {
        let mut tallies: Vec<Tally> = Vec::new();
        let mut s: usize = 0;
        while s < self.sentences.len()
            invariant
                self.wf(),
                s <= self.sentences.len(),
                tallies.len() == s,
                forall|t: int|
                    0 <= t < s ==> {
                        &&& (#[trigger] tallies[t]).new == self@.new_count(t)
                        &&& tallies[t].due == self@.due_count(t, now as int, boundary as int)
                        &&& tallies[t].met == self@.new_occurrences(t)
                    },
            decreases self.sentences.len() - s,
        {
            let tally: Tally = self.tally(s, now, boundary);
            tallies.push(tally);
            s += 1;
        }
        tallies
    }

    /// The places of the sentences that come first: those that are best for
    /// review where some sentence can be shown for review, and else those
    /// that are best to learn from.
    fn first_choices(&self, now: i64, boundary: i64) -> (ties: Vec<usize>)
        requires
            self.wf(),
        ensures
            places(ties@) == self@.choices(now as int, boundary as int),
            forall|k: int| 0 <= k < ties.len() ==> ties[k] < self.sentences.len(),
    {
        let ghost graph = self@;
        let ghost all = graph.all_places();
        let ghost keep = graph.choice_filter(now as int, boundary as int);
        let n: usize = self.sentences.len();
        let tallies: Vec<Tally> = self.tallies(now, boundary);
        // The most due words among the sentences without a new word.
        let mut most_due: usize = 0;
        let ghost mut with_most_due: int = 0;
        let mut s: usize = 0;
        while s < n
            invariant
                s <= n,
                n == tallies.len(),
                forall|t: int| 0 <= t < s && (#[trigger] tallies[t]).new == 0 ==> tallies[t].due <= most_due,
                most_due > 0 ==> 0 <= with_most_due < s && tallies[with_most_due].new == 0
                    && tallies[with_most_due].due == most_due,
            decreases n - s,
        {
            if tallies[s].new == 0 && tallies[s].due > most_due {
                most_due = tallies[s].due;
                proof {
                    with_most_due = s as int;
                }
            }
            s += 1;
        }
        let mut ties: Vec<usize> = Vec::new();
        proof {
            lemma_filter_none(keep);
            assert(all.take(0) =~= Seq::<int>::empty());
            assert(places(ties@) =~= Seq::<int>::empty());
        }
        if most_due > 0 {
            assert(graph.is_review_candidate(with_most_due, now as int, boundary as int));
            assert(graph.has_review_candidate(now as int, boundary as int));
            s = 0;
            while s < n
                invariant
                    s <= n,
                    n == tallies.len(),
                    n == self.sentences.len(),
                    graph == self@,
                    all == graph.all_places(),
                    keep == graph.choice_filter(now as int, boundary as int),
                    tallied(graph, tallies@, now as int, boundary as int),
                    graph.has_review_candidate(now as int, boundary as int),
                    most_due > 0,
                    0 <= with_most_due < n,
                    tallies[with_most_due].new == 0,
                    tallies[with_most_due].due == most_due,
                    forall|t: int|
                        0 <= t < n && (#[trigger] tallies[t]).new == 0 ==> tallies[t].due
                            <= most_due,
                    places(ties@) == all.take(s as int).filter(keep),
                    forall|k: int| 0 <= k < ties.len() ==> ties[k] < n,
                decreases n - s,
            {
                let best: bool = tallies[s].new == 0 && tallies[s].due == most_due;
                proof {
                    lemma_filter_next(all, s as int, keep);
                    assert(all[s as int] == s);
                    let place = s as int;
                    if best {
                        assert forall|t: int| #[trigger]
                            graph.is_review_candidate(t, now as int, boundary as int) implies 
                            graph.due_count(t, now as int, boundary as int) <= graph.due_count(
                                place,
                                now as int,
                                boundary as int,
                            ) by {
                            assert(tallies[t].new == 0);
                        }
                        assert(graph.is_best_review(place, now as int, boundary as int));
                    } else if graph.is_best_review(place, now as int, boundary as int) {
                        assert(graph.is_review_candidate(
                            with_most_due,
                            now as int,
                            boundary as int,
                        ));
                        assert(tallies[place].new == 0);
                        assert(false);
                    }
                    assert(keep(place) == best);
                }
                if best {
                    let ghost before = places(ties@);
                    ties.push(s);
                    assert(places(ties@) =~= before.push(s as int));
                }
                s += 1;
            }
        } else {
            assert forall|t: int| !graph.is_review_candidate(
                t,
                now as int,
                boundary as int,
            ) by {
                if 0 <= t < n {
                    assert(tallies[t].new == 0 ==> tallies[t].due <= most_due);
                }
            }
            assert(!graph.has_review_candidate(now as int, boundary as int));
            // The fewest new words among the sentences that have any.
            let mut fewest: usize = 0;
            let ghost mut with_fewest: int = 0;
            s = 0;
            while s < n
                invariant
                    s <= n,
                    n == tallies.len(),
                    forall|t: int|
                        0 <= t < s && (#[trigger] tallies[t]).new > 0 ==> 0 < fewest
                            <= tallies[t].new,
                    fewest > 0 ==> 0 <= with_fewest < s && tallies[with_fewest].new == fewest,
                decreases n - s,
            {
                if tallies[s].new > 0 && (fewest == 0 || tallies[s].new < fewest) {
                    fewest = tallies[s].new;
                    proof {
                        with_fewest = s as int;
                    }
                }
                s += 1;
            }
            // Among these, the largest sum of occurrence counts.
            let mut most_met: u128 = 0;
            let ghost mut with_most_met: int = 0;
            s = 0;
            while s < n
                invariant
                    s <= n,
                    n == tallies.len(),
                    forall|t: int|
                        0 <= t < s && (#[trigger] tallies[t]).new == fewest ==> tallies[t].met
                            <= most_met,
                    most_met > 0 ==> 0 <= with_most_met < s && tallies[with_most_met].new
                        == fewest && tallies[with_most_met].met == most_met,
                decreases n - s,
            {
                if tallies[s].new == fewest && tallies[s].met > most_met {
                    most_met = tallies[s].met;
                    proof {
                        with_most_met = s as int;
                    }
                }
                s += 1;
            }
            s = 0;
            while s < n
                invariant
                    s <= n,
                    n == tallies.len(),
                    n == self.sentences.len(),
                    graph == self@,
                    all == graph.all_places(),
                    keep == graph.choice_filter(now as int, boundary as int),
                    tallied(graph, tallies@, now as int, boundary as int),
                    !graph.has_review_candidate(now as int, boundary as int),
                    forall|t: int|
                        0 <= t < n && (#[trigger] tallies[t]).new > 0 ==> 0 < fewest
                            <= tallies[t].new,
                    fewest > 0 ==> 0 <= with_fewest < n && tallies[with_fewest].new == fewest,
                    forall|t: int|
                        0 <= t < n && (#[trigger] tallies[t]).new == fewest ==> tallies[t].met
                            <= most_met,
                    most_met > 0 ==> 0 <= with_most_met < n && tallies[with_most_met].new
                        == fewest && tallies[with_most_met].met == most_met,
                    places(ties@) == all.take(s as int).filter(keep),
                    forall|k: int| 0 <= k < ties.len() ==> ties[k] < n,
                decreases n - s,
            {
                let best: bool = fewest > 0 && tallies[s].new == fewest && tallies[s].met
                    == most_met;
                proof {
                    lemma_filter_next(all, s as int, keep);
                    assert(all[s as int] == s);
                    let place = s as int;
                    if best {
                        assert forall|t: int| #[trigger]
                            graph.is_acquisition_candidate(t) implies graph.ranks_no_lower(
                            place,
                            t,
                        ) by {
                            assert(tallies[t].new > 0);
                        }
                        assert(graph.is_best_acquisition(place));
                    } else if graph.is_best_acquisition(place) {
                        assert(tallies[place].new > 0);
                        assert(graph.is_acquisition_candidate(with_fewest));
                        assert(graph.ranks_no_lower(place, with_fewest));
                        if most_met > 0 {
                            assert(graph.is_acquisition_candidate(with_most_met));
                            assert(graph.ranks_no_lower(place, with_most_met));
                        }
                        assert(false);
                    }
                    assert(keep(place) == best);
                }
                if best {
                    let ghost before = places(ties@);
                    ties.push(s);
                    assert(places(ties@) =~= before.push(s as int));
                }
                s += 1;
            }
        }
        assert(all.take(s as int) =~= all);
        ties
    }

    /// The sentence that the learner is to see next.
    ///
    /// A sentence without new words and with the most due words comes
    /// first. Where no sentence without new words has a due word, the
    /// sentence with the fewest new words comes first, and among several
    /// the one whose new words were met most often on average. Among
    /// sentences that are equal in all this, `tie_break` picks one, so hand
    /// in a number drawn at random. Where no sentence has a new word either,
    /// the result has the id 0 and a notice in place of a sentence.
    pub(crate) fn get_next_sentence_i_plus_one(&self, now: LocalTime, tie_break: u64) -> (data:
        IPlusOneSentenceData)
        requires
            self.wf(),
        ensures
            data@ == self@.next_choice(now@, tie_break as nat),
    {
        let ties: Vec<usize> = self.first_choices(now.unix_secs(), now.end_of_day());
        if ties.len() == 0 {
            let data = IPlusOneSentenceData {
                sentence_text: "No sentence with any new words and no words are scheduled for reviewing.".to_owned(),
                sentence_id: 0,
                sentence_source: String::new(),
                words_being_reviewed: Vec::new(),
                words_that_are_new: Vec::new(),
            };
            assert(data@.due =~= Seq::<(nat, Seq<char>)>::empty());
            assert(data@.new =~= Seq::<(nat, Seq<char>)>::empty());
            data
        } else {
            let pick: usize = (tie_break % (ties.len() as u64)) as usize;
            let s: usize = ties[pick];
            assert(places(ties@)[pick as int] == s);
            let sentence_id: u64 = s as u64 + 1;
            IPlusOneSentenceData {
                sentence_text: self.sentences[s].text.clone(),
                sentence_id,
                sentence_source: self.sentences[s].source.clone(),
                words_being_reviewed: self.get_words_in_sentence_that_need_reviewing(
                    sentence_id,
                    now,
                ),
                words_that_are_new: self.get_words_in_sentence_that_are_new(sentence_id),
            }
        }
    }
}

/// The words of a run of sentences, as mathematics.
spec fn token_rows(lists: Seq<Vec<String>>) -> Seq<Seq<Seq<char>>> {
    Seq::new(lists.len(), |k: int| lists[k].deep_view())
}

/// Whether a list holds a place.
fn holds(list: &Vec<usize>, place: usize) -> (found: bool)
    ensures
        found == places(list@).contains(place as int),
{
    let mut k: usize = 0;
    while k < list.len()
        invariant
            k <= list.len(),
            forall|j: int| 0 <= j < k ==> list[j] != place,
        decreases list.len() - k,
    {
        if list[k] == place {
            assert(places(list@)[k as int] == place as int);
            return true;
        }
        k += 1;
    }
    assert forall|j: int| 0 <= j < places(list@).len() implies places(list@)[j] != place as int by {
        assert(list[j] != place);
    }
    false
}

impl Tables {
    /// The place of the word with the given text.
    fn find_word(&self, text: &String) -> (found: Option<usize>)
        ensures
            match found {
                Some(place) => place < self.words.len() && last_place(
                    word_texts(self@.words),
                    text@,
                ) == Some(place as int),
                None => last_place(word_texts(self@.words), text@) is None,
            },
    {
        let ghost texts = word_texts(self@.words);
        let mut i: usize = self.words.len();
        while i > 0
            invariant
                i <= self.words.len(),
                texts == word_texts(self@.words),
                forall|j: int| i <= j < self.words.len() ==> texts[j] != text@,
            decreases i,
        {
            i -= 1;
            if self.words[i].text == *text {
                proof {
                    lemma_last_place(texts, text@);
                    assert(texts[i as int] == text@);
                }
                return Some(i);
            }
        }
        proof {
            lemma_last_place(texts, text@);
            if last_place(texts, text@) is Some {
                assert(texts[last_place(texts, text@)->0] == text@);
            }
        }
        None
    }

    /// Whether a sentence with the given text is in the store.
    fn find_sentence(&self, text: &String) -> (found: bool)
        ensures
            found == self@.has_sentence(text@),
    {
        let ghost texts = sentence_texts(self@.sentences);
        let mut i: usize = self.sentences.len();
        while i > 0
            invariant
                i <= self.sentences.len(),
                texts == sentence_texts(self@.sentences),
                forall|j: int| i <= j < self.sentences.len() ==> texts[j] != text@,
            decreases i,
        {
            i -= 1;
            if self.sentences[i].text == *text {
                proof {
                    lemma_last_place(texts, text@);
                    assert(texts[i as int] == text@);
                }
                return true;
            }
        }
        proof {
            lemma_last_place(texts, text@);
            if last_place(texts, text@) is Some {
                assert(texts[last_place(texts, text@)->0] == text@);
            }
        }
        false
    }

    /// Reads in the words of one sentence: each word that is known is
    /// counted once more, each other word is added with its rank on the
    /// frequency list. The result holds the places of the words of the
    /// sentence, each once, in the order in which they were first met.
    fn add_words_to_sentence(&mut self, tokens: &Vec<String>, now: i64) -> (linked: Vec<usize>)
        requires
            distinct(word_texts(old(self)@.words)),
            easiness_kept(old(self)@.words),
        ensures
            ({
                let done = ingest_tokens(
                    Ingest { words: old(self)@.words, linked: Seq::empty() },
                    tokens.deep_view(),
                    old(self)@.frequency,
                    now as int,
                );
                &&& final(self)@.words == done.words
                &&& places(linked@) == done.linked
            }),
            final(self).sentences == old(self).sentences,
            final(self).links == old(self).links,
            final(self).word_freq == old(self).word_freq,
    {
        let ghost start = Ingest { words: self@.words, linked: Seq::empty() };
        let ghost frequency = self@.frequency;
        let ghost all = tokens.deep_view();
        let mut linked: Vec<usize> = Vec::new();
        let mut k: usize = 0;
        proof {
            assert(all.take(0) =~= Seq::<Seq<char>>::empty());
            assert(places(linked@) =~= Seq::<int>::empty());
        }
        while k < tokens.len()
            invariant
                k <= tokens.len(),
                all == tokens.deep_view(),
                frequency == self@.frequency,
                distinct(word_texts(start.words)),
                easiness_kept(start.words),
                start.linked == Seq::<int>::empty(),
                (Ingest { words: self@.words, linked: places(linked@) }) == ingest_tokens(
                    start,
                    all.take(k as int),
                    frequency,
                    now as int,
                ),
                self.sentences == old(self).sentences,
                self.links == old(self).links,
                self.word_freq == old(self).word_freq,
            decreases tokens.len() - k,
        {
            let ghost before = Ingest { words: self@.words, linked: places(linked@) };
            proof {
                lemma_ingest_tokens(start, all.take(k as int), frequency, now as int);
                assert(all.take(k as int + 1).drop_last() =~= all.take(k as int));
                assert(all.take(k as int + 1).last() == tokens[k as int]@);
            }
            let token: &String = &tokens[k];
            match self.find_word(token) {
                Some(place) => {
                    if self.words[place].occurrence_count < u64::MAX {
                        self.words[place].occurrence_count = self.words[place].occurrence_count + 1;
                    }
                    assert(self@.words =~= before.words.update(
                        place as int,
                        before.words[place as int].seen_again(),
                    ));
                    if !holds(&linked, place) {
                        linked.push(place);
                        assert(places(linked@) =~= before.linked.push(place as int));
                    }
                },
                None => {
                    let rank: u64 = self.word_freq.get_word_freq(token.as_str());
                    let word = Word {
                        text: token.clone(),
                        frequency_rank: rank,
                        occurrence_count: 1,
                        reviewed: false,
                        repetition: 0,
                        e_factor: crate::scheduler::DEFAULT_E_FACTOR,
                        review_interval: 0,
                        next_review_at: None,
                        date_first_reviewed: None,
                        date_added: now,
                    };
                    assert(word@ == WordRow::fresh(token@, rank_of(frequency, token@), now as int));
                    self.words.push(word);
                    assert(self@.words =~= before.words.push(word@));
                    linked.push(self.words.len() - 1);
                    assert(places(linked@) =~= before.linked.push(before.words.len() as int));
                },
            }
            k += 1;
        }
        assert(all.take(k as int) =~= all);
        linked
    }

    /// Hands in one sentence with what became of the analyzer's run on it.
    ///
    /// Where the analyzer failed, nothing changes and the error says so. A
    /// sentence that the store holds already changes nothing either.
    /// Otherwise the sentence is added, with `now` as its date, and its
    /// words are read in and linked to it.
    pub(crate) fn add_sentence(
        &mut self,
        sentence: &str,
        source: &str,
        reply: &AnalyzerReply,
        now: LocalTime,
    ) -> (r: Result<(), KnowledgeError>)
        requires
            old(self).wf(),
        ensures
            final(self).wf(),
            match r {
                Ok(()) => reply.tokens() is Some && final(self)@ == old(self)@.add_sentence(
                    sentence@,
                    source@,
                    reply.tokens()->0,
                    now@.secs,
                ),
                Err(e) => e is TokenizeError && reply.tokens() is None && final(self)@ == old(
                    self,
                )@,
            },
    {
        let tokens: Vec<String> = match tokenize_reply(reply) {
            Ok(tokens) => tokens,
            Err(e) => {
                return Err(e);
            },
        };
        let text: String = sentence.to_owned();
        proof {
            self@.lemma_add_sentence_wf(sentence@, source@, tokens.deep_view(), now@.secs);
        }
        if self.find_sentence(&text) {
            return Ok(());
        }
        let date_added: i64 = now.unix_secs();
        let linked: Vec<usize> = self.add_words_to_sentence(&tokens, date_added);
        let added = Sentence { text, source: source.to_owned(), date_added };
        self.sentences.push(added);
        self.links.push(linked);
        proof {
            let after = old(self)@.add_sentence(sentence@, source@, tokens.deep_view(), now@.secs);
            assert(self@.sentences =~= after.sentences);
            assert(self@.links =~= after.links);
        }
        Ok(())
    }

    /// Reads in a text: splits it into sentences and hands them in one
    /// after another, each with what became of the analyzer's run on it.
    /// `replies` holds these in the order of the sentences of
    /// `iterate_sentences(text)`; a sentence without a reply counts as one
    /// that the analyzer could not be reached for.
    ///
    /// The result is the number of sentences in the text, whether or not
    /// the store held them before. The work stops at the first sentence that
    /// the analyzer failed on: the sentences before it stay and the error
    /// says so.
    pub(crate) fn add_text(
        &mut self,
        text: &str,
        source: &str,
        replies: &Vec<AnalyzerReply>,
        now: LocalTime,
    ) -> (r: Result<u64, KnowledgeError>)
        requires
            old(self).wf(),
        ensures
            final(self).wf(),
            final(self)@ == old(self)@.add_sentences(
                sentences_of(text@),
                source@,
                analyses(replies@),
                now@.secs,
            ).graph,
            match r {
                Ok(count) => count == sentences_of(text@).len() && old(self)@.add_sentences(
                    sentences_of(text@),
                    source@,
                    analyses(replies@),
                    now@.secs,
                ).complete,
                Err(e) => e is TokenizeError && !old(self)@.add_sentences(
                    sentences_of(text@),
                    source@,
                    analyses(replies@),
                    now@.secs,
                ).complete,
            },
    {
        let sentences: Vec<String> = iterate_sentences(text);
        let ghost all = sentences.deep_view();
        let ghost found = analyses(replies@);
        let ghost start = self@;
        let mut k: usize = 0;
        assert(all.take(0) =~= Seq::<Seq<char>>::empty());
        while k < sentences.len()
            invariant
                k <= sentences.len(),
                all == sentences.deep_view(),
                all == sentences_of(text@),
                found == analyses(replies@),
                start == old(self)@,
                start.wf(),
                self.wf(),
                start.add_sentences(all.take(k as int), source@, found, now@.secs) == (Outcome {
                    graph: self@,
                    complete: true,
                }),
            decreases sentences.len() - k,
        {
            proof {
                assert(all.take(k as int + 1).drop_last() =~= all.take(k as int));
                assert(all.take(k as int + 1).last() == sentences[k as int]@);
                assert(all.take(sentences.len() as int) =~= all);
            }
            if k >= replies.len() {
                proof {
                    start.lemma_add_sentences_stops(
                        all,
                        source@,
                        found,
                        now@.secs,
                        k as int,
                        all.len() as int,
                    );
                }
                return Err(KnowledgeError::TokenizeError);
            }
            assert(analysis_at(found, k as int) == replies[k as int].tokens());
            match self.add_sentence(sentences[k].as_str(), source, &replies[k], now) {
                Ok(()) => {},
                Err(e) => {
                    proof {
                        start.lemma_add_sentences_stops(
                            all,
                            source@,
                            found,
                            now@.secs,
                            k as int,
                            all.len() as int,
                        );
                    }
                    return Err(e);
                },
            }
            k += 1;
        }
        assert(all.take(k as int) =~= all);
        Ok(sentences.len() as u64)
    }
}

/// Whether no two of the words share a text.
fn words_are_distinct(words: &Vec<Word>) -> (ok: bool)
    ensures
        ok == distinct(word_texts(word_rows(words@))),
{
    let ghost texts = word_texts(word_rows(words@));
    let mut j: usize = 0;
    while j < words.len()
        invariant
            j <= words.len(),
            texts == word_texts(word_rows(words@)),
            forall|a: int, b: int| 0 <= a < b < j ==> texts[a] != texts[b],
        decreases words.len() - j,
    {
        let mut i: usize = 0;
        while i < j
            invariant
                i <= j < words.len(),
                texts == word_texts(word_rows(words@)),
                forall|a: int| 0 <= a < i ==> texts[a] != texts[j as int],
            decreases j - i,
        {
            if words[i].text == words[j].text {
                assert(texts[i as int] == texts[j as int]);
                return false;
            }
            i += 1;
        }
        j += 1;
    }
    true
}

/// Whether no two of the sentences share a text.
fn sentences_are_distinct(sentences: &Vec<Sentence>) -> (ok: bool)
    ensures
        ok == distinct(sentence_texts(sentence_rows(sentences@))),
{
    let ghost texts = sentence_texts(sentence_rows(sentences@));
    let mut j: usize = 0;
    while j < sentences.len()
        invariant
            j <= sentences.len(),
            texts == sentence_texts(sentence_rows(sentences@)),
            forall|a: int, b: int| 0 <= a < b < j ==> texts[a] != texts[b],
        decreases sentences.len() - j,
    {
        let mut i: usize = 0;
        while i < j
            invariant
                i <= j < sentences.len(),
                texts == sentence_texts(sentence_rows(sentences@)),
                forall|a: int| 0 <= a < i ==> texts[a] != texts[j as int],
            decreases j - i,
        {
            if sentences[i].text == sentences[j].text {
                assert(texts[i as int] == texts[j as int]);
                return false;
            }
            i += 1;
        }
        j += 1;
    }
    true
}

/// Whether a list of links names words that exist, each once.
fn links_are_fit(list: &Vec<usize>, word_count: usize) -> (ok: bool)
    ensures
        ok == links_fit(places(list@), word_count as int),
{
    let ghost linked = places(list@);
    let mut j: usize = 0;
    while j < list.len()
        invariant
            j <= list.len(),
            linked == places(list@),
            forall|a: int| 0 <= a < j ==> 0 <= #[trigger] linked[a] < word_count,
            forall|a: int, b: int| 0 <= a < j && 0 <= b < j && a != b ==> linked[a] != linked[b],
        decreases list.len() - j,
    {
        if list[j] >= word_count {
            assert(linked[j as int] >= word_count);
            return false;
        }
        let mut i: usize = 0;
        while i < j
            invariant
                i <= j < list.len(),
                linked == places(list@),
                forall|a: int| 0 <= a < i ==> linked[a] != linked[j as int],
            decreases j - i,
        {
            if list[i] == list[j] {
                assert(linked[i as int] == linked[j as int]);
                return false;
            }
            i += 1;
        }
        j += 1;
    }
    true
}

/// Whether the links of every sentence name words that exist, each once.
fn all_links_are_fit(links: &Vec<Vec<usize>>, word_count: usize) -> (ok: bool)
    ensures
        ok == (forall|s: int|
            0 <= s < links.len() ==> links_fit(#[trigger] link_rows(links@)[s], word_count as int)),
{
    let mut s: usize = 0;
    while s < links.len()
        invariant
            s <= links.len(),
            forall|t: int|
                0 <= t < s ==> links_fit(#[trigger] link_rows(links@)[t], word_count as int),
        decreases links.len() - s,
    {
        if !links_are_fit(&links[s], word_count) {
            assert(!links_fit(link_rows(links@)[s as int], word_count as int));
            return false;
        }
        s += 1;
    }
    true
}

/// Whether no easiness factor is under 1.3.
fn easiness_is_kept(words: &Vec<Word>) -> (ok: bool)
    ensures
        ok == easiness_kept(word_rows(words@)),
{
    let mut i: usize = 0;
    while i < words.len()
        invariant
            i <= words.len(),
            forall|a: int|
                0 <= a < i ==> (#[trigger] word_rows(words@)[a]).e_factor
                    >= crate::scheduler::MIN_E_FACTOR,
        decreases words.len() - i,
    {
        if words[i].e_factor < crate::scheduler::MIN_E_FACTOR {
            assert(word_rows(words@)[i as int].e_factor < crate::scheduler::MIN_E_FACTOR);
            return false;
        }
        i += 1;
    }
    true
}

impl Tables {
    /// A store that holds the given rows, as they were written out from a
    /// store before: the words and the sentences in the order of their ids,
    /// and for each sentence the places of its words in the list of words.
    /// Rows that `Graph::wf` does not hold of are refused.
    pub(crate) fn from_rows(
        word_freq: WordFrequencyList,
        words: Vec<Word>,
        sentences: Vec<Sentence>,
        links: Vec<Vec<usize>>,
    ) -> (r: Result<Tables, KnowledgeError>)
        ensures
            match r {
                Ok(tables) => tables.wf() && tables@ == graph_of(
                    word_freq@,
                    words@,
                    sentences@,
                    links@,
                ),
                Err(e) => e is DatabaseError && !graph_of(word_freq@, words@, sentences@, links@).wf(),
            },
    {
        let ghost graph = graph_of(word_freq@, words@, sentences@, links@);
        let ok: bool = words_are_distinct(&words) && sentences_are_distinct(&sentences)
            && links.len() == sentences.len() && all_links_are_fit(&links, words.len())
            && easiness_is_kept(&words) && (words.len() == 0 || sentences.len() > 0);
        if ok {
            Ok(Tables { word_freq, words, sentences, links })
        } else {
            Err(KnowledgeError::DatabaseError("the rows do not fit together".to_owned()))
        }
    }

    /// Reads every sentence of the store in anew, with what became of the
    /// analyzer's run on each: `replies` holds these in the order of the
    /// sentences, and a sentence without a reply counts as one that the
    /// analyzer could not be reached for.
    ///
    /// Where the analyzer failed on a sentence, nothing changes and the
    /// error says so. Otherwise all links are made anew and every count of
    /// occurrences starts from none; words that were not known are added
    /// with `now` as their date. Sentences and review states stay as they
    /// are.
    pub(crate) fn retokenize(&mut self, replies: &Vec<AnalyzerReply>, now: LocalTime) -> (r: Result<
        (),
        KnowledgeError,
    >)
        requires
            old(self).wf(),
        ensures
            final(self).wf(),
            match r {
                Ok(()) => all_analysed(analyses(replies@), old(self)@.sentences.len() as int)
                    && final(self)@ == old(self)@.retokenized(
                    token_lists(analyses(replies@), old(self)@.sentences.len() as int),
                    now@.secs,
                ),
                Err(e) => e is TokenizeError && !all_analysed(
                    analyses(replies@),
                    old(self)@.sentences.len() as int,
                ) && final(self)@ == old(self)@,
            },
    {
        let n: usize = self.sentences.len();
        let ghost found = analyses(replies@);
        let mut lists: Vec<Vec<String>> = Vec::new();
        let mut k: usize = 0;
        while k < n
            invariant
                k <= n,
                n == self.sentences.len(),
                lists.len() == k,
                found == analyses(replies@),
                *self == *old(self),
                self.wf(),
                forall|j: int|
                    0 <= j < k ==> analysis_at(found, j) == Some((#[trigger] lists[j]).deep_view()),
            decreases n - k,
        {
            if k >= replies.len() {
                assert(analysis_at(found, k as int) is None);
                return Err(KnowledgeError::TokenizeError);
            }
            assert(analysis_at(found, k as int) == replies[k as int].tokens());
            match tokenize_reply(&replies[k]) {
                Ok(tokens) => {
                    lists.push(tokens);
                },
                Err(e) => {
                    assert(analysis_at(found, k as int) is None);
                    return Err(e);
                },
            }
            k += 1;
        }
        let ghost rows = token_rows(lists@);
        assert forall|j: int| 0 <= j < n implies (#[trigger] analysis_at(found, j)) is Some by {
            assert(analysis_at(found, j) == Some(lists[j].deep_view()));
        }
        assert(rows =~= token_lists(found, n as int));
        let ghost start = uncounted(old(self)@.words);
        let ghost frequency = self@.frequency;
        let date: i64 = now.unix_secs();
        let mut i: usize = 0;
        while i < self.words.len()
            invariant
                i <= self.words.len(),
                self.words.len() == old(self).words.len(),
                self.sentences == old(self).sentences,
                self.word_freq == old(self).word_freq,
                forall|j: int| 0 <= j < i ==> self@.words[j] == old(self)@.words[j].uncounted(),
                forall|j: int| i <= j < self.words.len() ==> self@.words[j] == old(self)@.words[j],
            decreases self.words.len() - i,
        {
            let ghost earlier = self@.words;
            self.words[i].occurrence_count = 0;
            assert(self@.words =~= earlier.update(i as int, earlier[i as int].uncounted()));
            i += 1;
        }
        assert(self@.words =~= start);
        self.links = Vec::new();
        proof {
            lemma_uncounted(old(self)@.words);
            assert(rows.take(0) =~= Seq::<Seq<Seq<char>>>::empty());
            assert(self@.links =~= Seq::<Seq<int>>::empty());
        }
        let mut s: usize = 0;
        while s < n
            invariant
                s <= n,
                n == lists.len(),
                rows == token_rows(lists@),
                frequency == self@.frequency,
                self.sentences == old(self).sentences,
                distinct(word_texts(start)),
                easiness_kept(start),
                (Relinked { words: self@.words, links: self@.links }) == relink(
                    start,
                    rows.take(s as int),
                    frequency,
                    date as int,
                ),
            decreases n - s,
        {
            proof {
                lemma_relink(start, rows.take(s as int), frequency, date as int);
                assert(rows.take(s as int + 1).drop_last() =~= rows.take(s as int));
                assert(rows.take(s as int + 1).last() == lists[s as int].deep_view());
            }
            let ghost before = self@.links;
            let linked: Vec<usize> = self.add_words_to_sentence(&lists[s], date);
            self.links.push(linked);
            assert(self@.links =~= before.push(places(linked@)));
            s += 1;
        }
        proof {
            assert(rows.take(s as int) =~= rows);
            lemma_relink(start, rows, frequency, date as int);
            assert(self@.sentences == old(self)@.sentences);
            assert(self@ == old(self)@.retokenized(rows, now@.secs));
        }
        Ok(())
    }

    /// Records a review of one word, answered with the given quality in
    /// hundredths of a grade point.
    ///
    /// The review counts where the word is due or was never reviewed. Then
    /// the scheduler gives the word its next interval, and the next review
    /// falls due that long after `now`; a first review also stays on record
    /// as the first. For a word that is not due, and for an id that no word
    /// has, nothing changes. Where the next review state does not fit the
    /// numbers of the store, nothing changes either and the error says so.
    pub(crate) fn review_word(&mut self, review_word_id: u64, response_quality: u16, now: LocalTime) -> (r:
        Result<(), KnowledgeError>)
        requires
            old(self).wf(),
        ensures
            final(self).wf(),
            match r {
                Ok(()) => !old(self)@.review_overflows(
                    review_word_id as nat,
                    response_quality as nat,
                    now@,
                ) && final(self)@ == old(self)@.review_word(
                    review_word_id as nat,
                    response_quality as nat,
                    now@,
                ),
                Err(e) => e is DatabaseError && old(self)@.review_overflows(
                    review_word_id as nat,
                    response_quality as nat,
                    now@,
                ) && final(self)@ == old(self)@,
            },
    {
        proof {
            self@.lemma_review_word_wf(review_word_id as nat, response_quality as nat, now@);
        }
        if review_word_id == 0 || review_word_id > self.words.len() as u64 {
            return Ok(());
        }
        let place: usize = (review_word_id - 1) as usize;
        let now_secs: i64 = now.unix_secs();
        let boundary: i64 = now.end_of_day();
        let ghost before = self@.words[place as int];
        let reviewed: bool = self.words[place].reviewed;
        if reviewed && !self.words[place].is_due(now_secs, boundary) {
            return Ok(());
        }
        let item: SuperMemoItem = if reviewed {
            SuperMemoItem {
                repetition: self.words[place].repetition,
                interval: self.words[place].review_interval,
                e_factor: self.words[place].e_factor,
            }
        } else {
            SuperMemoItem::default()
        };
        assert(item@ == before.schedule());
        if !item.can_step(response_quality) {
            return Err(
                KnowledgeError::DatabaseError(
                    "the next review state does not fit the store".to_owned(),
                ),
            );
        }
        let next: SuperMemoItem = super_memo_2(item, response_quality);
        let next_review_at: i128 = now_secs as i128 + next.interval as i128;
        if next_review_at > i64::MAX as i128 {
            return Err(
                KnowledgeError::DatabaseError(
                    "the next review state does not fit the store".to_owned(),
                ),
            );
        }
        self.words[place].reviewed = true;
        self.words[place].repetition = next.repetition;
        self.words[place].e_factor = next.e_factor;
        self.words[place].review_interval = next.interval;
        self.words[place].next_review_at = Some(next_review_at as i64);
        if self.words[place].date_first_reviewed.is_none() {
            self.words[place].date_first_reviewed = Some(now_secs);
        }
        assert(self@.words =~= old(self)@.words.update(
            place as int,
            before.after_review(response_quality as nat, now@.secs),
        ));
        Ok(())
    }

    /// Records a review of every word of a sentence, one after another in
    /// the order of its links, each as `review_word` does. The work stops at
    /// the first word whose next review state does not fit the store: the
    /// reviews before it stay and the error says so. A sentence that does
    /// not exist has no words.
    pub(crate) fn review_sentence(&mut self, sentence_id: u64, response_quality: u16, now: LocalTime) -> (r:
        Result<(), KnowledgeError>)
        requires
            old(self).wf(),
        ensures
            final(self).wf(),
            final(self)@ == old(self)@.review_sentence(
                sentence_id as nat,
                response_quality as nat,
                now@,
            ).graph,
            match r {
                Ok(()) => old(self)@.review_sentence(
                    sentence_id as nat,
                    response_quality as nat,
                    now@,
                ).complete,
                Err(e) => e is DatabaseError && !old(self)@.review_sentence(
                    sentence_id as nat,
                    response_quality as nat,
                    now@,
                ).complete,
            },
    {
        if sentence_id == 0 || sentence_id > self.sentences.len() as u64 {
            return Ok(());
        }
        let s: usize = (sentence_id - 1) as usize;
        let ghost start = self@;
        let ghost all = self@.links[s as int];
        let count: usize = self.links[s].len();
        let mut k: usize = 0;
        assert(all.take(0) =~= Seq::<int>::empty());
        while k < count
            invariant
                k <= count,
                start == old(self)@,
                start.wf(),
                self.wf(),
                s < self.links.len(),
                s == sentence_id - 1,
                1 <= sentence_id <= start.sentences.len(),
                all == start.links[s as int],
                self@.links == start.links,
                count == all.len(),
                start.review_words(all.take(k as int), response_quality as nat, now@) == (Outcome {
                    graph: self@,
                    complete: true,
                }),
            decreases count - k,
        {
            assert(self@.links[s as int] == all);
            assert(self.links[s as int].len() == count);
            let place: usize = self.links[s][k];
            assert(all[k as int] == place);
            proof {
                assert(all.take(k as int + 1).drop_last() =~= all.take(k as int));
                assert(all.take(count as int) =~= all);
                self@.lemma_review_word_wf(
                    (place + 1) as nat,
                    response_quality as nat,
                    now@,
                );
                assert(links_fit_here(self@, s as int));
                assert(self@.links[s as int][k as int] < self@.words.len());
            }
            assert(place < self.words.len());
            match self.review_word(place as u64 + 1, response_quality, now) {
                Ok(()) => {},
                Err(e) => {
                    proof {
                        start.lemma_review_words_stops(
                            all,
                            response_quality as nat,
                            now@,
                            k as int,
                            count as int,
                        );
                    }
                    return Err(e);
                },
            }
            k += 1;
        }
        assert(all.take(k as int) =~= all);
        Ok(())
    }
}

/// Whether the links of the sentence at place `s` name existing words, each
/// once.
spec fn links_fit_here(graph: Graph, s: int) -> bool {
    crate::model::links_fit(graph.links[s], graph.words.len() as int)
}

} // verus!
