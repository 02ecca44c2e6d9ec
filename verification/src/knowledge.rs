//! The knowledge store: the vocabulary, the corpus of sentences and the
//! links between them, with the operations that read in text, pick the next
//! sentence and record reviews.

use crate::analyzer::AnalyzerReply;
use crate::clock::LocalTime;
pub use crate::error::{KnowledgeError, KnowledgeResult};
use crate::frequency::WordFrequencyList;
use crate::model::{all_analysed, token_lists, Analyses, Choice, Graph, SentenceRow, WordRow};
use crate::sentences::sentences_of;
use crate::tables::Tables;
use vstd::prelude::*;

verus! {

/// A word of the vocabulary with its review state.
#[derive(Clone, Debug)]
pub struct Word {
    /// The dictionary form, which no other word shares.
    pub text: String,
    /// The rank on the frequency list at the time the word was met first.
    pub frequency_rank: u64,
    /// How often the word was met while sentences were read in.
    pub occurrence_count: u64,
    /// Whether the word was ever reviewed.
    pub reviewed: bool,
    /// The repetition count of the scheduler.
    pub repetition: u32,
    /// The easiness factor of the scheduler, in millionths.
    pub e_factor: u64,
    /// The interval of the scheduler, in seconds.
    pub review_interval: u64,
    /// When the next review falls due, in seconds since 1970.
    pub next_review_at: Option<i64>,
    /// When the word was reviewed for the first time.
    pub date_first_reviewed: Option<i64>,
    /// When the word was met first.
    pub date_added: i64,
}

/// A moment of the store as a number without bounds, where there is one.
pub open spec fn moment(at: Option<i64>) -> Option<int> {
    match at {
        Some(secs) => Some(secs as int),
        None => None,
    }
}

impl View for Word {
    type V = WordRow;

    open spec fn view(&self) -> WordRow {
        WordRow {
            text: self.text@,
            frequency_rank: self.frequency_rank as nat,
            occurrence_count: self.occurrence_count as nat,
            reviewed: self.reviewed,
            repetition: self.repetition as nat,
            e_factor: self.e_factor as nat,
            review_interval: self.review_interval as nat,
            next_review_at: moment(self.next_review_at),
            date_first_reviewed: moment(self.date_first_reviewed),
            date_added: self.date_added as int,
        }
    }
}

impl Word {
    /// Whether the word is due at `now`, where the day ends at `boundary`.
    pub fn is_due(&self, now: i64, boundary: i64) -> (due: bool)
        ensures
            due == self@.is_due(now as int, boundary as int),
    {
        match self.next_review_at {
            Some(at) => (self.reviewed && at < boundary && self.review_interval >= crate::scheduler::DAY)
                || at < now,
            None => false,
        }
    }
}

/// A sentence of the corpus.
#[derive(Clone, Debug)]
pub struct Sentence {
    /// The sentence itself, which no other sentence shares.
    pub text: String,
    /// Where the sentence was taken from.
    pub source: String,
    /// When the sentence was read in, in seconds since 1970.
    pub date_added: i64,
}

impl View for Sentence {
    type V = SentenceRow;

    open spec fn view(&self) -> SentenceRow {
        SentenceRow { text: self.text@, source: self.source@, date_added: self.date_added as int }
    }
}

/// The rows that a list of words stands for.
pub open spec fn word_rows(words: Seq<Word>) -> Seq<WordRow> {
    Seq::new(words.len(), |i: int| words[i]@)
}

/// The rows that a list of sentences stands for.
pub open spec fn sentence_rows(sentences: Seq<Sentence>) -> Seq<SentenceRow> {
    Seq::new(sentences.len(), |s: int| sentences[s]@)
}

/// A list of places as numbers without bounds.
pub open spec fn places(list: Seq<usize>) -> Seq<int> {
    Seq::new(list.len(), |k: int| list[k] as int)
}

/// The links that a list of lists of places stands for.
pub open spec fn link_rows(links: Seq<Vec<usize>>) -> Seq<Seq<int>> {
    Seq::new(links.len(), |s: int| places(links[s]@))
}

/// A list of words with their ids, as mathematics.
pub open spec fn named_words(words: Seq<(u64, String)>) -> Seq<(nat, Seq<char>)> {
    Seq::new(words.len(), |k: int| (words[k].0 as nat, words[k].1@))
}

/// What an analyzer found in each of a run of sentences, from what became of
/// its runs.
pub open spec fn analyses(replies: Seq<AnalyzerReply>) -> Analyses {
    Seq::new(replies.len(), |k: int| replies[k].tokens())
}

/// The store that holds the given rows.
pub open spec fn graph_of(
    frequency: Seq<Seq<char>>,
    words: Seq<Word>,
    sentences: Seq<Sentence>,
    links: Seq<Vec<usize>>,
) -> Graph {
    Graph {
        frequency,
        words: word_rows(words),
        sentences: sentence_rows(sentences),
        links: link_rows(links),
    }
}

/// The sentence that the learner is to see next, with the words in it that
/// are due for review and those that are new.
#[derive(Clone, Debug)]
pub struct IPlusOneSentenceData {
    /// The sentence; a fixed notice where there is none to show.
    pub sentence_text: String,
    /// The id of the sentence, or 0 where there is none to show.
    pub sentence_id: u64,
    /// Where the sentence was taken from.
    pub sentence_source: String,
    /// The words of the sentence that are due, each with its id.
    pub words_being_reviewed: Vec<(u64, String)>,
    /// The words of the sentence that are new, each with its id.
    pub words_that_are_new: Vec<(u64, String)>,
}

impl View for IPlusOneSentenceData {
    type V = Choice;

    open spec fn view(&self) -> Choice {
        Choice {
            sentence_id: self.sentence_id as nat,
            text: self.sentence_text@,
            source: self.sentence_source@,
            due: named_words(self.words_being_reviewed@),
            new: named_words(self.words_that_are_new@),
        }
    }
}

/// How much is left to review.
#[derive(Clone, Copy, Debug)]
pub struct ReviewInfoData {
    /// The number of words that are due.
    pub reviews_remaining: u64,
}

/// The store: the vocabulary, the corpus of sentences, the links between
/// them and the frequency list that new words are ranked by.
pub struct Knowledge {
    tables: Tables,
}

impl View for Knowledge {
    type V = Graph;

    closed spec fn view(&self) -> Graph {
        self.tables@
    }
}

impl Knowledge {
    #[verifier::type_invariant]
    spec fn holds_together(self) -> bool {
        self.tables@.wf()
    }

    /// A store without words and sentences.
    pub fn new(word_freq: WordFrequencyList) -> (knowledge: Knowledge)
        ensures
            knowledge@ == Graph::empty(word_freq@),
            knowledge@.wf(),
    {
        Knowledge { tables: Tables::new(word_freq) }
    }

    /// A store that holds the given rows, as they were written out from a
    /// store before: the words and the sentences in the order of their ids,
    /// and for each sentence the places of its words in the list of words.
    /// Rows that do not fit together, as `Graph::wf` says, are refused.
    pub fn from_rows(
        word_freq: WordFrequencyList,
        words: Vec<Word>,
        sentences: Vec<Sentence>,
        links: Vec<Vec<usize>>,
    ) -> (r: Result<Knowledge, KnowledgeError>)
        ensures
            match r {
                Ok(knowledge) => knowledge@.wf() && knowledge@ == graph_of(
                    word_freq@,
                    words@,
                    sentences@,
                    links@,
                ),
                Err(e) => e is DatabaseError && !graph_of(word_freq@, words@, sentences@, links@).wf(),
            },
    {
        match Tables::from_rows(word_freq, words, sentences, links) {
            Ok(tables) => Ok(Knowledge { tables }),
            Err(e) => Err(e),
        }
    }

    /// The words, in the order of their ids: the word at place `i` has the
    /// id `i + 1`.
    pub fn words(&self) -> (words: &Vec<Word>)
        ensures
            word_rows(words@) == self@.words,
            self@.wf(),
    {
        proof {
            use_type_invariant(self);
        }
        self.tables.words()
    }

    /// The sentences, in the order of their ids: the sentence at place `s`
    /// has the id `s + 1`.
    pub fn sentences(&self) -> (sentences: &Vec<Sentence>)
        ensures
            sentence_rows(sentences@) == self@.sentences,
            self@.wf(),
    {
        proof {
            use_type_invariant(self);
        }
        self.tables.sentences()
    }

    /// For each sentence the places of its words in the list of words.
    pub fn links(&self) -> (links: &Vec<Vec<usize>>)
        ensures
            link_rows(links@) == self@.links,
            self@.wf(),
    {
        proof {
            use_type_invariant(self);
        }
        self.tables.links()
    }

    /// The frequency list that new words are ranked by.
    pub fn word_freq(&self) -> (list: &WordFrequencyList)
        ensures
            list@ == self@.frequency,
    {
        self.tables.word_freq()
    }

    /// The words of a sentence, each with its id; none for a sentence that
    /// does not exist.
    pub fn get_words_in_sentence(&self, sentence_id: u64) -> (words: Vec<(u64, String)>)
        ensures
            named_words(words@) == self@.words_in_sentence(sentence_id as nat),
    {
        proof {
            use_type_invariant(self);
        }
        self.tables.get_words_in_sentence(sentence_id)
    }

    /// The words of a sentence that are due at `now`, each with its id.
    pub fn get_words_in_sentence_that_need_reviewing(
        &self,
        sentence_id: u64,
        now: LocalTime,
    ) -> (words: Vec<(u64, String)>)
        ensures
            named_words(words@) == self@.due_in_sentence(sentence_id as nat, now@),
    {
        proof {
            use_type_invariant(self);
        }
        self.tables.get_words_in_sentence_that_need_reviewing(sentence_id, now)
    }

    /// The words of a sentence that were never reviewed, each with its id.
    pub fn get_words_in_sentence_that_are_new(&self, sentence_id: u64) -> (words: Vec<
        (u64, String),
    >)
        ensures
            named_words(words@) == self@.new_in_sentence(sentence_id as nat),
    {
        proof {
            use_type_invariant(self);
        }
        self.tables.get_words_in_sentence_that_are_new(sentence_id)
    }

    /// How many words are due at `now`.
    pub fn get_review_info(&self, now: LocalTime) -> (info: ReviewInfoData)
        ensures
            info.reviews_remaining == self@.reviews_remaining(now@),
    {
        self.tables.get_review_info(now)
    }

    /// The sentence that the learner is to see next.
    ///
    /// A sentence without new words and with the most due words comes
    /// first. Where no sentence without new words has a due word, the
    /// sentence with the fewest new words comes first, and among several
    /// the one whose new words were met most often on average. Among
    /// sentences that are equal in all this, `tie_break` picks one, so hand
    /// in a number drawn at random. Where no sentence has a new word either,
    /// the result has the id 0 and a notice in place of a sentence.
    pub fn get_next_sentence_i_plus_one(&self, now: LocalTime, tie_break: u64) -> (data:
        IPlusOneSentenceData)
        ensures
            data@ == self@.next_choice(now@, tie_break as nat),
    {
        proof {
            use_type_invariant(self);
        }
        self.tables.get_next_sentence_i_plus_one(now, tie_break)
    }

    /// Hands in one sentence with what became of the analyzer's run on it.
    ///
    /// Where the analyzer failed, nothing changes and the error says so. A
    /// sentence that the store holds already changes nothing either.
    /// Otherwise the sentence is added, with `now` as its date, and its
    /// words are read in and linked to it.
    pub fn add_sentence(
        &mut self,
        sentence: &str,
        source: &str,
        reply: &AnalyzerReply,
        now: LocalTime,
    ) -> (r: Result<(), KnowledgeError>)
        ensures
            final(self)@.wf(),
            match r {
                Ok(()) => reply.tokens() is Some && final(self)@ == old(self)@.add_sentence(
                    sentence@,
                    source@,
                    reply.tokens()->0,
                    now@.secs,
                ),
                Err(e) => e is TokenizeError && reply.tokens() is None && final(self)@ == old(
                    self,
                )@,
            },
    {
        proof {
            use_type_invariant(&*self);
        }
        let mut tables: Tables = Tables::new(WordFrequencyList::new(""));
        core::mem::swap(&mut tables, &mut self.tables);
        let r = tables.add_sentence(sentence, source, reply, now);
        self.tables = tables;
        r
    }

    /// Reads in a text: splits it into sentences and hands them in one
    /// after another, each with what became of the analyzer's run on it.
    /// `replies` holds these in the order of the sentences of
    /// `iterate_sentences(text)`; a sentence without a reply counts as one
    /// that the analyzer could not be reached for.
    ///
    /// The result is the number of sentences in the text, whether or not
    /// the store held them before. The work stops at the first sentence that
    /// the analyzer failed on: the sentences before it stay and the error
    /// says so.
    pub fn add_text(
        &mut self,
        text: &str,
        source: &str,
        replies: &Vec<AnalyzerReply>,
        now: LocalTime,
    ) -> (r: Result<u64, KnowledgeError>)
        ensures
            final(self)@.wf(),
            final(self)@ == old(self)@.add_sentences(
                sentences_of(text@),
                source@,
                analyses(replies@),
                now@.secs,
            ).graph,
            match r {
                Ok(count) => count == sentences_of(text@).len() && old(self)@.add_sentences(
                    sentences_of(text@),
                    source@,
                    analyses(replies@),
                    now@.secs,
                ).complete,
                Err(e) => e is TokenizeError && !old(self)@.add_sentences(
                    sentences_of(text@),
                    source@,
                    analyses(replies@),
                    now@.secs,
                ).complete,
            },
    {
        proof {
            use_type_invariant(&*self);
        }
        let mut tables: Tables = Tables::new(WordFrequencyList::new(""));
        core::mem::swap(&mut tables, &mut self.tables);
        let r = tables.add_text(text, source, replies, now);
        self.tables = tables;
        r
    }

    /// Reads every sentence of the store in anew, with what became of the
    /// analyzer's run on each: `replies` holds these in the order of the
    /// sentences, and a sentence without a reply counts as one that the
    /// analyzer could not be reached for.
    ///
    /// Where the analyzer failed on a sentence, nothing changes and the
    /// error says so. Otherwise all links are made anew and every count of
    /// occurrences starts from none; words that were not known are added
    /// with `now` as their date. Sentences and review states stay as they
    /// are.
    pub fn retokenize(&mut self, replies: &Vec<AnalyzerReply>, now: LocalTime) -> (r: Result<
        (),
        KnowledgeError,
    >)
        ensures
            final(self)@.wf(),
            match r {
                Ok(()) => all_analysed(analyses(replies@), old(self)@.sentences.len() as int)
                    && final(self)@ == old(self)@.retokenized(
                    token_lists(analyses(replies@), old(self)@.sentences.len() as int),
                    now@.secs,
                ),
                Err(e) => e is TokenizeError && !all_analysed(
                    analyses(replies@),
                    old(self)@.sentences.len() as int,
                ) && final(self)@ == old(self)@,
            },
    {
        proof {
            use_type_invariant(&*self);
        }
        let mut tables: Tables = Tables::new(WordFrequencyList::new(""));
        core::mem::swap(&mut tables, &mut self.tables);
        let r = tables.retokenize(replies, now);
        self.tables = tables;
        r
    }

    /// Records a review of one word, answered with the given quality in
    /// hundredths of a grade point.
    ///
    /// The review counts where the word is due or was never reviewed. Then
    /// the scheduler gives the word its next interval, and the next review
    /// falls due that long after `now`; a first review also stays on record
    /// as the first. For a word that is not due, and for an id that no word
    /// has, nothing changes. Where the next review state does not fit the
    /// numbers of the store, nothing changes either and the error says so.
    pub fn review_word(&mut self, review_word_id: u64, response_quality: u16, now: LocalTime) -> (r:
        Result<(), KnowledgeError>)
        ensures
            final(self)@.wf(),
            match r {
                Ok(()) => !old(self)@.review_overflows(
                    review_word_id as nat,
                    response_quality as nat,
                    now@,
                ) && final(self)@ == old(self)@.review_word(
                    review_word_id as nat,
                    response_quality as nat,
                    now@,
                ),
                Err(e) => e is DatabaseError && old(self)@.review_overflows(
                    review_word_id as nat,
                    response_quality as nat,
                    now@,
                ) && final(self)@ == old(self)@,
            },
    {
        proof {
            use_type_invariant(&*self);
        }
        let mut tables: Tables = Tables::new(WordFrequencyList::new(""));
        core::mem::swap(&mut tables, &mut self.tables);
        let r = tables.review_word(review_word_id, response_quality, now);
        self.tables = tables;
        r
    }

    /// Records a review of every word of a sentence, one after another in
    /// the order of its links, each as `review_word` does. The work stops at
    /// the first word whose next review state does not fit the store: the
    /// reviews before it stay and the error says so. A sentence that does
    /// not exist has no words.
    pub fn review_sentence(&mut self, sentence_id: u64, response_quality: u16, now: LocalTime) -> (r:
        Result<(), KnowledgeError>)
        ensures
            final(self)@.wf(),
            final(self)@ == old(self)@.review_sentence(
                sentence_id as nat,
                response_quality as nat,
                now@,
            ).graph,
            match r {
                Ok(()) => old(self)@.review_sentence(
                    sentence_id as nat,
                    response_quality as nat,
                    now@,
                ).complete,
                Err(e) => e is DatabaseError && !old(self)@.review_sentence(
                    sentence_id as nat,
                    response_quality as nat,
                    now@,
                ).complete,
            },
    {
        proof {
            use_type_invariant(&*self);
        }
        let mut tables: Tables = Tables::new(WordFrequencyList::new(""));
        core::mem::swap(&mut tables, &mut self.tables);
        let r = tables.review_sentence(sentence_id, response_quality, now);
        self.tables = tables;
        r
    }
}

} // verus!
