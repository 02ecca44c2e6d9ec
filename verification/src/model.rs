//! The knowledge graph as mathematics: words, sentences and the links
//! between them, and what each operation of the store makes of them.
//!
//! Rows are kept in the order in which they were made and are never taken
//! away, so the word at place `i` of the word list has the id `i + 1`, and
//! likewise for sentences. The links of a sentence are the places of its
//! words, in the order in which the words were first met in it.

use crate::clock::Instant;
use crate::frequency::{last_place, rank_of};
use crate::scheduler::{new_schedule, sm2_step, Schedule, DAY, DEFAULT_E_FACTOR, MIN_E_FACTOR};
use vstd::prelude::*;

verus! {

/// A word of the vocabulary with its review state.
pub struct WordRow {
    /// The dictionary form, which no other word shares.
    pub text: Seq<char>,
    /// The rank on the frequency list at the time the word was met first.
    pub frequency_rank: nat,
    /// How often the word was met while sentences were read in.
    pub occurrence_count: nat,
    /// Whether the word was ever reviewed.
    pub reviewed: bool,
    /// The repetition count of the scheduler.
    pub repetition: nat,
    /// The easiness factor of the scheduler, in millionths.
    pub e_factor: nat,
    /// The interval of the scheduler, in seconds.
    pub review_interval: nat,
    /// When the next review falls due.
    pub next_review_at: Option<int>,
    /// When the word was reviewed for the first time.
    pub date_first_reviewed: Option<int>,
    /// When the word was met first.
    pub date_added: int,
}

impl WordRow {
    /// A word that was just met for the first time.
    pub open spec fn fresh(text: Seq<char>, frequency_rank: nat, now: int) -> WordRow {
        WordRow {
            text,
            frequency_rank,
            occurrence_count: 1,
            reviewed: false,
            repetition: 0,
            e_factor: DEFAULT_E_FACTOR as nat,
            review_interval: 0,
            next_review_at: None,
            date_first_reviewed: None,
            date_added: now,
        }
    }

    /// The word after it was met once more. The count stops at the largest
    /// number that 64 bits hold.
    pub open spec fn seen_again(self) -> WordRow {
        WordRow {
            occurrence_count: if self.occurrence_count < u64::MAX {
                self.occurrence_count + 1
            } else {
                self.occurrence_count
            },
            ..self
        }
    }

    /// The word with its count of occurrences set back to none.
    pub open spec fn uncounted(self) -> WordRow {
        WordRow { occurrence_count: 0, ..self }
    }

    /// A new word is one that was never reviewed.
    pub open spec fn is_new(self) -> bool {
        !self.reviewed
    }

    /// Whether the word is due at `now`, where the day ends at `boundary`.
    /// A reviewed word with an interval of a day or more is due as soon as
    /// its review falls before the end of the day; any other word only once
    /// its review time has passed.
    pub open spec fn is_due(self, now: int, boundary: int) -> bool {
        match self.next_review_at {
            Some(at) => (self.reviewed && at < boundary && self.review_interval >= DAY) || at
                < now,
            None => false,
        }
    }

    /// Whether a review of the word counts: it is due or new.
    pub open spec fn may_be_reviewed(self, now: int, boundary: int) -> bool {
        self.is_due(now, boundary) || self.is_new()
    }

    /// The state that the scheduler starts from at the next review.
    pub open spec fn schedule(self) -> Schedule {
        if self.reviewed {
            Schedule {
                repetition: self.repetition,
                interval: self.review_interval,
                e_factor: self.e_factor,
            }
        } else {
            new_schedule()
        }
    }

    /// The word after a review of the given quality at `now`.
    pub open spec fn after_review(self, quality: nat, now: int) -> WordRow {
        let next = sm2_step(self.schedule(), quality);
        WordRow {
            reviewed: true,
            repetition: next.repetition,
            e_factor: next.e_factor,
            review_interval: next.interval,
            next_review_at: Some(now + next.interval),
            date_first_reviewed: if self.date_first_reviewed is None {
                Some(now)
            } else {
                self.date_first_reviewed
            },
            ..self
        }
    }

    /// Whether the review state fits the machine integers of the store.
    pub open spec fn storable(self) -> bool {
        &&& self.repetition <= u32::MAX
        &&& self.e_factor <= u64::MAX
        &&& self.review_interval <= u64::MAX
        &&& match self.next_review_at {
            Some(at) => i64::MIN <= at <= i64::MAX,
            None => true,
        }
    }
}

/// A sentence of the corpus.
pub struct SentenceRow {
    /// The sentence itself, which no other sentence shares.
    pub text: Seq<char>,
    /// Where the sentence was taken from.
    pub source: Seq<char>,
    /// When the sentence was read in.
    pub date_added: int,
}

/// Whether no text stands at two places.
pub open spec fn distinct(texts: Seq<Seq<char>>) -> bool {
    forall|i: int, j: int| 0 <= i < j < texts.len() ==> texts[i] != texts[j]
}

/// The texts of a list of words.
pub open spec fn word_texts(words: Seq<WordRow>) -> Seq<Seq<char>> {
    Seq::new(words.len(), |i: int| words[i].text)
}

/// The texts of a list of sentences.
pub open spec fn sentence_texts(sentences: Seq<SentenceRow>) -> Seq<Seq<char>> {
    Seq::new(sentences.len(), |i: int| sentences[i].text)
}

/// Whether a list of links names words that exist, each once.
pub open spec fn links_fit(linked: Seq<int>, word_count: int) -> bool {
    &&& linked.no_duplicates()
    &&& forall|k: int| 0 <= k < linked.len() ==> 0 <= #[trigger] linked[k] < word_count
}

/// Whether every easiness factor of a list of words is at least 1.3.
pub open spec fn easiness_kept(words: Seq<WordRow>) -> bool {
    forall|i: int| 0 <= i < words.len() ==> (#[trigger] words[i]).e_factor >= MIN_E_FACTOR
}

/// The sum of the occurrence counts of the words at the given places.
pub open spec fn occurrences(words: Seq<WordRow>, places: Seq<int>) -> nat
    decreases places.len(),
{
    if places.len() == 0 {
        0
    } else {
        occurrences(words, places.drop_last()) + words[places.last()].occurrence_count
    }
}

/// The vocabulary and the links of one sentence while its words are read in.
pub struct Ingest {
    /// All words known so far.
    pub words: Seq<WordRow>,
    /// The places of the words met in the sentence so far.
    pub linked: Seq<int>,
}

/// One word of a sentence is read in: a word that is known is counted once
/// more, another is added with its rank on the frequency list; either way
/// the sentence is linked to it unless it already is.
pub open spec fn ingest_token(
    state: Ingest,
    token: Seq<char>,
    frequency: Seq<Seq<char>>,
    now: int,
) -> Ingest {
    match last_place(word_texts(state.words), token) {
        Some(place) => Ingest {
            words: state.words.update(place, state.words[place].seen_again()),
            linked: if state.linked.contains(place) {
                state.linked
            } else {
                state.linked.push(place)
            },
        },
        None => Ingest {
            words: state.words.push(WordRow::fresh(token, rank_of(frequency, token), now)),
            linked: state.linked.push(state.words.len() as int),
        },
    }
}

/// The words of a sentence are read in, in order.
pub open spec fn ingest_tokens(
    state: Ingest,
    tokens: Seq<Seq<char>>,
    frequency: Seq<Seq<char>>,
    now: int,
) -> Ingest
    decreases tokens.len(),
{
    if tokens.len() == 0 {
        state
    } else {
        ingest_token(
            ingest_tokens(state, tokens.drop_last(), frequency, now),
            tokens.last(),
            frequency,
            now,
        )
    }
}

/// The vocabulary and all links while every sentence is read in anew.
pub struct Relinked {
    /// All words known so far.
    pub words: Seq<WordRow>,
    /// The links of the sentences read so far.
    pub links: Seq<Seq<int>>,
}

/// The sentences whose words are given are read in one after another,
/// each starting without links.
pub open spec fn relink(
    words: Seq<WordRow>,
    token_lists: Seq<Seq<Seq<char>>>,
    frequency: Seq<Seq<char>>,
    now: int,
) -> Relinked
    decreases token_lists.len(),
{
    if token_lists.len() == 0 {
        Relinked { words, links: Seq::empty() }
    } else {
        let before = relink(words, token_lists.drop_last(), frequency, now);
        let done = ingest_tokens(
            Ingest { words: before.words, linked: Seq::empty() },
            token_lists.last(),
            frequency,
            now,
        );
        Relinked { words: done.words, links: before.links.push(done.linked) }
    }
}

/// Every word with its count of occurrences set back to none.
pub open spec fn uncounted(words: Seq<WordRow>) -> Seq<WordRow> {
    Seq::new(words.len(), |i: int| words[i].uncounted())
}

/// The words that an analyzer found in each of a run of sentences, or `None`
/// for a sentence that it failed on.
pub type Analyses = Seq<Option<Seq<Seq<char>>>>;

/// What the analyzer found in the sentence at place `k`. A sentence without
/// an analysis counts as one that the analyzer failed on.
pub open spec fn analysis_at(analyses: Analyses, k: int) -> Option<Seq<Seq<char>>> {
    if 0 <= k < analyses.len() {
        analyses[k]
    } else {
        None
    }
}

/// Whether the analyzer found the words of each of the first `count`
/// sentences.
pub open spec fn all_analysed(analyses: Analyses, count: int) -> bool {
    forall|k: int| 0 <= k < count ==> (#[trigger] analysis_at(analyses, k)) is Some
}

/// The words found in each of the first `count` sentences.
pub open spec fn token_lists(analyses: Analyses, count: int) -> Seq<Seq<Seq<char>>> {
    Seq::new(count as nat, |k: int| analysis_at(analyses, k)->0)
}

/// The whole store.
pub struct Graph {
    /// The frequency list, most common word first.
    pub frequency: Seq<Seq<char>>,
    /// The words; the word at place `i` has the id `i + 1`.
    pub words: Seq<WordRow>,
    /// The sentences; the sentence at place `s` has the id `s + 1`.
    pub sentences: Seq<SentenceRow>,
    /// For each sentence the places of its words.
    pub links: Seq<Seq<int>>,
}

/// A store and whether the work that led to it was carried through.
pub struct Outcome {
    /// The store after the work, or after the part of it that was done.
    pub graph: Graph,
    /// Whether all of the work was done.
    pub complete: bool,
}

/// What the learner is shown next.
pub struct Choice {
    /// The id of the sentence, or 0 where there is none to show.
    pub sentence_id: nat,
    /// The sentence.
    pub text: Seq<char>,
    /// Where the sentence was taken from.
    pub source: Seq<char>,
    /// The words of the sentence that are due, each with its id.
    pub due: Seq<(nat, Seq<char>)>,
    /// The words of the sentence that are new, each with its id.
    pub new: Seq<(nat, Seq<char>)>,
}

/// The text shown where no sentence has a word to learn or to review.
pub open spec fn nothing_text() -> Seq<char> {
    "No sentence with any new words and no words are scheduled for reviewing."@
}

/// What is shown where no sentence has a word to learn or to review.
pub open spec fn nothing_to_review() -> Choice {
    Choice {
        sentence_id: 0,
        text: nothing_text(),
        source: Seq::empty(),
        due: Seq::empty(),
        new: Seq::empty(),
    }
}

impl Graph {
    /// A store without words and sentences.
    pub open spec fn empty(frequency: Seq<Seq<char>>) -> Graph {
        Graph { frequency, words: Seq::empty(), sentences: Seq::empty(), links: Seq::empty() }
    }

    /// What holds of every store: no two words and no two sentences share a
    /// text, every sentence has its list of links, which names existing
    /// words and none twice, no easiness factor is under 1.3, and words are
    /// only there where a sentence is.
    pub open spec fn wf(self) -> bool {
        &&& distinct(word_texts(self.words))
        &&& distinct(sentence_texts(self.sentences))
        &&& self.links.len() == self.sentences.len()
        &&& forall|s: int|
            0 <= s < self.links.len() ==> links_fit(#[trigger] self.links[s], self.words.len() as int)
        &&& easiness_kept(self.words)
        &&& self.words.len() > 0 ==> self.sentences.len() > 0
    }

    /// Whether the store holds a sentence with this text.
    pub open spec fn has_sentence(self, text: Seq<char>) -> bool {
        last_place(sentence_texts(self.sentences), text) is Some
    }

    /// The store after a sentence with the given words was handed in: as it
    /// was where the sentence is known, and else with the sentence added,
    /// its words read in and linked to it.
    pub open spec fn add_sentence(
        self,
        text: Seq<char>,
        source: Seq<char>,
        tokens: Seq<Seq<char>>,
        now: int,
    ) -> Graph {
        if self.has_sentence(text) {
            self
        } else {
            let done = ingest_tokens(
                Ingest { words: self.words, linked: Seq::empty() },
                tokens,
                self.frequency,
                now,
            );
            Graph {
                frequency: self.frequency,
                words: done.words,
                sentences: self.sentences.push(SentenceRow { text, source, date_added: now }),
                links: self.links.push(done.linked),
            }
        }
    }

    /// The store after a run of sentences was handed in, one after another.
    /// The work stops before the first sentence that the analyzer failed on;
    /// the sentences before it stay.
    pub open spec fn add_sentences(
        self,
        sentences: Seq<Seq<char>>,
        source: Seq<char>,
        analyses: Analyses,
        now: int,
    ) -> Outcome
        decreases sentences.len(),
    {
        if sentences.len() == 0 {
            Outcome { graph: self, complete: true }
        } else {
            let before = self.add_sentences(sentences.drop_last(), source, analyses, now);
            match analysis_at(analyses, sentences.len() - 1) {
                Some(tokens) => if before.complete {
                    Outcome {
                        graph: before.graph.add_sentence(sentences.last(), source, tokens, now),
                        complete: true,
                    }
                } else {
                    before
                },
                None => Outcome { graph: before.graph, complete: false },
            }
        }
    }

    /// The store after every sentence was read in anew with the words given
    /// for it: all links are made anew and every count of occurrences
    /// starts from none, while sentences and review states stay.
    pub open spec fn retokenized(self, token_lists: Seq<Seq<Seq<char>>>, now: int) -> Graph {
        let done = relink(uncounted(self.words), token_lists, self.frequency, now);
        Graph {
            frequency: self.frequency,
            words: done.words,
            sentences: self.sentences,
            links: done.links,
        }
    }

    /// Whether a review of the word with the given id counts at `now`: the
    /// word exists and is due or new.
    pub open spec fn can_review(self, word_id: nat, now: Instant) -> bool {
        &&& 1 <= word_id <= self.words.len()
        &&& self.words[word_id - 1].may_be_reviewed(now.secs, now.end_of_day())
    }

    /// Whether a review that counts would lead to a review state that the
    /// store cannot hold.
    pub open spec fn review_overflows(self, word_id: nat, quality: nat, now: Instant) -> bool {
        &&& self.can_review(word_id, now)
        &&& !self.words[word_id - 1].after_review(quality, now.secs).storable()
    }

    /// The store after a review of one word: the word is rescheduled where
    /// the review counts, and nothing changes where it does not.
    pub open spec fn review_word(self, word_id: nat, quality: nat, now: Instant) -> Graph {
        if self.can_review(word_id, now) {
            Graph {
                words: self.words.update(
                    word_id - 1,
                    self.words[word_id - 1].after_review(quality, now.secs),
                ),
                ..self
            }
        } else {
            self
        }
    }

    /// The store after the words at the given places were reviewed one after
    /// another. The work stops before the first word whose new review state
    /// the store cannot hold; the reviews before it stay.
    pub open spec fn review_words(self, places: Seq<int>, quality: nat, now: Instant) -> Outcome
        decreases places.len(),
    {
        if places.len() == 0 {
            Outcome { graph: self, complete: true }
        } else {
            let before = self.review_words(places.drop_last(), quality, now);
            let word_id = (places.last() + 1) as nat;
            if !before.complete || before.graph.review_overflows(word_id, quality, now) {
                Outcome { graph: before.graph, complete: false }
            } else {
                Outcome { graph: before.graph.review_word(word_id, quality, now), complete: true }
            }
        }
    }

    /// The store after every word of a sentence was reviewed. A sentence
    /// that does not exist has no words.
    pub open spec fn review_sentence(self, sentence_id: nat, quality: nat, now: Instant) -> Outcome {
        if 1 <= sentence_id <= self.sentences.len() {
            self.review_words(self.links[sentence_id - 1], quality, now)
        } else {
            Outcome { graph: self, complete: true }
        }
    }

    /// The test for a new word, by its place.
    pub open spec fn new_filter(self) -> spec_fn(int) -> bool {
        |place: int| self.words[place].is_new()
    }

    /// The test for a due word, by its place.
    pub open spec fn due_filter(self, now: int, boundary: int) -> spec_fn(int) -> bool {
        |place: int| self.words[place].is_due(now, boundary)
    }

    /// The test for a due word in a list of words.
    pub open spec fn due_row_filter(now: int, boundary: int) -> spec_fn(WordRow) -> bool {
        |word: WordRow| word.is_due(now, boundary)
    }

    /// The places of the words of a sentence; none for a sentence that does
    /// not exist.
    pub open spec fn places_of(self, sentence_id: nat) -> Seq<int> {
        if 1 <= sentence_id <= self.links.len() {
            self.links[sentence_id - 1]
        } else {
            Seq::empty()
        }
    }

    /// The places of the new words of the sentence at place `s`.
    pub open spec fn new_words(self, s: int) -> Seq<int> {
        self.links[s].filter(self.new_filter())
    }

    /// The places of the due words of the sentence at place `s`.
    pub open spec fn due_words(self, s: int, now: int, boundary: int) -> Seq<int> {
        self.links[s].filter(self.due_filter(now, boundary))
    }

    /// How many words of the sentence at place `s` are new.
    pub open spec fn new_count(self, s: int) -> nat {
        self.new_words(s).len()
    }

    /// How many words of the sentence at place `s` are due.
    pub open spec fn due_count(self, s: int, now: int, boundary: int) -> nat {
        self.due_words(s, now, boundary).len()
    }

    /// The sum of the occurrence counts of the new words of the sentence at
    /// place `s`. Divided by the number of these words it is their average.
    pub open spec fn new_occurrences(self, s: int) -> nat {
        occurrences(self.words, self.new_words(s))
    }

    /// How many words of the vocabulary are due.
    pub open spec fn reviews_remaining(self, now: Instant) -> nat {
        self.words.filter(Self::due_row_filter(now.secs, now.end_of_day())).len()
    }

    /// The words at the given places, each with its id.
    pub open spec fn named(self, places: Seq<int>) -> Seq<(nat, Seq<char>)> {
        Seq::new(places.len(), |k: int| ((places[k] + 1) as nat, self.words[places[k]].text))
    }

    /// The words of a sentence, each with its id.
    pub open spec fn words_in_sentence(self, sentence_id: nat) -> Seq<(nat, Seq<char>)> {
        self.named(self.places_of(sentence_id))
    }

    /// The due words of a sentence, each with its id.
    pub open spec fn due_in_sentence(self, sentence_id: nat, now: Instant) -> Seq<
        (nat, Seq<char>),
    > {
        self.named(self.places_of(sentence_id).filter(self.due_filter(now.secs, now.end_of_day())))
    }

    /// The new words of a sentence, each with its id.
    pub open spec fn new_in_sentence(self, sentence_id: nat) -> Seq<(nat, Seq<char>)> {
        self.named(self.places_of(sentence_id).filter(self.new_filter()))
    }

    /// Whether the sentence at place `s` can be shown for review: none of
    /// its words is new and at least one is due.
    pub open spec fn is_review_candidate(self, s: int, now: int, boundary: int) -> bool {
        &&& 0 <= s < self.sentences.len()
        &&& self.new_count(s) == 0
        &&& self.due_count(s, now, boundary) > 0
    }

    /// Whether the sentence at place `s` is one of those that can be shown
    /// for review and have the most due words.
    pub open spec fn is_best_review(self, s: int, now: int, boundary: int) -> bool {
        &&& self.is_review_candidate(s, now, boundary)
        &&& forall|t: int| #[trigger]
            self.is_review_candidate(t, now, boundary) ==> self.due_count(t, now, boundary)
                <= self.due_count(s, now, boundary)
    }

    /// Whether the sentence at place `s` can be shown to learn from: at
    /// least one of its words is new.
    pub open spec fn is_acquisition_candidate(self, s: int) -> bool {
        &&& 0 <= s < self.sentences.len()
        &&& self.new_count(s) > 0
    }

    /// Whether the sentence at place `s` is to be shown at least as soon as
    /// the one at place `t`: it has fewer new words, or as many and these
    /// were met at least as often. With as many new words in both, the
    /// larger sum of occurrence counts is the larger average.
    pub open spec fn ranks_no_lower(self, s: int, t: int) -> bool {
        ||| self.new_count(s) < self.new_count(t)
        ||| (self.new_count(s) == self.new_count(t) && self.new_occurrences(s)
            >= self.new_occurrences(t))
    }

    /// Whether the sentence at place `s` is one of those with a new word
    /// that no other such sentence outranks.
    pub open spec fn is_best_acquisition(self, s: int) -> bool {
        &&& self.is_acquisition_candidate(s)
        &&& forall|t: int| #[trigger] self.is_acquisition_candidate(t) ==> self.ranks_no_lower(s, t)
    }

    /// Whether some sentence can be shown for review.
    pub open spec fn has_review_candidate(self, now: int, boundary: int) -> bool {
        exists|s: int| self.is_review_candidate(s, now, boundary)
    }

    /// Whether some sentence can be shown to learn from.
    pub open spec fn has_acquisition_candidate(self) -> bool {
        exists|s: int| self.is_acquisition_candidate(s)
    }

    /// The test for the sentences that come first, by their place: the best
    /// for review where a sentence can be shown for review, and else the
    /// best to learn from.
    pub open spec fn choice_filter(self, now: int, boundary: int) -> spec_fn(int) -> bool {
        if self.has_review_candidate(now, boundary) {
            |s: int| self.is_best_review(s, now, boundary)
        } else {
            |s: int| self.is_best_acquisition(s)
        }
    }

    /// The places of all sentences, in rising order.
    pub open spec fn all_places(self) -> Seq<int> {
        Seq::new(self.sentences.len(), |s: int| s)
    }

    /// The places of the sentences that come first, in rising order.
    pub open spec fn choices(self, now: int, boundary: int) -> Seq<int> {
        self.all_places().filter(self.choice_filter(now, boundary))
    }

    /// The place of the sentence to show next. Among the sentences that come
    /// first, `tie_break` picks one: the one at place `tie_break` modulo
    /// their number.
    pub open spec fn next_sentence(self, now: Instant, tie_break: nat) -> Option<int> {
        let choices = self.choices(now.secs, now.end_of_day());
        if choices.len() == 0 {
            None
        } else {
            Some(choices[(tie_break % choices.len()) as int])
        }
    }

    /// What the learner is shown next: the chosen sentence with its due and
    /// its new words.
    pub open spec fn next_choice(self, now: Instant, tie_break: nat) -> Choice {
        match self.next_sentence(now, tie_break) {
            Some(s) => Choice {
                sentence_id: (s + 1) as nat,
                text: self.sentences[s].text,
                source: self.sentences[s].source,
                due: self.due_in_sentence((s + 1) as nat, now),
                new: self.new_in_sentence((s + 1) as nat),
            },
            None => nothing_to_review(),
        }
    }
}

/// The texts of a list of words do not change where one of the words is
/// counted once more.
pub proof fn lemma_texts_after_count(words: Seq<WordRow>, place: int)
    requires
        0 <= place < words.len(),
    ensures
        word_texts(words.update(place, words[place].seen_again())) == word_texts(words),
{
    assert(word_texts(words.update(place, words[place].seen_again())) =~= word_texts(words));
}

/// Reading in one word keeps what holds of a vocabulary and of the links of
/// the sentence being read, takes no word away and changes of a word that
/// was there at most its count of occurrences.
pub proof fn lemma_ingest_token(
    state: Ingest,
    token: Seq<char>,
    frequency: Seq<Seq<char>>,
    now: int,
)
    requires
        distinct(word_texts(state.words)),
        easiness_kept(state.words),
        links_fit(state.linked, state.words.len() as int),
    ensures
        ({
            let next = ingest_token(state, token, frequency, now);
            &&& distinct(word_texts(next.words))
            &&& easiness_kept(next.words)
            &&& links_fit(next.linked, next.words.len() as int)
            &&& next.words.len() >= state.words.len()
            &&& next.words.len() > 0
            &&& forall|i: int|
                0 <= i < state.words.len() ==> (#[trigger] next.words[i]) == (WordRow {
                    occurrence_count: next.words[i].occurrence_count,
                    ..state.words[i]
                })
        }),
{
    let texts = word_texts(state.words);
    let next = ingest_token(state, token, frequency, now);
    crate::frequency::lemma_last_place(texts, token);
    match last_place(texts, token) {
        Some(place) => {
            lemma_texts_after_count(state.words, place);
        },
        None => {
            let added = WordRow::fresh(token, rank_of(frequency, token), now);
            assert(word_texts(next.words) =~= texts.push(token));
            assert forall|i: int, j: int| 0 <= i < j < word_texts(next.words).len() implies word_texts(
                next.words,
            )[i] != word_texts(next.words)[j] by {
                if j < texts.len() {
                    assert(texts[i] != texts[j]);
                } else {
                    assert(texts[i] != token);
                }
            }
        },
    }
}

/// Reading in the words of a sentence keeps what holds of a vocabulary and
/// of the links of the sentence, takes no word away and changes of a word
/// that was there at most its count of occurrences.
pub proof fn lemma_ingest_tokens(
    state: Ingest,
    tokens: Seq<Seq<char>>,
    frequency: Seq<Seq<char>>,
    now: int,
)
    requires
        distinct(word_texts(state.words)),
        easiness_kept(state.words),
        links_fit(state.linked, state.words.len() as int),
    ensures
        ({
            let done = ingest_tokens(state, tokens, frequency, now);
            &&& distinct(word_texts(done.words))
            &&& easiness_kept(done.words)
            &&& links_fit(done.linked, done.words.len() as int)
            &&& done.words.len() >= state.words.len()
            &&& tokens.len() > 0 ==> done.words.len() > 0
            &&& forall|i: int|
                0 <= i < state.words.len() ==> (#[trigger] done.words[i]) == (WordRow {
                    occurrence_count: done.words[i].occurrence_count,
                    ..state.words[i]
                })
        }),
    decreases tokens.len(),
{
    if tokens.len() > 0 {
        lemma_ingest_tokens(state, tokens.drop_last(), frequency, now);
        let before = ingest_tokens(state, tokens.drop_last(), frequency, now);
        lemma_ingest_token(before, tokens.last(), frequency, now);
        let done = ingest_tokens(state, tokens, frequency, now);
        assert forall|i: int| 0 <= i < state.words.len() implies (#[trigger] done.words[i]) == (
        WordRow { occurrence_count: done.words[i].occurrence_count, ..state.words[i] }) by {
            assert(before.words[i] == (WordRow {
                occurrence_count: before.words[i].occurrence_count,
                ..state.words[i]
            }));
        }
    }
}

/// Setting every count back keeps what holds of a vocabulary.
pub proof fn lemma_uncounted(words: Seq<WordRow>)
    requires
        distinct(word_texts(words)),
        easiness_kept(words),
    ensures
        distinct(word_texts(uncounted(words))),
        easiness_kept(uncounted(words)),
        uncounted(words).len() == words.len(),
{
    assert(word_texts(uncounted(words)) =~= word_texts(words));
}

/// Links that fit a vocabulary fit every longer one.
pub proof fn lemma_links_fit_more(linked: Seq<int>, word_count: int, more: int)
    requires
        links_fit(linked, word_count),
        word_count <= more,
    ensures
        links_fit(linked, more),
{
}

/// Reading in every sentence anew keeps what holds of a vocabulary, gives
/// each sentence links that fit, takes no word away and changes of a word
/// that was there at most its count of occurrences.
pub proof fn lemma_relink(
    words: Seq<WordRow>,
    token_lists: Seq<Seq<Seq<char>>>,
    frequency: Seq<Seq<char>>,
    now: int,
)
    requires
        distinct(word_texts(words)),
        easiness_kept(words),
    ensures
        ({
            let done = relink(words, token_lists, frequency, now);
            &&& distinct(word_texts(done.words))
            &&& easiness_kept(done.words)
            &&& done.links.len() == token_lists.len()
            &&& forall|s: int|
                0 <= s < done.links.len() ==> links_fit(
                    #[trigger] done.links[s],
                    done.words.len() as int,
                )
            &&& done.words.len() >= words.len()
            &&& token_lists.len() == 0 ==> done.words == words
            &&& forall|i: int|
                0 <= i < words.len() ==> (#[trigger] done.words[i]) == (WordRow {
                    occurrence_count: done.words[i].occurrence_count,
                    ..words[i]
                })
        }),
    decreases token_lists.len(),
{
    if token_lists.len() > 0 {
        lemma_relink(words, token_lists.drop_last(), frequency, now);
        let before = relink(words, token_lists.drop_last(), frequency, now);
        let start = Ingest { words: before.words, linked: Seq::empty() };
        lemma_ingest_tokens(start, token_lists.last(), frequency, now);
        let read = ingest_tokens(start, token_lists.last(), frequency, now);
        let done = relink(words, token_lists, frequency, now);
        assert forall|s: int| 0 <= s < done.links.len() implies links_fit(
            #[trigger] done.links[s],
            done.words.len() as int,
        ) by {
            if s < before.links.len() {
                assert(done.links[s] == before.links[s]);
                lemma_links_fit_more(before.links[s], before.words.len() as int, done.words.len() as int);
            }
        }
        assert forall|i: int| 0 <= i < words.len() implies (#[trigger] done.words[i]) == (WordRow {
            occurrence_count: done.words[i].occurrence_count,
            ..words[i]
        }) by {
            assert(before.words[i] == (WordRow {
                occurrence_count: before.words[i].occurrence_count,
                ..words[i]
            }));
            assert(read.words[i] == (WordRow {
                occurrence_count: read.words[i].occurrence_count,
                ..before.words[i]
            }));
        }
    }
}

impl Graph {
    /// A sentence handed in leaves a store a store.
    pub proof fn lemma_add_sentence_wf(
        self,
        text: Seq<char>,
        source: Seq<char>,
        tokens: Seq<Seq<char>>,
        now: int,
    )
        requires
            self.wf(),
        ensures
            self.add_sentence(text, source, tokens, now).wf(),
            self.add_sentence(text, source, tokens, now).has_sentence(text),
            self.add_sentence(text, source, tokens, now).frequency == self.frequency,
            forall|other: Seq<char>|
                self.has_sentence(other) ==> #[trigger] self.add_sentence(
                    text,
                    source,
                    tokens,
                    now,
                ).has_sentence(other),
    {
        let after = self.add_sentence(text, source, tokens, now);
        let texts = sentence_texts(self.sentences);
        crate::frequency::lemma_last_place(texts, text);
        if !self.has_sentence(text) {
            let start = Ingest { words: self.words, linked: Seq::empty() };
            lemma_ingest_tokens(start, tokens, self.frequency, now);
            let done = ingest_tokens(start, tokens, self.frequency, now);
            let more = sentence_texts(after.sentences);
            assert(more =~= texts.push(text));
            assert forall|i: int, j: int| 0 <= i < j < more.len() implies more[i] != more[j] by {
                if j < texts.len() {
                    assert(texts[i] != texts[j]);
                } else {
                    assert(texts[i] != text);
                }
            }
            assert forall|s: int| 0 <= s < after.links.len() implies links_fit(
                #[trigger] after.links[s],
                after.words.len() as int,
            ) by {
                if s < self.links.len() {
                    assert(after.links[s] == self.links[s]);
                    lemma_links_fit_more(self.links[s], self.words.len() as int, after.words.len() as int);
                }
            }
            crate::frequency::lemma_last_place(more, text);
            assert(more[more.len() - 1] == text);
            assert forall|other: Seq<char>| self.has_sentence(other) implies #[trigger] after.has_sentence(
                other,
            ) by {
                crate::frequency::lemma_last_place(texts, other);
                crate::frequency::lemma_last_place(more, other);
                let place = last_place(texts, other)->0;
                assert(more[place] == other);
            }
        }
    }

    /// Once the analyzer has failed on a sentence, the sentences after it
    /// change nothing.
    pub proof fn lemma_add_sentences_stops(
        self,
        sentences: Seq<Seq<char>>,
        source: Seq<char>,
        analyses: Analyses,
        now: int,
        failed: int,
        upto: int,
    )
        requires
            0 <= failed < upto <= sentences.len(),
            analysis_at(analyses, failed) is None,
        ensures
            self.add_sentences(sentences.take(upto), source, analyses, now) == (Outcome {
                graph: self.add_sentences(sentences.take(failed), source, analyses, now).graph,
                complete: false,
            }),
        decreases upto,
    {
        assert(sentences.take(upto).drop_last() =~= sentences.take(upto - 1));
        if upto - 1 > failed {
            self.lemma_add_sentences_stops(sentences, source, analyses, now, failed, upto - 1);
        }
    }

    /// Whatever is handed in leaves a store a store, with the same frequency
    /// list and with every sentence that it held before.
    pub proof fn lemma_add_sentences_wf(
        self,
        sentences: Seq<Seq<char>>,
        source: Seq<char>,
        analyses: Analyses,
        now: int,
    )
        requires
            self.wf(),
        ensures
            self.add_sentences(sentences, source, analyses, now).graph.wf(),
            self.add_sentences(sentences, source, analyses, now).graph.frequency == self.frequency,
            forall|other: Seq<char>|
                self.has_sentence(other) ==> #[trigger] self.add_sentences(
                    sentences,
                    source,
                    analyses,
                    now,
                ).graph.has_sentence(other),
        decreases sentences.len(),
    {
        if sentences.len() > 0 {
            self.lemma_add_sentences_wf(sentences.drop_last(), source, analyses, now);
            let before = self.add_sentences(sentences.drop_last(), source, analyses, now);
            match analysis_at(analyses, sentences.len() - 1) {
                Some(tokens) => {
                    before.graph.lemma_add_sentence_wf(sentences.last(), source, tokens, now);
                },
                None => {},
            }
        }
    }

    /// A review leaves a store a store, and changes nothing but the review
    /// state of the one word.
    pub proof fn lemma_review_word_wf(self, word_id: nat, quality: nat, now: Instant)
        requires
            self.wf(),
        ensures
            self.review_word(word_id, quality, now).wf(),
            self.review_word(word_id, quality, now).links == self.links,
            self.review_word(word_id, quality, now).sentences == self.sentences,
            self.review_word(word_id, quality, now).words.len() == self.words.len(),
    {
        let after = self.review_word(word_id, quality, now);
        if self.can_review(word_id, now) {
            let word = self.words[word_id - 1];
            crate::scheduler::law_e_factor_floor(word.schedule(), quality);
            assert(word_texts(after.words) =~= word_texts(self.words));
        }
    }

    /// Once a review has not fitted the store, the words after it are not
    /// reviewed.
    pub proof fn lemma_review_words_stops(
        self,
        places: Seq<int>,
        quality: nat,
        now: Instant,
        failed: int,
        upto: int,
    )
        requires
            0 <= failed < upto <= places.len(),
            self.review_words(places.take(failed), quality, now).complete,
            self.review_words(places.take(failed), quality, now).graph.review_overflows(
                (places[failed] + 1) as nat,
                quality,
                now,
            ),
        ensures
            self.review_words(places.take(upto), quality, now) == (Outcome {
                graph: self.review_words(places.take(failed), quality, now).graph,
                complete: false,
            }),
        decreases upto,
    {
        assert(places.take(upto).drop_last() =~= places.take(upto - 1));
        if upto - 1 > failed {
            self.lemma_review_words_stops(places, quality, now, failed, upto - 1);
        }
    }
}

/// Filtering nothing leaves nothing.
pub proof fn lemma_filter_none<A>(keep: spec_fn(A) -> bool)
    ensures
        Seq::<A>::empty().filter(keep) == Seq::<A>::empty(),
{
    reveal(Seq::filter);
}

/// Filtering one item more of a list keeps the item or not, and leaves what
/// was filtered before as it was.
pub proof fn lemma_filter_next<A>(list: Seq<A>, k: int, keep: spec_fn(A) -> bool)
    requires
        0 <= k < list.len(),
    ensures
        list.take(k + 1).filter(keep) == if keep(list[k]) {
            list.take(k).filter(keep).push(list[k])
        } else {
            list.take(k).filter(keep)
        },
{
    assert(list.take(k + 1) =~= list.take(k).push(list[k]));
    list.take(k).lemma_filter_push(list[k], keep);
}

} // verus!
