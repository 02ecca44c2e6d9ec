//! What holds of the store whatever it contains: reading a text in twice,
//! which sentence comes first, the store without sentences, what a new
//! reading of all sentences leaves alone, the day window and what a review
//! does to a word.

use crate::clock::Instant;
use crate::model::{
    all_analysed, analysis_at, lemma_relink, lemma_uncounted, nothing_to_review, uncounted,
    Analyses, Graph, Outcome, WordRow,
};
use crate::scheduler::DAY;
use vstd::prelude::*;

verus! {

/// Handing in sentences that the store holds changes nothing. The work is
/// carried through where the analyzer has found the words of every
/// sentence, and only a sentence that the work gets to need be known.
pub proof fn lemma_known_sentences_change_nothing(
    graph: Graph,
    sentences: Seq<Seq<char>>,
    source: Seq<char>,
    analyses: Analyses,
    now: int,
)
    requires
        graph.wf(),
        forall|k: int|
            0 <= k < sentences.len() && all_analysed(analyses, k + 1) ==> graph.has_sentence(
                #[trigger] sentences[k],
            ),
    ensures
        graph.add_sentences(sentences, source, analyses, now) == (Outcome {
            graph,
            complete: all_analysed(analyses, sentences.len() as int),
        }),
    decreases sentences.len(),
{
    if sentences.len() > 0 {
        let earlier = sentences.drop_last();
        let last = sentences.len() - 1;
        assert forall|k: int|
            0 <= k < earlier.len() && all_analysed(analyses, k + 1) implies graph.has_sentence(
            #[trigger] earlier[k],
        ) by {
            assert(earlier[k] == sentences[k]);
        }
        lemma_known_sentences_change_nothing(graph, earlier, source, analyses, now);
        if all_analysed(analyses, sentences.len() as int) {
            assert(analysis_at(analyses, last) is Some);
            assert(all_analysed(analyses, last));
            assert(graph.has_sentence(sentences[last]));
        } else if analysis_at(analyses, last) is Some {
            assert(!all_analysed(analyses, last));
        }
    }
}

/// After sentences were handed in, the store holds every one of them that
/// the work got to, and the work was carried through where the analyzer has
/// found the words of every sentence.
pub proof fn lemma_added_sentences_are_known(
    graph: Graph,
    sentences: Seq<Seq<char>>,
    source: Seq<char>,
    analyses: Analyses,
    now: int,
)
    requires
        graph.wf(),
    ensures
        graph.add_sentences(sentences, source, analyses, now).graph.wf(),
        graph.add_sentences(sentences, source, analyses, now).complete == all_analysed(
            analyses,
            sentences.len() as int,
        ),
        forall|k: int|
            0 <= k < sentences.len() && all_analysed(analyses, k + 1) ==> graph.add_sentences(
                sentences,
                source,
                analyses,
                now,
            ).graph.has_sentence(#[trigger] sentences[k]),
    decreases sentences.len(),
{
    graph.lemma_add_sentences_wf(sentences, source, analyses, now);
    if sentences.len() > 0 {
        let earlier = sentences.drop_last();
        let last = sentences.len() - 1;
        lemma_added_sentences_are_known(graph, earlier, source, analyses, now);
        graph.lemma_add_sentences_wf(earlier, source, analyses, now);
        let before = graph.add_sentences(earlier, source, analyses, now);
        let after = graph.add_sentences(sentences, source, analyses, now);
        if all_analysed(analyses, sentences.len() as int) {
            assert(analysis_at(analyses, last) is Some);
            assert(all_analysed(analyses, last));
        } else if analysis_at(analyses, last) is Some {
            assert(!all_analysed(analyses, last));
        }
        assert forall|k: int|
            0 <= k < sentences.len() && all_analysed(analyses, k + 1) implies after.graph.has_sentence(
            #[trigger] sentences[k],
        ) by {
            assert(analysis_at(analyses, k) is Some);
            if k < last {
                assert(earlier[k] == sentences[k]);
                assert(before.graph.has_sentence(earlier[k]));
                if after.graph != before.graph {
                    let tokens = analysis_at(analyses, last)->0;
                    before.graph.lemma_add_sentence_wf(sentences.last(), source, tokens, now);
                }
            } else {
                assert(all_analysed(analyses, last));
                let tokens = analysis_at(analyses, last)->0;
                before.graph.lemma_add_sentence_wf(sentences.last(), source, tokens, now);
            }
        }
    }
}

/// Handing in sentences takes no sentence away and moves none: the
/// sentences that the store held come first afterwards.
pub proof fn lemma_sentences_stay(
    graph: Graph,
    sentences: Seq<Seq<char>>,
    source: Seq<char>,
    analyses: Analyses,
    now: int,
)
    ensures
        graph.add_sentences(sentences, source, analyses, now).graph.sentences.len()
            >= graph.sentences.len(),
        graph.add_sentences(sentences, source, analyses, now).graph.sentences.take(
            graph.sentences.len() as int,
        ) == graph.sentences,
    decreases sentences.len(),
{
    let after = graph.add_sentences(sentences, source, analyses, now).graph;
    if sentences.len() > 0 {
        lemma_sentences_stay(graph, sentences.drop_last(), source, analyses, now);
    }
    assert(after.sentences.take(graph.sentences.len() as int) =~= graph.sentences);
}

/// The store holds no fewer sentences after a run of sentences was handed in
/// than after the first `upto` of them were.
proof fn lemma_sentences_grow_along(
    graph: Graph,
    sentences: Seq<Seq<char>>,
    source: Seq<char>,
    analyses: Analyses,
    now: int,
    upto: int,
)
    requires
        0 <= upto <= sentences.len(),
    ensures
        graph.add_sentences(sentences, source, analyses, now).graph.sentences.len()
            >= graph.add_sentences(
            sentences.take(upto),
            source,
            analyses,
            now,
        ).graph.sentences.len(),
    decreases sentences.len(),
{
    if upto == sentences.len() {
        assert(sentences.take(upto) =~= sentences);
    } else {
        assert(sentences.drop_last().take(upto) =~= sentences.take(upto));
        lemma_sentences_grow_along(graph, sentences.drop_last(), source, analyses, now, upto);
    }
}

/// A sentence that the store does not hold and that the work gets to is
/// added: the store holds more sentences afterwards.
proof fn lemma_new_sentence_is_added(
    graph: Graph,
    sentences: Seq<Seq<char>>,
    source: Seq<char>,
    analyses: Analyses,
    now: int,
    k: int,
)
    requires
        graph.wf(),
        0 <= k < sentences.len(),
        all_analysed(analyses, k + 1),
        !graph.has_sentence(sentences[k]),
    ensures
        graph.add_sentences(sentences, source, analyses, now).graph.sentences.len()
            > graph.sentences.len(),
{
    let reached = sentences.take(k + 1);
    let there = graph.add_sentences(reached, source, analyses, now).graph;
    lemma_added_sentences_are_known(graph, reached, source, analyses, now);
    assert(reached[k] == sentences[k]);
    assert(there.has_sentence(reached[k]));
    lemma_sentences_stay(graph, reached, source, analyses, now);
    if there.sentences.len() == graph.sentences.len() {
        assert(there.sentences.take(graph.sentences.len() as int) =~= there.sentences);
    }
    lemma_sentences_grow_along(graph, sentences, source, analyses, now, k + 1);
}

/// Reading a text in a second time changes nothing: the store is after the
/// second reading what it was after the first, so it holds as many words,
/// sentences and links as after one reading.
///
/// This holds where the first reading was carried through, whatever the
/// analyzer answers the second time and whatever source and time are given
/// then. It also holds after a reading that stopped early where the
/// analyzer answers as it did before. It fails only where the second
/// reading gets to a sentence that the store does not hold after the first.
pub proof fn law_second_reading_changes_nothing(
    graph: Graph,
    sentences: Seq<Seq<char>>,
    source: Seq<char>,
    analyses: Analyses,
    now: int,
    second_source: Seq<char>,
    second_analyses: Analyses,
    second_now: int,
)
    requires
        graph.wf(),
    ensures
        ({
            let first = graph.add_sentences(sentences, source, analyses, now);
            let second = first.graph.add_sentences(
                sentences,
                second_source,
                second_analyses,
                second_now,
            );
            &&& second.graph == first.graph <==> forall|k: int|
                0 <= k < sentences.len() && all_analysed(second_analyses, k + 1)
                    ==> first.graph.has_sentence(#[trigger] sentences[k])
            &&& first.complete ==> second.graph == first.graph
            &&& second_analyses == analyses ==> second.graph == first.graph
        }),
{
    let first = graph.add_sentences(sentences, source, analyses, now);
    let second = first.graph.add_sentences(sentences, second_source, second_analyses, second_now);
    lemma_added_sentences_are_known(graph, sentences, source, analyses, now);
    let all_known = forall|k: int|
        0 <= k < sentences.len() && all_analysed(second_analyses, k + 1)
            ==> first.graph.has_sentence(#[trigger] sentences[k]);
    if all_known {
        lemma_known_sentences_change_nothing(
            first.graph,
            sentences,
            second_source,
            second_analyses,
            second_now,
        );
    } else {
        let k = choose|k: int|
            0 <= k < sentences.len() && all_analysed(second_analyses, k + 1)
                && !first.graph.has_sentence(#[trigger] sentences[k]);
        lemma_new_sentence_is_added(
            first.graph,
            sentences,
            second_source,
            second_analyses,
            second_now,
            k,
        );
    }
    if first.complete {
        assert forall|k: int|
            0 <= k < sentences.len() && all_analysed(
                second_analyses,
                k + 1,
            ) implies first.graph.has_sentence(#[trigger] sentences[k]) by {
            assert forall|j: int| 0 <= j < k + 1 implies (#[trigger] analysis_at(analyses, j)) is Some by {
                assert(all_analysed(analyses, sentences.len() as int));
            }
        }
    }
}

/// Among the sentences before place `upto` that can be shown for review, one
/// has the most due words.
proof fn best_review_before(graph: Graph, now: int, boundary: int, upto: int) -> (best: int)
    requires
        exists|s: int| s < upto && graph.is_review_candidate(s, now, boundary),
    ensures
        best < upto,
        graph.is_review_candidate(best, now, boundary),
        forall|t: int|
            t < upto && #[trigger] graph.is_review_candidate(t, now, boundary) ==> graph.due_count(
                t,
                now,
                boundary,
            ) <= graph.due_count(best, now, boundary),
    decreases upto,
{
    let some = choose|s: int| s < upto && graph.is_review_candidate(s, now, boundary);
    assert(upto > 0);
    let last = upto - 1;
    if exists|s: int| s < last && graph.is_review_candidate(s, now, boundary) {
        let earlier = best_review_before(graph, now, boundary, last);
        if graph.is_review_candidate(last, now, boundary) && graph.due_count(last, now, boundary)
            > graph.due_count(earlier, now, boundary) {
            last
        } else {
            earlier
        }
    } else {
        assert(some == last);
        last
    }
}

/// Among the sentences before place `upto` that can be shown to learn from,
/// one is outranked by no other.
proof fn best_acquisition_before(graph: Graph, upto: int) -> (best: int)
    requires
        exists|s: int| s < upto && graph.is_acquisition_candidate(s),
    ensures
        best < upto,
        graph.is_acquisition_candidate(best),
        forall|t: int|
            t < upto && #[trigger] graph.is_acquisition_candidate(t) ==> graph.ranks_no_lower(
                best,
                t,
            ),
    decreases upto,
{
    let some = choose|s: int| s < upto && graph.is_acquisition_candidate(s);
    assert(upto > 0);
    let last = upto - 1;
    if exists|s: int| s < last && graph.is_acquisition_candidate(s) {
        let earlier = best_acquisition_before(graph, last);
        if graph.is_acquisition_candidate(last) && !graph.ranks_no_lower(earlier, last) {
            assert forall|t: int|
                t < upto && #[trigger] graph.is_acquisition_candidate(
                    t,
                ) implies graph.ranks_no_lower(last, t) by {
                if t < last {
                    assert(graph.ranks_no_lower(earlier, t));
                }
            }
            last
        } else {
            earlier
        }
    } else {
        assert(some == last);
        last
    }
}

/// Which sentence comes first.
///
/// Where a sentence can be shown for review, the next sentence is one of
/// these, and none of them has more due words. Where none can but some
/// sentence has a new word, the next sentence is one with a new word that no
/// other such sentence outranks. Where no sentence has a due or a new word
/// to show, there is no next sentence.
pub proof fn law_next_sentence(graph: Graph, now: Instant, tie_break: nat)
    ensures
        graph.has_review_candidate(now.secs, now.end_of_day()) ==> {
            &&& graph.next_sentence(now, tie_break) matches Some(s)
            &&& graph.is_best_review(s, now.secs, now.end_of_day())
        },
        !graph.has_review_candidate(now.secs, now.end_of_day()) && graph.has_acquisition_candidate()
            ==> {
            &&& graph.next_sentence(now, tie_break) matches Some(s)
            &&& graph.is_best_acquisition(s)
        },
        !graph.has_review_candidate(now.secs, now.end_of_day()) && !graph.has_acquisition_candidate() ==> graph.next_sentence(now, tie_break) is None,
{
    let boundary = now.end_of_day();
    let all = graph.all_places();
    let keep = graph.choice_filter(now.secs, boundary);
    let choices = graph.choices(now.secs, boundary);
    let n = graph.sentences.len() as int;
    if graph.has_review_candidate(now.secs, boundary) {
        let some = choose|s: int| graph.is_review_candidate(s, now.secs, boundary);
        assert(some < n && graph.is_review_candidate(some, now.secs, boundary));
        let best = best_review_before(graph, now.secs, boundary, n);
        assert(graph.is_best_review(best, now.secs, boundary));
        assert(all[best] == best);
        all.lemma_filter_contains(keep, best);
        let pick = (tie_break % choices.len()) as int;
        all.lemma_filter_pred(keep, pick);
    } else if graph.has_acquisition_candidate() {
        let some = choose|s: int| graph.is_acquisition_candidate(s);
        assert(some < n && graph.is_acquisition_candidate(some));
        let best = best_acquisition_before(graph, n);
        assert(graph.is_best_acquisition(best));
        assert(all[best] == best);
        all.lemma_filter_contains(keep, best);
        let pick = (tie_break % choices.len()) as int;
        all.lemma_filter_pred(keep, pick);
    } else {
        if choices.len() > 0 {
            all.lemma_filter_pred(keep, 0);
            assert(graph.is_acquisition_candidate(choices[0]));
        }
    }
}

/// Where every sentence has a new word, no sentence is shown for review:
/// the next sentence is one with the fewest new words of all, and among
/// these one whose new words were met most often on average. There is one
/// unless the store has no sentence.
pub proof fn law_new_words_everywhere(graph: Graph, now: Instant, tie_break: nat)
    requires
        forall|s: int| 0 <= s < graph.sentences.len() ==> graph.new_count(s) >= 1,
    ensures
        !graph.has_review_candidate(now.secs, now.end_of_day()),
        graph.sentences.len() == 0 ==> graph.next_sentence(now, tie_break) is None,
        graph.sentences.len() > 0 ==> {
            &&& graph.next_sentence(now, tie_break) matches Some(chosen)
            &&& 0 <= chosen < graph.sentences.len()
            &&& forall|t: int|
                0 <= t < graph.sentences.len() ==> {
                    &&& graph.new_count(chosen) <= #[trigger] graph.new_count(t)
                    &&& graph.new_count(chosen) == graph.new_count(t) ==> graph.new_occurrences(
                        chosen,
                    ) * graph.new_count(t) >= graph.new_occurrences(t) * graph.new_count(chosen)
                }
        },
{
    law_next_sentence(graph, now, tie_break);
    if graph.sentences.len() > 0 {
        assert(graph.is_acquisition_candidate(0));
        let chosen = graph.next_sentence(now, tie_break)->0;
        assert forall|t: int| 0 <= t < graph.sentences.len() implies {
            &&& graph.new_count(chosen) <= #[trigger] graph.new_count(t)
            &&& graph.new_count(chosen) == graph.new_count(t) ==> graph.new_occurrences(chosen)
                * graph.new_count(t) >= graph.new_occurrences(t) * graph.new_count(chosen)
        } by {
            assert(graph.is_acquisition_candidate(t));
            assert(graph.ranks_no_lower(chosen, t));
            if graph.new_count(chosen) == graph.new_count(t) {
                lemma_same_count_averages(
                    graph.new_occurrences(chosen),
                    graph.new_occurrences(t),
                    graph.new_count(t),
                );
            }
        }
    } else {
        assert(!graph.has_acquisition_candidate());
    }
}

/// Of two sums over equally many numbers the larger has the larger average.
pub proof fn lemma_same_count_averages(a: nat, b: nat, count: nat)
    requires
        a >= b,
    ensures
        a * count >= b * count,
{
    assert(a * count >= b * count) by (nonlinear_arith)
        requires
            a >= b,
    ;
}

/// A store without sentences has nothing to show and nothing to review.
pub proof fn law_nothing_without_sentences(graph: Graph, now: Instant, tie_break: nat)
    requires
        graph.wf(),
        graph.sentences.len() == 0,
    ensures
        graph.next_choice(now, tie_break) == nothing_to_review(),
        graph.reviews_remaining(now) == 0,
{
    law_next_sentence(graph, now, tie_break);
    assert(!graph.has_review_candidate(now.secs, now.end_of_day()));
    assert(!graph.has_acquisition_candidate());
    assert(graph.words =~= Seq::<WordRow>::empty());
    crate::model::lemma_filter_none(Graph::due_row_filter(now.secs, now.end_of_day()));
}

/// A new reading of all sentences leaves alone what was learnt: the
/// sentences stay, every word stays at its place, and nothing of a word
/// changes but its count of occurrences.
pub proof fn law_retokenizing_keeps_reviews(
    graph: Graph,
    token_lists: Seq<Seq<Seq<char>>>,
    now: int,
)
    requires
        graph.wf(),
    ensures
        graph.retokenized(token_lists, now).sentences == graph.sentences,
        graph.retokenized(token_lists, now).words.len() >= graph.words.len(),
        forall|i: int|
            0 <= i < graph.words.len() ==> (#[trigger] graph.retokenized(token_lists, now).words[i])
                == (WordRow {
                occurrence_count: graph.retokenized(token_lists, now).words[i].occurrence_count,
                ..graph.words[i]
            }),
{
    lemma_uncounted(graph.words);
    lemma_relink(uncounted(graph.words), token_lists, graph.frequency, now);
}

/// The day window. A reviewed word with an interval of a day or more is due
/// exactly when its review falls before the end of the learner's day, also
/// where that is still ahead of `now`. A word with a shorter interval is due
/// exactly when its review time has passed.
pub proof fn law_due_within_day_window(word: WordRow, now: Instant)
    ensures
        word.reviewed && word.review_interval >= DAY ==> (word.is_due(now.secs, now.end_of_day())
            <==> (word.next_review_at matches Some(at) && at < now.end_of_day())),
        word.review_interval < DAY ==> (word.is_due(now.secs, now.end_of_day()) <==> (
        word.next_review_at matches Some(at) && at < now.secs)),
{
    crate::clock::law_end_of_day_is_near(now);
}

/// A review that counts takes the word off the list: right after it the
/// word is neither new nor due, so a second review at the same moment
/// changes nothing. The next review falls due one interval after `now`, so
/// no earlier than a review that was overdue.
pub proof fn law_review_moves_on(graph: Graph, word_id: nat, quality: nat, now: Instant)
    requires
        graph.can_review(word_id, now),
    ensures
        ({
            let before = graph.words[word_id - 1];
            let after = graph.review_word(word_id, quality, now).words[word_id - 1];
            &&& after == before.after_review(quality, now.secs)
            &&& after.next_review_at == Some(now.secs + after.review_interval)
            &&& !after.may_be_reviewed(now.secs, now.end_of_day())
            &&& after.next_review_at->0 >= now.secs
        }),
        forall|again: nat|
            graph.review_word(word_id, quality, now).review_word(word_id, again, now)
                == graph.review_word(word_id, quality, now),
{
    crate::clock::law_end_of_day_is_near(now);
}

} // verus!
