use chrono::{FixedOffset, TimeZone};
use iplusone::analyzer::AnalyzerReply;
use iplusone::clock::LocalTime;
use iplusone::error::KnowledgeError;
use iplusone::frequency::WordFrequencyList;
use iplusone::knowledge::{Knowledge, Sentence, Word};

const NOTICE: &str = "No sentence with any new words and no words are scheduled for reviewing.";

fn line(word: &str) -> String {
    format!("{w} {w} {w} \u{540d}\u{8a5e} 6 \u{666e}\u{901a}\u{540d}\u{8a5e} 1 * 0 * 0 NIL\n", w = word)
}

fn reply(words: &[&str]) -> AnalyzerReply {
    let mut output = String::new();
    for word in words {
        output.push_str(&line(word));
    }
    output.push_str("EOS\n");
    AnalyzerReply::Exited { success: true, output: output.into_bytes() }
}

fn failure() -> AnalyzerReply {
    AnalyzerReply::Exited { success: false, output: Vec::new() }
}

fn at(secs: i64) -> LocalTime {
    LocalTime::new(secs, 0).unwrap()
}

fn tokyo(day: u32, hour: u32, min: u32) -> i64 {
    FixedOffset::east_opt(9 * 3600)
        .unwrap()
        .with_ymd_and_hms(2024, 3, day, hour, min, 0)
        .unwrap()
        .timestamp()
}

fn in_tokyo(day: u32, hour: u32, min: u32) -> LocalTime {
    LocalTime::new(tokyo(day, hour, min), 9 * 3600).unwrap()
}

fn empty() -> Knowledge {
    Knowledge::new(WordFrequencyList::new("ga\nneko\nsuki\n"))
}

/// A store with the sentences "neko ga suki." and "inu mo suki.".
fn cats_and_dogs() -> Knowledge {
    let mut knowledge = empty();
    let replies = vec![reply(&["neko", "ga", "suki"]), reply(&["inu", "mo", "suki"])];
    let added = knowledge.add_text("neko ga suki\u{3002}inu mo suki\u{3002}", "book", &replies, at(1_000));
    assert!(matches!(added, Ok(2)));
    knowledge
}

fn texts(words: &Vec<(u64, String)>) -> Vec<(u64, &str)> {
    words.iter().map(|(id, text)| (*id, text.as_str())).collect()
}

fn word(text: &str) -> Word {
    Word {
        text: text.to_string(),
        frequency_rank: 0,
        occurrence_count: 1,
        reviewed: false,
        repetition: 0,
        e_factor: 2_500_000,
        review_interval: 0,
        next_review_at: None,
        date_first_reviewed: None,
        date_added: 0,
    }
}

fn reviewed(text: &str, repetition: u32, interval: u64, next_review_at: i64) -> Word {
    Word {
        reviewed: true,
        repetition,
        review_interval: interval,
        next_review_at: Some(next_review_at),
        date_first_reviewed: Some(0),
        ..word(text)
    }
}

fn sentence(text: &str) -> Sentence {
    Sentence { text: text.to_string(), source: "test".to_string(), date_added: 0 }
}

fn store(words: Vec<Word>, sentences: Vec<Sentence>, links: Vec<Vec<usize>>) -> Knowledge {
    match Knowledge::from_rows(WordFrequencyList::new(""), words, sentences, links) {
        Ok(knowledge) => knowledge,
        Err(e) => panic!("{}", e.message()),
    }
}

#[test]
fn empty_store_has_nothing_to_show() {
    let knowledge = empty();
    let data = knowledge.get_next_sentence_i_plus_one(at(0), 7);
    assert_eq!(data.sentence_id, 0);
    assert_eq!(data.sentence_text, NOTICE);
    assert_eq!(data.sentence_source, "");
    assert!(data.words_being_reviewed.is_empty());
    assert!(data.words_that_are_new.is_empty());
    assert_eq!(knowledge.get_review_info(at(0)).reviews_remaining, 0);
    assert!(knowledge.words().is_empty());
    assert!(knowledge.sentences().is_empty());
    assert!(knowledge.links().is_empty());
}

#[test]
fn text_is_read_in_sentence_by_sentence() {
    let knowledge = cats_and_dogs();
    let sentences = knowledge.sentences();
    assert_eq!(sentences.len(), 2);
    assert_eq!(sentences[0].text, "neko ga suki\u{3002}");
    assert_eq!(sentences[0].source, "book");
    assert_eq!(sentences[0].date_added, 1_000);
    assert_eq!(sentences[1].text, "inu mo suki\u{3002}");
    let words: Vec<&str> = knowledge.words().iter().map(|w| w.text.as_str()).collect();
    assert_eq!(words, vec!["neko", "ga", "suki", "inu", "mo"]);
    assert_eq!(knowledge.links(), &vec![vec![0, 1, 2], vec![3, 4, 2]]);
}

#[test]
fn new_words_start_unreviewed() {
    let knowledge = cats_and_dogs();
    let neko = &knowledge.words()[0];
    assert_eq!(neko.occurrence_count, 1);
    assert!(!neko.reviewed);
    assert_eq!(neko.repetition, 0);
    assert_eq!(neko.e_factor, 2_500_000);
    assert_eq!(neko.review_interval, 0);
    assert_eq!(neko.next_review_at, None);
    assert_eq!(neko.date_first_reviewed, None);
    assert_eq!(neko.date_added, 1_000);
}

#[test]
fn words_are_ranked_when_they_are_first_met() {
    let knowledge = cats_and_dogs();
    let ranks: Vec<u64> = knowledge.words().iter().map(|w| w.frequency_rank).collect();
    assert_eq!(ranks, vec![1, 0, 2, 3, 3]);
}

#[test]
fn words_are_counted_each_time_they_are_met() {
    let knowledge = cats_and_dogs();
    let counts: Vec<u64> = knowledge.words().iter().map(|w| w.occurrence_count).collect();
    assert_eq!(counts, vec![1, 1, 2, 1, 1]);
}

#[test]
fn a_word_met_twice_in_a_sentence_is_counted_twice_and_linked_once() {
    let mut knowledge = empty();
    let r = knowledge.add_sentence("a a b a\u{3002}", "", &reply(&["a", "a", "b", "a"]), at(5));
    assert!(r.is_ok());
    assert_eq!(knowledge.words().len(), 2);
    assert_eq!(knowledge.words()[0].occurrence_count, 3);
    assert_eq!(knowledge.words()[1].occurrence_count, 1);
    assert_eq!(knowledge.links(), &vec![vec![0, 1]]);
}

#[test]
fn reading_a_text_twice_changes_nothing() {
    let mut knowledge = cats_and_dogs();
    let replies = vec![reply(&["neko", "ga", "suki"]), reply(&["inu", "mo", "suki"])];
    let again = knowledge.add_text("neko ga suki\u{3002}inu mo suki\u{3002}", "web", &replies, at(2_000));
    assert!(matches!(again, Ok(2)));
    assert_eq!(knowledge.sentences().len(), 2);
    assert_eq!(knowledge.words().len(), 5);
    assert_eq!(knowledge.links(), &vec![vec![0, 1, 2], vec![3, 4, 2]]);
    let counts: Vec<u64> = knowledge.words().iter().map(|w| w.occurrence_count).collect();
    assert_eq!(counts, vec![1, 1, 2, 1, 1]);
    assert_eq!(knowledge.sentences()[0].source, "book");
    assert_eq!(knowledge.sentences()[0].date_added, 1_000);
}

#[test]
fn a_known_sentence_is_not_read_again_whatever_the_analyzer_says() {
    let mut knowledge = cats_and_dogs();
    let replies = vec![reply(&["x", "y"]), reply(&["z"])];
    let again = knowledge.add_text("neko ga suki\u{3002}inu mo suki\u{3002}", "web", &replies, at(2_000));
    assert!(matches!(again, Ok(2)));
    assert_eq!(knowledge.words().len(), 5);
    assert_eq!(knowledge.links(), &vec![vec![0, 1, 2], vec![3, 4, 2]]);
}

#[test]
fn the_count_is_the_number_of_sentences_in_the_text() {
    let mut knowledge = cats_and_dogs();
    let replies = vec![reply(&["neko", "ga", "suki"]), reply(&["tori"])];
    let added = knowledge.add_text("neko ga suki\u{3002}tori\u{3002}", "book", &replies, at(3_000));
    assert!(matches!(added, Ok(2)));
    assert_eq!(knowledge.sentences().len(), 3);
    let none = knowledge.add_text("no terminator", "book", &Vec::new(), at(3_000));
    assert!(matches!(none, Ok(0)));
    assert_eq!(knowledge.sentences().len(), 3);
}

#[test]
fn a_failed_analysis_stops_the_reading() {
    let mut knowledge = empty();
    let replies = vec![reply(&["a"]), failure(), reply(&["c"])];
    let added = knowledge.add_text("a\u{3002}b\u{3002}c\u{3002}", "", &replies, at(0));
    assert!(matches!(added, Err(KnowledgeError::TokenizeError)));
    assert_eq!(knowledge.sentences().len(), 1);
    assert_eq!(knowledge.sentences()[0].text, "a\u{3002}");
    assert_eq!(knowledge.words().len(), 1);
}

#[test]
fn a_failed_analysis_of_a_known_sentence_is_an_error_too() {
    let mut knowledge = cats_and_dogs();
    let added = knowledge.add_text("neko ga suki\u{3002}", "", &vec![failure()], at(0));
    assert!(matches!(added, Err(KnowledgeError::TokenizeError)));
    assert_eq!(knowledge.sentences().len(), 2);
}

#[test]
fn a_missing_reply_counts_as_a_failure() {
    let mut knowledge = empty();
    let added = knowledge.add_text("a\u{3002}b\u{3002}", "", &vec![reply(&["a"])], at(0));
    assert!(matches!(added, Err(KnowledgeError::TokenizeError)));
    assert_eq!(knowledge.sentences().len(), 1);
    let r = knowledge.add_sentence("c\u{3002}", "", &AnalyzerReply::Unreachable, at(0));
    assert!(matches!(r, Err(KnowledgeError::TokenizeError)));
    assert_eq!(knowledge.sentences().len(), 1);
}

#[test]
fn a_sentence_without_words_is_kept_and_never_shown() {
    let mut knowledge = empty();
    let r = knowledge.add_sentence("\u{3002}", "", &reply(&[]), at(0));
    assert!(r.is_ok());
    assert_eq!(knowledge.sentences().len(), 1);
    assert_eq!(knowledge.links(), &vec![Vec::<usize>::new()]);
    assert_eq!(knowledge.get_next_sentence_i_plus_one(at(10), 0).sentence_id, 0);
}

#[test]
fn words_of_a_sentence_come_with_their_ids() {
    let knowledge = cats_and_dogs();
    assert_eq!(texts(&knowledge.get_words_in_sentence(1)), vec![(1, "neko"), (2, "ga"), (3, "suki")]);
    assert_eq!(texts(&knowledge.get_words_in_sentence(2)), vec![(4, "inu"), (5, "mo"), (3, "suki")]);
    assert!(knowledge.get_words_in_sentence(0).is_empty());
    assert!(knowledge.get_words_in_sentence(3).is_empty());
    assert_eq!(texts(&knowledge.get_words_in_sentence_that_are_new(2)), vec![(4, "inu"), (5, "mo"), (3, "suki")]);
    assert!(knowledge.get_words_in_sentence_that_need_reviewing(2, at(5_000)).is_empty());
    assert!(knowledge.get_words_in_sentence_that_are_new(9).is_empty());
    assert!(knowledge.get_words_in_sentence_that_need_reviewing(9, at(5_000)).is_empty());
}

#[test]
fn the_sentence_with_fewest_new_words_comes_first() {
    let mut knowledge = empty();
    let replies = vec![reply(&["x", "y", "z"]), reply(&["w", "v"]), reply(&["u", "t", "s"])];
    assert!(knowledge.add_text("1\u{3002}2\u{3002}3\u{3002}", "", &replies, at(0)).is_ok());
    for tie_break in 0..5 {
        let data = knowledge.get_next_sentence_i_plus_one(at(10), tie_break);
        assert_eq!(data.sentence_id, 2);
        assert_eq!(data.sentence_text, "2\u{3002}");
        assert_eq!(texts(&data.words_that_are_new), vec![(4, "w"), (5, "v")]);
        assert!(data.words_being_reviewed.is_empty());
    }
}

#[test]
fn among_equals_the_more_often_met_new_words_come_first() {
    let mut knowledge = empty();
    let replies = vec![reply(&["x", "y", "z"]), reply(&["w"]), reply(&["x"])];
    assert!(knowledge.add_text("1\u{3002}2\u{3002}3\u{3002}", "", &replies, at(0)).is_ok());
    // Sentences 2 and 3 have one new word each; "x" was met twice, "w" once.
    for tie_break in 0..5 {
        let data = knowledge.get_next_sentence_i_plus_one(at(10), tie_break);
        assert_eq!(data.sentence_id, 3);
        assert_eq!(texts(&data.words_that_are_new), vec![(1, "x")]);
    }
}

#[test]
fn the_tie_break_picks_among_equals() {
    let mut knowledge = empty();
    let replies = vec![reply(&["a"]), reply(&["b", "c"]), reply(&["d"]), reply(&["e"])];
    assert!(knowledge.add_text("1\u{3002}2\u{3002}3\u{3002}4\u{3002}", "", &replies, at(0)).is_ok());
    let picked: Vec<u64> = (0..7u64)
        .map(|tie_break| knowledge.get_next_sentence_i_plus_one(at(10), tie_break).sentence_id)
        .collect();
    assert_eq!(picked, vec![1, 3, 4, 1, 3, 4, 1]);
    assert_eq!(knowledge.get_next_sentence_i_plus_one(at(10), u64::MAX).sentence_id, 1);
}

#[test]
fn a_sentence_to_review_comes_before_any_with_new_words() {
    let mut knowledge = empty();
    let replies = vec![reply(&["a", "b"]), reply(&["c"])];
    assert!(knowledge.add_text("1\u{3002}2\u{3002}", "src", &replies, at(0)).is_ok());
    assert!(knowledge.review_sentence(1, 500, at(100)).is_ok());
    // Nothing is due yet, so the sentence with a new word is shown.
    let data = knowledge.get_next_sentence_i_plus_one(at(101), 0);
    assert_eq!(data.sentence_id, 2);
    // Ten minutes later both words of the first sentence are due.
    let data = knowledge.get_next_sentence_i_plus_one(at(701), 0);
    assert_eq!(data.sentence_id, 1);
    assert_eq!(data.sentence_text, "1\u{3002}");
    assert_eq!(data.sentence_source, "src");
    assert_eq!(texts(&data.words_being_reviewed), vec![(1, "a"), (2, "b")]);
    assert!(data.words_that_are_new.is_empty());
    assert_eq!(knowledge.get_review_info(at(701)).reviews_remaining, 2);
    assert_eq!(knowledge.get_review_info(at(700)).reviews_remaining, 0);
}

#[test]
fn the_sentence_with_most_due_words_comes_first() {
    let knowledge = store(
        vec![reviewed("a", 1, 600, 50), reviewed("b", 1, 600, 50), reviewed("c", 1, 600, 500), word("d")],
        vec![sentence("1"), sentence("2"), sentence("3"), sentence("4")],
        vec![vec![0, 2], vec![0, 1, 2], vec![0, 1, 3], vec![2]],
    );
    // At 100 the words a and b are due; sentence 3 has a new word.
    for tie_break in 0..3 {
        let data = knowledge.get_next_sentence_i_plus_one(at(100), tie_break);
        assert_eq!(data.sentence_id, 2);
        assert_eq!(texts(&data.words_being_reviewed), vec![(1, "a"), (2, "b")]);
    }
    // At 40 nothing is due, and sentence 3 is the only one with a new word.
    let data = knowledge.get_next_sentence_i_plus_one(at(40), 0);
    assert_eq!(data.sentence_id, 3);
    assert_eq!(texts(&data.words_that_are_new), vec![(4, "d")]);
    assert!(data.words_being_reviewed.is_empty());
}

#[test]
fn due_words_of_a_sentence_with_new_words_are_told() {
    let knowledge = store(
        vec![reviewed("a", 1, 600, 50), word("b")],
        vec![sentence("1")],
        vec![vec![0, 1]],
    );
    let data = knowledge.get_next_sentence_i_plus_one(at(100), 0);
    assert_eq!(data.sentence_id, 1);
    assert_eq!(texts(&data.words_being_reviewed), vec![(1, "a")]);
    assert_eq!(texts(&data.words_that_are_new), vec![(2, "b")]);
}

#[test]
fn nothing_is_shown_when_nothing_is_due_or_new() {
    let knowledge = store(
        vec![reviewed("a", 3, 600, 5_000)],
        vec![sentence("1")],
        vec![vec![0]],
    );
    let data = knowledge.get_next_sentence_i_plus_one(at(100), 1);
    assert_eq!(data.sentence_id, 0);
    assert_eq!(data.sentence_text, NOTICE);
    assert!(data.words_being_reviewed.is_empty());
    assert!(data.words_that_are_new.is_empty());
}

#[test]
fn long_intervals_are_due_until_the_end_of_the_day() {
    let next_review_at = tokyo(11, 3, 30);
    let two_days = reviewed("a", 4, 2 * 86_400, next_review_at);
    let five_minutes = reviewed("b", 1, 300, next_review_at);
    let evening = in_tokyo(10, 23, 0);
    assert!(next_review_at > evening.unix_secs());
    assert!(two_days.is_due(evening.unix_secs(), evening.end_of_day()));
    assert!(!five_minutes.is_due(evening.unix_secs(), evening.end_of_day()));
    let just_before = in_tokyo(11, 3, 30);
    assert!(!five_minutes.is_due(just_before.unix_secs(), just_before.end_of_day()));
    let just_after = LocalTime::new(next_review_at + 1, 9 * 3600).unwrap();
    assert!(five_minutes.is_due(just_after.unix_secs(), just_after.end_of_day()));
    assert!(two_days.is_due(just_after.unix_secs(), just_after.end_of_day()));
    // The evening before the day window covers 03:30 the word is not due.
    let day_before = in_tokyo(10, 3, 0);
    assert!(!two_days.is_due(day_before.unix_secs(), day_before.end_of_day()));
}

#[test]
fn an_interval_of_exactly_one_day_is_long() {
    let next_review_at = tokyo(11, 3, 30);
    let evening = in_tokyo(10, 23, 0);
    let one_day = reviewed("a", 2, 86_400, next_review_at);
    let less = reviewed("b", 2, 86_399, next_review_at);
    assert!(one_day.is_due(evening.unix_secs(), evening.end_of_day()));
    assert!(!less.is_due(evening.unix_secs(), evening.end_of_day()));
    let at_the_boundary = reviewed("c", 2, 86_400, tokyo(11, 4, 0));
    assert!(!at_the_boundary.is_due(evening.unix_secs(), evening.end_of_day()));
}

#[test]
fn a_word_never_reviewed_is_not_due() {
    let evening = in_tokyo(10, 23, 0);
    assert!(!word("a").is_due(evening.unix_secs(), evening.end_of_day()));
}

#[test]
fn the_store_counts_due_words_by_the_day_window() {
    let next_review_at = tokyo(11, 3, 30);
    let knowledge = store(
        vec![
            reviewed("a", 4, 2 * 86_400, next_review_at),
            reviewed("b", 1, 300, next_review_at),
            word("c"),
        ],
        vec![sentence("1")],
        vec![vec![0, 1, 2]],
    );
    assert_eq!(knowledge.get_review_info(in_tokyo(10, 23, 0)).reviews_remaining, 1);
    assert_eq!(
        texts(&knowledge.get_words_in_sentence_that_need_reviewing(1, in_tokyo(10, 23, 0))),
        vec![(1, "a")]
    );
    assert_eq!(knowledge.get_review_info(in_tokyo(11, 3, 31)).reviews_remaining, 2);
    assert_eq!(knowledge.get_review_info(in_tokyo(10, 3, 0)).reviews_remaining, 0);
}

#[test]
fn a_first_review_schedules_ten_minutes() {
    let mut knowledge = cats_and_dogs();
    assert!(knowledge.review_word(1, 500, at(5_000)).is_ok());
    let neko = &knowledge.words()[0];
    assert!(neko.reviewed);
    assert_eq!(neko.repetition, 1);
    assert_eq!(neko.e_factor, 2_500_000);
    assert_eq!(neko.review_interval, 600);
    assert_eq!(neko.next_review_at, Some(5_600));
    assert_eq!(neko.date_first_reviewed, Some(5_000));
    assert_eq!(neko.occurrence_count, 1);
    assert_eq!(neko.date_added, 1_000);
    assert!(!knowledge.words()[1].reviewed);
}

#[test]
fn a_first_review_that_fails_schedules_ten_minutes_too() {
    let mut knowledge = cats_and_dogs();
    assert!(knowledge.review_word(1, 0, at(5_000)).is_ok());
    let neko = &knowledge.words()[0];
    assert!(neko.reviewed);
    assert_eq!(neko.repetition, 1);
    assert_eq!(neko.review_interval, 600);
    assert_eq!(neko.next_review_at, Some(5_600));
}

#[test]
fn a_review_before_the_word_is_due_does_not_count() {
    let mut knowledge = cats_and_dogs();
    assert!(knowledge.review_word(1, 500, at(5_000)).is_ok());
    assert!(knowledge.review_word(1, 500, at(5_600)).is_ok());
    let neko = &knowledge.words()[0];
    assert_eq!(neko.repetition, 1);
    assert_eq!(neko.next_review_at, Some(5_600));
}

#[test]
fn reviews_follow_the_scheduler() {
    let mut knowledge = cats_and_dogs();
    assert!(knowledge.review_word(1, 500, at(5_000)).is_ok());
    assert!(knowledge.review_word(1, 500, at(5_601)).is_ok());
    {
        let neko = &knowledge.words()[0];
        assert_eq!(neko.repetition, 2);
        assert_eq!(neko.review_interval, 86_400);
        assert_eq!(neko.next_review_at, Some(5_601 + 86_400));
        assert_eq!(neko.date_first_reviewed, Some(5_000));
    }
    assert!(knowledge.review_word(1, 500, at(100_000)).is_ok());
    {
        let neko = &knowledge.words()[0];
        assert_eq!(neko.repetition, 3);
        assert_eq!(neko.e_factor, 2_600_000);
        assert_eq!(neko.review_interval, 224_640);
        assert_eq!(neko.next_review_at, Some(324_640));
    }
    assert!(knowledge.review_word(1, 200, at(400_000)).is_ok());
    {
        let neko = &knowledge.words()[0];
        assert_eq!(neko.repetition, 1);
        assert_eq!(neko.e_factor, 2_600_000);
        assert_eq!(neko.review_interval, 600);
        assert_eq!(neko.next_review_at, Some(400_600));
        assert_eq!(neko.date_first_reviewed, Some(5_000));
    }
}

#[test]
fn a_long_interval_can_be_reviewed_before_its_time_on_the_same_day() {
    let next_review_at = tokyo(11, 3, 30);
    let mut knowledge = store(
        vec![reviewed("a", 4, 2 * 86_400, next_review_at)],
        vec![sentence("1")],
        vec![vec![0]],
    );
    let evening = in_tokyo(10, 23, 0);
    assert!(knowledge.review_word(1, 400, evening).is_ok());
    let a = &knowledge.words()[0];
    assert_eq!(a.repetition, 5);
    assert_eq!(a.review_interval, 432_000);
    assert_eq!(a.next_review_at, Some(evening.unix_secs() + 432_000));
    assert_eq!(a.date_first_reviewed, Some(0));
}

#[test]
fn a_review_of_no_word_changes_nothing() {
    let mut knowledge = cats_and_dogs();
    assert!(knowledge.review_word(0, 500, at(5_000)).is_ok());
    assert!(knowledge.review_word(6, 500, at(5_000)).is_ok());
    assert!(knowledge.review_word(u64::MAX, 500, at(5_000)).is_ok());
    assert!(knowledge.words().iter().all(|w| !w.reviewed));
}

#[test]
fn a_first_review_is_recorded_where_none_was() {
    let mut rows = reviewed("a", 1, 600, 50);
    rows.date_first_reviewed = None;
    let mut knowledge = store(vec![rows], vec![sentence("1")], vec![vec![0]]);
    assert!(knowledge.review_word(1, 500, at(100)).is_ok());
    assert_eq!(knowledge.words()[0].date_first_reviewed, Some(100));
    assert_eq!(knowledge.words()[0].repetition, 2);
}

#[test]
fn an_interval_that_does_not_fit_is_refused() {
    let mut knowledge = store(
        vec![reviewed("a", 5, u64::MAX / 2, 0)],
        vec![sentence("1")],
        vec![vec![0]],
    );
    let r = knowledge.review_word(1, 500, at(10));
    assert!(matches!(r, Err(KnowledgeError::DatabaseError(_))));
    let a = &knowledge.words()[0];
    assert_eq!(a.repetition, 5);
    assert_eq!(a.review_interval, u64::MAX / 2);
    assert_eq!(a.next_review_at, Some(0));
    // A failed answer fits again.
    assert!(knowledge.review_word(1, 100, at(10)).is_ok());
    assert_eq!(knowledge.words()[0].review_interval, 600);
}

#[test]
fn a_review_time_that_does_not_fit_is_refused() {
    let mut knowledge = store(
        vec![reviewed("a", 5, i64::MAX as u64 / 2, 0)],
        vec![sentence("1")],
        vec![vec![0]],
    );
    let r = knowledge.review_word(1, 400, at(10));
    assert!(matches!(r, Err(KnowledgeError::DatabaseError(_))));
    assert_eq!(knowledge.words()[0].repetition, 5);
    let mut fits = store(
        vec![reviewed("a", 5, 1_000_000_000_000, 0)],
        vec![sentence("1")],
        vec![vec![0]],
    );
    assert!(fits.review_word(1, 400, at(10)).is_ok());
    assert_eq!(fits.words()[0].next_review_at, Some(2_500_000_000_010));
}

#[test]
fn a_repetition_count_that_does_not_fit_is_refused() {
    let mut knowledge = store(
        vec![reviewed("a", u32::MAX, 86_400, 0)],
        vec![sentence("1")],
        vec![vec![0]],
    );
    let r = knowledge.review_word(1, 500, at(10));
    assert!(matches!(r, Err(KnowledgeError::DatabaseError(_))));
    assert_eq!(knowledge.words()[0].repetition, u32::MAX);
}

#[test]
fn a_sentence_is_reviewed_word_by_word() {
    let mut knowledge = cats_and_dogs();
    assert!(knowledge.review_word(3, 500, at(2_000)).is_ok());
    assert!(knowledge.review_sentence(2, 400, at(2_100)).is_ok());
    let words = knowledge.words();
    assert!(!words[0].reviewed);
    assert!(!words[1].reviewed);
    // "suki" was reviewed before and is not yet due again.
    assert_eq!(words[2].next_review_at, Some(2_600));
    assert_eq!(words[3].next_review_at, Some(2_700));
    assert_eq!(words[4].next_review_at, Some(2_700));
    assert_eq!(words[3].repetition, 1);
}

#[test]
fn a_review_of_no_sentence_changes_nothing() {
    let mut knowledge = cats_and_dogs();
    assert!(knowledge.review_sentence(0, 500, at(2_000)).is_ok());
    assert!(knowledge.review_sentence(3, 500, at(2_000)).is_ok());
    assert!(knowledge.words().iter().all(|w| !w.reviewed));
}

#[test]
fn a_sentence_review_stops_at_what_does_not_fit() {
    let mut knowledge = store(
        vec![word("a"), reviewed("b", 5, u64::MAX / 2, 0), word("c")],
        vec![sentence("1")],
        vec![vec![0, 1, 2]],
    );
    let r = knowledge.review_sentence(1, 500, at(10));
    assert!(matches!(r, Err(KnowledgeError::DatabaseError(_))));
    assert!(knowledge.words()[0].reviewed);
    assert_eq!(knowledge.words()[1].repetition, 5);
    assert!(!knowledge.words()[2].reviewed);
}

#[test]
fn retokenizing_links_anew_and_keeps_what_was_learnt() {
    let mut knowledge = cats_and_dogs();
    assert!(knowledge.review_word(1, 500, at(2_000)).is_ok());
    let replies = vec![reply(&["neko", "gasuki"]), reply(&["inu", "mo", "suki", "suki"])];
    assert!(knowledge.retokenize(&replies, at(9_000)).is_ok());
    let words: Vec<&str> = knowledge.words().iter().map(|w| w.text.as_str()).collect();
    assert_eq!(words, vec!["neko", "ga", "suki", "inu", "mo", "gasuki"]);
    let counts: Vec<u64> = knowledge.words().iter().map(|w| w.occurrence_count).collect();
    assert_eq!(counts, vec![1, 0, 2, 1, 1, 1]);
    assert_eq!(knowledge.links(), &vec![vec![0, 5], vec![3, 4, 2]]);
    assert_eq!(knowledge.sentences().len(), 2);
    assert_eq!(knowledge.sentences()[0].date_added, 1_000);
    let neko = &knowledge.words()[0];
    assert!(neko.reviewed);
    assert_eq!(neko.repetition, 1);
    assert_eq!(neko.next_review_at, Some(2_600));
    assert_eq!(neko.date_added, 1_000);
    assert_eq!(knowledge.words()[5].date_added, 9_000);
    assert_eq!(knowledge.words()[5].frequency_rank, 3);
}

#[test]
fn retokenizing_fails_as_a_whole() {
    let mut knowledge = cats_and_dogs();
    let replies = vec![reply(&["x"]), failure()];
    let r = knowledge.retokenize(&replies, at(9_000));
    assert!(matches!(r, Err(KnowledgeError::TokenizeError)));
    assert_eq!(knowledge.words().len(), 5);
    assert_eq!(knowledge.links(), &vec![vec![0, 1, 2], vec![3, 4, 2]]);
    let counts: Vec<u64> = knowledge.words().iter().map(|w| w.occurrence_count).collect();
    assert_eq!(counts, vec![1, 1, 2, 1, 1]);
    let r = knowledge.retokenize(&vec![reply(&["x"])], at(9_000));
    assert!(matches!(r, Err(KnowledgeError::TokenizeError)));
    assert_eq!(knowledge.words().len(), 5);
}

#[test]
fn retokenizing_an_empty_store_does_nothing() {
    let mut knowledge = empty();
    assert!(knowledge.retokenize(&Vec::new(), at(0)).is_ok());
    assert!(knowledge.words().is_empty());
    assert!(knowledge.links().is_empty());
}

#[test]
fn rows_are_taken_back_as_they_were_written() {
    let before = cats_and_dogs();
    let after = Knowledge::from_rows(
        before.word_freq().clone(),
        before.words().clone(),
        before.sentences().clone(),
        before.links().clone(),
    );
    match after {
        Ok(knowledge) => {
            assert_eq!(knowledge.words().len(), 5);
            assert_eq!(knowledge.sentences().len(), 2);
            assert_eq!(knowledge.links(), before.links());
            assert_eq!(knowledge.word_freq().get_word_freq("neko"), 1);
            assert_eq!(knowledge.get_next_sentence_i_plus_one(at(0), 0).sentence_id, 1);
        },
        Err(e) => panic!("{}", e.message()),
    }
}

#[test]
fn rows_that_do_not_fit_together_are_refused() {
    let list = || WordFrequencyList::new("");
    let twice = Knowledge::from_rows(list(), vec![word("a"), word("a")], vec![sentence("1")], vec![vec![0]]);
    assert!(matches!(twice, Err(KnowledgeError::DatabaseError(_))));
    let same_sentence =
        Knowledge::from_rows(list(), vec![word("a")], vec![sentence("1"), sentence("1")], vec![vec![0], vec![0]]);
    assert!(matches!(same_sentence, Err(KnowledgeError::DatabaseError(_))));
    let no_such_word = Knowledge::from_rows(list(), vec![word("a")], vec![sentence("1")], vec![vec![1]]);
    assert!(matches!(no_such_word, Err(KnowledgeError::DatabaseError(_))));
    let linked_twice = Knowledge::from_rows(list(), vec![word("a")], vec![sentence("1")], vec![vec![0, 0]]);
    assert!(matches!(linked_twice, Err(KnowledgeError::DatabaseError(_))));
    let too_few_links = Knowledge::from_rows(list(), vec![word("a")], vec![sentence("1")], vec![]);
    assert!(matches!(too_few_links, Err(KnowledgeError::DatabaseError(_))));
    let too_many_links = Knowledge::from_rows(list(), vec![], vec![], vec![vec![]]);
    assert!(matches!(too_many_links, Err(KnowledgeError::DatabaseError(_))));
    let mut hard = word("a");
    hard.e_factor = 1_299_999;
    let too_hard = Knowledge::from_rows(list(), vec![hard], vec![sentence("1")], vec![vec![0]]);
    assert!(matches!(too_hard, Err(KnowledgeError::DatabaseError(_))));
    let orphan = Knowledge::from_rows(list(), vec![word("a")], vec![], vec![]);
    assert!(matches!(orphan, Err(KnowledgeError::DatabaseError(_))));
    let fine = Knowledge::from_rows(list(), vec![word("a")], vec![sentence("1")], vec![vec![]]);
    assert!(fine.is_ok());
}

#[test]
fn an_analyzer_may_hand_out_the_words_itself() {
    let mut knowledge = empty();
    let words = AnalyzerReply::Words(vec!["neko".to_string(), "ga".to_string(), "neko".to_string()]);
    assert!(knowledge.add_sentence("neko ga neko\u{3002}", "talk", &words, at(7)).is_ok());
    let texts: Vec<&str> = knowledge.words().iter().map(|w| w.text.as_str()).collect();
    assert_eq!(texts, vec!["neko", "ga"]);
    assert_eq!(knowledge.words()[0].occurrence_count, 2);
    assert_eq!(knowledge.words()[0].frequency_rank, 1);
    assert_eq!(knowledge.links(), &vec![vec![0, 1]]);
}

#[test]
fn a_reading_that_stopped_early_stops_again_at_the_same_sentence() {
    let mut knowledge = empty();
    let replies = vec![reply(&["a"]), failure(), reply(&["c"])];
    let text = "a\u{3002}b\u{3002}c\u{3002}";
    assert!(matches!(knowledge.add_text(text, "", &replies, at(0)), Err(KnowledgeError::TokenizeError)));
    assert!(matches!(knowledge.add_text(text, "", &replies, at(9)), Err(KnowledgeError::TokenizeError)));
    assert_eq!(knowledge.sentences().len(), 1);
    assert_eq!(knowledge.words().len(), 1);
    assert_eq!(knowledge.words()[0].occurrence_count, 1);
    assert_eq!(knowledge.links(), &vec![vec![0]]);
}

#[test]
fn a_reading_that_stopped_early_goes_on_when_the_analyzer_answers() {
    let mut knowledge = empty();
    let text = "a\u{3002}b\u{3002}c\u{3002}";
    let first = vec![reply(&["a"]), failure(), reply(&["c"])];
    assert!(matches!(knowledge.add_text(text, "", &first, at(0)), Err(KnowledgeError::TokenizeError)));
    assert_eq!(knowledge.sentences().len(), 1);
    let second = vec![reply(&["a"]), reply(&["b", "a"]), reply(&["c"])];
    assert!(matches!(knowledge.add_text(text, "", &second, at(9)), Ok(3)));
    assert_eq!(knowledge.sentences().len(), 3);
    assert_eq!(knowledge.words().len(), 3);
    assert_eq!(knowledge.words()[0].occurrence_count, 2);
    assert_eq!(knowledge.links(), &vec![vec![0], vec![1, 0], vec![2]]);
    assert_eq!(knowledge.sentences()[1].date_added, 9);
}

#[test]
fn a_sentence_twice_in_one_text_is_read_once() {
    let mut knowledge = empty();
    let replies = vec![reply(&["a"]), reply(&["a"])];
    assert!(matches!(knowledge.add_text("a\u{3002}a\u{3002}", "", &replies, at(0)), Ok(2)));
    assert_eq!(knowledge.sentences().len(), 1);
    assert_eq!(knowledge.words()[0].occurrence_count, 1);
}
