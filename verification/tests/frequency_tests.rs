use iplusone::frequency::WordFrequencyList;

#[test]
fn rank_is_the_line_of_the_word() {
    let list = WordFrequencyList::new("\u{306e}\n\u{306b}\n\u{306f}\n");
    assert_eq!(list.len(), 3);
    assert_eq!(list.get_word_freq("\u{306e}"), 0);
    assert_eq!(list.get_word_freq("\u{306b}"), 1);
    assert_eq!(list.get_word_freq("\u{306f}"), 2);
}

#[test]
fn unknown_word_ranks_behind_all_listed() {
    let list = WordFrequencyList::new("a\nb\nc");
    assert_eq!(list.get_word_freq("d"), 3);
    assert_eq!(list.get_word_freq(""), 3);
    assert_eq!(list.get_word_freq("A"), 3);
}

#[test]
fn empty_list_ranks_every_word_zero() {
    let list = WordFrequencyList::new("");
    assert_eq!(list.len(), 0);
    assert_eq!(list.get_word_freq("a"), 0);
}

#[test]
fn a_word_listed_twice_has_its_last_place() {
    let list = WordFrequencyList::new("a\nb\na\nc\n");
    assert_eq!(list.len(), 4);
    assert_eq!(list.get_word_freq("a"), 2);
    assert_eq!(list.get_word_freq("b"), 1);
    assert_eq!(list.get_word_freq("x"), 4);
}

#[test]
fn listed_words_may_end_with_carriage_return_and_line_feed() {
    let list = WordFrequencyList::new("a\r\nb\r\n");
    assert_eq!(list.len(), 2);
    assert_eq!(list.get_word_freq("a"), 0);
    assert_eq!(list.get_word_freq("b"), 1);
    assert_eq!(list.get_word_freq("a\r"), 2);
}

#[test]
fn an_empty_line_is_a_place() {
    let list = WordFrequencyList::new("a\n\nb\n");
    assert_eq!(list.len(), 3);
    assert_eq!(list.get_word_freq(""), 1);
    assert_eq!(list.get_word_freq("b"), 2);
}

#[test]
fn words_are_not_trimmed() {
    let list = WordFrequencyList::new("a \nb");
    assert_eq!(list.get_word_freq("a"), 2);
    assert_eq!(list.get_word_freq("a "), 0);
}
