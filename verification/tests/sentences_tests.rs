use iplusone::sentences::iterate_sentences;

#[test]
fn nested_quotes_do_not_split() {
    let text = "\u{300c}\u{3053}\u{308c}\u{306f}\u{3002}\u{30c6}\u{30b9}\u{30c8}\u{3067}\u{3059}\u{300d}\u{3002}\u{6b21}\u{3002}";
    assert_eq!(
        iterate_sentences(text),
        vec![
            "\u{300c}\u{3053}\u{308c}\u{306f}\u{3002}\u{30c6}\u{30b9}\u{30c8}\u{3067}\u{3059}\u{300d}\u{3002}",
            "\u{6b21}\u{3002}",
        ]
    );
}

#[test]
fn empty_text_has_no_sentence() {
    assert_eq!(iterate_sentences(""), Vec::<String>::new());
}

#[test]
fn text_without_terminator_has_no_sentence() {
    assert_eq!(iterate_sentences("\u{732b}\u{304c}\u{597d}\u{304d}"), Vec::<String>::new());
}

#[test]
fn what_follows_the_last_terminator_is_dropped() {
    assert_eq!(iterate_sentences("a\u{3002}b"), vec!["a\u{3002}"]);
}

#[test]
fn every_terminator_ends_a_sentence() {
    assert_eq!(
        iterate_sentences("a\u{3002}b\u{ff01}c\u{ff1f}d\ne\n"),
        vec!["a\u{3002}", "b\u{ff01}", "c\u{ff1f}", "d", "e"]
    );
}

#[test]
fn ascii_punctuation_ends_nothing() {
    assert_eq!(iterate_sentences("a. b! c?\u{3002}"), vec!["a. b! c?\u{3002}"]);
}

#[test]
fn sentences_are_trimmed() {
    assert_eq!(
        iterate_sentences("  a b\u{3002}\u{3000}c\u{3002} \n\t d \n"),
        vec!["a b\u{3002}", "c\u{3002}", "d"]
    );
}

#[test]
fn blank_spans_are_no_sentences() {
    assert_eq!(iterate_sentences("\n\n \n\u{3000}\n"), Vec::<String>::new());
    assert_eq!(iterate_sentences("\u{3002}"), vec!["\u{3002}"]);
}

#[test]
fn every_kind_of_quote_nests() {
    assert_eq!(
        iterate_sentences("\u{300e}a\u{3002}\u{ff08}b\u{ff01}\u{ff09}c\u{ff1f}\u{300f}d\u{3002}e\u{3002}"),
        vec!["\u{300e}a\u{3002}\u{ff08}b\u{ff01}\u{ff09}c\u{ff1f}\u{300f}d\u{3002}", "e\u{3002}"]
    );
}

#[test]
fn any_closing_mark_answers_any_opening_mark() {
    assert_eq!(iterate_sentences("\u{300c}a\u{ff09}b\u{3002}c\u{3002}"), vec!["\u{300c}a\u{ff09}b\u{3002}", "c\u{3002}"]);
}

#[test]
fn line_feed_inside_a_quotation_does_not_split() {
    assert_eq!(iterate_sentences("\u{300c}a\nb\u{300d}\n"), vec!["\u{300c}a\nb\u{300d}"]);
}

#[test]
fn an_open_quotation_ends_the_splitting() {
    assert_eq!(iterate_sentences("a\u{3002}\u{300c}b\u{3002}c\u{3002}"), vec!["a\u{3002}"]);
}

#[test]
fn a_stray_closing_mark_ends_the_splitting_until_it_is_made_up_for() {
    assert_eq!(iterate_sentences("a\u{3002}\u{300d}b\u{3002}c\u{3002}"), vec!["a\u{3002}"]);
    assert_eq!(
        iterate_sentences("a\u{3002}\u{300d}b\u{3002}\u{300c}c\u{3002}d\u{3002}"),
        vec!["a\u{3002}", "\u{300d}b\u{3002}\u{300c}c\u{3002}", "d\u{3002}"]
    );
}
