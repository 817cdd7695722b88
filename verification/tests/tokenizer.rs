use phonemoro::tokenizer::{EnTokenizer, Token};

fn to_tuples(text: &str) -> Vec<(Token, String)> {
    EnTokenizer::tokenize(text)
        .unwrap()
        .iter()
        .map(|tc| (tc.token, tc.slice.to_string()))
        .collect()
}

fn pairs(expected: &[(Token, &str)]) -> Vec<(Token, String)> {
    expected.iter().map(|(t, s)| (*t, s.to_string())).collect()
}

#[test]
fn basic_tokenization_test() {
    let text_input = "Hello there";
    let output = to_tuples(text_input);
    let expected = pairs(&[
        (Token::Word, "Hello"),
        (Token::Whitespace, " "),
        (Token::Word, "there"),
    ]);
    assert_eq!(output, expected)
}

#[test]
fn apostrophe_within_word_test() {
    let text_input = "first'second";
    let output = to_tuples(text_input);
    let expected = pairs(&[(Token::Word, "first'second")]);
    assert_eq!(output, expected)
}

#[test]
fn two_apostrophe_within_word() {
    let text_input = "word''word";
    let output = to_tuples(text_input);
    let expected = pairs(&[
        (Token::Word, "word"),
        (Token::Special, "'"),
        (Token::Special, "'"),
        (Token::Word, "word"),
    ]);
    assert_eq!(output, expected);
}

#[test]
fn apostrophes_outside_word() {
    let text_input = "'word'";
    let output = to_tuples(text_input);
    let expected = pairs(&[
        (Token::Special, "'"),
        (Token::Word, "word"),
        (Token::Special, "'"),
    ]);
    assert_eq!(output, expected);
}

#[test]
fn num_test() {
    let text_input = "1234w1234";
    let output = to_tuples(text_input);
    let expected = pairs(&[
        (Token::DigitSequence, "1234"),
        (Token::Word, "w"),
        (Token::DigitSequence, "1234"),
    ]);
    assert_eq!(output, expected)
}

#[test]
fn decimal_number_basic_test() {
    let text_input = "123.0";
    let output = to_tuples(text_input);
    let expected = pairs(&[(Token::DecimalNumber, "123.0")]);
    assert_eq!(output, expected)
}

#[test]
fn decimal_number_no_digits_after_decimal_test() {
    let text_input = "123.";
    let output = to_tuples(text_input);
    let expected = pairs(&[
        (Token::DigitSequence, "123"),
        (Token::SentenceDelimiter, "."),
    ]);
    assert_eq!(output, expected)
}

#[test]
fn sentence_delimiter_basic_test() {
    let text_input = "word.";
    let output = to_tuples(text_input);
    let expected = pairs(&[(Token::Word, "word"), (Token::SentenceDelimiter, ".")]);
    assert_eq!(output, expected);
}

#[test]
fn sentence_delimiter_longer_test() {
    let text_input = "word. word";
    let output = to_tuples(text_input);
    let expected = pairs(&[
        (Token::Word, "word"),
        (Token::SentenceDelimiter, "."),
        (Token::Whitespace, " "),
        (Token::Word, "word"),
    ]);
    assert_eq!(output, expected);
}

#[test]
fn abbreviated_word_test() {
    let output = to_tuples("Dr. Smith");
    let expected = pairs(&[
        (Token::AbbreviatedWord, "Dr."),
        (Token::Whitespace, " "),
        (Token::Word, "Smith"),
    ]);
    assert_eq!(output, expected);
}

#[test]
fn abbreviation_prefix_stays_a_word() {
    // "drs" is a longer word match than the three-character title match.
    let output = to_tuples("drs.");
    let expected = pairs(&[(Token::Word, "drs"), (Token::SentenceDelimiter, ".")]);
    assert_eq!(output, expected);
}

#[test]
fn spans_are_byte_offsets_covering_input_in_order() {
    let text = "ab \u{fc}ber 12.5!?x";
    let toks = EnTokenizer::tokenize(text).unwrap();
    let mut pos = 0usize;
    let mut rebuilt = String::new();
    for tc in &toks {
        assert_eq!(tc.span.start, pos);
        assert_eq!(tc.span.end, pos + tc.slice.len());
        pos = tc.span.end;
        rebuilt.push_str(tc.slice);
    }
    assert_eq!(rebuilt, text);
    assert_eq!(pos, text.len());
    assert_eq!(toks[2].slice, "\u{fc}ber");
    assert_eq!(toks[2].span, 3..8);
}

#[test]
fn round_trip_on_mixed_text() {
    let text = "It's 3.14, ok?! dr. x_y -- 100%";
    let toks = EnTokenizer::tokenize(text).unwrap();
    let rebuilt: String = toks.iter().map(|tc| tc.slice).collect();
    assert_eq!(rebuilt, text);
}

#[test]
fn uncovered_character_is_a_lex_error() {
    let err = EnTokenizer::tokenize("ab@cd").unwrap_err();
    assert_eq!(err.remainder, "@cd");
}

#[test]
fn decimal_takes_only_one_point() {
    let output = to_tuples("1.2.3");
    let expected = pairs(&[
        (Token::DecimalNumber, "1.2"),
        (Token::SentenceDelimiter, "."),
        (Token::DigitSequence, "3"),
    ]);
    assert_eq!(output, expected);
}

#[test]
fn sentence_delimiter_run() {
    let output = to_tuples("no?!.");
    let expected = pairs(&[(Token::Word, "no"), (Token::SentenceDelimiter, "?!.")]);
    assert_eq!(output, expected);
}

#[test]
fn connector_punctuation_and_join_controls_stay_in_words() {
    // The undertie (connector punctuation) and the zero-width joiner are word
    // characters, like the underscore.
    let output = to_tuples("a\u{203f}b x\u{200d}y under_score");
    let expected = pairs(&[
        (Token::Word, "a\u{203f}b"),
        (Token::Whitespace, " "),
        (Token::Word, "x\u{200d}y"),
        (Token::Whitespace, " "),
        (Token::Word, "under_score"),
    ]);
    assert_eq!(output, expected);
}

#[test]
fn combining_mark_is_not_a_word_character() {
    // A combining mark with no precomposed form ends the word; no rule covers
    // it, so the scan stops there.
    let err = EnTokenizer::tokenize("x\u{0301}").unwrap_err();
    assert_eq!(err.remainder, "\u{0301}");
}

#[test]
fn non_ascii_word_characters() {
    let output = to_tuples("über Maß");
    let expected = pairs(&[
        (Token::Word, "über"),
        (Token::Whitespace, " "),
        (Token::Word, "Maß"),
    ]);
    assert_eq!(output, expected);
}
