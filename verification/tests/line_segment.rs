use word_indexer_lib::models::Word;
use word_indexer_lib::partitioners::line::Line;
use word_indexer_lib::partitioners::line_segment::{partition, words_are_adjacent, LineSegment};
use word_indexer_lib::test_utils::create_test_word;

fn segment_word(text: &str, x: i64, y: i64, width: i64, height: i64) -> Word {
    create_test_word(String::from(text), x, y, width, height, 0)
}

fn segment_texts(segment: &LineSegment) -> Vec<String> {
    segment.words.iter().map(|word| word.text.clone()).collect()
}

#[test]
fn partition_empty() {
    let actual = partition(Line { words: Vec::new(), top: 0, bottom: 0 });
    assert_eq!(0, actual.len());
}

#[test]
fn partition_single_word() {
    let word = segment_word("word1", 10, 10, 100, 10);
    let line = Line { words: vec![word], top: 0, bottom: 0 };

    let actual = partition(line);

    assert_eq!(1, actual.len());
    assert_eq!(10, actual[0].left);
    assert_eq!(110, actual[0].right);
    assert_eq!("word1", actual[0].text);
    assert_eq!("word1", &actual[0].words[0].text);
}

#[test]
fn partition_single_segment() {
    let word1 = segment_word("word1", 10, 10, 50, 10);
    let word2 = segment_word("word2", 61, 10, 50, 10);
    let word3 = segment_word("word3", 112, 10, 50, 10);
    let line = Line { words: vec![word1, word2, word3], top: 0, bottom: 0 };

    let actual = partition(line);

    assert_eq!(1, actual.len());
    assert_eq!(10, actual[0].left);
    assert_eq!(162, actual[0].right);
    assert_eq!("word1word2word3", actual[0].text);
    assert_eq!("word1", &actual[0].words[0].text);
    assert_eq!("word2", &actual[0].words[1].text);
    assert_eq!("word3", &actual[0].words[2].text);
}

#[test]
fn partition_multiple_segments() {
    let word1 = segment_word("word1", 10, 10, 50, 10);
    let word2 = segment_word("word2", 61, 10, 50, 10);
    let word3 = segment_word("word3", 140, 10, 50, 10);
    let word4 = segment_word("word4", 191, 10, 50, 10);
    let line = Line { words: vec![word1, word2, word3, word4], top: 0, bottom: 0 };

    let actual = partition(line);

    assert_eq!(2, actual.len());

    assert_eq!(10, actual[0].left);
    assert_eq!(111, actual[0].right);
    assert_eq!("word1word2", actual[0].text);
    assert_eq!("word1", &actual[0].words[0].text);
    assert_eq!("word2", &actual[0].words[1].text);

    assert_eq!(140, actual[1].left);
    assert_eq!(241, actual[1].right);
    assert_eq!("word3word4", actual[1].text);
    assert_eq!("word3", &actual[1].words[0].text);
    assert_eq!("word4", &actual[1].words[1].text);
}

#[test]
fn segments_inherit_the_extent_of_the_line() {
    let word1 = segment_word("word1", 10, 10, 50, 10);
    let word2 = segment_word("word2", 500, 12, 50, 10);
    let line = Line { words: vec![word1, word2], top: 7, bottom: 23 };

    let actual = partition(line);

    assert_eq!(2, actual.len());
    for segment in &actual {
        assert_eq!(7, segment.top);
        assert_eq!(23, segment.bottom);
    }
}

#[test]
fn adjacent_up_to_two_character_widths() {
    // Ten characters over a width of 100: a character is 10 wide on average.
    let a = segment_word("word1", 0, 0, 50, 10);
    let at_limit = segment_word("word2", 70, 0, 50, 10);
    let beyond = segment_word("word3", 71, 0, 50, 10);
    assert!(words_are_adjacent(&a, &at_limit));
    assert!(!words_are_adjacent(&a, &beyond));
}

#[test]
fn adjacent_without_rounding_the_average() {
    // Seven characters over a width of 10: twice the average is 20/7, so a gap
    // of 2 is near enough and a gap of 3 is not.
    let a = segment_word("abc", 0, 0, 4, 10);
    let near = segment_word("defg", 6, 0, 6, 10);
    let far = segment_word("defg", 7, 0, 6, 10);
    assert!(words_are_adjacent(&a, &near));
    assert!(!words_are_adjacent(&a, &far));
}

#[test]
fn adjacent_when_words_overlap() {
    // The gap counts in both directions.
    let a = segment_word("word1", 0, 0, 50, 10);
    let inside = segment_word("word2", 30, 0, 50, 10);
    let far_left = segment_word("word3", 29, 0, 50, 10);
    assert!(words_are_adjacent(&a, &inside));
    assert!(!words_are_adjacent(&a, &far_left));
}

#[test]
fn adjacent_with_words_of_no_width() {
    let a = segment_word("a", 5, 0, 0, 10);
    let same = segment_word("b", 5, 0, 0, 10);
    let next = segment_word("c", 6, 0, 0, 10);
    assert!(words_are_adjacent(&a, &same));
    assert!(!words_are_adjacent(&a, &next));
}

#[test]
fn adjacent_counts_the_bytes_of_the_text() {
    // "é" is two bytes long: three bytes over a width of 30.
    let a = segment_word("é", 0, 0, 20, 10);
    let near = segment_word("b", 40, 0, 10, 10);
    let far = segment_word("b", 41, 0, 10, 10);
    assert!(words_are_adjacent(&a, &near));
    assert!(!words_are_adjacent(&a, &far));
}

#[test]
fn adjacent_at_the_ends_of_the_range() {
    let a = segment_word("a", i64::MIN, 0, 0, 10);
    let b = segment_word("b", i64::MAX, 0, 0, 10);
    let wide = segment_word("c", 0, 0, i64::MAX, 10);
    assert!(!words_are_adjacent(&a, &b));
    assert!(!words_are_adjacent(&b, &a));
    assert!(words_are_adjacent(&wide, &b));
}

#[test]
fn two_words_near_enough_form_one_segment() {
    let a = segment_word("12", 0, 0, 20, 10);
    let b = segment_word("34", 40, 0, 20, 10);
    let actual = partition(Line { words: vec![a, b], top: 0, bottom: 10 });
    assert_eq!(1, actual.len());
    assert_eq!("1234", actual[0].text);
    assert_eq!(0, actual[0].left);
    assert_eq!(60, actual[0].right);
    assert_eq!(vec!["12", "34"], segment_texts(&actual[0]));
}

#[test]
fn two_words_too_far_apart_form_two_segments() {
    let a = segment_word("12", 0, 0, 20, 10);
    let b = segment_word("34", 41, 0, 20, 10);
    let actual = partition(Line { words: vec![a, b], top: 0, bottom: 10 });
    assert_eq!(2, actual.len());
    assert_eq!("12", actual[0].text);
    assert_eq!(0, actual[0].left);
    assert_eq!(20, actual[0].right);
    assert_eq!("34", actual[1].text);
    assert_eq!(41, actual[1].left);
    assert_eq!(61, actual[1].right);
}

#[test]
fn every_word_is_in_exactly_one_segment() {
    let words = vec![
        segment_word("w1", 0, 0, 20, 10),
        segment_word("w2", 25, 0, 20, 10),
        segment_word("w3", 100, 0, 20, 10),
        segment_word("w4", 200, 0, 20, 10),
        segment_word("w5", 221, 0, 20, 10),
        segment_word("w6", 245, 0, 20, 10),
    ];
    let actual = partition(Line { words, top: 0, bottom: 10 });
    let texts: Vec<Vec<String>> = actual.iter().map(|segment| segment_texts(segment)).collect();
    assert_eq!(vec![vec!["w1", "w2"], vec!["w3"], vec!["w4", "w5", "w6"]], texts);
    for segment in &actual {
        assert_eq!(segment.text, segment_texts(segment).concat());
        assert_eq!(segment.left, segment.words[0].x);
        let last = &segment.words[segment.words.len() - 1];
        assert_eq!(segment.right, last.x + last.width);
    }
}

#[test]
fn the_right_edge_follows_the_last_word() {
    // The second word ends left of where the first ends.
    let a = segment_word("wide", 0, 0, 100, 10);
    let b = segment_word("in", 70, 0, 10, 10);
    let actual = partition(Line { words: vec![a, b], top: 0, bottom: 10 });
    assert_eq!(1, actual.len());
    assert_eq!(0, actual[0].left);
    assert_eq!(80, actual[0].right);
}
