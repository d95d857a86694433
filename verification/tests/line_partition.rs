use word_indexer_lib::models::Word;
use word_indexer_lib::partitioners::line::{overlap, partition, sort_by_x, Line};
use word_indexer_lib::test_utils::create_test_word;

/// Thousandths of a unit.
fn line_units(value: f64) -> i64 {
    (value * 1000.0).round() as i64
}

fn line_word(text: &str, x: f64, y: f64, width: f64, height: f64) -> Word {
    create_test_word(
        String::from(text),
        line_units(x),
        line_units(y),
        line_units(width),
        line_units(height),
        0,
    )
}

fn line_texts(line: &Line) -> Vec<String> {
    line.words.iter().map(|word| word.text.clone()).collect()
}

#[test]
fn partition_empty_words() {
    let actual = partition(Vec::new());
    assert_eq!(0, actual.len());
}

#[test]
fn partition_single_word_single_line() {
    let word = line_word("word1", 10.0, 10.0, 100.0, 10.0);
    let actual = partition(vec![word]);

    assert_eq!(1, actual.len());
    assert_eq!(line_units(10.0), actual[0].top);
    assert_eq!(line_units(20.0), actual[0].bottom);
    assert_eq!("word1", &actual[0].words[0].text);
}

#[test]
fn partition_multiple_words_single_line_happy_case() {
    let word1 = line_word("word1", 10.0, 10.0, 100.0, 10.0);
    let word2 = line_word("word2", 110.0, 10.0, 200.0, 10.0);
    let word3 = line_word("word3", 300.0, 10.0, 340.0, 10.0);
    let actual = partition(vec![word1, word2, word3]);

    assert_eq!(1, actual.len());
    assert_eq!(line_units(10.0), actual[0].top);
    assert_eq!(line_units(20.0), actual[0].bottom);
    assert_eq!("word1", &actual[0].words[0].text);
    assert_eq!("word2", &actual[0].words[1].text);
    assert_eq!("word3", &actual[0].words[2].text);
}

#[test]
fn partition_multiple_words_single_line_wrong_order() {
    let word1 = line_word("word1", 10.0, 10.0, 100.0, 10.0);
    let word2 = line_word("word2", 300.0, 10.0, 340.0, 10.0);
    let word3 = line_word("word3", 110.0, 10.0, 200.0, 10.0);
    let actual = partition(vec![word1, word2, word3]);

    assert_eq!(1, actual.len());
    assert_eq!(line_units(10.0), actual[0].top);
    assert_eq!(line_units(20.0), actual[0].bottom);
    assert_eq!("word1", &actual[0].words[0].text);
    assert_eq!("word2", &actual[0].words[2].text);
    assert_eq!("word3", &actual[0].words[1].text);
}

#[test]
fn partition_multiple_words_single_line_not_exact() {
    let word1 = line_word("word1", 10.0, 10.1, 100.0, 9.8);
    let word2 = line_word("word2", 110.0, 9.9, 200.0, 10.3);
    let word3 = line_word("word3", 300.0, 10.2, 340.0, 9.6);
    let actual = partition(vec![word1, word2, word3]);

    assert_eq!(1, actual.len());
    assert_eq!(line_units(9.9), actual[0].top);
    assert_eq!(line_units(20.2), actual[0].bottom);
    assert_eq!("word1", &actual[0].words[0].text);
    assert_eq!("word2", &actual[0].words[1].text);
    assert_eq!("word3", &actual[0].words[2].text);
}

#[test]
fn partition_multiple_words_multiple_lines_far() {
    let word1 = line_word("word1", 10.0, 10.1, 100.0, 9.8);
    let word2 = line_word("word2", 110.0, 9.9, 200.0, 10.3);
    let word3 = line_word("word3", 300.0, 50.2, 340.0, 9.6);
    let actual = partition(vec![word1, word2, word3]);

    assert_eq!(2, actual.len());

    assert_eq!(line_units(9.9), actual[0].top);
    assert_eq!(line_units(20.2), actual[0].bottom);
    assert_eq!("word1", &actual[0].words[0].text);
    assert_eq!("word2", &actual[0].words[1].text);

    assert_eq!(line_units(50.2), actual[1].top);
    assert_eq!(line_units(59.8), actual[1].bottom);
    assert_eq!("word3", &actual[1].words[0].text);
}

#[test]
fn partition_multiple_words_multiple_lines_close() {
    let word1 = line_word("word1", 10.0, 10.1, 100.0, 9.8);
    let word2 = line_word("word2", 110.0, 9.9, 200.0, 10.3);
    let word3 = line_word("word3", 300.0, 17.5, 340.0, 10.0);
    let actual = partition(vec![word1, word2, word3]);

    assert_eq!(2, actual.len());

    assert_eq!(line_units(9.9), actual[0].top);
    assert_eq!(line_units(20.2), actual[0].bottom);
    assert_eq!("word1", &actual[0].words[0].text);
    assert_eq!("word2", &actual[0].words[1].text);

    assert_eq!(line_units(17.5), actual[1].top);
    assert_eq!(line_units(27.5), actual[1].bottom);
    assert_eq!("word3", &actual[1].words[0].text);
}

#[test]
fn overlap_of_equal_intervals() {
    assert!(overlap(10, 20, 10, 20, 9, 10));
}

#[test]
fn overlap_at_the_threshold_is_no_match() {
    // 9 of 10 units shared: exactly nine tenths, not more.
    assert!(!overlap(0, 10, 0, 9, 9, 10));
    // 91 of 100 units shared.
    assert!(overlap(0, 100, 0, 91, 9, 10));
    assert!(!overlap(0, 100, 0, 90, 9, 10));
}

#[test]
fn overlap_of_disjoint_intervals() {
    assert!(!overlap(0, 10, 20, 30, 9, 10));
    assert!(!overlap(0, 10, 10, 20, 9, 10));
}

#[test]
fn overlap_of_empty_intervals() {
    // Nothing is shared and nothing covered.
    assert!(!overlap(5, 5, 5, 5, 9, 10));
    assert!(!overlap(5, 5, 0, 10, 9, 10));
}

#[test]
fn overlap_with_other_thresholds() {
    assert!(overlap(0, 10, 5, 15, 1, 4));
    assert!(!overlap(0, 10, 5, 15, 1, 2));
    assert!(overlap(0, 10, 0, 10, 0, 1));
}

#[test]
fn overlap_at_the_ends_of_the_range() {
    assert!(overlap(i64::MIN, i64::MAX, i64::MIN, i64::MAX, u32::MAX - 1, u32::MAX));
    assert!(!overlap(i64::MIN, i64::MIN, i64::MAX, i64::MAX, 9, 10));
    assert!(!overlap(i64::MAX, i64::MIN, i64::MAX, i64::MIN, 9, 10));
}

#[test]
fn sort_by_x_keeps_equal_words_in_order() {
    let words = vec![
        line_word("c", 3.0, 0.0, 1.0, 1.0),
        line_word("a1", 1.0, 0.0, 1.0, 1.0),
        line_word("b", 2.0, 0.0, 1.0, 1.0),
        line_word("a2", 1.0, 0.0, 1.0, 1.0),
        line_word("a3", 1.0, 0.0, 1.0, 1.0),
    ];
    let sorted = sort_by_x(words);
    let texts: Vec<&str> = sorted.iter().map(|word| word.text.as_str()).collect();
    assert_eq!(vec!["a1", "a2", "a3", "b", "c"], texts);
}

#[test]
fn sort_by_x_of_nothing() {
    assert_eq!(0, sort_by_x(Vec::new()).len());
}

#[test]
fn lines_stand_in_the_order_of_their_first_words() {
    let lower = line_word("lower", 0.0, 100.0, 10.0, 10.0);
    let upper = line_word("upper", 0.0, 0.0, 10.0, 10.0);
    let lower_too = line_word("too", 20.0, 100.0, 10.0, 10.0);
    let actual = partition(vec![lower, upper, lower_too]);

    assert_eq!(2, actual.len());
    assert_eq!(vec!["lower", "too"], line_texts(&actual[0]));
    assert_eq!(vec!["upper"], line_texts(&actual[1]));
}

#[test]
fn a_word_joins_the_first_line_that_takes_it() {
    // Both lines take the third word; the earlier one gets it.
    let first = line_word("first", 0.0, 0.0, 10.0, 100.0);
    let second = line_word("second", 20.0, 10.0, 10.0, 100.0);
    let third = line_word("third", 40.0, 5.0, 10.0, 100.0);
    let actual = partition(vec![first, second, third]);

    assert_eq!(2, actual.len());
    assert_eq!(vec!["first", "third"], line_texts(&actual[0]));
    assert_eq!(vec!["second"], line_texts(&actual[1]));
    assert_eq!(line_units(0.0), actual[0].top);
    assert_eq!(line_units(105.0), actual[0].bottom);
}

#[test]
fn a_line_grows_to_take_later_words() {
    // The third word does not overlap the first enough, but it overlaps the
    // line once the second has widened it.
    let a = line_word("a", 0.0, 0.0, 5.0, 100.0);
    let b = line_word("b", 20.0, 0.0, 5.0, 108.0);
    let c = line_word("c", 10.0, 0.0, 5.0, 118.0);
    let actual = partition(vec![a, b, c]);

    assert_eq!(1, actual.len());
    assert_eq!(vec!["a", "c", "b"], line_texts(&actual[0]));
    assert_eq!(line_units(0.0), actual[0].top);
    assert_eq!(line_units(118.0), actual[0].bottom);
}

#[test]
fn the_order_of_the_words_decides_the_lines() {
    let a = line_word("a", 0.0, 0.0, 5.0, 100.0);
    let c = line_word("c", 10.0, 0.0, 5.0, 118.0);
    let b = line_word("b", 20.0, 0.0, 5.0, 108.0);
    let actual = partition(vec![a, c, b]);

    assert_eq!(2, actual.len());
    assert_eq!(vec!["a", "b"], line_texts(&actual[0]));
    assert_eq!(vec!["c"], line_texts(&actual[1]));
}

#[test]
fn every_word_is_in_exactly_one_line() {
    let words = vec![
        line_word("w1", 50.0, 0.0, 10.0, 10.0),
        line_word("w2", 10.0, 40.0, 10.0, 10.0),
        line_word("w3", 30.0, 0.2, 10.0, 10.0),
        line_word("w4", 5.0, 80.0, 10.0, 10.0),
        line_word("w5", 0.0, 40.1, 10.0, 10.0),
        line_word("w6", 70.0, 0.1, 10.0, 10.0),
    ];
    let count = words.len();
    let actual = partition(words);

    assert!(actual.len() <= count);
    let mut texts: Vec<String> = actual.iter().flat_map(|line| line_texts(line)).collect();
    texts.sort();
    assert_eq!(vec!["w1", "w2", "w3", "w4", "w5", "w6"], texts);
    assert_eq!(vec!["w3", "w1", "w6"], line_texts(&actual[0]));
    assert_eq!(vec!["w5", "w2"], line_texts(&actual[1]));
    assert_eq!(vec!["w4"], line_texts(&actual[2]));
}

#[test]
fn words_of_a_line_ascend_in_x() {
    let words = vec![
        line_word("w1", 50.0, 0.0, 10.0, 10.0),
        line_word("w2", 10.0, 0.0, 10.0, 10.0),
        line_word("w3", 30.0, 0.0, 10.0, 10.0),
        line_word("w4", 30.0, 0.0, 10.0, 10.0),
    ];
    let actual = partition(words);
    assert_eq!(1, actual.len());
    for pair in actual[0].words.windows(2) {
        assert!(pair[0].x <= pair[1].x);
    }
    assert_eq!(vec!["w2", "w3", "w4", "w1"], line_texts(&actual[0]));
}

#[test]
fn the_extent_of_a_line_covers_its_words_exactly() {
    let words = vec![
        line_word("w1", 0.0, 10.0, 10.0, 100.0),
        line_word("w2", 20.0, 8.0, 10.0, 100.0),
        line_word("w3", 40.0, 12.0, 10.0, 100.0),
    ];
    let actual = partition(words);
    assert_eq!(1, actual.len());
    let top = actual[0].words.iter().map(|word| word.y).min().unwrap();
    let bottom = actual[0].words.iter().map(|word| word.y + word.height).max().unwrap();
    assert_eq!(top, actual[0].top);
    assert_eq!(bottom, actual[0].bottom);
    assert_eq!(line_units(8.0), actual[0].top);
    assert_eq!(line_units(112.0), actual[0].bottom);
}

#[test]
fn the_words_of_a_line_form_that_line_again() {
    let words = vec![
        line_word("w1", 0.0, 10.1, 10.0, 9.8),
        line_word("w2", 20.0, 50.0, 10.0, 10.0),
        line_word("w3", 40.0, 9.9, 10.0, 10.3),
        line_word("w4", 60.0, 50.1, 10.0, 10.0),
    ];
    let lines = partition(words);
    assert_eq!(2, lines.len());
    for line in lines {
        let top = line.top;
        let bottom = line.bottom;
        let texts = line_texts(&line);
        let again = partition(line.words);
        assert_eq!(1, again.len());
        assert_eq!(top, again[0].top);
        assert_eq!(bottom, again[0].bottom);
        assert_eq!(texts, line_texts(&again[0]));
    }
}

#[test]
fn words_at_the_edge_of_the_coordinates() {
    let low = create_test_word(String::from("low"), i64::MIN, i64::MIN, 0, 0, 0);
    let high = create_test_word(String::from("high"), i64::MAX, i64::MAX, 0, 0, 0);
    let tall = create_test_word(String::from("tall"), 0, i64::MIN, 0, i64::MAX, 0);
    let actual = partition(vec![low, high, tall]);
    assert_eq!(3, actual.len());
    assert_eq!(i64::MIN, actual[0].top);
    assert_eq!(i64::MIN, actual[0].bottom);
    assert_eq!(i64::MAX, actual[1].top);
    assert_eq!(-1, actual[2].bottom);
}
