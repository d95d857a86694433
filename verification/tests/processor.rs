use rust_decimal::Decimal;
use word_indexer_lib::indexers::amount::Amount;
use word_indexer_lib::models::Word;
use word_indexer_lib::processor::index_amounts;
use word_indexer_lib::test_utils::create_test_word;

fn words_from_sentence(sentence: &str) -> Vec<Word> {
    sentence
        .split_whitespace()
        .map(|word| create_test_word(String::from(word), 0, 0, word.len() as i64 * 5, 10, 0))
        .collect()
}

fn indexed(words: Vec<Word>) -> Vec<Decimal> {
    index_amounts(words)
        .iter()
        .map(|amount| Decimal::try_from_i128_with_scale(amount.mantissa, amount.scale).unwrap())
        .collect()
}

fn decimal(text: &str) -> Decimal {
    Decimal::from_str_exact(text).unwrap()
}

#[test]
fn monetary_amount_single_number() {
    let words = words_from_sentence("This has 1,003.28 as the single number");
    assert_eq!(vec![decimal("1003.28")], indexed(words));
}

#[test]
fn monetary_amount_trailing_punctuation() {
    let words =
        words_from_sentence("This has 1,003.28; as the single number with trailing punctuation");
    assert_eq!(vec![decimal("1003.28")], indexed(words));
}

#[test]
fn monetary_amount_multiple_numbers() {
    let words = words_from_sentence("This has 1,003.28 and 837,291.37 as multiple numbers");
    assert_eq!(vec![decimal("1003.28"), decimal("837291.37")], indexed(words));
}

#[test]
fn monetary_amount_within_text() {
    let words = words_from_sentence("This has some1,003.28within text");
    assert_eq!(vec![decimal("1003.28")], indexed(words));
}

#[test]
fn index_amounts_of_a_sentence() {
    let words = words_from_sentence(
        "Hello I am 12.4 years old and have 1,000.25 euros on 10-12-2022.",
    );
    assert_eq!(
        vec![decimal("12.4"), decimal("1000.25"), decimal("10"), decimal("12"), decimal("2022")],
        indexed(words),
    );
}

#[test]
fn index_amounts_of_no_words() {
    assert_eq!(Vec::<Amount>::new(), index_amounts(Vec::new()));
}

#[test]
fn index_amounts_reads_the_text_of_a_segment() {
    // The two words are adjacent, so the segment reads "1,000".
    let words = vec![
        create_test_word(String::from("1,"), 0, 0, 20, 10, 0),
        create_test_word(String::from("000"), 22, 0, 30, 10, 0),
    ];
    assert_eq!(vec![decimal("1000")], indexed(words));
}

#[test]
fn index_amounts_reads_words_apart_by_themselves() {
    let words = vec![
        create_test_word(String::from("1,"), 0, 0, 20, 10, 0),
        create_test_word(String::from("000"), 200, 0, 30, 10, 0),
    ];
    assert_eq!(vec![decimal("1"), decimal("0")], indexed(words));
}

#[test]
fn index_amounts_goes_line_by_line_and_segment_by_segment() {
    // Two lines; the lower one comes first because its first word does.
    let words = vec![
        create_test_word(String::from("3.50"), 300, 100, 40, 10, 0),
        create_test_word(String::from("1.25"), 300, 0, 40, 10, 0),
        create_test_word(String::from("2.00"), 0, 100, 40, 10, 0),
        create_test_word(String::from("total"), 0, 0, 50, 10, 0),
    ];
    assert_eq!(vec![decimal("2.00"), decimal("3.50"), decimal("1.25")], indexed(words));
}
