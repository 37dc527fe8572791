use ordered_treap::input::{get, WordReader, BLANK, MINUS, NINE, PLUS, ZERO};

#[test]
fn bytes_of_the_grammar() {
    assert_eq!(BLANK, b' ');
    assert_eq!(ZERO, b'0');
    assert_eq!(NINE, b'9');
    assert_eq!(PLUS, b'+');
    assert_eq!(MINUS, b'-');
}

#[test]
fn get_reads_plain_digits() {
    assert_eq!(get(b"0"), Some(0));
    assert_eq!(get(b"7"), Some(7));
    assert_eq!(get(b"12"), Some(12));
    assert_eq!(get(b"714025"), Some(714025));
}

#[test]
fn get_reads_a_sign() {
    assert_eq!(get(b"-12"), Some(-12));
    assert_eq!(get(b"+12"), Some(12));
    assert_eq!(get(b"-0"), Some(0));
    assert_eq!(get(b"+0"), Some(0));
}

#[test]
fn get_reads_leading_zeros() {
    assert_eq!(get(b"007"), Some(7));
    assert_eq!(get(b"-000000000000000000000012"), Some(-12));
}

#[test]
fn get_reads_the_bounds_of_the_range() {
    assert_eq!(get(b"2147483647"), Some(i32::MAX));
    assert_eq!(get(b"-2147483648"), Some(i32::MIN));
    assert_eq!(get(b"+2147483647"), Some(i32::MAX));
}

#[test]
fn get_refuses_what_lies_outside_the_range() {
    assert_eq!(get(b"2147483648"), None);
    assert_eq!(get(b"-2147483649"), None);
    assert_eq!(get(b"99999999999999999999999999999"), None);
    assert_eq!(get(b"-99999999999999999999999999999"), None);
}

#[test]
fn get_refuses_words_without_digits() {
    assert_eq!(get(b""), None);
    assert_eq!(get(b"-"), None);
    assert_eq!(get(b"+"), None);
}

#[test]
fn get_refuses_anything_but_digits() {
    assert_eq!(get(b"12a"), None);
    assert_eq!(get(b"a12"), None);
    assert_eq!(get(b"1 2"), None);
    assert_eq!(get(b" 12"), None);
    assert_eq!(get(b"--1"), None);
    assert_eq!(get(b"+-1"), None);
    assert_eq!(get(b"1-"), None);
    assert_eq!(get(b"1.5"), None);
    assert_eq!(get(b"1_000"), None);
    assert_eq!(get(b"0x10"), None);
    assert_eq!(get(&[0x31, 0xff]), None);
    assert_eq!(get(b"/"), None);
    assert_eq!(get(b":"), None);
}

#[test]
fn get_agrees_with_the_standard_parser() {
    let words: [&str; 12] = [
        "0", "-1", "+1", "12345", "-2147483648", "2147483648", "", "-", "+", "1e3", "00", "9x",
    ];
    for word in words {
        assert_eq!(get(word.as_bytes()), word.parse::<i32>().ok());
    }
}

fn words_of(stream: &[u8]) -> Vec<Vec<u8>> {
    let mut reader = WordReader::new();
    let mut words = Vec::new();
    for byte in stream {
        if let Some(word) = reader.feed(Some(*byte)) {
            words.push(word);
        }
    }
    if let Some(word) = reader.feed(None) {
        words.push(word);
    }
    words
}

#[test]
fn a_blank_ends_a_word() {
    let mut reader = WordReader::new();
    assert_eq!(reader.feed(Some(b'4')), None);
    assert_eq!(reader.feed(Some(b'2')), None);
    assert_eq!(reader.feed(Some(b' ')), Some(b"42".to_vec()));
    assert_eq!(reader.feed(Some(b' ')), None);
}

#[test]
fn the_end_of_the_stream_ends_a_word() {
    let mut reader = WordReader::new();
    assert_eq!(reader.feed(Some(b'7')), None);
    assert_eq!(reader.feed(None), Some(b"7".to_vec()));
    assert_eq!(reader.feed(None), None);
}

#[test]
fn blanks_before_a_word_are_passed_over() {
    let mut reader = WordReader::new();
    assert_eq!(reader.feed(Some(b'\n')), None);
    assert_eq!(reader.feed(Some(b'\t')), None);
    assert_eq!(reader.feed(Some(0)), None);
    assert_eq!(reader.feed(Some(b'x')), None);
    assert_eq!(reader.feed(Some(b'\r')), Some(b"x".to_vec()));
}

#[test]
fn the_byte_after_the_space_belongs_to_a_word() {
    let mut reader = WordReader::new();
    assert_eq!(reader.feed(Some(b'!')), None);
    assert_eq!(reader.feed(Some(0xff)), None);
    assert_eq!(reader.feed(Some(b' ')), Some(vec![b'!', 0xff]));
}

#[test]
fn a_stream_of_requests_in_words() {
    let words = words_of(b"3\n1 10\n1  -5\r\n0\t1");
    let expected: Vec<Vec<u8>> = vec![
        b"3".to_vec(),
        b"1".to_vec(),
        b"10".to_vec(),
        b"1".to_vec(),
        b"-5".to_vec(),
        b"0".to_vec(),
        b"1".to_vec(),
    ];
    assert_eq!(words, expected);
    let numbers: Vec<Option<i32>> = words.iter().map(|w| get(w)).collect();
    assert_eq!(numbers, vec![Some(3), Some(1), Some(10), Some(1), Some(-5), Some(0), Some(1)]);
}

#[test]
fn an_empty_stream_has_no_words() {
    assert_eq!(words_of(b""), Vec::<Vec<u8>>::new());
    assert_eq!(words_of(b" \n \t "), Vec::<Vec<u8>>::new());
}
