use dux::config::{parse_count, worker_count};

#[test]
fn parse_count_reads_decimal_numbers() {
    assert_eq!(parse_count("0"), Some(0));
    assert_eq!(parse_count("8"), Some(8));
    assert_eq!(parse_count("16"), Some(16));
    assert_eq!(parse_count("007"), Some(7));
    assert_eq!(parse_count("+12"), Some(12));
    assert_eq!(parse_count(&usize::MAX.to_string()), Some(usize::MAX));
}

#[test]
fn parse_count_refuses_everything_else() {
    let refused =
        ["", "+", "-1", "1.5", " 4", "4 ", "four", "1e3", "++1", "1+", "٣", "4\n", "0x10"];
    for text in refused {
        assert_eq!(parse_count(text), None, "{:?}", text);
    }
}

#[test]
fn parse_count_refuses_a_number_that_does_not_fit() {
    let max = usize::MAX.to_string();
    let mut digits: Vec<u8> = max.clone().into_bytes();
    let last = digits.len() - 1;
    digits[last] += 1;
    let one_more = String::from_utf8(digits).unwrap();
    assert_eq!(parse_count(&one_more), None);
    assert_eq!(parse_count(&format!("{}0", max)), None);
    assert_eq!(parse_count("99999999999999999999999999999999999999999"), None);
}

#[test]
fn parse_count_agrees_with_the_standard_library() {
    let samples = [
        "0", "1", "+1", "-0", "+0", "000", "12345678", "18446744073709551615",
        "18446744073709551616", "4294967295", "4294967296", "", "+", "-", "a", "1a", "a1",
        "1_000", "１２", "+-1", " ", "9223372036854775808",
    ];
    for text in samples {
        assert_eq!(parse_count(text), text.parse::<usize>().ok(), "{:?}", text);
    }
}

#[test]
fn worker_count_takes_a_positive_setting() {
    assert_eq!(worker_count(Some("3"), 8), 3);
    assert_eq!(worker_count(Some("+64"), 8), 64);
    assert_eq!(worker_count(Some("1"), 8), 1);
}

#[test]
fn worker_count_falls_back_to_the_cores() {
    assert_eq!(worker_count(None, 8), 8);
    assert_eq!(worker_count(Some(""), 8), 8);
    assert_eq!(worker_count(Some("many"), 4), 4);
    assert_eq!(worker_count(Some("-2"), 4), 4);
    assert_eq!(worker_count(Some("0"), 4), 4);
    assert_eq!(worker_count(Some("99999999999999999999999999"), 2), 2);
}
