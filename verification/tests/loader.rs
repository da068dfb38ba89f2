use nearest_neighbor::example::Example;
use nearest_neighbor::loader::{parse_dataset, parse_field, parse_record, LoadError};

fn lines(text: &[&str]) -> Vec<String> {
    text.iter().map(|l| l.to_string()).collect()
}

#[test]
fn parse_field_reads_decimal_integers() {
    assert_eq!(parse_field(b"0"), Some(0));
    assert_eq!(parse_field(b"7"), Some(7));
    assert_eq!(parse_field(b"255"), Some(255));
    assert_eq!(parse_field(b"-12"), Some(-12));
    assert_eq!(parse_field(b"+12"), Some(12));
    assert_eq!(parse_field(b"007"), Some(7));
    assert_eq!(parse_field(b"-0"), Some(0));
    assert_eq!(parse_field(b"2147483647"), Some(i32::MAX));
    assert_eq!(parse_field(b"-2147483648"), Some(i32::MIN));
    assert_eq!(parse_field(b"0000000000000000000002147483647"), Some(i32::MAX));
}

#[test]
fn parse_field_rejects_what_is_no_integer() {
    assert_eq!(parse_field(b""), None);
    assert_eq!(parse_field(b"+"), None);
    assert_eq!(parse_field(b"-"), None);
    assert_eq!(parse_field(b"+-1"), None);
    assert_eq!(parse_field(b"--1"), None);
    assert_eq!(parse_field(b" 1"), None);
    assert_eq!(parse_field(b"1 "), None);
    assert_eq!(parse_field(b"1\r"), None);
    assert_eq!(parse_field(b"1.0"), None);
    assert_eq!(parse_field(b"1_000"), None);
    assert_eq!(parse_field(b"abc"), None);
    assert_eq!(parse_field(b"12a"), None);
    assert_eq!(parse_field(b"0x10"), None);
    assert_eq!(parse_field("٣".as_bytes()), None);
}

#[test]
fn parse_field_rejects_numbers_out_of_range() {
    assert_eq!(parse_field(b"2147483648"), None);
    assert_eq!(parse_field(b"+2147483648"), None);
    assert_eq!(parse_field(b"-2147483649"), None);
    assert_eq!(parse_field(b"99999999999"), None);
    assert_eq!(parse_field(b"-99999999999"), None);
    assert_eq!(parse_field(b"123456789012345678901234567890123456789012345678901234567890"), None);
}

#[test]
fn parse_field_agrees_with_the_standard_parser() {
    let samples = [
        "", "0", "1", "-1", "+1", "+", "-", "00", "-00", "+00", "10", "-10", "2147483647",
        "2147483648", "-2147483648", "-2147483649", "4294967296", "1e3", "1,2", " 5", "5 ", "٣",
        "+-5", "-+5", "5-", "５", "12345678901", "-12345678901", "000000000000000000000001",
    ];
    for sample in samples {
        assert_eq!(parse_field(sample.as_bytes()), sample.parse::<i32>().ok(), "{:?}", sample);
    }
    for value in [-1000, -1, 0, 1, 9, 10, 99, 100, 65535, i32::MAX, i32::MIN] {
        assert_eq!(parse_field(value.to_string().as_bytes()), Some(value));
    }
}

#[test]
fn parse_record_splits_label_and_pixels() {
    assert_eq!(parse_record("5,3,4"), Some(Example { label: 5, pixels: vec![3, 4] }));
    assert_eq!(parse_record("-1,0,255,-7"), Some(Example { label: -1, pixels: vec![0, 255, -7] }));
    assert_eq!(parse_record("9"), Some(Example { label: 9, pixels: vec![] }));
    assert_eq!(parse_record("+2,+3"), Some(Example { label: 2, pixels: vec![3] }));
}

#[test]
fn parse_record_rejects_malformed_lines() {
    assert_eq!(parse_record(""), None);
    assert_eq!(parse_record(","), None);
    assert_eq!(parse_record("1,"), None);
    assert_eq!(parse_record(",1"), None);
    assert_eq!(parse_record("1,,2"), None);
    assert_eq!(parse_record("1, 2"), None);
    assert_eq!(parse_record("1;2"), None);
    assert_eq!(parse_record("label,pixel0,pixel1"), None);
    assert_eq!(parse_record("1,2,x"), None);
    assert_eq!(parse_record("x,2,3"), None);
    assert_eq!(parse_record("1,2147483648"), None);
    assert_eq!(parse_record("1,2,é"), None);
    assert_eq!(parse_record("1,2\r"), None);
}

#[test]
fn parse_dataset_skips_the_header() {
    let text = lines(&["label,pixel0,pixel1", "0,0,0", "1,10,10"]);
    assert_eq!(
        parse_dataset(&text),
        Ok(vec![
            Example { label: 0, pixels: vec![0, 0] },
            Example { label: 1, pixels: vec![10, 10] },
        ])
    );
    let numeric_header = lines(&["3,1,1", "0,0,0"]);
    assert_eq!(parse_dataset(&numeric_header), Ok(vec![Example { label: 0, pixels: vec![0, 0] }]));
    let broken_header = lines(&[",,,not a record", "4,1"]);
    assert_eq!(parse_dataset(&broken_header), Ok(vec![Example { label: 4, pixels: vec![1] }]));
}

#[test]
fn parse_dataset_of_nothing_is_empty() {
    assert_eq!(parse_dataset(&vec![]), Ok(vec![]));
    assert_eq!(parse_dataset(&lines(&["label,pixel0"])), Ok(vec![]));
}

#[test]
fn parse_dataset_keeps_the_order_of_the_lines() {
    let text = lines(&["h", "3,1", "1,2", "2,3", "1,4"]);
    let labels: Vec<i32> = parse_dataset(&text).unwrap().iter().map(|e| e.label).collect();
    assert_eq!(labels, vec![3, 1, 2, 1]);
}

#[test]
fn parse_dataset_reports_the_first_invalid_record() {
    let text = lines(&["h", "0,0,0", "1,x,10", "2,y,z"]);
    let error = parse_dataset(&text).unwrap_err();
    assert_eq!(error, LoadError::InvalidRecord { line: 2 });
    assert_eq!(error.line(), 2);
    let blank = lines(&["h", "0,0,0", ""]);
    assert_eq!(parse_dataset(&blank), Err(LoadError::InvalidRecord { line: 2 }));
    let first = lines(&["h", "oops"]);
    assert_eq!(parse_dataset(&first), Err(LoadError::InvalidRecord { line: 1 }));
}

#[test]
fn parse_dataset_reports_a_record_of_another_width() {
    let text = lines(&["h", "0,0,0", "1,10,10", "2,5", "3,1,1,1"]);
    let error = parse_dataset(&text).unwrap_err();
    assert_eq!(error, LoadError::WidthMismatch { line: 3 });
    assert_eq!(error.line(), 3);
    let longer = lines(&["h", "0", "1,1"]);
    assert_eq!(parse_dataset(&longer), Err(LoadError::WidthMismatch { line: 2 }));
}

#[test]
fn parse_dataset_reports_whichever_fault_comes_first() {
    let width_first = lines(&["h", "0,0,0", "2,5", "1,x,10"]);
    assert_eq!(parse_dataset(&width_first), Err(LoadError::WidthMismatch { line: 2 }));
    let record_first = lines(&["h", "0,0,0", "1,x,10", "2,5"]);
    assert_eq!(parse_dataset(&record_first), Err(LoadError::InvalidRecord { line: 2 }));
}

#[test]
fn loaded_datasets_classify_end_to_end() {
    let training = parse_dataset(&lines(&["label,a,b", "0,0,0", "1,10,10"])).unwrap();
    let validation =
        parse_dataset(&lines(&["label,a,b", "0,1,1", "1,9,9", "1,2,1", "0,-3,0"])).unwrap();
    let outcome = nearest_neighbor::evaluation::evaluate(&training, &validation).unwrap();
    assert_eq!(outcome.predictions, vec![0, 1, 0, 0]);
    assert_eq!((outcome.correct, outcome.wrong), (3, 1));
}
