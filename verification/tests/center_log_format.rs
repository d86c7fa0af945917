use kmeans_parallel::center_log::{
    parse_center_log, read_center_log, render_iteration, CenterLogError, CenterLogReading,
};
use kmeans_parallel::decimal::{parse_usize, push_decimal, DigitError};

fn b(s: &str) -> Vec<u8> {
    s.as_bytes().to_vec()
}

fn coords(list: &[&[&str]]) -> Vec<Vec<Vec<u8>>> {
    list.iter().map(|c| c.iter().map(|x| b(x)).collect()).collect()
}

#[test]
fn decimal_numbers_read_like_from_str() {
    let cases: Vec<(&str, Result<usize, DigitError>)> = vec![
        ("42", Ok(42)),
        ("+7", Ok(7)),
        ("007", Ok(7)),
        ("0", Ok(0)),
        ("", Err(DigitError::Empty)),
        ("+", Err(DigitError::InvalidDigit)),
        ("-", Err(DigitError::InvalidDigit)),
        ("-1", Err(DigitError::InvalidDigit)),
        ("12a", Err(DigitError::InvalidDigit)),
        ("99999999999999999999999", Err(DigitError::PosOverflow)),
        ("99999999999999999999999x", Err(DigitError::PosOverflow)),
    ];
    for (text, expected) in cases {
        let bytes = b(text);
        assert_eq!(parse_usize(&bytes, 0, bytes.len()), expected, "{}", text);
        let std_kind = text.parse::<usize>().map_err(|_| ());
        assert_eq!(expected.is_ok(), std_kind.is_ok(), "{}", text);
    }
    let max = usize::MAX.to_string();
    let bytes = b(&max);
    assert_eq!(parse_usize(&bytes, 0, bytes.len()), Ok(usize::MAX));
    let inner = b("x123y");
    assert_eq!(parse_usize(&inner, 1, 4), Ok(123));
}

#[test]
fn decimal_numbers_are_written_in_full() {
    let mut out = b("n=");
    push_decimal(&mut out, 0);
    assert_eq!(out, b("n=0"));
    let mut out = Vec::new();
    push_decimal(&mut out, 1234);
    assert_eq!(out, b("1234"));
    let mut out = Vec::new();
    push_decimal(&mut out, usize::MAX);
    assert_eq!(out, b(&usize::MAX.to_string()));
}

#[test]
fn iteration_is_rendered_line_by_line() {
    let text = render_iteration(3, &coords(&[&["1.0000", "2.0000"], &["-0.5000"]]));
    assert_eq!(
        String::from_utf8(text).unwrap(),
        "ITERATION 3:\nCenter 0: [1.0000, 2.0000]\nCenter 1: [-0.5000]\n---\n"
    );
    let empty = render_iteration(0, &Vec::new());
    assert_eq!(String::from_utf8(empty).unwrap(), "ITERATION 0:\n---\n");
}

#[test]
fn rendered_log_reads_back() {
    let first = coords(&[&["0.1000", "0.2000", "0.3000"], &["1.0000", "-2.0000", "3.5000"]]);
    let second = coords(&[&["0.1500", "0.2500", "0.3500"], &["1.1000", "-2.1000", "3.6000"]]);
    let mut text = render_iteration(0, &first);
    text.extend(render_iteration(1, &second));
    let parsed = parse_center_log(&text).unwrap();
    assert_eq!(parsed.len(), 2);
    assert_eq!(parsed[0].iteration, 0);
    assert_eq!(parsed[0].centers, first);
    assert_eq!(parsed[1].iteration, 1);
    assert_eq!(parsed[1].centers, second);
}

#[test]
fn empty_log_has_no_iterations() {
    assert!(parse_center_log(&Vec::new()).unwrap().is_empty());
    assert!(parse_center_log(&b("---\n\nnothing here\n")).unwrap().is_empty());
}

#[test]
fn log_lines_may_end_in_crlf_or_lack_a_final_newline() {
    let text = b("ITERATION 7:\r\nCenter 0: [1, 2]\r\n---\r\nITERATION 8:\nCenter 0: [3, 4]");
    let parsed = parse_center_log(&text).unwrap();
    assert_eq!(parsed.len(), 2);
    assert_eq!(parsed[0].iteration, 7);
    assert_eq!(parsed[0].centers, coords(&[&["1", "2"]]));
    assert_eq!(parsed[1].iteration, 8);
    assert_eq!(parsed[1].centers, coords(&[&["3", "4"]]));
}

#[test]
fn centers_before_the_first_iteration_join_it() {
    let text = b("Center 0: [9]\nITERATION 1:\nCenter 0: [1]\n");
    let parsed = parse_center_log(&text).unwrap();
    assert_eq!(parsed.len(), 1);
    assert_eq!(parsed[0].iteration, 1);
    assert_eq!(parsed[0].centers, coords(&[&["9"], &["1"]]));
}

#[test]
fn iteration_number_and_coordinates_are_taken_as_written() {
    let text = b("ITERATION 12::: trailing\nCenter x [a, b, , c] tail\nCenter 1: []\n");
    let parsed = parse_center_log(&text).unwrap();
    assert_eq!(parsed.len(), 1);
    assert_eq!(parsed[0].iteration, 12);
    assert_eq!(parsed[0].centers, coords(&[&["a", "b", "", "c"], &[""]]));
}

#[test]
fn malformed_log_lines_are_refused() {
    assert_eq!(
        parse_center_log(&b("ITERATION\n")).unwrap_err(),
        CenterLogError::InvalidIterationFormat
    );
    assert_eq!(
        parse_center_log(&b("ITERATION x:\n")).unwrap_err(),
        CenterLogError::InvalidIterationNumber(DigitError::InvalidDigit)
    );
    assert_eq!(
        parse_center_log(&b("ITERATION  3:\n")).unwrap_err(),
        CenterLogError::InvalidIterationNumber(DigitError::Empty)
    );
    assert_eq!(
        parse_center_log(&b("ITERATION 1:\nCenter 0: 1, 2\n")).unwrap_err(),
        CenterLogError::InvalidCenterFormat
    );
    assert_eq!(
        parse_center_log(&b("ITERATION 1:\nCenter 0: [1, 2\n")).unwrap_err(),
        CenterLogError::InvalidCenterFormat
    );
}

#[test]
fn center_line_with_brackets_reversed_cannot_be_sliced() {
    let text = b("ITERATION 1:\nCenter 0: ]1, 2[\n");
    assert!(matches!(read_center_log(&text), CenterLogReading::Unsliceable));
    let earlier_error = b("ITERATION x:\nCenter 0: ]1, 2[\n");
    assert!(matches!(
        read_center_log(&earlier_error),
        CenterLogReading::Failed(CenterLogError::InvalidIterationNumber(DigitError::InvalidDigit))
    ));
    let fine = b("ITERATION 2:\nCenter 0: [5]\n");
    match read_center_log(&fine) {
        CenterLogReading::Complete(entries) => {
            assert_eq!(entries.len(), 1);
            assert_eq!(entries[0].iteration, 2);
        }
        other => panic!("unexpected {:?}", other),
    }
}
