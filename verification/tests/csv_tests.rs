use sample_scaffold::csv::{Csv, Error};

#[test]
fn parse_simple_table() {
    let csv = Csv::<2>::from_string(String::from("name,kind\nkick,drum\nsnare,drum")).unwrap();
    assert_eq!(csv.headers(), &vec![String::from("name"), String::from("kind")]);
    let rows = csv.values();
    assert_eq!(rows.len(), 2);
    assert_eq!(rows[0], vec![String::from("kick"), String::from("drum")]);
    assert_eq!(rows[1], vec![String::from("snare"), String::from("drum")]);
}

#[test]
fn parse_empty_input_fails_with_no_headers() {
    let r = Csv::<3>::from_string(String::new());
    assert_eq!(r, Err(Error::NoHeaders));
}

#[test]
fn parse_reports_first_mismatched_row() {
    let r = Csv::<2>::from_string(String::from("a,b\n1,2,3\n4"));
    assert_eq!(r, Err(Error::MismatchedRowLength { line: 1, actual: 3, expected: 2 }));
}

#[test]
fn parse_rejects_bad_header_line() {
    let r = Csv::<2>::from_string(String::from("only\n1,2"));
    assert_eq!(r, Err(Error::MismatchedRowLength { line: 0, actual: 1, expected: 2 }));
}

#[test]
fn serialize_joins_rows_with_commas_and_newlines() {
    let headers = [String::from("h1"), String::from("h2")];
    let mut csv = Csv::new(&headers);
    csv.append([String::from("x"), String::from("y")]);
    csv.append([String::from("1"), String::from("2")]);
    assert_eq!(csv.to_string(), "h1,h2\nx,y\n1,2");
}

#[test]
fn new_table_has_no_rows() {
    let headers = [String::from("a")];
    let csv = Csv::new(&headers);
    assert_eq!(csv.values().len(), 0);
    assert_eq!(csv.to_string(), "a");
}

#[test]
fn parse_serialize_parse_round_trip() {
    let text = String::from("name,kind\nkick,drum\nhat,cymbal");
    let once = Csv::<2>::from_string(text).unwrap();
    let again = Csv::<2>::from_string(once.to_string()).unwrap();
    assert_eq!(once, again);
}

#[test]
fn parse_strips_carriage_returns_before_newlines() {
    let csv = Csv::<2>::from_string(String::from("a,b\r\n1,2\r\n")).unwrap();
    assert_eq!(csv.headers(), &vec![String::from("a"), String::from("b")]);
    assert_eq!(csv.values()[0], vec![String::from("1"), String::from("2")]);
    assert_eq!(csv.to_string(), "a,b\n1,2");
}

#[test]
fn trailing_newline_is_not_preserved() {
    let csv = Csv::<1>::from_string(String::from("a\n1\n")).unwrap();
    assert_eq!(csv.to_string(), "a\n1");
}

#[test]
fn round_trip_loses_final_empty_line() {
    // The input ends in an empty line, which the round-trip law leaves out:
    // the serialization cannot end in a line separator, so the empty final
    // line is dropped when parsing again.
    let once = Csv::<1>::from_string(String::from("a\n\n")).unwrap();
    assert_eq!(once.values(), &vec![vec![String::new()]]);
    assert_eq!(once.to_string(), "a\n");
    let again = Csv::<1>::from_string(once.to_string()).unwrap();
    assert_eq!(again.values().len(), 0);
}

#[test]
fn fields_with_separators_are_not_escaped() {
    let headers = [String::from("h")];
    let mut csv = Csv::new(&headers);
    csv.append([String::from("x,y")]);
    assert_eq!(csv.to_string(), "h\nx,y");
    let reparsed = Csv::<1>::from_string(csv.to_string());
    assert_eq!(reparsed, Err(Error::MismatchedRowLength { line: 1, actual: 2, expected: 1 }));
}
