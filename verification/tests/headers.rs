use http_headers::headers::{Header, Headers, ParseError, Value};

#[test]
fn single_header_scalar_and_validation() {
    let hs = Headers::from_request("Accept: text/html\r\n\r\nbody").unwrap();
    assert_eq!(hs.headers.len(), 1);
    let h = &hs.headers[0];
    assert_eq!(h.name, "Accept");
    match &h.value {
        Value::Single(v) => assert_eq!(*v, "text/html"),
        Value::Multiple(_) => panic!("expected a scalar value"),
    }
    let rules = vec![("Accept", "")];
    assert!(hs.validate_required_headers(&rules).is_ok());
}

#[test]
fn list_value_preserves_order_and_whitespace() {
    let hs = Headers::from_request("Accept: text/html; q=0.9\r\n\r\n").unwrap();
    let h = hs.get_header_by_name("Accept").unwrap();
    match &h.value {
        Value::Multiple(vs) => {
            assert_eq!(vs.len(), 2);
            assert_eq!(vs[0], "text/html");
            assert_eq!(vs[1], " q=0.9");
        }
        Value::Single(_) => panic!("expected a list value"),
    }
    assert!(h.value.contains(" q=0.9"));
    assert!(h.value.contains("text/html"));
    assert!(!h.value.contains("q=1.0"));
}

#[test]
fn missing_required_header_is_invalid() {
    let hs = Headers::from_request("Content-Type: text/plain\r\n\r\n").unwrap();
    let rules = vec![("Accept", "")];
    assert_eq!(hs.validate_required_headers(&rules), Err(ParseError::InvalidHeaders));
}

#[test]
fn duplicate_names_get_returns_first() {
    let hs = Headers::from_request("Accept: text/html\r\nAccept: text/xml\r\n\r\n").unwrap();
    assert_eq!(hs.headers.len(), 2);
    let h = hs.get_header_by_name("Accept").unwrap();
    match &h.value {
        Value::Single(v) => assert_eq!(*v, "text/html"),
        Value::Multiple(_) => panic!("expected a scalar value"),
    }
}

#[test]
fn malformed_first_line_is_a_parse_error() {
    let r = Headers::from_request("Malformed-Line-No-Colon-Space\r\n\r\n");
    assert_eq!(r.unwrap_err(), ParseError::MalformedHeader);
}

#[test]
fn scalar_value_contains_itself() {
    let hs = Headers::from_request("Accept: text/html\r\n\r\n").unwrap();
    let h = hs.get_header_by_name("Accept").unwrap();
    assert!(h.value.contains("text/html"));
    assert!(h.value.contains("html"));
    assert!(!h.value.contains("xml"));
}

#[test]
fn list_count_is_separators_plus_one() {
    let hs = Headers::from_request("X: a;b;c\r\n\r\n").unwrap();
    let h = hs.get_header_by_name("X").unwrap();
    match &h.value {
        Value::Multiple(vs) => {
            assert_eq!(vs.len(), 3);
            assert_eq!(vs[0], "a");
            assert_eq!(vs[1], "b");
            assert_eq!(vs[2], "c");
        }
        Value::Single(_) => panic!("expected a list value"),
    }
    assert!(h.value.contains("b"));
    assert!(!h.value.contains("d"));
}

#[test]
fn empty_expected_substring_matches_every_value() {
    let hs = Headers::from_request("A: scalar\r\nB: one;two\r\n\r\n").unwrap();
    assert!(hs.get_header_by_name("A").unwrap().value.contains(""));
    assert!(hs.get_header_by_name("B").unwrap().value.contains(""));
}

#[test]
fn line_order_is_preserved() {
    let hs = Headers::from_request("First: 1\r\nSecond: 2\r\nThird: 3\r\n\r\n").unwrap();
    assert_eq!(hs.headers.len(), 3);
    assert_eq!(hs.headers[0].name, "First");
    assert_eq!(hs.headers[1].name, "Second");
    assert_eq!(hs.headers[2].name, "Third");
}

#[test]
fn parsing_stops_at_first_non_header_line() {
    let hs = Headers::from_request("A: 1\r\n\r\nB: 2\r\nrest").unwrap();
    assert_eq!(hs.headers.len(), 1);
    assert_eq!(hs.headers[0].name, "A");
    assert!(hs.get_header_by_name("B").is_none());
}

#[test]
fn validation_outcome_is_order_independent() {
    let hs = Headers::from_request("A: 1\r\nB: 2\r\n\r\n").unwrap();
    let forward = vec![("A", "1"), ("B", "2")];
    let backward = vec![("B", "2"), ("A", "1")];
    assert!(hs.validate_required_headers(&forward).is_ok());
    assert!(hs.validate_required_headers(&backward).is_ok());

    let failing_forward = vec![("A", "1"), ("B", "9")];
    let failing_backward = vec![("B", "9"), ("A", "1")];
    assert_eq!(
        hs.validate_required_headers(&failing_forward),
        Err(ParseError::InvalidHeaders)
    );
    assert_eq!(
        hs.validate_required_headers(&failing_backward),
        Err(ParseError::InvalidHeaders)
    );
}

#[test]
fn wrong_value_of_present_header_is_invalid() {
    let hs = Headers::from_request("Accept: text/html\r\n\r\n").unwrap();
    let rules = vec![("Accept", "json")];
    assert_eq!(hs.validate_required_headers(&rules), Err(ParseError::InvalidHeaders));
}

#[test]
fn empty_rule_set_validates() {
    let hs = Headers::from_request("\r\n").unwrap();
    let rules: Vec<(&str, &str)> = Vec::new();
    assert!(hs.validate_required_headers(&rules).is_ok());
}

#[test]
fn empty_buffer_has_no_headers() {
    let hs = Headers::from_request("").unwrap();
    assert_eq!(hs.headers.len(), 0);
    assert!(hs.get_header_by_name("Accept").is_none());
}

#[test]
fn empty_value_is_a_scalar() {
    let hs = Headers::from_request("X: \r\n\r\n").unwrap();
    let h = hs.get_header_by_name("X").unwrap();
    match &h.value {
        Value::Single(v) => assert_eq!(*v, ""),
        Value::Multiple(_) => panic!("expected a scalar value"),
    }
}

#[test]
fn stray_leading_line_feed_is_stripped_from_name() {
    let hs = Headers::from_request("A: 1\r\n\nB: 2\r\n\r\n").unwrap();
    assert_eq!(hs.headers.len(), 2);
    assert_eq!(hs.headers[1].name, "B");
    assert!(hs.get_header_by_name("B").is_some());
}

#[test]
fn header_from_line_splits_at_first_separator() {
    let h = Header::from_line("X: a: b").unwrap();
    assert_eq!(h.name, "X");
    match &h.value {
        Value::Single(v) => assert_eq!(*v, "a: b"),
        Value::Multiple(_) => panic!("expected a scalar value"),
    }
}

#[test]
fn header_from_line_without_separator_fails() {
    assert_eq!(
        Header::from_line("NoSeparatorHere").unwrap_err(),
        ParseError::MalformedHeader
    );
}

#[test]
fn consecutive_separators_yield_empty_sub_values() {
    let hs = Headers::from_request("X: a;;b\r\n\r\n").unwrap();
    let h = hs.get_header_by_name("X").unwrap();
    match &h.value {
        Value::Multiple(vs) => {
            assert_eq!(vs.len(), 3);
            assert_eq!(vs[0], "a");
            assert_eq!(vs[1], "");
            assert_eq!(vs[2], "b");
        }
        Value::Single(_) => panic!("expected a list value"),
    }
}

#[test]
fn lookup_is_case_sensitive() {
    let hs = Headers::from_request("Accept: text/html\r\n\r\n").unwrap();
    assert!(hs.get_header_by_name("accept").is_none());
    assert!(hs.get_header_by_name("Accept").is_some());
}

#[test]
fn consumption_continues_while_lines_hold_the_separator() {
    // Without a terminating line, any later line holding ": " is still
    // consumed as a header.
    let hs = Headers::from_request("A: 1\r\nbody: not a header").unwrap();
    assert_eq!(hs.headers.len(), 2);
    assert_eq!(hs.headers[1].name, "body");
}

#[test]
fn short_circuit_reports_single_error_kind() {
    let hs = Headers::from_request("A: 1\r\n\r\n").unwrap();
    let rules = vec![("Missing", ""), ("AlsoMissing", "")];
    assert_eq!(hs.validate_required_headers(&rules), Err(ParseError::InvalidHeaders));
}
