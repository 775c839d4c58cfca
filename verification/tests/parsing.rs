use bootstrap::{
    convert_token, get_sample, is_delimiter, BS_Error, ErrorPolicy, ParseError, Parser, SourceEvent,
    Step, MAX_TOKEN_LEN,
};

fn number(text: &str) -> Option<f64> {
    text.parse::<f64>().ok()
}

fn parse(source: &[u8], policy: ErrorPolicy) -> (Result<Vec<f64>, ParseError>, BS_Error) {
    let mut err = BS_Error::DatumDropped;
    let sample = get_sample(source, policy, number, &mut err);
    (sample, err)
}

#[test]
fn the_four_delimiters() {
    assert!(is_delimiter(b' '));
    assert!(is_delimiter(b','));
    assert!(is_delimiter(b'\n'));
    assert!(is_delimiter(b'\r'));
    assert!(!is_delimiter(b'\t'));
    assert!(!is_delimiter(b';'));
    assert!(!is_delimiter(b'0'));
    assert!(!is_delimiter(0));
}

#[test]
fn only_delimiters_give_an_empty_sample() {
    for policy in [ErrorPolicy::Strict, ErrorPolicy::Permissive] {
        assert_eq!(parse(b"", policy), (Ok(vec![]), BS_Error::NoError));
        assert_eq!(parse(b" ", policy), (Ok(vec![]), BS_Error::NoError));
        assert_eq!(parse(b",, \r\n \n\r,", policy), (Ok(vec![]), BS_Error::NoError));
    }
}

#[test]
fn well_formed_input_gives_one_value_for_each_run() {
    let (sample, status) = parse(b"  -1.5,2e3\n+7 .25\r\n100", ErrorPolicy::Strict);
    assert_eq!(sample, Ok(vec![-1.5, 2000.0, 7.0, 0.25, 100.0]));
    assert_eq!(status, BS_Error::NoError);
}

#[test]
fn input_without_a_final_delimiter() {
    assert_eq!(parse(b"1,2,3", ErrorPolicy::Strict), (Ok(vec![1.0, 2.0, 3.0]), BS_Error::NoError));
    assert_eq!(parse(b"1,2,3", ErrorPolicy::Strict), parse(b"1,2,3,", ErrorPolicy::Strict));
    assert_eq!(parse(b"42", ErrorPolicy::Permissive), (Ok(vec![42.0]), BS_Error::NoError));
}

#[test]
fn delimiters_collapse() {
    let (sample, status) = parse("1,2,3,4, \r\n5,  \n \r ,,".as_bytes(), ErrorPolicy::Strict);
    assert_eq!(sample, Ok(vec![1.0, 2.0, 3.0, 4.0, 5.0]));
    assert_eq!(status, BS_Error::NoError);
}

#[test]
fn eleven_values_in_order() {
    let (sample, _) = parse(b"1 2 3 4 5 6 7 8 9 10 11", ErrorPolicy::Strict);
    assert_eq!(sample, Ok(vec![1.0, 2.0, 3.0, 4.0, 5.0, 6.0, 7.0, 8.0, 9.0, 10.0, 11.0]));
}

#[test]
fn a_token_at_the_limit_is_accepted() {
    assert_eq!(MAX_TOKEN_LEN, 100);
    let token = "1".repeat(MAX_TOKEN_LEN);
    let expected: f64 = token.parse().unwrap();
    for policy in [ErrorPolicy::Strict, ErrorPolicy::Permissive] {
        assert_eq!(parse(token.as_bytes(), policy), (Ok(vec![expected]), BS_Error::NoError));
        let closed = format!("{} 2", token);
        assert_eq!(parse(closed.as_bytes(), policy), (Ok(vec![expected, 2.0]), BS_Error::NoError));
    }
}

#[test]
fn a_token_past_the_limit_is_refused() {
    let token = "1".repeat(MAX_TOKEN_LEN + 1);
    for policy in [ErrorPolicy::Strict, ErrorPolicy::Permissive] {
        assert_eq!(parse(token.as_bytes(), policy).0, Err(ParseError::TokenTooLong));
        let later = format!("3 {} 4", token);
        assert_eq!(parse(later.as_bytes(), policy).0, Err(ParseError::TokenTooLong));
    }
    let after_a_drop = format!("x {}", token);
    assert_eq!(
        parse(after_a_drop.as_bytes(), ErrorPolicy::Permissive),
        (Err(ParseError::TokenTooLong), BS_Error::DatumDropped)
    );
    assert_eq!(
        parse(after_a_drop.as_bytes(), ErrorPolicy::Strict),
        (Err(ParseError::NotANumber), BS_Error::NoError)
    );
}

#[test]
fn one_malformed_token_is_dropped_or_fatal() {
    let source = b"1,2,three,4";
    assert_eq!(parse(source, ErrorPolicy::Permissive), (Ok(vec![1.0, 2.0, 4.0]), BS_Error::DatumDropped));
    assert_eq!(parse(source, ErrorPolicy::Strict), (Err(ParseError::NotANumber), BS_Error::NoError));
}

#[test]
fn invalid_encoding_is_told_from_not_a_number() {
    let source: &[u8] = &[b'1', b' ', 0xff, 0xfe, b' ', b'2'];
    assert_eq!(parse(source, ErrorPolicy::Strict), (Err(ParseError::InvalidEncoding), BS_Error::NoError));
    assert_eq!(parse(source, ErrorPolicy::Permissive), (Ok(vec![1.0, 2.0]), BS_Error::DatumDropped));
    let last: &[u8] = &[b'1', b' ', 0xc3];
    assert_eq!(parse(last, ErrorPolicy::Strict), (Err(ParseError::InvalidEncoding), BS_Error::NoError));
    assert_eq!(parse(last, ErrorPolicy::Permissive), (Ok(vec![1.0]), BS_Error::DatumDropped));
}

#[test]
fn the_number_parser_sees_the_decoded_text() {
    let seen = |text: &str| Some(String::from(text));
    assert_eq!(convert_token(&seen, "4\u{e9}2".as_bytes()), Ok(String::from("4\u{e9}2")));
    assert_eq!(convert_token(&seen, &[0x80]), Err(ParseError::InvalidEncoding));
    assert_eq!(convert_token(&number, b"1.25"), Ok(1.25));
    assert_eq!(convert_token(&number, b"1.2.5"), Err(ParseError::NotANumber));
    assert_eq!(convert_token(&number, "1".repeat(101).as_bytes()), Err(ParseError::TokenTooLong));
}

#[test]
fn the_flag_is_reset_by_each_parse() {
    let mut err = BS_Error::NoError;
    let first = get_sample(b"a 1", ErrorPolicy::Permissive, number, &mut err);
    assert_eq!(first, Ok(vec![1.0]));
    assert_eq!(err, BS_Error::DatumDropped);
    let second = get_sample(b"2 3", ErrorPolicy::Permissive, number, &mut err);
    assert_eq!(second, Ok(vec![2.0, 3.0]));
    assert_eq!(err, BS_Error::NoError);
}

/// Feeds `source` to a parser in chunks of `size` bytes, as a reader would.
fn parse_in_chunks(source: &[u8], size: usize, policy: ErrorPolicy) -> (Result<Vec<f64>, ParseError>, BS_Error) {
    let mut parser = Parser::new(policy, number);
    for piece in source.chunks(size) {
        match parser.step(SourceEvent::Data(piece)) {
            Step::Continue(next) => parser = next,
            Step::Done(report) => return (report.result, report.status),
        }
    }
    match parser.step(SourceEvent::End) {
        Step::Done(report) => (report.result, report.status),
        Step::Continue(_) => panic!("the end of the stream ends the parse"),
    }
}

#[test]
fn chunks_do_not_matter() {
    let sources = ["10,20 3x0\r\n40.5,,  1e2 ,7", "1 2 3", " 5 , 6 ", "", "abc", "7,,,"];
    for source in sources {
        for policy in [ErrorPolicy::Strict, ErrorPolicy::Permissive] {
            let whole = parse(source.as_bytes(), policy);
            for size in 1..source.len() + 2 {
                assert_eq!(parse_in_chunks(source.as_bytes(), size, policy), whole);
            }
        }
    }
    let long = format!("1 {} 2", "8".repeat(MAX_TOKEN_LEN + 1));
    for size in [1, 7, 100, 101, 102, 200] {
        let outcome = parse_in_chunks(long.as_bytes(), size, ErrorPolicy::Permissive);
        assert_eq!(outcome, (Err(ParseError::TokenTooLong), BS_Error::NoError));
    }
}

#[test]
fn an_empty_chunk_changes_nothing() {
    let parser = Parser::new(ErrorPolicy::Permissive, number);
    let parser = match parser.step(SourceEvent::Data(b"1 x 2")) {
        Step::Continue(next) => next,
        Step::Done(_) => panic!("a dropped token does not end the parse"),
    };
    let parser = match parser.step(SourceEvent::Data(b"")) {
        Step::Continue(next) => next,
        Step::Done(_) => panic!("an empty chunk does not end the parse"),
    };
    assert_eq!(parser.status(), BS_Error::DatumDropped);
    match parser.step(SourceEvent::Data(b"5")) {
        Step::Continue(next) => match next.step(SourceEvent::End) {
            Step::Done(report) => assert_eq!(report.result, Ok(vec![1.0, 25.0])),
            Step::Continue(_) => panic!("the end of the stream ends the parse"),
        },
        Step::Done(_) => panic!("a digit does not end the parse"),
    }
}

#[test]
fn a_read_fault_ends_the_parse() {
    for policy in [ErrorPolicy::Strict, ErrorPolicy::Permissive] {
        let parser = Parser::new(policy, number);
        let parser = match parser.step(SourceEvent::Data(b"1 2 ")) {
            Step::Continue(next) => next,
            Step::Done(_) => panic!("well-formed data does not end the parse"),
        };
        match parser.step(SourceEvent::Failed) {
            Step::Done(report) => {
                assert_eq!(report.result, Err(ParseError::ReadFailed));
                assert_eq!(report.status, BS_Error::NoError);
            },
            Step::Continue(_) => panic!("a read fault ends the parse"),
        }
    }
    let parser = Parser::new(ErrorPolicy::Permissive, number);
    let parser = match parser.step(SourceEvent::Data(b"1 x 2")) {
        Step::Continue(next) => next,
        Step::Done(_) => panic!("a dropped token does not end the parse"),
    };
    assert_eq!(parser.status(), BS_Error::DatumDropped);
    match parser.step(SourceEvent::Failed) {
        Step::Done(report) => {
            assert_eq!(report.result, Err(ParseError::ReadFailed));
            assert_eq!(report.status, BS_Error::DatumDropped);
        },
        Step::Continue(_) => panic!("a read fault ends the parse"),
    }
}

#[test]
fn a_failure_stops_the_parse_at_once() {
    let parser = Parser::new(ErrorPolicy::Strict, number);
    match parser.step(SourceEvent::Data(b"1 oops 2")) {
        Step::Done(report) => assert_eq!(report.result, Err(ParseError::NotANumber)),
        Step::Continue(_) => panic!("the strict policy stops at the first failure"),
    }
    let long = "9".repeat(MAX_TOKEN_LEN + 1);
    let parser = Parser::new(ErrorPolicy::Permissive, number);
    match parser.step(SourceEvent::Data(long.as_bytes())) {
        Step::Done(report) => assert_eq!(report.result, Err(ParseError::TokenTooLong)),
        Step::Continue(_) => panic!("a token past the limit stops the parse before it is closed"),
    }
    let parser = Parser::new(ErrorPolicy::Strict, number);
    match parser.step(SourceEvent::Data(b"1 oops")) {
        Step::Continue(next) => match next.step(SourceEvent::End) {
            Step::Done(report) => assert_eq!(report.result, Err(ParseError::NotANumber)),
            Step::Continue(_) => panic!("the end of the stream ends the parse"),
        },
        Step::Done(_) => panic!("an open token is not converted before it is closed"),
    }
}
