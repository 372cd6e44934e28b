use redis_resp::data_type::DataType;
use redis_resp::parser::{parse, ParserError};

fn bytes(s: &str) -> Vec<u8> {
    s.as_bytes().to_vec()
}

#[test]
fn parser_simple_string() {
    let tests = vec![("+OK\r\n", Ok(DataType::SimpleString(String::from("OK"))))];

    for (input, expected) in tests {
        let actual = parse(bytes(input));
        assert_eq!(expected, actual);
    }
}

#[test]
fn parser_error() {
    let tests = vec![(
        "-ERR unknown command 'foobar'\r\n",
        Ok(DataType::Error(String::from("ERR unknown command 'foobar'"))),
    )];

    for (input, expected) in tests {
        let actual = parse(bytes(input));
        assert_eq!(expected, actual);
    }
}

#[test]
fn parser_int() {
    let tests = vec![
        (":0\r\n", Ok(DataType::Int(0))),
        (":1000\r\n", Ok(DataType::Int(1000))),
        (":-3\r\n", Ok(DataType::Int(-3))),
    ];

    for (input, expected) in tests {
        let actual = parse(bytes(input));
        assert_eq!(expected, actual);
    }
}

#[test]
fn parser_bulk_string() {
    let tests = vec![
        ("$0\r\n\r\n", Ok(DataType::BulkString(Vec::new()))),
        ("$6\r\nfoobar\r\n", Ok(DataType::BulkString(bytes("foobar")))),
    ];

    for (input, expected) in tests {
        let actual = parse(bytes(input));
        assert_eq!(expected, actual);
    }
}

#[test]
fn parser_array() {
    let tests = vec![
        ("*0\r\n", Ok(DataType::Array(vec![]))),
        (
            "*3\r\n:1\r\n:2\r\n:3\r\n",
            Ok(DataType::Array(vec![DataType::Int(1), DataType::Int(2), DataType::Int(3)])),
        ),
        (
            "*3\r\n$3\r\nfoo\r\n:1\r\n:2\r\n",
            Ok(DataType::Array(vec![
                DataType::BulkString(bytes("foo")),
                DataType::Int(1),
                DataType::Int(2),
            ])),
        ),
    ];

    for (input, expected) in tests {
        let actual = parse(bytes(input));
        assert_eq!(expected, actual);
    }
}

#[test]
fn parser_null() {
    let tests = vec!["$-1\r\n", "*-1\r\n"];

    for input in tests {
        let actual = parse(bytes(input));
        assert_eq!(Ok(DataType::Null), actual);
    }
}

#[test]
fn parser_reports_missing_crlf_with_span() {
    assert_eq!(
        Err(ParserError::UnexpectedByte { src: String::from("$3\r\nfooXY"), offset: 7, length: 2 }),
        parse(bytes("$3\r\nfooXY"))
    );
}

#[test]
fn parser_reports_end_of_input_with_span() {
    assert_eq!(
        Err(ParserError::UnexpectedEndOfInput { src: String::new(), offset: 0, length: 0 }),
        parse(Vec::new())
    );
}

#[test]
fn parser_reports_unknown_tag_with_span() {
    assert_eq!(
        Err(ParserError::UnexpectedTag { src: String::from("?x\r\n"), offset: 0, length: 1 }),
        parse(bytes("?x\r\n"))
    );
}

#[test]
fn parser_reports_bad_integer_with_span() {
    assert_eq!(
        Err(ParserError::UnexpectedType {
            src: String::from(":12a\r\n"),
            offset: 1,
            length: 3,
            message: String::from("expected integer"),
        }),
        parse(bytes(":12a\r\n"))
    );
}

#[test]
fn parser_reports_negative_length_with_span() {
    assert_eq!(
        Err(ParserError::UnexpectedValue {
            src: String::from("*-5\r\n"),
            offset: 1,
            length: 2,
            message: String::from("expected integer greater than or equal to -1"),
        }),
        parse(bytes("*-5\r\n"))
    );
}

#[test]
fn parser_source_text_replaces_invalid_utf8() {
    match parse(vec![b'?', 0xff]) {
        Err(ParserError::UnexpectedTag { src, .. }) => assert_eq!(String::from("?\u{FFFD}"), src),
        other => panic!("unexpected outcome: {:?}", other),
    }
}
