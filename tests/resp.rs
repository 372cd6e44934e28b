use redis_resp::data_type::DataType;
use redis_resp::resp::{encode, parse, EncodeError, ParserError};

fn bytes(s: &str) -> Vec<u8> {
    s.as_bytes().to_vec()
}

#[test]
fn resp_simple_string() {
    let tests = vec![("+OK\r\n", Ok(DataType::SimpleString(String::from("OK"))))];

    for (input, expected) in tests {
        let actual = parse(bytes(input));
        assert_eq!(expected, actual);
    }
}

#[test]
fn resp_error() {
    let tests = vec![(
        "-ERR unknown command 'foobar'\r\n",
        Ok(DataType::Error(String::from("ERR unknown command 'foobar'"))),
    )];

    for (input, expected) in tests {
        let actual = parse(bytes(input));
        assert_eq!(expected, actual);
    }
}

#[test]
fn resp_int() {
    let tests = vec![
        (":0\r\n", Ok(DataType::Int(0))),
        (":1000\r\n", Ok(DataType::Int(1000))),
        (":-3\r\n", Ok(DataType::Int(-3))),
    ];

    for (input, expected) in tests {
        let actual = parse(bytes(input));
        assert_eq!(expected, actual);
    }
}

#[test]
fn resp_bulk_string() {
    let tests = vec![
        ("$0\r\n\r\n", Ok(DataType::BulkString(Vec::new()))),
        ("$6\r\nfoobar\r\n", Ok(DataType::BulkString(bytes("foobar")))),
    ];

    for (input, expected) in tests {
        let actual = parse(bytes(input));
        assert_eq!(expected, actual);
    }
}

#[test]
fn resp_array() {
    let tests = vec![
        ("*0\r\n", Ok(DataType::Array(vec![]))),
        (
            "*3\r\n:1\r\n:2\r\n:3\r\n",
            Ok(DataType::Array(vec![DataType::Int(1), DataType::Int(2), DataType::Int(3)])),
        ),
        (
            "*3\r\n$3\r\nfoo\r\n:1\r\n:2\r\n",
            Ok(DataType::Array(vec![
                DataType::BulkString(bytes("foo")),
                DataType::Int(1),
                DataType::Int(2),
            ])),
        ),
        (
            "*2\r\n*3\r\n:1\r\n:2\r\n:3\r\n*2\r\n+Foo\r\n-Bar\r\n",
            Ok(DataType::Array(vec![
                DataType::Array(vec![DataType::Int(1), DataType::Int(2), DataType::Int(3)]),
                DataType::Array(vec![
                    DataType::SimpleString(String::from("Foo")),
                    DataType::Error(String::from("Bar")),
                ]),
            ])),
        ),
        (
            "*3\r\n$3\r\nfoo\r\n$-1\r\n$3\r\nbar\r\n",
            Ok(DataType::Array(vec![
                DataType::BulkString(bytes("foo")),
                DataType::Null,
                DataType::BulkString(bytes("bar")),
            ])),
        ),
    ];

    for (input, expected) in tests {
        let actual = parse(bytes(input));
        assert_eq!(expected, actual);
    }
}

#[test]
fn resp_null() {
    let tests = vec!["$-1\r\n", "*-1\r\n"];

    for input in tests {
        let actual = parse(bytes(input));
        assert_eq!(Ok(DataType::Null), actual);
    }
}

#[test]
fn test_encode() {
    let tests = vec![
        ("LLEN mylist", "*2\r\n$4\r\nLLEN\r\n$6\r\nmylist\r\n"),
        (
            r#"SETEX mykey 10 "Hello""#,
            "*4\r\n$5\r\nSETEX\r\n$5\r\nmykey\r\n:10\r\n$7\r\n\"Hello\"\r\n",
        ),
    ];

    for (input, expected) in tests {
        assert_eq!(String::from(expected), encode(input).unwrap());
    }
}

#[test]
fn encode_wraps_a_single_token_in_an_array() {
    assert_eq!(Ok(String::from("*1\r\n$4\r\nPING\r\n")), encode("PING"));
}

#[test]
fn encode_counts_utf8_bytes() {
    assert_eq!(Ok(String::from("*2\r\n$3\r\nGET\r\n$8\r\nclé\u{1F600}\r\n")), encode("GET clé\u{1F600}"));
}

#[test]
fn encode_rejects_empty_tokens() {
    assert_eq!(Err(EncodeError::EmptyToken { index: 1 }), encode("GET  key"));
    assert_eq!(Err(EncodeError::EmptyToken { index: 0 }), encode(""));
    assert_eq!(Err(EncodeError::EmptyToken { index: 2 }), encode("GET key "));
}

#[test]
fn encoded_request_decodes_to_its_tokens() {
    let request = encode("SET counter 42").unwrap();
    assert_eq!(
        Ok(DataType::Array(vec![
            DataType::BulkString(bytes("SET")),
            DataType::BulkString(bytes("counter")),
            DataType::Int(42),
        ])),
        parse(request.into_bytes())
    );
}

#[test]
fn strict_prefixes_of_messages_are_rejected() {
    let messages = vec![
        "+OK\r\n",
        "-ERR unknown command 'foobar'\r\n",
        ":-3\r\n",
        "$0\r\n\r\n",
        "$6\r\nfoobar\r\n",
        "$-1\r\n",
        "*-1\r\n",
        "*0\r\n",
        "*3\r\n$3\r\nfoo\r\n$-1\r\n$3\r\nbar\r\n",
        "*2\r\n*3\r\n:1\r\n:2\r\n:3\r\n*2\r\n+Foo\r\n-Bar\r\n",
    ];
    for message in messages {
        let full = bytes(message);
        assert!(parse(full.clone()).is_ok());
        for k in 0..full.len() {
            assert!(parse(full[..k].to_vec()).is_err(), "prefix {:?} of {:?}", k, message);
        }
    }
}

#[test]
fn decoding_twice_gives_equal_values() {
    let input = bytes("*2\r\n*3\r\n:1\r\n:2\r\n:3\r\n*2\r\n+Foo\r\n-Bar\r\n");
    assert_eq!(parse(input.clone()), parse(input));
}

#[test]
fn bulk_strings_are_binary_safe() {
    let input = vec![b'$', b'4', b'\r', b'\n', 0xff, b'\r', b'\n', 0x00, b'\r', b'\n'];
    assert_eq!(Ok(DataType::BulkString(vec![0xff, b'\r', b'\n', 0x00])), parse(input));
}

#[test]
fn simple_strings_replace_invalid_utf8() {
    assert_eq!(
        Ok(DataType::SimpleString(String::from("a\u{FFFD}b"))),
        parse(vec![b'+', b'a', 0xff, b'b', b'\r', b'\n'])
    );
}

#[test]
fn integers_cover_the_i64_range() {
    assert_eq!(Ok(DataType::Int(i64::MAX)), parse(bytes(":9223372036854775807\r\n")));
    assert_eq!(Ok(DataType::Int(i64::MIN)), parse(bytes(":-9223372036854775808\r\n")));
    assert_eq!(Ok(DataType::Int(7)), parse(bytes(":+7\r\n")));
    assert_eq!(
        Err(ParserError::UnexpectedType {
            expected: String::from("int"),
            got: String::from("9223372036854775808"),
        }),
        parse(bytes(":9223372036854775808\r\n"))
    );
    assert_eq!(
        Err(ParserError::UnexpectedType { expected: String::from("int"), got: String::from("-") }),
        parse(bytes(":-\r\n"))
    );
    assert_eq!(
        Err(ParserError::UnexpectedType { expected: String::from("int"), got: String::new() }),
        parse(bytes(":\r\n"))
    );
}

#[test]
fn negative_lengths_below_minus_one_are_rejected() {
    let expected = String::from("integer greater than or equal to -1");
    assert_eq!(
        Err(ParserError::UnexpectedValue { expected: expected.clone(), got: String::from("-2") }),
        parse(bytes("*-2\r\n"))
    );
    assert_eq!(
        Err(ParserError::UnexpectedValue { expected, got: String::from("-9223372036854775808") }),
        parse(bytes("$-9223372036854775808\r\n"))
    );
}

#[test]
fn truncated_inputs_report_where_they_end() {
    assert_eq!(Err(ParserError::UnexpectedEndOfInput(0)), parse(Vec::new()));
    assert_eq!(Err(ParserError::UnexpectedEndOfInput(3)), parse(bytes("+OK")));
    assert_eq!(Err(ParserError::UnexpectedEndOfInput(6)), parse(bytes("$6\r\nfo")));
    assert_eq!(Err(ParserError::UnexpectedEndOfInput(4)), parse(bytes("*1\r\n")));
}

#[test]
fn a_missing_crlf_after_a_payload_is_an_unexpected_byte() {
    assert_eq!(Err(ParserError::UnexpectedByte(7)), parse(bytes("$3\r\nfooXY")));
    assert_eq!(Err(ParserError::UnexpectedByte(7)), parse(bytes("$3\r\nfoo")));
}

#[test]
fn unknown_tags_are_rejected() {
    assert_eq!(Err(ParserError::UnexpectedTag { offset: 4, byte: b'!' }), parse(bytes("*1\r\n!\r\n")));
}

#[test]
fn bytes_after_the_first_value_are_not_read() {
    assert_eq!(Ok(DataType::Int(1)), parse(bytes(":1\r\n:2\r\n")));
}
