//! Tests for the incremental parser.

use katcp_codec::parse::{Message, ParseError, Parser};
use katcp_codec::MessageType;

/// Build a parsed-message value for comparison.
fn msg(mtype: MessageType, name: &[u8], mid: Option<u32>, args: &[&[u8]]) -> Message {
    Message::new(
        mtype,
        name.to_vec(),
        mid,
        args.iter().map(|a| a.to_vec()).collect(),
    )
}

/// Append `input` and expect exactly one successful message.
fn parse_one(input: &[u8]) -> Message {
    let mut parser = Parser::new(usize::MAX);
    let mut results = parser.append(input);
    assert_eq!(results.len(), 1);
    results.pop().unwrap().expect("expected a successful parse")
}

/// Append `input` and expect exactly one parse error.
fn parse_err(input: &[u8]) -> ParseError {
    let mut parser = Parser::new(usize::MAX);
    let mut results = parser.append(input);
    assert_eq!(results.len(), 1);
    match results.pop().unwrap() {
        Ok(m) => panic!("expected an error, parsed {:?}", m),
        Err(e) => e,
    }
}

#[test]
fn test_simple_request() {
    assert_eq!(
        parse_one(b"?test simple\n"),
        msg(MessageType::Request, b"test", None, &[b"simple"])
    );
}

#[test]
fn test_alternate_separators() {
    assert_eq!(
        parse_one(b"!alternate\t\tseparators\t\r"),
        msg(MessageType::Reply, b"alternate", None, &[b"separators"])
    );
}

#[test]
fn test_escapes() {
    assert_eq!(
        parse_one(b"#escapes \\@ \\t \\r \\n \\e \\\\ \\_\n"),
        msg(
            MessageType::Inform,
            b"escapes",
            None,
            &[b"", b"\t", b"\r", b"\n", b"\x1B", b"\\", b" "]
        )
    );
}

#[test]
fn test_no_args() {
    assert_eq!(
        parse_one(b"?no-args\n"),
        msg(MessageType::Request, b"no-args", None, &[])
    );
}

#[test]
fn test_no_args_trailing_spaces() {
    assert_eq!(
        parse_one(b"?no-args-trailing-spaces \n"),
        msg(MessageType::Request, b"no-args-trailing-spaces", None, &[])
    );
}

#[test]
fn test_mid() {
    assert_eq!(
        parse_one(b"?mid[1234]\n"),
        msg(MessageType::Request, b"mid", Some(1234), &[])
    );
}

#[test]
fn test_mid_trailing_spaces() {
    assert_eq!(
        parse_one(b"?mid-trailing-spaces[1234]\t\r"),
        msg(MessageType::Request, b"mid-trailing-spaces", Some(1234), &[])
    );
}

#[test]
fn test_mid_args() {
    assert_eq!(
        parse_one(b"?mid-args[2147483647] foo bar\n"),
        msg(
            MessageType::Request,
            b"mid-args",
            Some(2147483647),
            &[b"foo", b"bar"]
        )
    );
}

#[test]
fn test_blank_lines() {
    assert_eq!(
        parse_one(b" \t\n\r?blank-lines\n\n"),
        msg(MessageType::Request, b"blank-lines", None, &[])
    );
}

/// Each invalid input yields exactly one error, after which the parser
/// accepts a valid line again.
fn check_fail(input: &[u8]) {
    let mut parser = Parser::new(usize::MAX);
    let results = parser.append(input);
    assert_eq!(results.len(), 1, "input {:?}", input);
    assert!(results[0].is_err(), "input {:?}", input);
    let after = parser.append(b"?ok\n");
    assert_eq!(after.len(), 1);
    assert_eq!(
        *after[0].as_ref().expect("clean line after an error"),
        msg(MessageType::Request, b"ok", None, &[])
    );
}

#[test]
fn test_fail_leading_space() {
    check_fail(b" ?leading-space\n");
}

#[test]
fn test_fail_no_message_type() {
    check_fail(b"no-message-type\n");
}

#[test]
fn test_fail_digit_name() {
    check_fail(b"?0\n");
}

#[test]
fn test_fail_bad_name_char() {
    check_fail(b"?A_\n");
}

#[test]
fn test_fail_unclosed_bracket() {
    check_fail(b"?A[\n");
}

#[test]
fn test_fail_unterminated_mid() {
    check_fail(b"?a[1\n");
}

#[test]
fn test_fail_zero_mid() {
    check_fail(b"?a[0]\n");
}

#[test]
fn test_fail_negative_mid() {
    check_fail(b"?a[-1]\n");
}

#[test]
fn test_fail_mid_overflow() {
    check_fail(b"?a[2147483648]\n");
    let e = parse_err(b"?a[2147483648]\n");
    assert_eq!(e.message().as_str(), "Message ID overflowed");
    // The overflow is reported at the start of the run of digits the parser
    // was consuming.
    assert_eq!(e.position(), 4);
}

#[test]
fn test_fail_mid_overflow_long() {
    check_fail(b"?a[10000000000]\n");
}

#[test]
fn test_fail_text_after_mid() {
    check_fail(b"?a[1]x\n");
}

#[test]
fn test_fail_nul_argument() {
    check_fail(b"?a \0\n");
}

#[test]
fn test_fail_escape_byte_argument() {
    check_fail(b"?a \x1B\n");
}

#[test]
fn test_fail_bare_backslash() {
    check_fail(b"?a \\\n");
}

#[test]
fn test_fail_bad_escape() {
    check_fail(b"?a \\z\n");
}

#[test]
fn test_invalid_character_position() {
    let e = parse_err(b"?name ok bad\x1Btail\n");
    assert_eq!(e.message().as_str(), "Invalid character");
    assert_eq!(e.position(), 13);
}

#[test]
fn test_too_long() {
    let mut parser = Parser::new(10);
    let results = parser.append(b"?hello1234\n");
    assert_eq!(results.len(), 1);
    match &results[0] {
        Err(e) => {
            assert_eq!(e.message().as_str(), "Line too long");
            assert_eq!(e.position(), 11);
        },
        Ok(m) => panic!("expected an error, parsed {:?}", m),
    }
    let results = parser.append(b"?hello123\n");
    assert_eq!(results.len(), 1);
    assert_eq!(
        *results[0].as_ref().unwrap(),
        msg(MessageType::Request, b"hello123", None, &[])
    );
}

#[test]
fn test_ordering() {
    let mut parser = Parser::new(usize::MAX);
    let results = parser.append(b"?first\n!second[7] x\n#third \\@\n");
    assert_eq!(results.len(), 3);
    assert_eq!(
        *results[0].as_ref().unwrap(),
        msg(MessageType::Request, b"first", None, &[])
    );
    assert_eq!(
        *results[1].as_ref().unwrap(),
        msg(MessageType::Reply, b"second", Some(7), &[b"x"])
    );
    assert_eq!(
        *results[2].as_ref().unwrap(),
        msg(MessageType::Inform, b"third", None, &[b""])
    );
}

#[test]
fn test_error_locality() {
    let mut parser = Parser::new(usize::MAX);
    let results = parser.append(b"?bad \x00arg\n?good one\n");
    assert_eq!(results.len(), 2);
    assert!(results[0].is_err());
    assert_eq!(
        *results[1].as_ref().unwrap(),
        msg(MessageType::Request, b"good", None, &[b"one"])
    );
}

#[test]
fn test_split_appends() {
    let data: &[u8] = b"?watchdog[123] arg-one \\n two\n!reply ok\n";
    for cut in 0..data.len() {
        let mut whole = Parser::new(1000);
        let expected = whole.append(data);

        let mut split = Parser::new(1000);
        let mut got = split.append(&data[..cut]);
        got.extend(split.append(&data[cut..]));

        assert_eq!(expected.len(), got.len(), "cut at {}", cut);
        for (e, g) in expected.iter().zip(got.iter()) {
            assert_eq!(e.as_ref().unwrap(), g.as_ref().unwrap(), "cut at {}", cut);
        }
    }
}

#[test]
fn test_buffer_size_bound() {
    let mut parser = Parser::new(8);
    assert_eq!(parser.buffer_size(), 0);
    let _ = parser.append(b"?abc");
    assert_eq!(parser.buffer_size(), 4);
    let _ = parser.append(b"defghijklmnop");
    assert!(parser.buffer_size() <= 8);
    let _ = parser.append(b"\n");
    assert_eq!(parser.buffer_size(), 0);
}

#[test]
fn test_reset() {
    let mut parser = Parser::new(100);
    let _ = parser.append(b"?partial-line with args");
    parser.reset();
    assert_eq!(parser.buffer_size(), 0);
    let results = parser.append(b"?fresh\n");
    assert_eq!(results.len(), 1);
    assert_eq!(
        *results[0].as_ref().unwrap(),
        msg(MessageType::Request, b"fresh", None, &[])
    );
}

#[test]
fn test_accessors() {
    let m = parse_one(b"?watch[42] a \\@ c\n");
    assert_eq!(m.mtype(), MessageType::Request);
    assert_eq!(m.mid(), Some(42));
    assert_eq!(m.name(), b"watch");
    assert_eq!(m.arguments_len(), 3);
    assert_eq!(
        m.arguments(),
        vec![b"a".to_vec(), b"".to_vec(), b"c".to_vec()]
    );
}

#[test]
fn test_next_message_incremental() {
    let mut parser = Parser::new(usize::MAX);
    let data: &[u8] = b"?one\n?two\n";
    let (first, used) = parser.next_message(data);
    assert_eq!(used, 5);
    assert_eq!(
        first.unwrap().unwrap(),
        msg(MessageType::Request, b"one", None, &[])
    );
    let (second, used2) = parser.next_message(&data[used..]);
    assert_eq!(used2, 5);
    assert_eq!(
        second.unwrap().unwrap(),
        msg(MessageType::Request, b"two", None, &[])
    );
}
