//! Tests for the formatter, and for the round trip between the formatter and
//! the parser.

use katcp_codec::format::Message;
use katcp_codec::parse::{Message as Parsed, Parser};
use katcp_codec::MessageType;

/// Build a formatter message.
fn fmsg(mtype: MessageType, name: &[u8], mid: Option<u32>, args: &[&[u8]]) -> Message {
    Message::new(
        mtype,
        name.to_vec(),
        mid,
        args.iter().map(|a| a.to_vec()).collect(),
    )
}

#[test]
fn test_to_vec_simple() {
    let m = fmsg(MessageType::Request, b"watchdog", None, &[]);
    assert_eq!(m.to_vec(), b"?watchdog\n".to_vec());
    assert_eq!(m.write_size(), 10);
}

#[test]
fn test_to_vec_full() {
    let m = fmsg(
        MessageType::Reply,
        b"mid-args",
        Some(2147483647),
        &[b"foo", b"bar"],
    );
    assert_eq!(m.to_vec(), b"!mid-args[2147483647] foo bar\n".to_vec());
    assert_eq!(m.write_size(), 30);
}

#[test]
fn test_to_vec_escapes() {
    let m = fmsg(
        MessageType::Inform,
        b"escapes",
        None,
        &[b"", b"\t", b"\r", b"\n", b"\x1B", b"\\", b" ", b"\0"],
    );
    assert_eq!(
        m.to_vec(),
        b"#escapes \\@ \\t \\r \\n \\e \\\\ \\_ \\0\n".to_vec()
    );
}

#[test]
fn test_write_size_counts_escapes() {
    let m = fmsg(MessageType::Request, b"a", None, &[b"x y", b""]);
    // "?a x\_y \@\n": 1 + 1 + 1 + 4 + 1 + 2 + 1
    assert_eq!(m.write_size(), 11);
    assert_eq!(m.to_vec(), b"?a x\\_y \\@\n".to_vec());
}

#[test]
fn test_write_out_appends_exactly_write_size() {
    let m = fmsg(MessageType::Request, b"size", Some(99), &[b"a b", b""]);
    let mut out = b"prefix-".to_vec();
    let before = out.len();
    m.write_out(&mut out);
    assert_eq!(out.len() - before, m.write_size());
    assert_eq!(&out[..before], b"prefix-");
    assert_eq!(&out[before..], m.to_vec().as_slice());
}

#[test]
fn test_round_trip() {
    let cases: Vec<Message> = vec![
        fmsg(MessageType::Request, b"watchdog", None, &[]),
        fmsg(MessageType::Reply, b"ok", Some(1), &[b"fine"]),
        fmsg(
            MessageType::Inform,
            b"sensor-status",
            Some(2147483647),
            &[b"", b"alpha beta", b"\0\x1B\\\r\n\t", b"plain"],
        ),
        fmsg(MessageType::Request, b"x", Some(10), &[b"\\@"]),
    ];
    for m in cases {
        let encoded = m.to_vec();
        let mut parser = Parser::new(1000000000);
        let mut decoded = parser.append(&encoded);
        assert_eq!(decoded.len(), 1);
        let got = decoded.pop().unwrap().expect("round trip must parse");
        let want = Parsed::new(
            m.mtype,
            m.name.clone(),
            m.mid,
            m.arguments.clone(),
        );
        assert_eq!(got, want);
    }
}

#[test]
fn test_round_trip_every_argument_byte() {
    let mut args: Vec<Vec<u8>> = Vec::new();
    for b in 0..=255u8 {
        args.push(vec![b]);
    }
    let m = Message::new(MessageType::Request, b"bytes".to_vec(), None, args.clone());
    let encoded = m.to_vec();
    let mut parser = Parser::new(1000000000);
    let mut decoded = parser.append(&encoded);
    assert_eq!(decoded.len(), 1);
    let got = decoded.pop().unwrap().expect("round trip must parse");
    assert_eq!(got, Parsed::new(MessageType::Request, b"bytes".to_vec(), None, args));
}
