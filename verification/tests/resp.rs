//! The wire protocol.

use bytes::{Bytes, BytesMut};
use imcache::decimal::{push_int, read_i64, read_u16};
use imcache::resp::{
    encode_command, encode_reply, parse_bulk_reply, parse_command, Reply, RespCodec,
};

fn wire(reply: &Reply) -> Vec<u8> {
    let mut out = Vec::new();
    encode_reply(reply, &mut out);
    out
}

#[test]
fn parses_simple_array() {
    let mut buf = BytesMut::from(&b"*2\r\n$3\r\nGET\r\n$3\r\nfoo\r\n"[..]);
    let cmd = parse_command(&mut buf).unwrap().unwrap();
    assert_eq!(
        cmd,
        vec![Bytes::from_static(b"GET"), Bytes::from_static(b"foo")]
    );
    assert!(buf.is_empty());
}

#[test]
fn returns_none_on_partial_input() {
    let mut buf = BytesMut::from(&b"*2\r\n$3\r\nGET\r\n$3\r\nfo"[..]);
    assert!(parse_command(&mut buf).unwrap().is_none());
}

#[test]
fn parses_inline_command() {
    let mut buf = BytesMut::from(&b"PING\r\n"[..]);
    let cmd = parse_command(&mut buf).unwrap().unwrap();
    assert_eq!(cmd, vec![Bytes::from_static(b"PING")]);
}

#[test]
fn round_trips_encode_command() {
    let args = vec![
        Bytes::from_static(b"SET"),
        Bytes::from_static(b"a"),
        Bytes::from_static(b"b"),
    ];
    let encoded = encode_command(&args);
    let mut buf = BytesMut::from(&encoded[..]);
    let parsed = parse_command(&mut buf).unwrap().unwrap();
    assert_eq!(parsed, args);
}

#[test]
fn encodes_a_command_as_an_array_of_bulk_strings() {
    let args = vec![Bytes::from_static(b"GET"), Bytes::from_static(b"foo")];
    assert_eq!(
        &encode_command(&args)[..],
        b"*2\r\n$3\r\nGET\r\n$3\r\nfoo\r\n"
    );
    assert_eq!(&encode_command(&[])[..], b"*0\r\n");
}

#[test]
fn inline_words_are_separated_by_any_number_of_spaces() {
    let mut buf = BytesMut::from(&b"  SET  a   b \r\nrest"[..]);
    let cmd = parse_command(&mut buf).unwrap().unwrap();
    assert_eq!(
        cmd,
        vec![
            Bytes::from_static(b"SET"),
            Bytes::from_static(b"a"),
            Bytes::from_static(b"b")
        ]
    );
    assert_eq!(&buf[..], b"rest");
}

#[test]
fn empty_line_is_an_empty_request() {
    let mut buf = BytesMut::from(&b"\r\nX"[..]);
    assert_eq!(parse_command(&mut buf).unwrap().unwrap().len(), 0);
    assert_eq!(&buf[..], b"X");
}

#[test]
fn negative_array_length_is_an_empty_request() {
    let mut buf = BytesMut::from(&b"*-1\r\nPING\r\n"[..]);
    assert_eq!(parse_command(&mut buf).unwrap().unwrap().len(), 0);
    assert_eq!(&buf[..], b"PING\r\n");
}

#[test]
fn negative_bulk_length_is_an_empty_string() {
    let mut buf = BytesMut::from(&b"*2\r\n$-1\r\n$1\r\nx\r\n"[..]);
    let cmd = parse_command(&mut buf).unwrap().unwrap();
    assert_eq!(cmd, vec![Bytes::new(), Bytes::from_static(b"x")]);
    assert!(buf.is_empty());
}

#[test]
fn every_cut_of_a_request_waits_for_the_rest() {
    let whole = b"*3\r\n$3\r\nSET\r\n$1\r\na\r\n$2\r\n\r\n\r\n";
    for k in 0..whole.len() {
        let mut buf = BytesMut::from(&whole[..k]);
        assert!(parse_command(&mut buf).unwrap().is_none());
        assert_eq!(&buf[..], &whole[..k]);
    }
    let mut buf = BytesMut::from(&whole[..]);
    assert_eq!(parse_command(&mut buf).unwrap().unwrap().len(), 3);
}

#[test]
fn requests_are_taken_one_after_the_other() {
    let mut buf = BytesMut::from(&b"*1\r\n$4\r\nPING\r\nECHO hi\r\n"[..]);
    assert_eq!(
        parse_command(&mut buf).unwrap().unwrap(),
        vec![Bytes::from_static(b"PING")]
    );
    assert_eq!(
        parse_command(&mut buf).unwrap().unwrap(),
        vec![Bytes::from_static(b"ECHO"), Bytes::from_static(b"hi")]
    );
    assert!(parse_command(&mut buf).unwrap().is_none());
}

#[test]
fn bad_array_length_is_a_protocol_error() {
    let mut buf = BytesMut::from(&b"*x\r\n"[..]);
    assert_eq!(
        parse_command(&mut buf).unwrap_err().text(),
        "protocol error: invalid array length"
    );
    assert_eq!(&buf[..], b"*x\r\n");
}

#[test]
fn bad_bulk_length_is_a_protocol_error() {
    let mut buf = BytesMut::from(&b"*1\r\n$1.5\r\nx\r\n"[..]);
    assert_eq!(
        parse_command(&mut buf).unwrap_err().text(),
        "protocol error: invalid bulk length"
    );
}

#[test]
fn missing_bulk_marker_is_a_protocol_error() {
    let mut buf = BytesMut::from(&b"*1\r\n:5\r\n"[..]);
    assert_eq!(
        parse_command(&mut buf).unwrap_err().text(),
        "protocol error: expected '$', got ':'"
    );
}

#[test]
fn replies_on_the_wire() {
    assert_eq!(wire(&Reply::ok()), b"+OK\r\n");
    assert_eq!(wire(&Reply::Error("ERR no".to_string())), b"-ERR no\r\n");
    assert_eq!(wire(&Reply::Integer(-42)), b":-42\r\n");
    assert_eq!(
        wire(&Reply::Integer(i64::MIN)),
        b":-9223372036854775808\r\n"
    );
    assert_eq!(
        wire(&Reply::Bulk(Bytes::from_static(b"a\r\nb"))),
        b"$4\r\na\r\nb\r\n"
    );
    assert_eq!(wire(&Reply::Nil), b"$-1\r\n");
    assert_eq!(
        wire(&Reply::Array(vec![
            Reply::Integer(1),
            Reply::Array(vec![]),
            Reply::Nil
        ])),
        b"*3\r\n:1\r\n*0\r\n$-1\r\n"
    );
}

#[test]
fn array_of_bulks_looks_like_a_request() {
    let args = vec![Bytes::from_static(b"SET"), Bytes::from_static(b"k")];
    let reply = Reply::Array(args.iter().cloned().map(Reply::Bulk).collect());
    assert_eq!(wire(&reply), encode_command(&args).to_vec());
}

#[test]
fn bulk_reply_is_read_back() {
    let mut buf = BytesMut::from(&wire(&Reply::Bulk(Bytes::from_static(b"blob")))[..]);
    buf.extend_from_slice(b"*1");
    assert_eq!(
        parse_bulk_reply(&mut buf).unwrap().unwrap(),
        Bytes::from_static(b"blob")
    );
    assert_eq!(&buf[..], b"*1");
    let mut part = BytesMut::from(&b"$4\r\nblo"[..]);
    assert!(parse_bulk_reply(&mut part).unwrap().is_none());
    let mut wrong = BytesMut::from(&b"-ERR\r\n"[..]);
    assert_eq!(
        parse_bulk_reply(&mut wrong).unwrap_err().text(),
        "protocol error: expected '$', got '-'"
    );
}

#[test]
fn codec_decodes_and_encodes() {
    let mut codec = RespCodec;
    let mut src = BytesMut::from(&b"PING\r\n"[..]);
    assert_eq!(
        codec.decode(&mut src).unwrap().unwrap(),
        vec![Bytes::from_static(b"PING")]
    );
    let mut dst = vec![b'!'];
    codec
        .encode(Reply::Simple("PONG".to_string()), &mut dst)
        .unwrap();
    assert_eq!(dst, b"!+PONG\r\n");
}

#[test]
fn decimal_numbers_are_read_strictly() {
    assert_eq!(read_i64(b"0"), Some(0));
    assert_eq!(read_i64(b"+7"), Some(7));
    assert_eq!(read_i64(b"-9223372036854775808"), Some(i64::MIN));
    assert_eq!(read_i64(b"9223372036854775807"), Some(i64::MAX));
    assert_eq!(read_i64(b"9223372036854775808"), None);
    assert_eq!(read_i64(b"-9223372036854775809"), None);
    assert_eq!(read_i64(b""), None);
    assert_eq!(read_i64(b"-"), None);
    assert_eq!(read_i64(b" 1"), None);
    assert_eq!(read_i64(b"1a"), None);
    assert_eq!(read_u16(b"65535"), Some(65535));
    assert_eq!(read_u16(b"65536"), None);
    assert_eq!(read_u16(b"-1"), None);
}

#[test]
fn decimal_numbers_are_written_as_they_are_read() {
    for n in [0, 7, 10, -1, 123456789, i64::MIN, i64::MAX] {
        let mut out = Vec::new();
        push_int(&mut out, n);
        assert_eq!(out, n.to_string().into_bytes());
        assert_eq!(read_i64(&out), Some(n));
    }
}
