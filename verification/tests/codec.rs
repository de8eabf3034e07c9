use rediskv::Frame;
use rediskv::FrameParser;

fn parse_one(bytes: &[u8]) -> Frame {
    let mut p = FrameParser::new();
    p.feed(bytes);
    p.parse().expect("well-formed").expect("complete")
}

fn roundtrip(f: Frame) {
    let encoded = f.encode();
    let back = parse_one(&encoded);
    assert_eq!(back.encode(), encoded);
}

#[test]
fn encodes_simple_string() {
    assert_eq!(Frame::SimpleString(b"OK".to_vec()).encode(), b"+OK\r\n".to_vec());
}

#[test]
fn encodes_error() {
    assert_eq!(
        Frame::Error(b"ERR wrong type".to_vec()).encode(),
        b"-ERR wrong type\r\n".to_vec()
    );
}

#[test]
fn encodes_integers() {
    assert_eq!(Frame::Integer(0).encode(), b":0\r\n".to_vec());
    assert_eq!(Frame::Integer(1234).encode(), b":1234\r\n".to_vec());
    assert_eq!(Frame::Integer(-42).encode(), b":-42\r\n".to_vec());
    assert_eq!(
        Frame::Integer(i64::MIN).encode(),
        b":-9223372036854775808\r\n".to_vec()
    );
}

#[test]
fn encodes_bulk_and_null_bulk() {
    assert_eq!(
        Frame::BulkString(Some(b"hello".to_vec())).encode(),
        b"$5\r\nhello\r\n".to_vec()
    );
    assert_eq!(Frame::BulkString(None).encode(), b"$-1\r\n".to_vec());
}

#[test]
fn encodes_null_boolean_double() {
    assert_eq!(Frame::Null.encode(), b"_\r\n".to_vec());
    assert_eq!(Frame::Boolean(true).encode(), b"#t\r\n".to_vec());
    assert_eq!(Frame::Boolean(false).encode(), b"#f\r\n".to_vec());
    assert_eq!(Frame::Double(b"3.14".to_vec()).encode(), b",3.14\r\n".to_vec());
}

#[test]
fn encodes_aggregates() {
    let arr = Frame::Array(Some(vec![
        Frame::BulkString(Some(b"a".to_vec())),
        Frame::Integer(7),
    ]));
    assert_eq!(arr.encode(), b"*2\r\n$1\r\na\r\n:7\r\n".to_vec());
    assert_eq!(Frame::Array(None).encode(), b"*-1\r\n".to_vec());
    assert_eq!(Frame::MapFrame(None).encode(), b"%-1\r\n".to_vec());
    let map = Frame::MapFrame(Some(vec![(
        Frame::SimpleString(b"k".to_vec()),
        Frame::Integer(1),
    )]));
    assert_eq!(map.encode(), b"%1\r\n+k\r\n:1\r\n".to_vec());
}

#[test]
fn parses_each_primitive() {
    assert!(matches!(parse_one(b"+pong\r\n"), Frame::SimpleString(s) if s == b"pong"));
    assert!(matches!(parse_one(b"-oops\r\n"), Frame::Error(s) if s == b"oops"));
    assert!(matches!(parse_one(b":99\r\n"), Frame::Integer(99)));
    assert!(matches!(parse_one(b":-3\r\n"), Frame::Integer(-3)));
    assert!(matches!(parse_one(b"$-1\r\n"), Frame::BulkString(None)));
    assert!(matches!(parse_one(b"$3\r\nabc\r\n"), Frame::BulkString(Some(b)) if b == b"abc"));
    assert!(matches!(parse_one(b"_\r\n"), Frame::Null));
    assert!(matches!(parse_one(b"#t\r\n"), Frame::Boolean(true)));
    assert!(matches!(parse_one(b"#f\r\n"), Frame::Boolean(false)));
    assert!(matches!(parse_one(b",2.5e3\r\n"), Frame::Double(t) if t == b"2.5e3"));
    assert!(matches!(parse_one(b"(123456789012345678901\r\n"), Frame::BigNumber(t) if t == b"123456789012345678901"));
    assert!(matches!(parse_one(b"!5\r\nwrong\r\n"), Frame::BulkError(t) if t == b"wrong"));
}

#[test]
fn parses_verbatim_string() {
    match parse_one(b"=txt 5\r\nhello\r\n") {
        Frame::VerbatimString { subtype, data } => {
            assert_eq!(subtype, b"txt".to_vec());
            assert_eq!(data, b"hello".to_vec());
        }
        other => panic!("wrong frame: {:?}", other.encode()),
    }
}

#[test]
fn roundtrips_primitives() {
    roundtrip(Frame::SimpleString(b"PONG".to_vec()));
    roundtrip(Frame::Error(b"ERR nope".to_vec()));
    roundtrip(Frame::Integer(-9000));
    roundtrip(Frame::BulkString(Some(b"payload with\r\nnewline".to_vec())));
    roundtrip(Frame::BulkString(None));
    roundtrip(Frame::Null);
    roundtrip(Frame::Boolean(true));
    roundtrip(Frame::Double(b"-1.5e-3".to_vec()));
    roundtrip(Frame::BigNumber(b"-99999999999999999999".to_vec()));
    roundtrip(Frame::BulkError(b"SYNTAX broken".to_vec()));
    roundtrip(Frame::VerbatimString {
        subtype: b"mkd".to_vec(),
        data: b"# title".to_vec(),
    });
}

#[test]
fn roundtrips_nested_aggregates() {
    let deep = Frame::Array(Some(vec![
        Frame::SetFrame(Some(vec![Frame::Integer(1), Frame::Integer(2)])),
        Frame::MapFrame(Some(vec![(
            Frame::BulkString(Some(b"k".to_vec())),
            Frame::Push(Some(vec![Frame::Attribute(Some(vec![(
                Frame::SimpleString(b"x".to_vec()),
                Frame::Boolean(false),
            )]))])),
        )])),
        Frame::Array(None),
        Frame::SetFrame(None),
        Frame::Push(None),
        Frame::Attribute(None),
    ]));
    roundtrip(deep);
}

#[test]
fn every_split_of_a_frame_feeds_through() {
    let f = Frame::Array(Some(vec![
        Frame::BulkString(Some(b"SET".to_vec())),
        Frame::BulkString(Some(b"key".to_vec())),
        Frame::Integer(-5),
    ]));
    let encoded = f.encode();
    for cut in 0..encoded.len() {
        let mut p = FrameParser::new();
        p.feed(&encoded[..cut]);
        // A strict prefix never yields a frame and never errors.
        assert!(matches!(p.parse(), Ok(None)));
        p.feed(&encoded[cut..]);
        let got = p.parse().expect("well-formed").expect("complete");
        assert_eq!(got.encode(), encoded);
        // Nothing is left over.
        assert!(matches!(p.parse(), Ok(None)));
    }
}

#[test]
fn two_frames_in_one_buffer_come_out_in_order() {
    let mut p = FrameParser::new();
    p.feed(b"+one\r\n:2\r\n");
    assert!(matches!(p.parse(), Ok(Some(Frame::SimpleString(s))) if s == b"one"));
    assert!(matches!(p.parse(), Ok(Some(Frame::Integer(2)))));
    assert!(matches!(p.parse(), Ok(None)));
}

#[test]
fn unknown_tag_is_a_protocol_error() {
    let mut p = FrameParser::new();
    p.feed(b"?hello\r\n");
    assert!(p.parse().is_err());
}

#[test]
fn bad_integer_text_is_a_protocol_error() {
    let mut p = FrameParser::new();
    p.feed(b":12x\r\n");
    assert!(p.parse().is_err());
}

#[test]
fn negative_bulk_length_other_than_null_is_an_error() {
    let mut p = FrameParser::new();
    p.feed(b"$-2\r\n");
    assert!(p.parse().is_err());
}

#[test]
fn bad_double_text_is_a_protocol_error() {
    let mut p = FrameParser::new();
    p.feed(b",abc\r\n");
    assert!(p.parse().is_err());
}

#[test]
fn empty_buffer_is_incomplete() {
    let mut p = FrameParser::new();
    assert!(matches!(p.parse(), Ok(None)));
}
