use rediskv::dispatch;
use rediskv::Config;
use rediskv::Frame;
use rediskv::FrameParser;
use rediskv::RdbParser;
use rediskv::Store;

fn bulk(s: &[u8]) -> Frame {
    Frame::BulkString(Some(s.to_vec()))
}

fn request(parts: &[&[u8]]) -> Frame {
    Frame::Array(Some(parts.iter().map(|p| bulk(p)).collect()))
}

struct Session {
    store: Store,
    config: Config,
    now: u64,
}

impl Session {
    fn new() -> Session {
        Session { store: Store::new(), config: Config::default(), now: 1000 }
    }

    fn run(&mut self, parts: &[&[u8]]) -> Vec<u8> {
        let out = dispatch(
            request(parts),
            &mut self.store,
            &mut self.config,
            self.now,
            1_700_000_000_000,
        );
        out.response
    }
}

#[test]
fn ping_answers_pong() {
    let mut s = Session::new();
    assert_eq!(s.run(&[b"PING"]), b"+PONG\r\n".to_vec());
}

#[test]
fn echo_answers_the_same_bulk() {
    let mut s = Session::new();
    assert_eq!(s.run(&[b"ECHO", b"hello"]), b"$5\r\nhello\r\n".to_vec());
}

#[test]
fn set_then_get_over_the_wire() {
    let mut s = Session::new();
    assert_eq!(s.run(&[b"SET", b"k", b"v"]), b"+OK\r\n".to_vec());
    assert_eq!(s.run(&[b"GET", b"k"]), b"$1\r\nv\r\n".to_vec());
}

#[test]
fn get_of_a_missing_key_is_a_null_bulk() {
    let mut s = Session::new();
    assert_eq!(s.run(&[b"GET", b"miss"]), b"$-1\r\n".to_vec());
}

#[test]
fn set_with_nx_and_xx_together_is_an_error() {
    let mut s = Session::new();
    let resp = s.run(&[b"SET", b"k", b"v", b"NX", b"XX"]);
    assert!(resp.starts_with(b"-ERR "));
    assert!(resp.ends_with(b"\r\n"));
}

#[test]
fn set_nx_no_op_answers_a_null_bulk() {
    let mut s = Session::new();
    s.run(&[b"SET", b"k", b"v"]);
    assert_eq!(s.run(&[b"SET", b"k", b"other", b"NX"]), b"$-1\r\n".to_vec());
    assert_eq!(s.run(&[b"GET", b"k"]), b"$1\r\nv\r\n".to_vec());
}

#[test]
fn set_px_expires_for_a_later_get() {
    let mut s = Session::new();
    assert_eq!(s.run(&[b"SET", b"k", b"v", b"PX", b"1"]), b"+OK\r\n".to_vec());
    s.now += 10;
    assert_eq!(s.run(&[b"GET", b"k"]), b"$-1\r\n".to_vec());
}

#[test]
fn set_options_are_read_without_regard_to_case() {
    let mut s = Session::new();
    assert_eq!(s.run(&[b"SET", b"k", b"v", b"px", b"1"]), b"+OK\r\n".to_vec());
    s.now += 10;
    assert_eq!(s.run(&[b"get", b"k"]), b"$-1\r\n".to_vec());
}

#[test]
fn set_with_a_non_numeric_duration_is_an_error() {
    let mut s = Session::new();
    let resp = s.run(&[b"SET", b"k", b"v", b"EX", b"soon"]);
    assert!(resp.starts_with(b"-ERR "));
    let resp = s.run(&[b"SET", b"k", b"v", b"EX", b"0"]);
    assert!(resp.starts_with(b"-ERR "));
}

#[test]
fn keys_star_lists_the_live_keys() {
    let mut s = Session::new();
    s.run(&[b"SET", b"a", b"1"]);
    s.run(&[b"SET", b"b", b"2"]);
    let resp = s.run(&[b"KEYS", b"*"]);
    // Two keys, in either order.
    let one = b"*2\r\n$1\r\na\r\n$1\r\nb\r\n".to_vec();
    let other = b"*2\r\n$1\r\nb\r\n$1\r\na\r\n".to_vec();
    assert!(resp == one || resp == other);
}

#[test]
fn unknown_commands_are_refused() {
    let mut s = Session::new();
    assert_eq!(s.run(&[b"FLUSHALL"]), b"-ERR unknown command\r\n".to_vec());
}

#[test]
fn a_non_array_request_is_a_protocol_error_reply() {
    let mut s = Session::new();
    let out = dispatch(
        Frame::SimpleString(b"PING".to_vec()),
        &mut s.store,
        &mut s.config,
        s.now,
        0,
    );
    assert!(out.response.starts_with(b"-"));
}

#[test]
fn config_get_and_set_round() {
    let mut s = Session::new();
    assert_eq!(
        s.run(&[b"CONFIG", b"GET", b"dbfilename"]),
        b"*2\r\n$10\r\ndbfilename\r\n$8\r\ndump.rdb\r\n".to_vec()
    );
    assert_eq!(s.run(&[b"CONFIG", b"SET", b"dir", b"/tmp"]), b"+OK\r\n".to_vec());
    assert_eq!(
        s.run(&[b"CONFIG", b"GET", b"DIR"]),
        b"*2\r\n$3\r\ndir\r\n$4\r\n/tmp\r\n".to_vec()
    );
    let resp = s.run(&[b"CONFIG", b"GET", b"unknown"]);
    assert_eq!(resp, b"*2\r\n$7\r\nunknown\r\n$0\r\n\r\n".to_vec());
}

#[test]
fn save_hands_back_a_loadable_image() {
    let mut s = Session::new();
    s.run(&[b"SET", b"k", b"v"]);
    let out = dispatch(
        request(&[b"SAVE"]),
        &mut s.store,
        &mut s.config,
        s.now,
        1_700_000_000_000,
    );
    assert_eq!(out.response, b"+OK\r\n".to_vec());
    let image = out.save_image.expect("an image to persist");
    let db = RdbParser::load(&image).expect("well-formed image");
    assert_eq!(db.data.len(), 1);
    assert_eq!(db.data[0].0, b"k".to_vec());
}

#[test]
fn a_full_wire_exchange() {
    // Bytes in, bytes out, as a connection would see them.
    let mut parser = FrameParser::new();
    let mut s = Session::new();
    parser.feed(b"*3\r\n$3\r\nSET\r\n$1\r\nk\r\n$1\r\nv\r\n*2\r\n$3\r\nGET\r\n$1\r\nk\r\n");
    let mut responses: Vec<u8> = Vec::new();
    while let Some(frame) = parser.parse().expect("well-formed") {
        let out = dispatch(frame, &mut s.store, &mut s.config, s.now, 0);
        responses.extend_from_slice(&out.response);
    }
    assert_eq!(responses, b"+OK\r\n$1\r\nv\r\n".to_vec());
}
