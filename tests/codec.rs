use blazar::connection::ReadBuffer;
use blazar::frame::{get_decimal, get_line, get_u8, peek_u8, skip, Cursor, Error, Frame};

fn parse_all(bytes: &[u8]) -> Result<Frame, Error> {
    let mut c = Cursor::new(bytes);
    Frame::parse(&mut c)
}

fn check_all(bytes: &[u8]) -> Result<usize, Error> {
    let mut c = Cursor::new(bytes);
    Frame::check(&mut c).map(|_| c.position())
}

fn encoded(f: &Frame) -> Vec<u8> {
    let mut out = Vec::new();
    f.encode(&mut out);
    out
}

#[test]
fn bulk_string_decodes() {
    assert_eq!(parse_all(b"$3\r\nabc\r\n"), Ok(Frame::Bulk(b"abc".to_vec())));
    assert_eq!(check_all(b"$3\r\nabc\r\n"), Ok(9));
}

#[test]
fn short_bulk_is_incomplete_until_terminator() {
    assert_eq!(check_all(b"$3\r\nab\r\n"), Err(Error::Incomplete));
    assert_eq!(parse_all(b"$3\r\nab\r\n"), Err(Error::Incomplete));
    assert_eq!(check_all(b"$3\r\nabc\r"), Err(Error::Incomplete));
    assert_eq!(check_all(b"$3\r\nabc\r\n"), Ok(9));
}

#[test]
fn bulk_needs_its_terminator() {
    assert!(matches!(parse_all(b"$3\r\nabcXY"), Err(Error::Other(_))));
    assert!(matches!(check_all(b"$3\r\nabcXY"), Err(Error::Other(_))));
    assert_eq!(check_all(b"$3\r\nabcX"), Err(Error::Incomplete));
}

#[test]
fn unknown_type_byte_is_protocol_error() {
    assert!(matches!(check_all(b"?abc\r\n"), Err(Error::Other(_))));
    assert!(matches!(parse_all(b"?abc\r\n"), Err(Error::Other(_))));
    assert!(matches!(parse_all(b"?"), Err(Error::Other(_))));
}

#[test]
fn null_only_from_minus_one() {
    assert_eq!(parse_all(b"$-1\r\n"), Ok(Frame::Null));
    assert!(matches!(parse_all(b"$-2\r\n"), Err(Error::Other(_))));
    assert!(matches!(check_all(b"$-2\r\n"), Err(Error::Other(_))));
    assert!(matches!(parse_all(b"$-10\r\n"), Err(Error::Other(_))));
    assert_eq!(parse_all(b"$-1\r"), Err(Error::Incomplete));
}

#[test]
fn arrays_nest() {
    assert_eq!(
        parse_all(b"*2\r\n:1\r\n:2\r\n"),
        Ok(Frame::Array(vec![Frame::Integer(1), Frame::Integer(2)]))
    );
    assert_eq!(parse_all(b"*0\r\n"), Ok(Frame::Array(vec![])));
    assert_eq!(check_all(b"*2\r\n:1\r\n"), Err(Error::Incomplete));
    assert_eq!(
        parse_all(b"*2\r\n*1\r\n+a\r\n$-1\r\n"),
        Ok(Frame::Array(vec![Frame::Array(vec![Frame::SImple("a".to_string())]), Frame::Null]))
    );
}

#[test]
fn text_frames() {
    assert_eq!(parse_all(b"+OK\r\n"), Ok(Frame::SImple("OK".to_string())));
    assert_eq!(parse_all(b"-ERR x\r\n"), Ok(Frame::Error("ERR x".to_string())));
    assert_eq!(parse_all("+h\u{e9}llo\r\n".as_bytes()), Ok(Frame::SImple("h\u{e9}llo".to_string())));
    assert!(matches!(parse_all(b"+h\xffi\r\n"), Err(Error::Other(_))));
    assert_eq!(parse_all(b"+OK\r"), Err(Error::Incomplete));
}

#[test]
fn integers_are_digits_only() {
    assert_eq!(parse_all(b":42\r\n"), Ok(Frame::Integer(42)));
    assert_eq!(parse_all(b":007\r\n"), Ok(Frame::Integer(7)));
    assert!(matches!(parse_all(b":+7\r\n"), Err(Error::Other(_))));
    assert!(matches!(parse_all(b":12ab\r\n"), Err(Error::Other(_))));
    assert!(matches!(parse_all(b":\r\n"), Err(Error::Other(_))));
    assert!(matches!(parse_all(b"*-0\r\n"), Err(Error::Other(_))));
    assert!(matches!(check_all(b"$+3\r\nabc\r\n"), Err(Error::Other(_))));
    assert_eq!(parse_all(b":18446744073709551615\r\n"), Ok(Frame::Integer(u64::MAX)));
    assert!(matches!(parse_all(b":18446744073709551616\r\n"), Err(Error::Other(_))));
    assert!(matches!(parse_all(b":abc\r\n"), Err(Error::Other(_))));
    assert!(matches!(parse_all(b":-3\r\n"), Err(Error::Other(_))));
}

#[test]
fn cursor_helpers() {
    let bytes = b"ab\r\n12\r\n";
    let mut c = Cursor::new(bytes);
    assert_eq!(peek_u8(&c), Ok(b'a'));
    assert_eq!(get_u8(&mut c), Ok(b'a'));
    assert_eq!(get_line(&mut c), Ok(&b"b"[..]));
    assert_eq!(get_decimal(&mut c), Ok(12));
    assert_eq!(get_u8(&mut c), Err(Error::Incomplete));
    assert_eq!(skip(&mut c, 1), Err(Error::Incomplete));
    let mut d = Cursor::new(bytes);
    assert_eq!(skip(&mut d, 4), Ok(()));
    assert_eq!(d.position(), 4);
    let mut past = Cursor { buf: &bytes[..], pos: 20 };
    assert_eq!(skip(&mut past, 0), Ok(()));
    assert_eq!(past.position(), 20);
    assert_eq!(skip(&mut past, 1), Err(Error::Incomplete));
    let mut bad = Cursor::new(b"12ab\r\n");
    assert!(matches!(get_decimal(&mut bad), Err(Error::Other(_))));
    assert_eq!(bad.position(), 6);
    let mut neg = Cursor::new(b"-1\r\n");
    assert!(matches!(get_decimal(&mut neg), Err(Error::Other(_))));
}

#[test]
fn encoding_is_exact() {
    assert_eq!(encoded(&Frame::SImple("OK".to_string())), b"+OK\r\n".to_vec());
    assert_eq!(encoded(&Frame::Error("no".to_string())), b"-no\r\n".to_vec());
    assert_eq!(encoded(&Frame::Integer(1234)), b":1234\r\n".to_vec());
    assert_eq!(encoded(&Frame::Integer(0)), b":0\r\n".to_vec());
    assert_eq!(encoded(&Frame::Bulk(b"abc".to_vec())), b"$3\r\nabc\r\n".to_vec());
    assert_eq!(encoded(&Frame::Null), b"$-1\r\n".to_vec());
    assert_eq!(
        encoded(&Frame::Array(vec![Frame::Integer(1), Frame::Integer(2)])),
        b"*2\r\n:1\r\n:2\r\n".to_vec()
    );
}

fn sample() -> Frame {
    Frame::Array(vec![
        Frame::Bulk(b"SET".to_vec()),
        Frame::Bulk(b"k\r\ney".to_vec()),
        Frame::SImple("h\u{e9}".to_string()),
        Frame::Error("bad".to_string()),
        Frame::Integer(u64::MAX),
        Frame::Null,
        Frame::Array(vec![]),
    ])
}

#[test]
fn round_trip_reproduces_frame() {
    let f = sample();
    let bytes = encoded(&f);
    assert_eq!(check_all(&bytes), Ok(bytes.len()));
    assert_eq!(parse_all(&bytes), Ok(f));
}

#[test]
fn every_strict_prefix_is_incomplete() {
    let bytes = encoded(&sample());
    for k in 0..bytes.len() {
        assert_eq!(check_all(&bytes[..k]), Err(Error::Incomplete));
    }
    assert_eq!(check_all(&bytes), Ok(bytes.len()));
}

#[test]
fn chunked_delivery_gives_same_frame() {
    let f = sample();
    let bytes = encoded(&f);
    for chunk in 1..5 {
        let mut rb = ReadBuffer::new();
        let mut got = None;
        for piece in bytes.chunks(chunk) {
            assert!(got.is_none());
            rb.append(piece);
            got = rb.next_frame().unwrap();
        }
        assert_eq!(got, Some(sample()));
        assert_eq!(rb.on_closed(), Ok(()));
    }
}

#[test]
fn read_buffer_reports_reset_mid_frame() {
    let mut rb = ReadBuffer::new();
    rb.append(b"+OK\r\n:1");
    assert_eq!(rb.next_frame(), Ok(Some(Frame::SImple("OK".to_string()))));
    assert_eq!(rb.next_frame(), Ok(None));
    assert!(matches!(rb.on_closed(), Err(Error::Other(_))));
    rb.compact();
    assert_eq!(rb.buf, b":1".to_vec());
    assert_eq!(rb.start, 0);
    rb.append(b"\r\n");
    assert_eq!(rb.next_frame(), Ok(Some(Frame::Integer(1))));
    rb.append(b"?");
    assert!(matches!(rb.next_frame(), Err(Error::Other(_))));
}

#[test]
fn error_descriptions() {
    assert_eq!(Error::Incomplete.describe(), "stream ended early".to_string());
    assert_eq!(Error::Other("bad".to_string()).describe(), "bad".to_string());
    assert_eq!(Error::from("x".to_string()), Error::Other("x".to_string()));
    assert_eq!(Error::from("y"), Error::Other("y".to_string()));
    assert_eq!(Error::other("z"), Error::Other("z".to_string()));
}

#[test]
fn failed_decode_leaves_cursor() {
    let bytes = b"xx*2\r\n:1\r\n";
    let mut c = Cursor { buf: &bytes[..], pos: 2 };
    assert_eq!(Frame::check(&mut c), Err(Error::Incomplete));
    assert_eq!(c.position(), 2);
    assert_eq!(Frame::parse(&mut c), Err(Error::Incomplete));
    assert_eq!(c.position(), 2);
    let bad = b":12ab\r\n";
    let mut d = Cursor::new(bad);
    assert!(matches!(Frame::parse(&mut d), Err(Error::Other(_))));
    assert_eq!(d.position(), 0);
}

#[test]
fn same_tail_decodes_alike() {
    let cmd = b"*2\r\n$3\r\nGET\r\n$3\r\nfoo\r\n";
    let mut grown = b"+OK\r\n".to_vec();
    grown.extend_from_slice(cmd);
    let mut a = Cursor::new(cmd);
    let mut b = Cursor { buf: &grown[..], pos: 5 };
    let fa = Frame::parse(&mut a).unwrap();
    let fb = Frame::parse(&mut b).unwrap();
    assert_eq!(fa, fb);
    assert_eq!(fa, Frame::Array(vec![Frame::Bulk(b"GET".to_vec()), Frame::Bulk(b"foo".to_vec())]));
    assert_eq!(a.position(), 22);
    assert_eq!(b.position() - 5, 22);
}
