use bytes::{Bytes, BytesMut};
use resp_store::frame::{find_crlf, RespCodec, RespError, RespFrame};

fn bulk(s: &str) -> RespFrame {
    RespFrame::BulkString(Bytes::from(s.to_string()))
}

fn encoded(f: &RespFrame) -> Vec<u8> {
    let mut buf = BytesMut::new();
    f.encode(&mut buf);
    buf.to_vec()
}

fn protocol_error(r: Result<Option<RespFrame>, RespError>) -> String {
    match r {
        Err(RespError::InvalidProtocol(m)) => m,
        other => panic!("expected a protocol error, got {:?}", other),
    }
}

#[test]
fn find_crlf_finds_first_line_end() {
    assert_eq!(find_crlf(b"ab\r\ncd\r\n"), Some(2));
    assert_eq!(find_crlf(b"\r\n"), Some(0));
    assert_eq!(find_crlf(b"abc"), None);
    assert_eq!(find_crlf(b"ab\r"), None);
    assert_eq!(find_crlf(b"\n\r"), None);
    assert_eq!(find_crlf(b""), None);
}

#[test]
fn encode_each_kind() {
    assert_eq!(encoded(&RespFrame::SimpleString("OK".to_string())), b"+OK\r\n".to_vec());
    assert_eq!(encoded(&RespFrame::Error("ERR x".to_string())), b"-ERR x\r\n".to_vec());
    assert_eq!(encoded(&RespFrame::Integer(-42)), b":-42\r\n".to_vec());
    assert_eq!(encoded(&RespFrame::Integer(0)), b":0\r\n".to_vec());
    assert_eq!(encoded(&RespFrame::Integer(i64::MIN)), b":-9223372036854775808\r\n".to_vec());
    assert_eq!(encoded(&RespFrame::Integer(i64::MAX)), b":9223372036854775807\r\n".to_vec());
    assert_eq!(encoded(&bulk("hello")), b"$5\r\nhello\r\n".to_vec());
    assert_eq!(encoded(&bulk("")), b"$0\r\n\r\n".to_vec());
    assert_eq!(encoded(&RespFrame::Null), b"$-1\r\n".to_vec());
    let arr = RespFrame::Array(vec![bulk("GET"), bulk("k")]);
    assert_eq!(encoded(&arr), b"*2\r\n$3\r\nGET\r\n$1\r\nk\r\n".to_vec());
    let nested = RespFrame::Array(vec![RespFrame::Integer(1), RespFrame::Array(vec![]), RespFrame::Null]);
    assert_eq!(encoded(&nested), b"*3\r\n:1\r\n*0\r\n$-1\r\n".to_vec());
}

#[test]
fn encode_appends_to_what_is_there() {
    let mut buf = BytesMut::from(&b"xy"[..]);
    RespFrame::Integer(7).encode(&mut buf);
    assert_eq!(&buf[..], b"xy:7\r\n");
}

#[test]
fn encoded_len_matches_encoding() {
    let frames = vec![
        RespFrame::SimpleString("hé".to_string()),
        RespFrame::Error("e".to_string()),
        RespFrame::Integer(-100),
        bulk("abcdefghijk"),
        RespFrame::Array(vec![bulk("a"), RespFrame::Integer(12), RespFrame::Null]),
        RespFrame::Null,
    ];
    for f in frames {
        assert_eq!(f.encoded_len(), Some(encoded(&f).len()));
    }
}

#[test]
fn codec_encode_is_ok() {
    let mut codec = RespCodec;
    let mut dst = BytesMut::new();
    assert!(codec.encode(RespFrame::SimpleString("PONG".to_string()), &mut dst).is_ok());
    assert_eq!(&dst[..], b"+PONG\r\n");
}

#[test]
fn decode_simple_string_keeps_the_rest() {
    let mut codec = RespCodec;
    let mut src = BytesMut::from(&b"+PONG\r\n:1\r\n"[..]);
    let f = codec.decode(&mut src).unwrap().unwrap();
    assert_eq!(f, RespFrame::SimpleString("PONG".to_string()));
    assert_eq!(&src[..], b":1\r\n");
    let g = codec.decode(&mut src).unwrap().unwrap();
    assert_eq!(g, RespFrame::Integer(1));
    assert!(src.is_empty());
}

#[test]
fn decode_simple_string_reads_invalid_utf8_lossily() {
    let mut codec = RespCodec;
    let mut src = BytesMut::from(&b"+a\xffb\r\n"[..]);
    let f = codec.decode(&mut src).unwrap().unwrap();
    assert_eq!(f, RespFrame::SimpleString("a\u{FFFD}b".to_string()));
}

#[test]
fn decode_integers() {
    let mut codec = RespCodec;
    for (text, value) in [(&b":123\r\n"[..], 123i64), (b":-5\r\n", -5), (b":+7\r\n", 7), (b":-0\r\n", 0),
        (b":9223372036854775807\r\n", i64::MAX), (b":-9223372036854775808\r\n", i64::MIN)] {
        let mut src = BytesMut::from(text);
        assert_eq!(codec.decode(&mut src).unwrap(), Some(RespFrame::Integer(value)));
        assert!(src.is_empty());
    }
}

#[test]
fn decode_bad_integers_are_refused_and_nothing_is_consumed() {
    let mut codec = RespCodec;
    for text in [&b":abc\r\n"[..], b":\r\n", b":-\r\n", b":+\r\n", b": 1\r\n", b":9223372036854775808\r\n", b":1_0\r\n"] {
        let mut src = BytesMut::from(text);
        assert_eq!(protocol_error(codec.decode(&mut src)), "Invalid Integer");
        assert_eq!(&src[..], text);
    }
}

#[test]
fn decode_array_of_bulk_strings() {
    let mut codec = RespCodec;
    let mut src = BytesMut::from(&b"*3\r\n$3\r\nSET\r\n$3\r\nkey\r\n$5\r\nvalue\r\n+rest"[..]);
    let f = codec.decode(&mut src).unwrap().unwrap();
    assert_eq!(f, RespFrame::Array(vec![bulk("SET"), bulk("key"), bulk("value")]));
    assert_eq!(&src[..], b"+rest");
}

#[test]
fn decode_empty_array_and_binary_bulk() {
    let mut codec = RespCodec;
    let mut src = BytesMut::from(&b"*0\r\n"[..]);
    assert_eq!(codec.decode(&mut src).unwrap(), Some(RespFrame::Array(vec![])));
    assert!(src.is_empty());
    let mut src = BytesMut::from(&b"*1\r\n$4\r\na\r\nb\r\n"[..]);
    assert_eq!(codec.decode(&mut src).unwrap(), Some(RespFrame::Array(vec![bulk("a\r\nb")])));
    assert!(src.is_empty());
}

#[test]
fn decode_skips_the_two_bytes_after_a_bulk_string() {
    let mut codec = RespCodec;
    let mut src = BytesMut::from(&b"*1\r\n$2\r\nabXY:1\r\n"[..]);
    assert_eq!(codec.decode(&mut src).unwrap(), Some(RespFrame::Array(vec![bulk("ab")])));
    assert_eq!(&src[..], b":1\r\n");
}

#[test]
fn decode_waits_on_every_cut_of_an_array() {
    let mut codec = RespCodec;
    let whole = b"*2\r\n$3\r\nGET\r\n$10\r\n0123456789\r\n".to_vec();
    for cut in 0..whole.len() {
        let mut src = BytesMut::from(&whole[..cut]);
        assert_eq!(codec.decode(&mut src).unwrap(), None, "cut at {}", cut);
        assert_eq!(&src[..], &whole[..cut]);
    }
    let mut src = BytesMut::from(&whole[..]);
    assert!(codec.decode(&mut src).unwrap().is_some());
    assert!(src.is_empty());
}

#[test]
fn decode_waits_on_cut_lines() {
    let mut codec = RespCodec;
    for text in [&b"+PON"[..], b"+PONG\r", b":12", b"*", b"*2\r"] {
        let mut src = BytesMut::from(text);
        assert_eq!(codec.decode(&mut src).unwrap(), None);
        assert_eq!(&src[..], text);
    }
}

#[test]
fn decode_protocol_errors() {
    let mut codec = RespCodec;
    let cases: [(&[u8], &str); 6] = [
        (b"?x\r\n", "Invalid Protocol"),
        (b"$3\r\nabc\r\n", "Invalid Protocol"),
        (b"-ERR\r\n", "Invalid Protocol"),
        (b"*x\r\n", "Invalid Array Len"),
        (b"*1\r\n:1\r\n", "Expected BulkString"),
        (b"*1\r\n$x\r\nab\r\n", "Invalid String Len"),
    ];
    for (text, msg) in cases {
        let mut src = BytesMut::from(text);
        assert_eq!(protocol_error(codec.decode(&mut src)), msg);
        assert_eq!(&src[..], text);
    }
    let mut src = BytesMut::from(&b"*-1\r\n"[..]);
    assert_eq!(protocol_error(codec.decode(&mut src)), "Invalid Array Len");
}

#[test]
fn decode_error_in_a_later_element_is_found_only_once_earlier_ones_are_complete() {
    let mut codec = RespCodec;
    let mut src = BytesMut::from(&b"*2\r\n$5\r\nab"[..]);
    assert_eq!(codec.decode(&mut src).unwrap(), None);
    let mut src = BytesMut::from(&b"*2\r\n$2\r\nab\r\n:1\r\n"[..]);
    assert_eq!(protocol_error(codec.decode(&mut src)), "Expected BulkString");
}

#[test]
fn decode_checked_refuses_an_oversized_bulk_length() {
    let mut codec = RespCodec;
    let text = format!("*1\r\n${}\r\nab\r\n", usize::MAX);
    let mut src = BytesMut::from(text.as_bytes());
    assert!(codec.decode_checked(&mut src).is_none());
    assert_eq!(&src[..], text.as_bytes());
    let text = format!("*1\r\n${}\r\nab\r\n", usize::MAX - 2);
    let mut src = BytesMut::from(text.as_bytes());
    assert_eq!(codec.decode_checked(&mut src).unwrap().unwrap(), None);
    let mut src = BytesMut::from(&b"+OK\r\n"[..]);
    assert_eq!(codec.decode_checked(&mut src).unwrap().unwrap(), Some(RespFrame::SimpleString("OK".to_string())));
}

#[test]
fn every_encoded_array_of_bulks_decodes_to_itself() {
    let mut codec = RespCodec;
    let f = RespFrame::Array(vec![bulk("SET"), bulk("user:100"), bulk("\u{1F600} and \r\n inside")]);
    let mut src = BytesMut::new();
    f.encode(&mut src);
    f.encode(&mut src);
    assert_eq!(codec.decode(&mut src).unwrap(), Some(f.clone()));
    assert_eq!(codec.decode(&mut src).unwrap(), Some(f));
    assert!(src.is_empty());
}

#[test]
fn clone_keeps_the_frame() {
    let f = RespFrame::Array(vec![bulk("a"), RespFrame::Error("e".to_string()), RespFrame::Integer(3)]);
    assert_eq!(f.clone(), f);
}

#[test]
fn error_descriptions() {
    assert_eq!(RespError::Incomplete.describe(), "Incomplete frame");
    assert_eq!(RespError::InvalidProtocol("bad".to_string()).describe(), "Invalid Protocol: bad");
    let io = RespError::from(std::io::Error::new(std::io::ErrorKind::Other, "disk"));
    assert_eq!(io.describe(), "IO Error: disk");
    assert!(matches!(io, RespError::Io(_)));
}


fn drain(codec: &mut RespCodec, buf: &mut BytesMut, out: &mut Vec<RespFrame>) {
    while let Some(f) = codec.decode(buf).unwrap() {
        out.push(f);
    }
}

#[test]
fn decoding_does_not_depend_on_how_the_stream_is_split() {
    let mut codec = RespCodec;
    let mut stream = Vec::new();
    for f in [
        RespFrame::Array(vec![bulk("SET"), bulk("k"), bulk("v")]),
        RespFrame::Integer(-42),
        RespFrame::SimpleString("OK".to_string()),
        RespFrame::Array(vec![]),
        RespFrame::Array(vec![bulk("GET"), bulk("a longer key")]),
    ] {
        stream.extend(encoded(&f));
    }
    stream.extend_from_slice(b"*2\r\n$3\r\nDE");
    let mut whole_frames = Vec::new();
    let mut whole = BytesMut::from(&stream[..]);
    drain(&mut codec, &mut whole, &mut whole_frames);
    assert_eq!(whole_frames.len(), 5);
    assert_eq!(&whole[..], b"*2\r\n$3\r\nDE");
    for size in 1..=stream.len() {
        let mut frames = Vec::new();
        let mut buf = BytesMut::new();
        for chunk in stream.chunks(size) {
            buf.extend_from_slice(chunk);
            drain(&mut codec, &mut buf, &mut frames);
        }
        assert_eq!(frames, whole_frames, "chunks of {}", size);
        assert_eq!(&buf[..], &whole[..]);
    }
}

#[test]
fn encode_checked_appends_like_encode() {
    let mut codec = RespCodec;
    let f = RespFrame::Array(vec![bulk("SET"), bulk("k"), bulk("v")]);
    let mut dst = BytesMut::from(&b"+OK\r\n"[..]);
    assert!(codec.encode_checked(f.clone(), &mut dst));
    let mut want = b"+OK\r\n".to_vec();
    want.extend(encoded(&f));
    assert_eq!(&dst[..], &want[..]);
    let mut other = BytesMut::new();
    assert!(RespFrame::Integer(7).encode_checked(&mut other));
    assert_eq!(&other[..], b":7\r\n");
}

#[test]
fn simple_string_with_a_lone_carriage_return_reads_back() {
    let mut codec = RespCodec;
    let f = RespFrame::SimpleString("a\rb\r".to_string());
    let mut src = BytesMut::from(&encoded(&f)[..]);
    src.extend_from_slice(b":1\r\n");
    assert_eq!(codec.decode(&mut src).unwrap(), Some(f));
    assert_eq!(&src[..], b":1\r\n");
}
