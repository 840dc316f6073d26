use syncr::proto::codec::{CodecError, LineCodec};
use syncr::proto::line::Request;
use syncr::text::is_whitespace;

fn put(file: &str, text: &str) -> Request {
    Request::Put { file: file.to_string(), text: text.to_string() }
}

#[test]
fn parse_contents_request() {
    assert_eq!(Request::parse("contents"), Request::Contents);
    assert_eq!(Request::parse("  contents \t"), Request::Contents);
}

#[test]
fn parse_query_and_get() {
    assert_eq!(Request::parse("query a.txt"), Request::Query("a.txt".to_string()));
    assert_eq!(Request::parse("get   dir/b"), Request::Get("dir/b".to_string()));
}

#[test]
fn parse_put_ignores_words_after_the_body() {
    assert_eq!(Request::parse("put f aGk="), put("f", "aGk="));
    assert_eq!(Request::parse("put f aGk= trailing words"), put("f", "aGk="));
}

#[test]
fn parse_wrong_arity_is_invalid() {
    assert_eq!(Request::parse("contents x"), Request::Invalid);
    assert_eq!(Request::parse("query"), Request::Invalid);
    assert_eq!(Request::parse("query a b"), Request::Invalid);
    assert_eq!(Request::parse("get"), Request::Invalid);
    assert_eq!(Request::parse("put f"), Request::Invalid);
    assert_eq!(Request::parse(""), Request::Invalid);
    assert_eq!(Request::parse("   "), Request::Invalid);
}

#[test]
fn parse_unknown_or_cased_command_is_invalid() {
    assert_eq!(Request::parse("PUT f b"), Request::Invalid);
    assert_eq!(Request::parse("list"), Request::Invalid);
}

#[test]
fn parse_splits_on_unicode_white_space() {
    assert_eq!(Request::parse("put\u{a0}f\u{3000}b"), put("f", "b"));
    assert_eq!(Request::parse("get\u{2028}x"), Request::Get("x".to_string()));
}

#[test]
fn white_space_matches_std() {
    for u in 0u32..=0x10FFFF {
        if let Some(c) = char::from_u32(u) {
            assert_eq!(is_whitespace(c), c.is_whitespace(), "U+{:04X}", u);
        }
    }
}

#[test]
fn decode_takes_one_line() {
    let mut codec = LineCodec;
    let mut buf = b"get a\nput".to_vec();
    assert_eq!(codec.decode(&mut buf), Ok(Some(Request::Get("a".to_string()))));
    assert_eq!(buf, b"put".to_vec());
}

#[test]
fn decode_waits_for_a_newline() {
    let mut codec = LineCodec;
    let mut buf = b"contents".to_vec();
    assert_eq!(codec.decode(&mut buf), Ok(None));
    assert_eq!(buf, b"contents".to_vec());
    let mut empty: Vec<u8> = Vec::new();
    assert_eq!(codec.decode(&mut empty), Ok(None));
}

#[test]
fn decode_rejects_invalid_utf8_and_drops_the_line() {
    let mut codec = LineCodec;
    let mut buf = vec![0xff, 0xfe, b'\n', b'x'];
    assert_eq!(codec.decode(&mut buf), Err(CodecError::InvalidUtf8));
    assert_eq!(buf, b"x".to_vec());
}

#[test]
fn decode_empty_line_is_invalid_request() {
    let mut codec = LineCodec;
    let mut buf = b"\n\n".to_vec();
    assert_eq!(codec.decode(&mut buf), Ok(Some(Request::Invalid)));
    assert_eq!(buf, b"\n".to_vec());
}

#[test]
fn encode_appends_line_and_newline() {
    let mut codec = LineCodec;
    let mut buf = b"x".to_vec();
    assert_eq!(codec.encode("ACK".to_string(), &mut buf), Ok(()));
    assert_eq!(buf, b"xACK\n".to_vec());
    let mut buf2 = Vec::new();
    codec.encode("héllo".to_string(), &mut buf2).unwrap();
    assert_eq!(buf2, "héllo\n".as_bytes().to_vec());
}

#[test]
fn decode_reads_back_encoded_lines() {
    let mut codec = LineCodec;
    let mut buf = Vec::new();
    codec.encode("put notes.txt aGVsbG8=".to_string(), &mut buf).unwrap();
    codec.encode("query  é.txt".to_string(), &mut buf).unwrap();
    assert_eq!(codec.decode(&mut buf), Ok(Some(put("notes.txt", "aGVsbG8="))));
    assert_eq!(codec.decode(&mut buf), Ok(Some(Request::Query("é.txt".to_string()))));
    assert_eq!(codec.decode(&mut buf), Ok(None));
    assert!(buf.is_empty());
}
