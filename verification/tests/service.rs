use syncr::proto::line::Request;
use syncr::proto::service::{Contents, Rsync, ServiceError, Step};

const MD5_EMPTY: &str = "d41d8cd98f00b204e9800998ecf8427e";
const MD5_HELLO: &str = "5d41402abc4b2a76b9719d911017c592";

#[test]
fn insert_records_md5_hex() {
    let mut c = Contents::new();
    c.insert("a".to_string(), "hello");
    c.insert("b".to_string(), "");
    assert_eq!(c.get("a"), Some(MD5_HELLO.to_string()));
    assert_eq!(c.get("b"), Some(MD5_EMPTY.to_string()));
    assert_eq!(c.get("c"), None);
    assert_eq!(c.len(), 2);
}

#[test]
fn insert_replaces_an_entry() {
    let mut c = Contents::new();
    c.insert("a".to_string(), "");
    c.insert("a".to_string(), "hello");
    assert_eq!(c.len(), 1);
    assert_eq!(c.get("a"), Some(MD5_HELLO.to_string()));
    assert_eq!(c.to_string(), format!("{}    a\n", MD5_HELLO));
}

#[test]
fn from_string_reads_lines() {
    let c = Contents::from_string("abc    f1\n\ndef    f 2\n").unwrap();
    assert_eq!(c.len(), 2);
    assert_eq!(c.get("f1"), Some("abc".to_string()));
    assert_eq!(c.get("f 2"), Some("def".to_string()));
}

#[test]
fn from_string_first_four_spaces_split() {
    let c = Contents::from_string("h        name").unwrap();
    assert_eq!(c.get("    name"), Some("h".to_string()));
    assert_eq!(c.get("name"), None);
    assert_eq!(c.len(), 1);
    let c2 = Contents::from_string("h     x").unwrap();
    assert_eq!(c2.get(" x"), Some("h".to_string()));
}

#[test]
fn from_string_empty_and_blank_manifest() {
    assert_eq!(Contents::from_string("").unwrap().len(), 0);
    assert_eq!(Contents::from_string(" \n\n ").unwrap().len(), 0);
}

#[test]
fn from_string_later_line_wins() {
    let c = Contents::from_string("a    f\nb    f").unwrap();
    assert_eq!(c.get("f"), Some("b".to_string()));
}

#[test]
fn from_string_rejects_line_without_separator() {
    assert!(Contents::from_string("abc f1").is_none());
    assert!(Contents::from_string("abc    f1\nbroken").is_none());
}

#[test]
fn manifest_round_trip() {
    let mut c = Contents::new();
    c.insert("one.txt".to_string(), "hello");
    c.insert("two words".to_string(), "");
    let text = c.to_string();
    let d = Contents::from_string(&text).unwrap();
    assert_eq!(d.len(), 2);
    assert_eq!(d.get("one.txt"), Some(MD5_HELLO.to_string()));
    assert_eq!(d.get("two words"), Some(MD5_EMPTY.to_string()));
}

#[test]
fn get_contents_errors_on_bad_manifest() {
    assert!(matches!(Rsync::get_contents("oops"), Err(ServiceError::BadManifest)));
    assert_eq!(Rsync::get_contents("x    y").unwrap().get("y"), Some("x".to_string()));
}

#[test]
fn get_b64_encodes_text() {
    assert_eq!(Rsync::get_b64("hello"), "aGVsbG8=");
    assert_eq!(Rsync::get_b64(""), "");
}

#[test]
fn decode_b64_decodes_text() {
    assert_eq!(Rsync::decode_b64("aGVsbG8="), Ok("hello".to_string()));
    assert_eq!(Rsync::decode_b64("a"), Err(ServiceError::InvalidBase64));
    assert_eq!(Rsync::decode_b64("!!!!"), Err(ServiceError::InvalidBase64));
}

#[test]
fn decode_b64_replaces_invalid_utf8() {
    // 0xff 0x41 in base64
    assert_eq!(Rsync::decode_b64("/0E="), Ok("\u{fffd}A".to_string()));
}

#[test]
fn put_stores_what_get_answers() {
    let text = "héllo wörld\n";
    let b64 = Rsync::get_b64(text);
    assert_eq!(Rsync::decode_b64(&b64), Ok(text.to_string()));
}

#[test]
fn updated_manifest_records_file_name() {
    let out = Rsync::updated_manifest("", "dir/a.txt", "hello").unwrap();
    assert_eq!(out, format!("{}    a.txt\n", MD5_HELLO));
    let out2 = Rsync::updated_manifest(&out, "a.txt", "").unwrap();
    assert_eq!(out2, format!("{}    a.txt\n", MD5_EMPTY));
}

#[test]
fn updated_manifest_errors() {
    assert_eq!(Rsync::updated_manifest("bad", "a", "x"), Err(ServiceError::BadManifest));
    assert_eq!(Rsync::updated_manifest("", "..", "x"), Err(ServiceError::NotAFile));
    assert_eq!(Rsync::updated_manifest("", "/", "x"), Err(ServiceError::NotAFile));
}

#[test]
fn call_routes_requests() {
    let r = Rsync { dir: "/tmp/x".to_string() };
    assert_eq!(r.call(Request::Contents), Step::Manifest);
    assert_eq!(r.call(Request::Query("a".to_string())), Step::Query("a".to_string()));
    assert_eq!(r.call(Request::Get("a".to_string())), Step::Get("a".to_string()));
    assert_eq!(
        r.call(Request::Put { file: "a".to_string(), text: "aGk=".to_string() }),
        Step::Put { file: "a".to_string(), text: "aGk=".to_string() }
    );
    assert_eq!(
        r.call(Request::Invalid),
        Step::Reply("ERROR: try command contents|query|get|put".to_string())
    );
    assert_eq!(Rsync::ack(), "ACK");
}
