use syncr::number::format_padded;
use syncr::sync::{
    contents_command, get_command, hash_bytes, hash_files, local_contents, parse_contents, plan_file,
    put_command, query_command, read_server_contents, record_put, server_step, Direction,
    FileAction, FileHashes, ServerStep, listed, newer_side, server_time,
};

fn reply(s: &str) -> ServerStep {
    ServerStep::Reply(s.to_string())
}

#[test]
fn format_padded_pads_with_zeros() {
    assert_eq!(format_padded(42, 21), "000000000000000000042");
    assert_eq!(format_padded(0, 0), "0");
    assert_eq!(format_padded(u64::MAX, 21), "018446744073709551615");
    assert_eq!(format_padded(1234, 2), "1234");
}

#[test]
fn server_step_commands() {
    assert_eq!(server_step(b"contents"), ServerStep::Contents);
    assert_eq!(server_step(b"contents extra words"), ServerStep::Contents);
    assert_eq!(server_step(b"query a.txt"), ServerStep::Query("a.txt".to_string()));
    assert_eq!(server_step(b"query a b"), ServerStep::Query("a".to_string()));
    assert_eq!(server_step(b"get a.txt"), ServerStep::Get("a.txt".to_string()));
    assert_eq!(
        server_step(b"put a.txt hello world"),
        ServerStep::Put { name: "a.txt".to_string(), body: b"hello world".to_vec() }
    );
    assert_eq!(server_step(b"put a "), ServerStep::Put { name: "a".to_string(), body: Vec::new() });
}

#[test]
fn server_step_errors() {
    assert_eq!(server_step(b"query"), reply("ERROR: try `query <filename>`"));
    assert_eq!(server_step(b"get"), reply("ERROR: try `get <filename>`"));
    assert_eq!(server_step(b"put a"), reply("ERROR: missing `body`"));
    assert_eq!(server_step(b"put"), reply("ERROR: try `put <filename> <body>`"));
    assert_eq!(server_step(b"list"), reply("ERROR: try command contents|query|get|put"));
    assert_eq!(server_step(b"contents\n"), reply("ERROR: try command contents|query|get|put"));
}

#[test]
fn server_step_lossy_names() {
    assert_eq!(server_step(b"get \xffa"), ServerStep::Get("\u{fffd}a".to_string()));
}

#[test]
fn client_commands() {
    assert_eq!(contents_command(), b"contents".to_vec());
    assert_eq!(query_command("a.txt"), b"query a.txt".to_vec());
    assert_eq!(get_command("a.txt"), b"get a.txt".to_vec());
    assert_eq!(put_command("a.txt", b"x y"), b"put a.txt x y".to_vec());
}

#[test]
fn server_reads_client_messages() {
    assert_eq!(server_step(&contents_command()), ServerStep::Contents);
    assert_eq!(server_step(&query_command("é.txt")), ServerStep::Query("é.txt".to_string()));
    assert_eq!(server_step(&get_command("n")), ServerStep::Get("n".to_string()));
    assert_eq!(
        server_step(&put_command("n", b"body with  spaces")),
        ServerStep::Put { name: "n".to_string(), body: b"body with  spaces".to_vec() }
    );
}

#[test]
fn file_hashes_manifest_round_trip() {
    let mut h = FileHashes::new();
    h.insert("a.txt".to_string(), 42);
    h.insert("b c".to_string(), u64::MAX);
    h.insert("a.txt".to_string(), 7);
    assert_eq!(h.len(), 2);
    let text = h.to_manifest();
    assert_eq!(text, "000000000000000000007    a.txt\n018446744073709551615    b c\n");
    let back = parse_contents(&text).unwrap();
    assert_eq!(back.get("a.txt"), Some(7));
    assert_eq!(back.get("b c"), Some(u64::MAX));
    assert_eq!(back.len(), 2);
}

#[test]
fn parse_contents_rejections() {
    assert!(parse_contents("").is_none());
    assert!(parse_contents("12    a\n\n13    b").is_none());
    assert!(parse_contents("x1    a").is_none());
    assert!(parse_contents("18446744073709551616    a").is_none());
    assert!(parse_contents("12 a").is_none());
}

#[test]
fn parse_contents_accepts_plus_sign() {
    let h = parse_contents("+12    a\n").unwrap();
    assert_eq!(h.get("a"), Some(12));
}

#[test]
fn plan_file_compares_hashes() {
    let mut h = FileHashes::new();
    h.insert("a".to_string(), 1);
    assert_eq!(plan_file(&h, "a", 1), FileAction::Same);
    assert_eq!(plan_file(&h, "a", 2), FileAction::Differs);
    assert_eq!(plan_file(&h, "b", 1), FileAction::Missing);
}

#[test]
fn server_time_reads_decimal() {
    assert_eq!(server_time(b"1700000000"), Some(1700000000));
    assert_eq!(server_time(b"five"), None);
    assert_eq!(server_time(b""), None);
    assert_eq!(server_time(b" 5"), None);
}

#[test]
fn newer_side_wins() {
    assert_eq!(newer_side(10, 5), Direction::Push);
    assert_eq!(newer_side(5, 5), Direction::Pull);
    assert_eq!(newer_side(4, 5), Direction::Pull);
}

#[test]
fn listed_names() {
    assert!(listed("a.txt"));
    assert!(!listed(".4220_file_list.txt"));
    assert!(listed(""));
}

#[test]
fn to_vec_lists_each_file_once() {
    let mut h = FileHashes::new();
    h.insert("a".to_string(), 1);
    h.insert("b".to_string(), 2);
    h.insert("a".to_string(), 3);
    let mut v = h.to_vec();
    v.sort();
    assert_eq!(v, vec![("a".to_string(), 3), ("b".to_string(), 2)]);
}

#[test]
fn read_server_contents_parses_reply() {
    let h = read_server_contents(b"000000000000000000003    f\n").unwrap();
    assert_eq!(h.get("f"), Some(3));
    assert!(read_server_contents(b"").is_none());
}

#[test]
fn local_contents_skips_hidden_files() {
    let files = vec![
        ("a.txt".to_string(), 11),
        (".4220_file_list.txt".to_string(), 12),
        ("b".to_string(), 13),
        ("a.txt".to_string(), 14),
    ];
    let h = local_contents(&files);
    assert_eq!(h.len(), 2);
    assert_eq!(h.get("a.txt"), Some(14));
    assert_eq!(h.get("b"), Some(13));
    assert_eq!(h.get(".4220_file_list.txt"), None);
}

#[test]
fn record_put_adds_the_new_file() {
    let files = vec![("a.txt".to_string(), 5), (".hidden".to_string(), 6)];
    let m = record_put(&files, "new.txt".to_string(), 9);
    assert_eq!(m.lines().count(), 2);
    let back = parse_contents(&m).unwrap();
    assert_eq!(back.len(), 2);
    assert_eq!(back.get("a.txt"), Some(5));
    assert_eq!(back.get("new.txt"), Some(9));
}

#[test]
fn record_put_replaces_an_old_hash() {
    let files = vec![("a.txt".to_string(), 5), ("b".to_string(), 7)];
    let m = record_put(&files, "a.txt".to_string(), 8);
    let back = parse_contents(&m).unwrap();
    assert_eq!(back.len(), 2);
    assert_eq!(back.get("a.txt"), Some(8));
    assert_eq!(back.get("b"), Some(7));
}

#[test]
fn hash_files_keeps_names_and_order() {
    let files = vec![
        ("x".to_string(), b"same".to_vec()),
        ("y".to_string(), b"other".to_vec()),
        ("z".to_string(), b"same".to_vec()),
    ];
    let h = hash_files(&files);
    assert_eq!(h.len(), 3);
    assert_eq!(h[0].0, "x");
    assert_eq!(h[1].0, "y");
    assert_eq!(h[2].0, "z");
    assert_eq!(h[0].1, hash_bytes(b"same"));
    assert_eq!(h[0].1, h[2].1);
    assert_ne!(h[0].1, h[1].1);
}
