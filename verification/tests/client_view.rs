use syncr::client::{local_contents, parse_contents};

#[test]
fn client_parse_contents_rejects_empty_lines() {
    assert!(parse_contents("a    x\n\nb    y").is_none());
    let c = parse_contents("a    x\nb    y\n").unwrap();
    assert_eq!(c.get("x"), Some("a".to_string()));
    assert_eq!(c.get("y"), Some("b".to_string()));
    assert!(parse_contents("").is_none());
}

#[test]
fn client_local_contents_digests_bytes() {
    let files = vec![
        ("hello_file".to_string(), b"hello".to_vec()),
        (".hidden".to_string(), b"secret".to_vec()),
        ("empty".to_string(), Vec::new()),
    ];
    let c = local_contents(&files);
    assert_eq!(c.len(), 2);
    assert_eq!(c.get("hello_file"), Some("5d41402abc4b2a76b9719d911017c592".to_string()));
    assert_eq!(c.get("empty"), Some("d41d8cd98f00b204e9800998ecf8427e".to_string()));
    assert_eq!(c.get(".hidden"), None);
}

#[test]
fn client_local_contents_later_file_wins() {
    let files = vec![
        ("f".to_string(), b"old".to_vec()),
        ("f".to_string(), b"hello".to_vec()),
    ];
    let c = local_contents(&files);
    assert_eq!(c.len(), 1);
    assert_eq!(c.get("f"), Some("5d41402abc4b2a76b9719d911017c592".to_string()));
}
