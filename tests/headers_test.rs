use ezhttp::headers::Headers;
use ezhttp::stream::ByteReader;
use ezhttp::HttpError;

#[test]
fn headers_put_then_get_any_case() {
    let mut h = Headers::new();
    h.put("Content-Type", "text/html".to_string());
    assert_eq!(h.get("content-type"), Some("text/html".to_string()));
    assert_eq!(h.get("CONTENT-TYPE"), Some("text/html".to_string()));
    assert!(h.contains("content-TYPE"));
}

#[test]
fn headers_put_replaces_first() {
    let mut h = Headers::new();
    h.add("A", "1".to_string());
    h.add("a", "2".to_string());
    h.put("A", "3".to_string());
    assert_eq!(h.entries(), vec![("A".to_string(), "3".to_string()), ("a".to_string(), "2".to_string())]);
    h.put("B", "4".to_string());
    assert_eq!(h.len(), 3);
}

#[test]
fn headers_put_default_and_remove() {
    let mut h = Headers::new();
    h.put_default("Host", "a".to_string());
    h.put_default("host", "b".to_string());
    assert_eq!(h.get("HOST"), Some("a".to_string()));
    h.add("X", "1".to_string());
    h.add("x", "2".to_string());
    h.remove("X");
    assert_eq!(h.keys(), vec!["Host".to_string()]);
    assert_eq!(h.values(), vec!["a".to_string()]);
    assert!(h.contains_value("a"));
    assert!(!h.contains_key("x"));
    h.clear();
    assert_eq!(h.len(), 0);
}

#[test]
fn headers_wire_form() {
    let mut h = Headers::new();
    h.add("A", "1".to_string());
    h.add("B", "two".to_string());
    assert_eq!(h.to_bytes(), b"A: 1\r\nB: two\r\n".to_vec());
}

#[test]
fn headers_recv() {
    let mut r = ByteReader::new(b"Host: x\r\nContent-Length: 3\r\n\r\nabc".to_vec());
    let h = Headers::recv(&mut r).unwrap();
    assert_eq!(h.get("host"), Some("x".to_string()));
    assert_eq!(h.len(), 2);
    assert_eq!(r.into_remaining(), b"abc".to_vec());
}

#[test]
fn headers_recv_bad_line() {
    let mut r = ByteReader::new(b"Host x\r\n\r\n".to_vec());
    assert!(matches!(Headers::recv(&mut r), Err(HttpError::InvalidHeaders)));
    let mut r = ByteReader::new(b"Host: x\r\n".to_vec());
    assert!(matches!(Headers::recv(&mut r), Err(HttpError::InvalidHeaders)));
}
