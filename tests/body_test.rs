use ezhttp::body::{gen_multipart_boundary, Body, Part};
use ezhttp::headers::Headers;
use ezhttp::stream::ByteReader;
use ezhttp::url::Query;
use ezhttp::HttpError;

fn headers(pairs: &[(&str, &str)]) -> Headers {
    let mut h = Headers::new();
    for (k, v) in pairs {
        h.add(k, v.to_string());
    }
    h
}

#[test]
fn chunked_decode() {
    let mut r = ByteReader::new(b"4\r\nWiki\r\n5\r\npedia\r\n0\r\n\r\n".to_vec());
    let h = headers(&[("Transfer-Encoding", "gzip, Chunked ")]);
    let body = Body::recv(&mut r, &h).unwrap();
    assert_eq!(body.data, b"Wikipedia".to_vec());
}

#[test]
fn chunked_bad_size() {
    let mut r = ByteReader::new(b"zz\r\nWiki\r\n0\r\n\r\n".to_vec());
    let h = headers(&[("transfer-encoding", "chunked")]);
    assert!(matches!(Body::recv(&mut r, &h), Err(HttpError::InvalidContent)));
    let mut r = ByteReader::new(b"a\r\nWiki\r\n".to_vec());
    assert!(matches!(Body::recv(&mut r, &h), Err(HttpError::InvalidContent)));
}

#[test]
fn content_length_short_read() {
    let mut r = ByteReader::new(b"hello".to_vec());
    let h = headers(&[("Content-Length", "10")]);
    assert!(matches!(Body::recv(&mut r, &h), Err(HttpError::InvalidContent)));
}

#[test]
fn content_length_exact() {
    let mut r = ByteReader::new(b"hello world".to_vec());
    let h = headers(&[("content-length", "5")]);
    let body = Body::recv(&mut r, &h).unwrap();
    assert_eq!(body.as_bytes(), b"hello".to_vec());
    assert_eq!(r.into_remaining(), b" world".to_vec());
}

#[test]
fn content_length_not_a_number() {
    let mut r = ByteReader::new(b"hello".to_vec());
    let h = headers(&[("Content-Length", "five")]);
    assert!(matches!(Body::recv(&mut r, &h), Err(HttpError::InvalidContentSize)));
}

#[test]
fn no_framing_is_empty() {
    let mut r = ByteReader::new(b"hello".to_vec());
    let body = Body::recv(&mut r, &Headers::new()).unwrap();
    assert!(body.data.is_empty());
}

#[test]
fn multipart_round_trip() {
    let part = Part::new(
        "file".to_string(),
        Body::from_text("hi"),
        Some("a.txt".to_string()),
        Some("text/plain".to_string()),
    );
    let body = Body::from_multipart(vec![part], "XyZ123".to_string());
    assert_eq!(
        body.data,
        b"--XyZ123\r\nContent-Disposition: form-data; name=\"file\"; filename=\"a.txt\"\r\nContent-Type: text/plain\r\n\r\nhi--XyZ123--\r\n".to_vec()
    );
    let parts = body.as_multipart("XyZ123".to_string());
    assert_eq!(parts.len(), 1);
    assert_eq!(parts[0].name, "file");
    assert_eq!(parts[0].filename, Some("a.txt".to_string()));
    assert_eq!(parts[0].content_type, Some("text/plain".to_string()));
    assert_eq!(parts[0].body.data, b"hi".to_vec());
}

#[test]
fn multipart_two_parts() {
    let a = Part::body("a".to_string(), Body::from_text("1"));
    let b = Part::body("b".to_string(), Body::from_bytes(&[0, 1, 2]));
    let body = Body::from_multipart(vec![a, b], "bnd".to_string());
    let parts = body.as_multipart("bnd".to_string());
    assert_eq!(parts.len(), 2);
    assert_eq!(parts[0].name, "a");
    assert_eq!(parts[0].body.data, b"1".to_vec());
    assert_eq!(parts[1].name, "b");
    assert_eq!(parts[1].body.data, vec![0, 1, 2]);
    assert_eq!(parts[1].filename, None);
}

#[test]
fn boundary_shape() {
    for _ in 0..20 {
        let b = gen_multipart_boundary();
        assert!(b.len() >= 20 && b.len() < 40);
        assert!(b.chars().all(|c| c.is_ascii_alphanumeric() || "'()+_,-./:=?".contains(c)));
    }
}

#[test]
fn text_and_query_forms() {
    let b = Body::from_text("héllo");
    assert_eq!(b.as_text(), Some("héllo".to_string()));
    assert_eq!(Body::new(vec![0xff]).as_text(), None);
    let mut q = Query::new();
    q.insert("a b".to_string(), "1&2".to_string());
    q.insert("c".to_string(), "3".to_string());
    let body = Body::from_query(q);
    assert_eq!(body.data, b"a%20b=1%262&c=3".to_vec());
    let back = Body::from_text("?a%20b=1%262&c=3").as_query().unwrap();
    assert_eq!(back.get("a b"), Some(&"1&2".to_string()));
    assert_eq!(back.get("c"), Some(&"3".to_string()));
}
