use ezhttp::body::{Body, Part};
use ezhttp::client::{connect_request, prepare_request, Proxy, RequestBuilder};
use ezhttp::headers::Headers;
use ezhttp::request::HttpRequest;
use ezhttp::response::HttpResponse;
use ezhttp::server::{next_action, strategy_for, ConnAction, ConnEvent, Strategy};
use ezhttp::stream::ByteReader;
use ezhttp::HttpError;

#[test]
fn request_recv_and_send() {
    let wire = b"POST /a/b?x=1 HTTP/1.1\r\nHost: h\r\nContent-Length: 2\r\n\r\nok".to_vec();
    let mut r = ByteReader::new(wire.clone());
    let req = HttpRequest::recv(&mut r, Some("127.0.0.1:9".to_string())).unwrap();
    assert_eq!(req.method, "POST");
    assert_eq!(req.url.path, "/a/b");
    assert_eq!(req.url.query.get("x"), Some(&"1".to_string()));
    assert_eq!(req.body.data, b"ok".to_vec());
    assert_eq!(req.addr, Some("127.0.0.1:9".to_string()));
    assert_eq!(req.to_bytes(), wire);
}

#[test]
fn request_recv_errors() {
    let mut r = ByteReader::new(b"GET".to_vec());
    assert!(matches!(HttpRequest::recv(&mut r, None), Err(HttpError::ReadLineEof)));
    let mut r = ByteReader::new(b"GARBAGE\r\n\r\n".to_vec());
    assert!(matches!(HttpRequest::recv(&mut r, None), Err(HttpError::RequestError)));
    let mut r = ByteReader::new(b"GET nopath HTTP/1.1\r\n\r\n".to_vec());
    assert!(matches!(HttpRequest::recv(&mut r, None), Err(HttpError::UrlError)));
}

#[test]
fn response_recv_and_send() {
    let wire = b"HTTP/1.1 404 Not Found\r\nA: b\r\nContent-Length: 3\r\n\r\nnop".to_vec();
    let mut r = ByteReader::new(wire.clone());
    let resp = HttpResponse::recv(&mut r).unwrap();
    assert_eq!(resp.status_code, "404 Not Found");
    assert_eq!(resp.get_text(), "nop");
    assert_eq!(resp.to_bytes(), wire);
    let mut r = ByteReader::new(b"HTTP/1.1\r\n\r\n".to_vec());
    assert!(matches!(HttpResponse::recv(&mut r), Err(HttpError::InvalidStatus)));
}

#[test]
fn response_multipart() {
    let mut resp = HttpResponse::from_string(Headers::new(), "200 OK", "");
    resp.set_multipart(vec![Part::body("n".to_string(), Body::from_text("v"))]);
    let parts = resp.get_multipart().unwrap();
    assert_eq!(parts.len(), 1);
    assert_eq!(parts[0].name, "n");
    assert_eq!(parts[0].body.data, b"v".to_vec());
    assert!(HttpResponse::ok().get_multipart().is_none());
}

#[test]
fn connect_request_bytes() {
    let plain = connect_request("example.com:443", &None);
    assert_eq!(plain, b"CONNECT example.com:443 HTTP/1.1\r\nHost: example.com:443\r\n\r\n".to_vec());
    let auth = connect_request("h:80", &Some(("user".to_string(), "pass".to_string())));
    assert_eq!(
        auth,
        b"CONNECT h:80 HTTP/1.1\r\nHost: h:80\r\nProxy-Authorization: basic dXNlcjpwYXNz\r\n\r\n".to_vec()
    );
}

#[test]
fn prepare_sets_headers() {
    let mut defaults = Headers::new();
    defaults.add("User-Agent", "ez".to_string());
    defaults.add("Host", "ignored".to_string());
    let req = RequestBuilder::post("https://site.org:8443/x")
        .header("user-agent", "mine")
        .text("abc")
        .build()
        .unwrap();
    let plan = prepare_request(req, &defaults).unwrap();
    assert!(plan.tls);
    assert_eq!(plan.site_host, "site.org:8443");
    assert_eq!(plan.domain, "site.org");
    let h = &plan.request.headers;
    assert_eq!(h.get("User-Agent"), Some("mine".to_string()));
    assert_eq!(h.get("Host"), Some("site.org".to_string()));
    assert_eq!(h.get("Connection"), Some("close".to_string()));
    assert_eq!(h.get("Content-Length"), Some("3".to_string()));
}

#[test]
fn prepare_errors() {
    let req = RequestBuilder::get("/only/path").build().unwrap();
    assert!(matches!(prepare_request(req, &Headers::new()), Err(HttpError::UrlNeedsRootError)));
    let req = RequestBuilder::get("ftp://h:21/").build().unwrap();
    assert!(matches!(prepare_request(req, &Headers::new()), Err(HttpError::UnknownScheme)));
    assert!(matches!(RequestBuilder::get("nope").build(), Err(HttpError::UrlError)));
}

#[test]
fn builder_query() {
    let req = RequestBuilder::get("http://h/p?old=1")
        .url_query(&[("a".to_string(), "1".to_string()), ("a".to_string(), "2".to_string())])
        .build()
        .unwrap();
    assert_eq!(req.url.query.len(), 1);
    assert_eq!(req.url.query.get("a"), Some(&"2".to_string()));
    assert_eq!(req.url.to_string(), "http://h/p?a=2");
}

#[test]
fn proxies() {
    assert!(matches!(Proxy::none(), Proxy::Direct));
    assert!(matches!(Proxy::socks5("1.2.3.4:1080".to_string()), Proxy::Socks5 { auth: None, .. }));
}

#[test]
fn strategies_and_steps() {
    assert_eq!(strategy_for(0), Strategy::PerConnection);
    assert_eq!(strategy_for(1), Strategy::Synchronous);
    assert_eq!(strategy_for(5), Strategy::Pool(5));
    assert_eq!(next_action(ConnEvent::NoAnswer, true), ConnAction::Close);
    assert_eq!(next_action(ConnEvent::ResponseSent, true), ConnAction::ReadRequest);
    assert_eq!(next_action(ConnEvent::ResponseSent, false), ConnAction::Close);
    assert_eq!(
        next_action(ConnEvent::RequestFailed(HttpError::InvalidHeaders), false),
        ConnAction::ReportAndClose(HttpError::InvalidHeaders)
    );
}
