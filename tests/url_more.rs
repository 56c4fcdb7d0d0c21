use ezhttp::request::IntoURL;
use ezhttp::url::{Query, RootURL, URL};
use ezhttp::HttpError;

#[test]
fn url_default_port_http_omitted() {
    let root = RootURL { scheme: "http".to_string(), domain: "example.com".to_string(), port: 80 };
    assert_eq!(root.to_string(), "http://example.com");
    let url = URL::new(Some(root), "/".to_string(), None, Query::new());
    assert_eq!(url.to_string(), "http://example.com/");
}

#[test]
fn url_default_port_https_omitted() {
    let root = RootURL { scheme: "https".to_string(), domain: "example.com".to_string(), port: 443 };
    assert_eq!(root.to_string(), "https://example.com");
}

#[test]
fn url_other_port_written() {
    let root = RootURL { scheme: "http".to_string(), domain: "example.com".to_string(), port: 443 };
    assert_eq!(root.to_string(), "http://example.com:443");
}

#[test]
fn url_default_ports_parsed() {
    let url = "http://example.com/a".to_url().unwrap();
    assert_eq!(url.root.unwrap().port, 80);
    let url = "https://example.com".to_url().unwrap();
    assert_eq!(url.clone().root.unwrap().port, 443);
    assert_eq!(url.path, "/");
}

#[test]
fn url_errors() {
    assert!(matches!("example.com/a".to_url(), Err(HttpError::UrlError)));
    assert!(matches!("ftp://example.com/a".to_url(), Err(HttpError::UrlError)));
    assert!(matches!("http://example.com:80x/a".to_url(), Err(HttpError::UrlError)));
    assert!(matches!("http://example.com:70000/a".to_url(), Err(HttpError::UrlError)));
    let url = "ftp://example.com:21/a".to_url().unwrap();
    assert_eq!(url.to_string(), "ftp://example.com:21/a");
}

#[test]
fn url_query_percent_round_trip() {
    let url = "http://h/p?a%20b=c%26d&e=".to_url().unwrap();
    assert_eq!(url.query.get("a b"), Some(&"c&d".to_string()));
    assert_eq!(url.query.get("e"), Some(&"".to_string()));
    assert_eq!(url.to_string(), "http://h/p?a%20b=c%26d&e=");
    let again = url.to_string().to_url().unwrap();
    assert_eq!(again.query.get("a b"), Some(&"c&d".to_string()));
}

#[test]
fn url_later_key_wins() {
    let url = "/p?k=1&k=2".to_url().unwrap();
    assert_eq!(url.query.len(), 1);
    assert_eq!(url.query.get("k"), Some(&"2".to_string()));
}

#[test]
fn url_round_trip_full() {
    let text = "https://meex.lol:456/dku?key=value#hex_id";
    let url = text.to_url().unwrap();
    assert_eq!(url.to_string(), text);
    let back = url.to_string().to_url().unwrap();
    assert_eq!(back.to_string(), text);
    assert_eq!(back.path, "/dku");
}
