//! The client side: building requests, the proxy handshake bytes, and the
//! preparation of a request for sending.
use vstd::prelude::*;
use vstd::utf8::encode_utf8;
use crate::body::{
    gen_multipart_boundary, is_boundary_char, multipart_bytes, parts_view, utf8, Body, Part,
};
use crate::bytes::push_all;
use crate::error::HttpError;
use crate::headers::{first_named, put_spec, HeaderView, Headers};
use crate::request::{request_view, HttpRequest, IntoRequest, RequestView};
use crate::text::{bytes_of, concat, decimal_of, decimal_string};
use crate::url::{query_insert, query_text, url_view, IntoURL, Query, QueryPair, UrlView, URL};

verus! {

/// What a base64 encoder with the standard alphabet and padding makes of
/// bytes.
pub uninterp spec fn base64_of(b: Seq<u8>) -> Seq<char>;

/// Relies on `base64::Engine::encode` with `BASE64_STANDARD`: the standard
/// base64 text of `b`, which depends on the bytes alone. It panics only where
/// the length of the text would not fit in `usize`.
#[verifier::external_body]
fn base64_encode(b: &[u8]) -> (r: String)
    requires
        b@.len() <= usize::MAX / 2,
    ensures
        r@ == base64_of(b@),
{
    base64::Engine::encode(&base64::prelude::BASE64_STANDARD, b)
}

/// A proxy to connect through.
#[derive(Clone, Debug)]
pub enum Proxy {
    Direct,
    Socks5 { host: String, auth: Option<(String, String)> },
    Socks4 { host: String, user: Option<String> },
    Http { host: String, auth: Option<(String, String)> },
    Https { host: String, auth: Option<(String, String)> },
}

impl Proxy {
    /// No proxy: connect directly.
    pub fn none() -> (r: Proxy)
        ensures
            r is Direct,
    {
        Proxy::Direct
    }

    /// A SOCKS5 proxy at `host`.
    pub fn socks5(host: String) -> (r: Proxy)
        ensures
            r matches Proxy::Socks5 { host: h, auth: a } && h@ == host@ && a is None,
    {
        Proxy::Socks5 { host, auth: None }
    }

    /// A SOCKS5 proxy at `host` with a user name and password.
    pub fn socks5_with_auth(host: String, user: String, password: String) -> (r: Proxy)
        ensures
            r matches Proxy::Socks5 { host: h, auth: Some((u, p)) } && h@ == host@ && u@ == user@
                && p@ == password@,
    {
        Proxy::Socks5 { host, auth: Some((user, password)) }
    }

    /// A SOCKS4 proxy at `host`.
    pub fn socks4(host: String) -> (r: Proxy)
        ensures
            r matches Proxy::Socks4 { host: h, user: u } && h@ == host@ && u is None,
    {
        Proxy::Socks4 { host, user: None }
    }

    /// A SOCKS4 proxy at `host` with a user id.
    pub fn socks4_with_auth(host: String, user_id: String) -> (r: Proxy)
        ensures
            r matches Proxy::Socks4 { host: h, user: Some(u) } && h@ == host@ && u@ == user_id@,
    {
        Proxy::Socks4 { host, user: Some(user_id) }
    }

    /// An HTTP proxy at `host`, reached by `CONNECT`.
    pub fn http(host: String) -> (r: Proxy)
        ensures
            r matches Proxy::Http { host: h, auth: a } && h@ == host@ && a is None,
    {
        Proxy::Http { host, auth: None }
    }

    /// An HTTP proxy at `host` with basic credentials.
    pub fn http_with_auth(host: String, user: String, password: String) -> (r: Proxy)
        ensures
            r matches Proxy::Http { host: h, auth: Some((u, p)) } && h@ == host@ && u@ == user@
                && p@ == password@,
    {
        Proxy::Http { host, auth: Some((user, password)) }
    }

    /// An HTTPS proxy at `host`, reached by `CONNECT`.
    pub fn https(host: String) -> (r: Proxy)
        ensures
            r matches Proxy::Https { host: h, auth: a } && h@ == host@ && a is None,
    {
        Proxy::Https { host, auth: None }
    }

    /// An HTTPS proxy at `host` with basic credentials.
    pub fn https_with_auth(host: String, user: String, password: String) -> (r: Proxy)
        ensures
            r matches Proxy::Https { host: h, auth: Some((u, p)) } && h@ == host@ && u@ == user@
                && p@ == password@,
    {
        Proxy::Https { host, auth: Some((user, password)) }
    }
}

/// The `CONNECT` request that opens a tunnel to `site` through an HTTP
/// proxy: `CONNECT site HTTP/1.1`, a `Host` line, with credentials a
/// `Proxy-Authorization: basic` line of `user:password` in base64, and a
/// blank line.
pub open spec fn connect_bytes(site: Seq<char>, auth: Option<(Seq<char>, Seq<char>)>) -> Seq<u8> {
    utf8("CONNECT "@) + utf8(site) + utf8(" HTTP/1.1\r\nHost: "@) + utf8(site) + utf8("\r\n"@)
        + match auth {
        Some((u, p)) => utf8("Proxy-Authorization: basic "@) + utf8(
            base64_of(utf8(u + ":"@ + p)),
        ) + utf8("\r\n"@),
        None => seq![],
    } + utf8("\r\n"@)
}

/// Credentials as plain values.
pub open spec fn auth_view(a: Option<(String, String)>) -> Option<(Seq<char>, Seq<char>)> {
    match a {
        Some((u, p)) => Some((u@, p@)),
        None => None,
    }
}

/// The `CONNECT` request that opens a tunnel to `site_host` (`host:port`)
/// through an HTTP proxy.
pub fn connect_request(site_host: &str, auth: &Option<(String, String)>) -> (r: Vec<u8>)
    requires
        auth matches Some((u, p)) ==> encode_utf8(u@).len() + encode_utf8(p@).len() + 1 <= usize::MAX / 2,
    ensures
        r@ == connect_bytes(site_host@, auth_view(*auth)),
{
    let mut out: Vec<u8> = Vec::new();
    push_all(&mut out, "CONNECT ".as_bytes());
    push_all(&mut out, site_host.as_bytes());
    push_all(&mut out, " HTTP/1.1\r\nHost: ".as_bytes());
    push_all(&mut out, site_host.as_bytes());
    push_all(&mut out, "\r\n".as_bytes());
    let ghost before = out@;
    match auth {
        Some((u, p)) => {
            let c = concat(u.as_str(), ":");
            let cred = concat(c.as_str(), p.as_str());
            let cb = bytes_of(cred.as_str());
            proof {
                crate::text::lemma_encode_utf8_concat(u@, ":"@);
                crate::text::lemma_encode_utf8_concat(u@ + ":"@, p@);
                reveal_strlit(":");
                vstd::utf8::is_ascii_chars_encode_utf8(":"@);
                assert(vstd::utf8::is_ascii_chars(":"@));
            }
            let b = base64_encode(cb.as_slice());
            push_all(&mut out, "Proxy-Authorization: basic ".as_bytes());
            push_all(&mut out, b.as_str().as_bytes());
            push_all(&mut out, "\r\n".as_bytes());
        },
        None => {},
    }
    push_all(&mut out, "\r\n".as_bytes());
    out
}

/// `h` with each default header added where no header has its name, in
/// order.
pub open spec fn apply_defaults(h: Seq<HeaderView>, d: Seq<HeaderView>) -> Seq<HeaderView>
    decreases d.len(),
{
    if d.len() == 0 {
        h
    } else {
        let prev = apply_defaults(h, d.drop_last());
        if first_named(prev, d.last().0) is Some {
            prev
        } else {
            prev.push(d.last())
        }
    }
}

/// What preparing a request for sending does to its headers: the defaults
/// where the request has none of that name, then `Connection: close`, the
/// `Host` and the `Content-Length` set.
pub open spec fn prepared_headers(h: Seq<HeaderView>, d: Seq<HeaderView>, domain: Seq<char>, len: nat) -> Seq<HeaderView> {
    put_spec(
        put_spec(put_spec(apply_defaults(h, d), "Connection"@, "close"@), "Host"@, domain),
        "Content-Length"@,
        decimal_of(len),
    )
}

/// A request ready to send, with where to send it.
pub struct SendPlan {
    /// The request with its headers completed.
    pub request: HttpRequest,
    /// `host:port` of the target.
    pub site_host: String,
    /// The domain that TLS checks the certificate against.
    pub domain: String,
    /// Whether the transport is wrapped in TLS (`https`).
    pub tls: bool,
}

/// Completes a request for sending and says where it goes: the default
/// headers where the request has none of that name, then `Connection:
/// close`, `Host` and `Content-Length` set. A URL without an origin fails with
/// `UrlNeedsRootError`; a scheme other than `http` and `https` with
/// `UnknownScheme`.
pub fn prepare_request(request: HttpRequest, defaults: &Headers) -> (r: Result<SendPlan, HttpError>)
    requires
        request.body.data@.len() <= u64::MAX,
    ensures
        match request.url.root {
            None => r == Err::<SendPlan, HttpError>(HttpError::UrlNeedsRootError),
            Some(root) => if root.scheme@ != "http"@ && root.scheme@ != "https"@ {
                r == Err::<SendPlan, HttpError>(HttpError::UnknownScheme)
            } else {
                r matches Ok(plan) && plan.tls == (root.scheme@ == "https"@) && plan.domain@
                    == root.domain@ && plan.site_host@ == root.domain@ + ":"@ + decimal_of(
                    root.port as nat,
                ) && url_view(plan.request.url) == url_view(request.url) && plan.request.method
                    == request.method && plan.request.body.data@ == request.body.data@
                    && plan.request.headers@ == prepared_headers(
                    request.headers@,
                    defaults@,
                    root.domain@,
                    request.body.data@.len(),
                )
            },
        },
{
    let ghost r0 = request;
    let mut request = request;
    let ghost h0 = request.headers@;
    let entries = defaults.entries();
    let mut i: usize = 0;
    while i < entries.len()
        invariant
            i <= entries@.len(),
            crate::headers::entries_view(entries@) == defaults@,
            request.headers@ == apply_defaults(h0, defaults@.take(i as int)),
            request.url == r0.url,
            request.method == r0.method,
            request.body == r0.body,
        decreases entries@.len() - i,
    {
        assert(defaults@.take(i + 1).drop_last() == defaults@.take(i as int));
        assert(defaults@.take(i + 1).last() == defaults@[i as int]);
        assert(defaults@[i as int] == crate::headers::pair_view(entries@[i as int]));
        let v = entries[i].1.clone();
        request.headers.put_default(entries[i].0.as_str(), v);
        i = i + 1;
    }
    assert(defaults@.take(i as int) == defaults@);
    let (domain, port, tls) = match &request.url.root {
        None => {
            return Err(HttpError::UrlNeedsRootError);
        },
        Some(root) => {
            let tls = if root.scheme == "https".to_owned() {
                true
            } else if root.scheme == "http".to_owned() {
                false
            } else {
                return Err(HttpError::UnknownScheme);
            };
            (root.domain.clone(), root.port, tls)
        },
    };
    request.headers.put("Connection", "close".to_owned());
    request.headers.put("Host", domain.clone());
    let len = decimal_string(request.body.data.len() as u64);
    request.headers.put("Content-Length", len);
    let c = concat(domain.as_str(), ":");
    let p = decimal_string(port as u64);
    let site_host = concat(c.as_str(), p.as_str());
    Ok(SendPlan { request, site_host, domain, tls })
}

/// The address a transport first connects to: the proxy's, or the site's
/// where there is no proxy.
pub open spec fn tunnel_target(proxy: Proxy, site: Seq<char>) -> Seq<char> {
    match proxy {
        Proxy::Direct => site,
        Proxy::Socks5 { host, .. } => host@,
        Proxy::Socks4 { host, .. } => host@,
        Proxy::Http { host, .. } => host@,
        Proxy::Https { host, .. } => host@,
    }
}

/// The address the transport first connects to: the proxy's, or the site's
/// where there is no proxy.
pub fn first_hop(proxy: &Proxy, site_host: &str) -> (r: String)
    ensures
        r@ == tunnel_target(*proxy, site_host@),
{
    match proxy {
        Proxy::Direct => site_host.to_owned(),
        Proxy::Socks5 { host, .. } => host.clone(),
        Proxy::Socks4 { host, .. } => host.clone(),
        Proxy::Http { host, .. } => host.clone(),
        Proxy::Https { host, .. } => host.clone(),
    }
}

/// A URL, or the error that reading it gave, as plain values.
pub open spec fn url_result_view(r: Result<URL, HttpError>) -> Result<UrlView, HttpError> {
    match r {
        Ok(u) => Ok(url_view(u)),
        Err(e) => Err(e),
    }
}

/// An optional body as plain values.
pub open spec fn opt_body_view(b: Option<Body>) -> Option<Seq<u8>> {
    match b {
        Some(x) => Some(x.data@),
        None => None,
    }
}

/// Query entries from pairs, later keys overriding earlier ones.
pub open spec fn pairs_query(ps: Seq<QueryPair>) -> Seq<QueryPair>
    decreases ps.len(),
{
    if ps.len() == 0 {
        seq![]
    } else {
        query_insert(pairs_query(ps.drop_last()), ps.last().0, ps.last().1)
    }
}

/// A request under construction as plain values: method, URL, headers,
/// body, query that replaces the URL's.
pub type BuilderView = (
    Seq<char>,
    Result<UrlView, HttpError>,
    Seq<HeaderView>,
    Option<Seq<u8>>,
    Option<Seq<QueryPair>>,
);

/// The request that a builder gives: its URL with the query replaced where
/// one was set, its method, no peer address, its headers, and its body or an
/// empty one; or the error that reading the URL gave.
pub open spec fn built_request(b: BuilderView) -> Result<RequestView, HttpError> {
    match b.1 {
        Ok(u) => Ok(
            (
                match b.4 {
                    Some(q) => (u.0, u.1, u.2, q),
                    None => u,
                },
                b.0,
                None::<Seq<char>>,
                b.2,
                match b.3 {
                    Some(body) => body,
                    None => Seq::<u8>::empty(),
                },
            ),
        ),
        Err(e) => Err(e),
    }
}

/// A request under construction.
#[derive(Debug)]
pub struct RequestBuilder {
    method: String,
    url: Result<URL, HttpError>,
    headers: Headers,
    body: Option<Body>,
    url_query: Option<Query>,
}

impl View for RequestBuilder {
    type V = BuilderView;

    closed spec fn view(&self) -> BuilderView {
        (
            self.method@,
            url_result_view(self.url),
            self.headers@,
            opt_body_view(self.body),
            match self.url_query {
                Some(q) => Some(q@),
                None => None,
            },
        )
    }
}

/// Query entries from pairs, later keys overriding earlier ones.
fn query_from_pairs(pairs: &[(String, String)]) -> (r: Query)
    ensures
        r@ == pairs_query(pairs@.map_values(|e: (String, String)| (e.0@, e.1@))),
{
    let ghost ps = pairs@.map_values(|e: (String, String)| (e.0@, e.1@));
    let mut q = Query::new();
    let mut i: usize = 0;
    while i < pairs.len()
        invariant
            i <= pairs@.len(),
            ps == pairs@.map_values(|e: (String, String)| (e.0@, e.1@)),
            q@ == pairs_query(ps.take(i as int)),
        decreases pairs@.len() - i,
    {
        assert(ps.take(i + 1).drop_last() == ps.take(i as int));
        assert(ps.take(i + 1).last() == ps[i as int]);
        q.insert(pairs[i].0.clone(), pairs[i].1.clone());
        i = i + 1;
    }
    assert(ps.take(i as int) == ps);
    q
}

impl RequestBuilder {
    /// A request with the given method for the URL that `url` names, with no
    /// headers and no body.
    pub fn new<U: IntoURL>(method: String, url: U) -> (r: RequestBuilder)
        ensures
            r@ == (method@, url.url_of(), Seq::<HeaderView>::empty(), None::<Seq<u8>>, None::<Seq<QueryPair>>),
    {
        let u = url.to_url();
        RequestBuilder { method, url: u, headers: Headers::new(), body: None, url_query: None }
    }

    /// A `GET` request.
    pub fn get<U: IntoURL>(url: U) -> (r: RequestBuilder)
        ensures
            r@ == ("GET"@, url.url_of(), Seq::<HeaderView>::empty(), None::<Seq<u8>>, None::<Seq<QueryPair>>),
    {
        Self::new("GET".to_owned(), url)
    }

    /// A `HEAD` request.
    pub fn head<U: IntoURL>(url: U) -> (r: RequestBuilder)
        ensures
            r@ == ("HEAD"@, url.url_of(), Seq::<HeaderView>::empty(), None::<Seq<u8>>, None::<Seq<QueryPair>>),
    {
        Self::new("HEAD".to_owned(), url)
    }

    /// A `POST` request.
    pub fn post<U: IntoURL>(url: U) -> (r: RequestBuilder)
        ensures
            r@ == ("POST"@, url.url_of(), Seq::<HeaderView>::empty(), None::<Seq<u8>>, None::<Seq<QueryPair>>),
    {
        Self::new("POST".to_owned(), url)
    }

    /// A `PUT` request.
    pub fn put<U: IntoURL>(url: U) -> (r: RequestBuilder)
        ensures
            r@ == ("PUT"@, url.url_of(), Seq::<HeaderView>::empty(), None::<Seq<u8>>, None::<Seq<QueryPair>>),
    {
        Self::new("PUT".to_owned(), url)
    }

    /// A `DELETE` request.
    pub fn delete<U: IntoURL>(url: U) -> (r: RequestBuilder)
        ensures
            r@ == ("DELETE"@, url.url_of(), Seq::<HeaderView>::empty(), None::<Seq<u8>>, None::<Seq<QueryPair>>),
    {
        Self::new("DELETE".to_owned(), url)
    }

    /// A `CONNECT` request.
    pub fn connect<U: IntoURL>(url: U) -> (r: RequestBuilder)
        ensures
            r@ == ("CONNECT"@, url.url_of(), Seq::<HeaderView>::empty(), None::<Seq<u8>>, None::<Seq<QueryPair>>),
    {
        Self::new("CONNECT".to_owned(), url)
    }

    /// An `OPTIONS` request.
    pub fn options<U: IntoURL>(url: U) -> (r: RequestBuilder)
        ensures
            r@ == ("OPTIONS"@, url.url_of(), Seq::<HeaderView>::empty(), None::<Seq<u8>>, None::<Seq<QueryPair>>),
    {
        Self::new("OPTIONS".to_owned(), url)
    }

    /// A `TRACE` request.
    pub fn trace<U: IntoURL>(url: U) -> (r: RequestBuilder)
        ensures
            r@ == ("TRACE"@, url.url_of(), Seq::<HeaderView>::empty(), None::<Seq<u8>>, None::<Seq<QueryPair>>),
    {
        Self::new("TRACE".to_owned(), url)
    }

    /// A `PATCH` request.
    pub fn patch<U: IntoURL>(url: U) -> (r: RequestBuilder)
        ensures
            r@ == ("PATCH"@, url.url_of(), Seq::<HeaderView>::empty(), None::<Seq<u8>>, None::<Seq<QueryPair>>),
    {
        Self::new("PATCH".to_owned(), url)
    }

    /// Sets the URL.
    pub fn url<U: IntoURL>(self, url: U) -> (r: RequestBuilder)
        ensures
            r@ == (self@.0, url.url_of(), self@.2, self@.3, self@.4),
    {
        let u = url.to_url();
        RequestBuilder { url: u, ..self }
    }

    /// Sets the method.
    pub fn method(self, method: String) -> (r: RequestBuilder)
        ensures
            r@ == (method@, self@.1, self@.2, self@.3, self@.4),
    {
        RequestBuilder { method, ..self }
    }

    /// Sets all headers.
    pub fn headers(self, headers: Headers) -> (r: RequestBuilder)
        ensures
            r@ == (self@.0, self@.1, headers@, self@.3, self@.4),
    {
        RequestBuilder { headers, ..self }
    }

    /// Sets one header, as `Headers::put` does.
    pub fn header(self, name: &str, value: &str) -> (r: RequestBuilder)
        ensures
            r@ == (self@.0, self@.1, put_spec(self@.2, name@, value@), self@.3, self@.4),
    {
        let mut b = self;
        b.headers.put(name, value.to_owned());
        b
    }

    /// Sets the body.
    pub fn body(self, body: Body) -> (r: RequestBuilder)
        ensures
            r@ == (self@.0, self@.1, self@.2, Some(body.data@), self@.4),
    {
        RequestBuilder { body: Some(body), ..self }
    }

    /// Sets the body to the UTF-8 bytes of `text`.
    pub fn text(self, text: &str) -> (r: RequestBuilder)
        ensures
            r@ == (self@.0, self@.1, self@.2, Some(encode_utf8(text@)), self@.4),
    {
        RequestBuilder { body: Some(Body::from_text(text)), ..self }
    }

    /// Sets the body to a copy of `bytes`.
    pub fn bytes(self, bytes: &[u8]) -> (r: RequestBuilder)
        ensures
            r@ == (self@.0, self@.1, self@.2, Some(bytes@), self@.4),
    {
        RequestBuilder { body: Some(Body::from_bytes(bytes)), ..self }
    }

    /// Sets the body to the multipart form of `parts` with a new random
    /// boundary, and `Content-Type` to name it.
    pub fn multipart(self, parts: Vec<Part>) -> (r: RequestBuilder)
        ensures
            exists|b: Seq<char>|
                20 <= b.len() < 40 && (forall|i: int| 0 <= i < b.len() ==> is_boundary_char(#[trigger] b[i]))
                    && #[trigger] multipart_bytes(parts_view(parts@), b) == r@.3.unwrap() && r@ == (
                    self@.0,
                    self@.1,
                    put_spec(self@.2, "Content-Type"@, "multipart/form-data; boundary="@ + b),
                    Some(multipart_bytes(parts_view(parts@), b)),
                    self@.4,
                ),
    {
        let boundary = gen_multipart_boundary();
        let value = concat("multipart/form-data; boundary=", boundary.as_str());
        let mut b = self;
        b.headers.put("Content-Type", value);
        b.body = Some(Body::from_multipart(parts, boundary.clone()));
        b
    }

    /// Sets the query that replaces the URL's, from pairs; a later key
    /// overrides an earlier one.
    pub fn url_query(self, query: &[(String, String)]) -> (r: RequestBuilder)
        ensures
            r@ == (self@.0, self@.1, self@.2, self@.3, Some(pairs_query(query@.map_values(|e: (String, String)| (e.0@, e.1@))))),
    {
        let q = query_from_pairs(query);
        RequestBuilder { url_query: Some(q), ..self }
    }

    /// Sets the body to the form of the pairs, as `Body::from_query` writes
    /// it.
    pub fn body_query(self, query: &[(String, String)]) -> (r: RequestBuilder)
        ensures
            r@ == (
                self@.0,
                self@.1,
                self@.2,
                Some(encode_utf8(query_text(pairs_query(query@.map_values(|e: (String, String)| (e.0@, e.1@)))))),
                self@.4,
            ),
    {
        let q = query_from_pairs(query);
        RequestBuilder { body: Some(Body::from_query(q)), ..self }
    }

    /// The request: the URL (its query replaced where one was set), the
    /// method, the headers, and the body or an empty one. Fails with the
    /// error that reading the URL gave.
    pub fn build(self) -> (r: Result<HttpRequest, HttpError>)
        ensures
            match built_request(self@) {
                Ok(v) => r matches Ok(req) && request_view(req) == v,
                Err(e) => r == Err::<HttpRequest, HttpError>(e),
            },
    {
        let mut url = match self.url {
            Ok(u) => u,
            Err(e) => {
                return Err(e);
            },
        };
        match self.url_query {
            Some(q) => {
                url.query = q;
            },
            None => {},
        }
        let body = match self.body {
            Some(b) => b,
            None => Body::empty(),
        };
        Ok(HttpRequest { url, method: self.method, addr: None, headers: self.headers, body })
    }
}

impl IntoRequest for RequestBuilder {
    open spec fn request_of(&self) -> Result<RequestView, HttpError> {
        built_request(self@)
    }

    fn to_request(self) -> (r: Result<HttpRequest, HttpError>) {
        self.build()
    }
}

impl HttpRequest {
    /// A builder for a request with the given method and URL.
    pub fn builder(method: String, url: URL) -> (r: RequestBuilder)
        ensures
            r@ == (method@, Ok::<UrlView, HttpError>(url_view(url)), Seq::<HeaderView>::empty(), None::<Seq<u8>>, None::<Seq<QueryPair>>),
    {
        RequestBuilder::new(method, url)
    }
}

} // verus!
