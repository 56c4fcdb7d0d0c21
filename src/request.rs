//! Requests: their start line, and their framing on the wire.
use vstd::prelude::*;
use vstd::utf8::encode_utf8;
use crate::body::{
    boundary_exec, boundary_of, gen_multipart_boundary, is_boundary_char, multipart_bytes,
    multipart_parts, opt_view, parts_view, recv_body, utf8, Body, Part,
};
use crate::bytes::{copy_range, find_bytes, lemma_find_from, push_all, split_at_first};
use crate::error::HttpError;
use crate::headers::{headers_bytes, put_spec, recv_headers, value_of, Headers, HeaderView};
use crate::stream::{read_line, take_line, ByteSource};
use crate::text::{bytes_of, concat, lemma_encode_utf8_concat, utf8_decode};
use crate::url::{parse_url, path_text, split_or_all, text_of, url_view, UrlView, URL};

pub use crate::url::{IntoURL, RootURL};

verus! {

broadcast use vstd::utf8::encode_utf8_valid_utf8, vstd::utf8::encode_utf8_decode_utf8, vstd::utf8::decode_utf8_encode_utf8;

/// A request as plain values: URL, method, peer address, headers, body.
pub type RequestView = (UrlView, Seq<char>, Option<Seq<char>>, Seq<HeaderView>, Seq<u8>);

/// A request as plain values.
pub open spec fn request_view(r: HttpRequest) -> RequestView {
    (url_view(r.url), r.method@, opt_view(r.addr), r.headers@, r.body.data@)
}

/// The method and request target of a request line `METHOD SP target [SP
/// version]`; the version is not looked at.
pub open spec fn request_line(line: Seq<u8>) -> Option<(Seq<u8>, Seq<u8>)> {
    match split_at_first(line, utf8(" "@)) {
        Some((m, rest)) => Some((m, split_or_all(rest, utf8(" "@)).0)),
        None => None,
    }
}

/// What receiving a request from `p` gives: the request line, the header
/// block, the body, and then the target read as a URL.
pub open spec fn recv_request(p: Seq<u8>, addr: Option<Seq<char>>) -> Result<RequestView, HttpError> {
    match take_line(p) {
        None => Err(HttpError::ReadLineEof),
        Some((line, rest)) => match request_line(line) {
            None => Err(HttpError::RequestError),
            Some((m, t)) => match (text_of(m), text_of(t)) {
                (Some(method), Some(target)) => match recv_headers(rest).0 {
                    Err(e) => Err(e),
                    Ok(h) => match recv_body(recv_headers(rest).1, h).0 {
                        Err(e) => Err(e),
                        Ok(b) => match parse_url(encode_utf8(target)) {
                            Err(e) => Err(e),
                            Ok(u) => Ok((u, method, addr, h, b)),
                        },
                    },
                },
                _ => Err(HttpError::ReadLineUnknown),
            },
        },
    }
}

/// The wire form of a request: `METHOD target HTTP/1.1`, the headers, a
/// blank line and the body; the target is the URL without its origin.
pub open spec fn request_bytes(r: RequestView) -> Seq<u8> {
    utf8(r.1) + utf8(" "@) + utf8(path_text(r.0)) + utf8(" HTTP/1.1\r\n"@) + headers_bytes(r.3)
        + utf8("\r\n"@) + r.4
}

/// An HTTP request.
#[derive(Debug, Clone)]
pub struct HttpRequest {
    pub url: URL,
    pub method: String,
    pub addr: Option<String>,
    pub headers: Headers,
    pub body: Body,
}

/// Values that give a request.
pub trait IntoRequest: Sized {
    /// The request this value gives, or the error that building it gives.
    spec fn request_of(&self) -> Result<RequestView, HttpError>;

    /// The request, or the error that building it gives.
    fn to_request(self) -> (r: Result<HttpRequest, HttpError>)
        ensures
            match self.request_of() {
                Ok(v) => r matches Ok(x) && request_view(x) == v,
                Err(e) => r == Err::<HttpRequest, HttpError>(e),
            },
    ;
}

impl IntoRequest for HttpRequest {
    open spec fn request_of(&self) -> Result<RequestView, HttpError> {
        Ok(request_view(*self))
    }

    fn to_request(self) -> (r: Result<HttpRequest, HttpError>) {
        Ok(self)
    }
}

/// The method and target of a request line.
fn request_line_exec(line: &[u8]) -> (r: Option<(Vec<u8>, Vec<u8>)>)
    ensures
        match request_line(line@) {
            Some((m, t)) => r matches Some(x) && x.0@ == m && x.1@ == t,
            None => r is None,
        },
{
    let sp = " ".as_bytes();
    match find_bytes(line, sp, 0) {
        None => None,
        Some(i) => {
            proof {
                lemma_find_from(line@, sp@, 0);
            }
            let n = line.len();
            let m = copy_range(line, 0, i);
            let rest = copy_range(line, i + sp.len(), n);
            let (t, _) = crate::bytes::split_bytes_once(rest.as_slice(), sp);
            Some((m, t))
        },
    }
}

impl HttpRequest {
    /// A request for the URL that `url` names.
    pub fn new<U: IntoURL>(url: U, method: String, headers: Headers, body: Body, addr: Option<String>) -> (r: Result<HttpRequest, HttpError>)
        ensures
            match url.url_of() {
                Ok(u) => r matches Ok(x) && request_view(x) == (u, method@, opt_view(addr), headers@, body.data@),
                Err(e) => r == Err::<HttpRequest, HttpError>(e),
            },
    {
        match url.to_url() {
            Ok(u) => Ok(HttpRequest { url: u, method, addr, headers, body }),
            Err(e) => Err(e),
        }
    }

    /// Receives a request: the request line `METHOD target ...`, the header
    /// block and the body, the target read as a URL. A line with no space
    /// fails with `RequestError`; a method or target that is not UTF-8 with
    /// `ReadLineUnknown`; the end of the stream before the line ends with
    /// `ReadLineEof`.
    pub fn recv<S: ByteSource>(stream: &mut S, addr: Option<String>) -> (r: Result<HttpRequest, HttpError>)
        ensures
            match recv_request(old(stream).pending(), opt_view(addr)) {
                Ok(v) => r matches Ok(x) && request_view(x) == v,
                Err(e) => r == Err::<HttpRequest, HttpError>(e),
            },
    {
        let ghost p = stream.pending();
        let line = match read_line(stream) {
            Ok(l) => l,
            Err(e) => {
                return Err(e);
            },
        };
        let (m, t) = match request_line_exec(line.as_slice()) {
            Some(x) => x,
            None => {
                return Err(HttpError::RequestError);
            },
        };
        let (method, target) = match (utf8_decode(m), utf8_decode(t)) {
            (Some(a), Some(b)) => (a, b),
            _ => {
                return Err(HttpError::ReadLineUnknown);
            },
        };
        let headers = match Headers::recv(stream) {
            Ok(h) => h,
            Err(e) => {
                return Err(e);
            },
        };
        let body = match Body::recv(stream, &headers) {
            Ok(b) => b,
            Err(e) => {
                return Err(e);
            },
        };
        match URL::from_str(target.as_str()) {
            Ok(url) => Ok(HttpRequest { url, method, addr, headers, body }),
            Err(e) => Err(e),
        }
    }

    /// The wire form: `METHOD target HTTP/1.1`, the headers, a blank line and
    /// the body; the target is the URL without its origin.
    pub fn to_bytes(&self) -> (r: Vec<u8>)
        ensures
            r@ == request_bytes(request_view(*self)),
    {
        let head = concat(self.method.as_str(), " ");
        let t = self.url.to_path_str();
        let head = concat(head.as_str(), t.as_str());
        let head2 = concat(head.as_str(), " HTTP/1.1\r\n");
        let mut out = bytes_of(head2.as_str());
        proof {
            lemma_encode_utf8_concat(self.method@, " "@);
            lemma_encode_utf8_concat(self.method@ + " "@, t@);
            lemma_encode_utf8_concat(head@, " HTTP/1.1\r\n"@);
        }
        let hb = self.headers.to_bytes();
        push_all(&mut out, hb.as_slice());
        push_all(&mut out, "\r\n".as_bytes());
        push_all(&mut out, self.body.data.as_slice());
        out
    }

    /// The multipart parts of the body, with the boundary that the
    /// `Content-Type` header gives; `None` without such a boundary.
    pub fn get_multipart(&self) -> (r: Option<Vec<Part>>)
        ensures
            match boundary_of(value_of(self.headers@, "content-type"@)) {
                Some(b) => r matches Some(ps) && parts_view(ps@) == multipart_parts(self.body.data@, b),
                None => r is None,
            },
    {
        match self.headers.get("content-type") {
            None => None,
            Some(ct) => match boundary_exec(ct.as_str()) {
                Some(b) => Some(self.body.as_multipart(b)),
                None => None,
            },
        }
    }

    /// Makes the body the multipart form of `parts` with the given boundary,
    /// and sets `Content-Type` to `multipart/form-data; boundary=...`.
    pub fn set_multipart_boundary(&mut self, parts: Vec<Part>, boundary: &str)
        ensures
            final(self).headers@ == put_spec(
                old(self).headers@,
                "Content-Type"@,
                "multipart/form-data; boundary="@ + boundary@,
            ),
            final(self).body.data@ == multipart_bytes(parts_view(parts@), boundary@),
            final(self).url == old(self).url,
            final(self).method == old(self).method,
            final(self).addr == old(self).addr,
    {
        let value = concat("multipart/form-data; boundary=", boundary);
        self.headers.put("Content-Type", value);
        self.body = Body::from_multipart(parts, boundary.to_owned());
    }

    /// Makes the body the multipart form of `parts` with a new random
    /// boundary, and sets `Content-Type` to name it.
    pub fn set_multipart(&mut self, parts: Vec<Part>) -> (r: Option<()>)
        ensures
            r is Some,
            exists|b: Seq<char>|
                20 <= b.len() < 40 && (forall|i: int| 0 <= i < b.len() ==> is_boundary_char(#[trigger] b[i]))
                    && final(self).headers@ == put_spec(
                    old(self).headers@,
                    "Content-Type"@,
                    "multipart/form-data; boundary="@ + b,
                ) && #[trigger] multipart_bytes(parts_view(parts@), b) == final(self).body.data@,
    {
        let boundary = gen_multipart_boundary();
        self.set_multipart_boundary(parts, boundary.as_str());
        assert(multipart_bytes(parts_view(parts@), boundary@) == self.body.data@);
        Some(())
    }
}

} // verus!
