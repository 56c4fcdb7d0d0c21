//! Responses: their status line, and their framing on the wire.
use vstd::prelude::*;
use vstd::utf8::{decode_utf8, encode_utf8, valid_utf8};
use crate::body::{
    boundary_exec, boundary_of, gen_multipart_boundary, is_boundary_char, multipart_bytes,
    multipart_parts, parts_view, recv_body, utf8, Body, Part,
};
use crate::bytes::{copy_range, find_bytes, lemma_find_from, push_all, split_at_first};
use crate::error::HttpError;
use crate::headers::{headers_bytes, put_spec, recv_headers, value_of, Headers, HeaderView};
use crate::stream::{read_line, take_line, ByteSource};
use crate::text::{bytes_of, concat, utf8_decode};
use crate::url::text_of;

verus! {

broadcast use vstd::utf8::encode_utf8_valid_utf8, vstd::utf8::encode_utf8_decode_utf8;

/// The status line of a successful response, after the version.
pub const OK: &'static str = "200 OK";

/// The status line of a response for what was not found, after the version.
pub const NOT_FOUND: &'static str = "404 Not Found";

/// A response as plain values: status, headers, body.
pub type ResponseView = (Seq<char>, Seq<HeaderView>, Seq<u8>);

/// A response as plain values.
pub open spec fn response_view(r: HttpResponse) -> ResponseView {
    (r.status_code@, r.headers@, r.body.data@)
}

/// What receiving a response from `p` gives: the status line, of which all
/// after the first space is kept, the header block and the body.
pub open spec fn recv_response(p: Seq<u8>) -> Result<ResponseView, HttpError> {
    match take_line(p) {
        None => Err(HttpError::ReadLineEof),
        Some((line, rest)) => match split_at_first(line, utf8(" "@)) {
            None => Err(HttpError::InvalidStatus),
            Some((_, code)) => match text_of(code) {
                None => Err(HttpError::ReadLineUnknown),
                Some(status) => match recv_headers(rest).0 {
                    Err(e) => Err(e),
                    Ok(h) => match recv_body(recv_headers(rest).1, h).0 {
                        Err(e) => Err(e),
                        Ok(b) => Ok((status, h, b)),
                    },
                },
            },
        },
    }
}

/// The wire form of a response: `HTTP/1.1 status`, the headers, a blank line
/// and the body.
pub open spec fn response_bytes(r: ResponseView) -> Seq<u8> {
    utf8("HTTP/1.1 "@) + utf8(r.0) + utf8("\r\n"@) + headers_bytes(r.1) + utf8("\r\n"@) + r.2
}

/// An HTTP response.
#[derive(Debug, Clone)]
pub struct HttpResponse {
    pub status_code: String,
    pub headers: Headers,
    pub body: Body,
}

impl HttpResponse {
    /// A response with the given status, headers and body.
    pub fn new(status_code: &str, headers: Headers, body: Body) -> (r: HttpResponse)
        ensures
            response_view(r) == (status_code@, headers@, body.data@),
    {
        HttpResponse { status_code: status_code.to_owned(), headers, body }
    }

    /// A `200 OK` response with no headers and an empty body.
    pub fn ok() -> (r: HttpResponse)
        ensures
            response_view(r) == (OK@, Seq::<HeaderView>::empty(), Seq::<u8>::empty()),
    {
        HttpResponse::new(OK, Headers::new(), Body::empty())
    }

    /// A response with the given headers, status and body bytes.
    pub fn from_bytes(headers: Headers, status_code: &str, data: Vec<u8>) -> (r: HttpResponse)
        ensures
            response_view(r) == (status_code@, headers@, data@),
    {
        HttpResponse { status_code: status_code.to_owned(), headers, body: Body::new(data) }
    }

    /// A response with the given headers, status and text body.
    pub fn from_string(headers: Headers, status_code: &str, data: &str) -> (r: HttpResponse)
        ensures
            response_view(r) == (status_code@, headers@, encode_utf8(data@)),
    {
        HttpResponse { status_code: status_code.to_owned(), headers, body: Body::from_text(data) }
    }

    /// The body as text; empty where it is not UTF-8.
    pub fn get_text(&self) -> (r: String)
        ensures
            valid_utf8(self.body.data@) ==> r@ == decode_utf8(self.body.data@),
            !valid_utf8(self.body.data@) ==> r@.len() == 0,
    {
        match self.body.as_text() {
            Some(t) => t,
            None => String::new(),
        }
    }

    /// Receives a response: the status line `version status`, the header
    /// block and the body. A status line without a space fails with
    /// `InvalidStatus`; a status that is not UTF-8 with `ReadLineUnknown`.
    pub fn recv<S: ByteSource>(stream: &mut S) -> (r: Result<HttpResponse, HttpError>)
        ensures
            match recv_response(old(stream).pending()) {
                Ok(v) => r matches Ok(x) && response_view(x) == v,
                Err(e) => r == Err::<HttpResponse, HttpError>(e),
            },
    {
        let line = match read_line(stream) {
            Ok(l) => l,
            Err(e) => {
                return Err(e);
            },
        };
        let sp = " ".as_bytes();
        let code = match find_bytes(line.as_slice(), sp, 0) {
            None => {
                return Err(HttpError::InvalidStatus);
            },
            Some(i) => {
                proof {
                    lemma_find_from(line@, sp@, 0);
                }
                let n = line.len();
                copy_range(line.as_slice(), i + sp.len(), n)
            },
        };
        let status_code = match utf8_decode(code) {
            Some(s) => s,
            None => {
                return Err(HttpError::ReadLineUnknown);
            },
        };
        let headers = match Headers::recv(stream) {
            Ok(h) => h,
            Err(e) => {
                return Err(e);
            },
        };
        match Body::recv(stream, &headers) {
            Ok(body) => Ok(HttpResponse { status_code, headers, body }),
            Err(e) => Err(e),
        }
    }

    /// The wire form: `HTTP/1.1 status`, the headers, a blank line and the
    /// body.
    pub fn to_bytes(&self) -> (r: Vec<u8>)
        ensures
            r@ == response_bytes(response_view(*self)),
    {
        let mut out = bytes_of("HTTP/1.1 ");
        let s = bytes_of(self.status_code.as_str());
        push_all(&mut out, s.as_slice());
        push_all(&mut out, "\r\n".as_bytes());
        let hb = self.headers.to_bytes();
        push_all(&mut out, hb.as_slice());
        push_all(&mut out, "\r\n".as_bytes());
        push_all(&mut out, self.body.data.as_slice());
        out
    }

    /// The multipart parts of the body, with the boundary that the
    /// `Content-Type` header gives; `None` without such a boundary.
    pub fn get_multipart(&self) -> (r: Option<Vec<Part>>)
        ensures
            match boundary_of(value_of(self.headers@, "content-type"@)) {
                Some(b) => r matches Some(ps) && parts_view(ps@) == multipart_parts(self.body.data@, b),
                None => r is None,
            },
    {
        match self.headers.get("content-type") {
            None => None,
            Some(ct) => match boundary_exec(ct.as_str()) {
                Some(b) => Some(self.body.as_multipart(b)),
                None => None,
            },
        }
    }

    /// Makes the body the multipart form of `parts` with the given boundary,
    /// and sets `Content-Type` to `multipart/form-data; boundary=...`.
    pub fn set_multipart_boundary(&mut self, parts: Vec<Part>, boundary: &str)
        ensures
            final(self).headers@ == put_spec(
                old(self).headers@,
                "Content-Type"@,
                "multipart/form-data; boundary="@ + boundary@,
            ),
            final(self).body.data@ == multipart_bytes(parts_view(parts@), boundary@),
            final(self).status_code == old(self).status_code,
    {
        let value = concat("multipart/form-data; boundary=", boundary);
        self.headers.put("Content-Type", value);
        self.body = Body::from_multipart(parts, boundary.to_owned());
    }

    /// Makes the body the multipart form of `parts` with a new random
    /// boundary, and sets `Content-Type` to name it.
    pub fn set_multipart(&mut self, parts: Vec<Part>) -> (r: Option<()>)
        ensures
            r is Some,
            exists|b: Seq<char>|
                20 <= b.len() < 40 && (forall|i: int| 0 <= i < b.len() ==> is_boundary_char(#[trigger] b[i]))
                    && final(self).headers@ == put_spec(
                    old(self).headers@,
                    "Content-Type"@,
                    "multipart/form-data; boundary="@ + b,
                ) && #[trigger] multipart_bytes(parts_view(parts@), b) == final(self).body.data@,
    {
        let boundary = gen_multipart_boundary();
        self.set_multipart_boundary(parts, boundary.as_str());
        assert(multipart_bytes(parts_view(parts@), boundary@) == self.body.data@);
        Some(())
    }
}

} // verus!
