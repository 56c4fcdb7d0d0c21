//! Message bodies: their framing on the wire and their multipart form.
use vstd::prelude::*;
use vstd::utf8::{decode_utf8, encode_utf8, valid_utf8};
use crate::bytes::{
    copy_range, find_bytes, find_from, lemma_find_from, matches_at, push_all, split_from, split_all, split_at_first, split_bytes,
    unsigned_value, parse_unsigned, views,
};
use crate::error::HttpError;
use crate::headers::{value_of, Headers, HeaderView};
use crate::stream::{read_exact, read_line, take_line, lemma_take_line_shrinks, ByteSource};
use crate::text::{bytes_of, utf8_decode};

verus! {

broadcast use vstd::utf8::encode_utf8_valid_utf8, vstd::utf8::encode_utf8_decode_utf8;

/// An ASCII whitespace byte, as `u8::is_ascii_whitespace` has it.
pub open spec fn is_ascii_space(b: u8) -> bool {
    b == 32 || b == 9 || b == 10 || b == 12 || b == 13
}

/// `s` without ASCII whitespace at its start.
pub open spec fn trim_start_spec(s: Seq<u8>) -> Seq<u8>
    decreases s.len(),
{
    if s.len() > 0 && is_ascii_space(s[0]) {
        trim_start_spec(s.drop_first())
    } else {
        s
    }
}

/// `s` without ASCII whitespace at its end.
pub open spec fn trim_end_spec(s: Seq<u8>) -> Seq<u8>
    decreases s.len(),
{
    if s.len() > 0 && is_ascii_space(s.last()) {
        trim_end_spec(s.drop_last())
    } else {
        s
    }
}

/// `s` without ASCII whitespace at either end, as `<[u8]>::trim_ascii` gives.
pub open spec fn trim_spec(s: Seq<u8>) -> Seq<u8> {
    trim_end_spec(trim_start_spec(s))
}

/// `b` in lowercase if it is an ASCII capital letter.
pub open spec fn ascii_lower(b: u8) -> u8 {
    if 65 <= b <= 90 {
        (b + 32) as u8
    } else {
        b
    }
}

/// `a` and `b` are equal without regard to ASCII case, as
/// `<[u8]>::eq_ignore_ascii_case` has it.
pub open spec fn eq_ignore_case(a: Seq<u8>, b: Seq<u8>) -> bool {
    a.len() == b.len() && forall|i: int| 0 <= i < a.len() ==> #[trigger] ascii_lower(a[i]) == ascii_lower(b[i])
}

/// `s` without ASCII whitespace at either end.
pub fn trim_ascii(s: &[u8]) -> (r: Vec<u8>)
    ensures
        r@ == trim_spec(s@),
{
    let mut lo: usize = 0;
    assert(s@.subrange(0, s@.len() as int) == s@);
    while lo < s.len() && (s[lo] == 32 || s[lo] == 9 || s[lo] == 10 || s[lo] == 12 || s[lo] == 13)
        invariant
            lo <= s@.len(),
            trim_start_spec(s@) == trim_start_spec(s@.subrange(lo as int, s@.len() as int)),
        decreases s@.len() - lo,
    {
        assert(s@.subrange(lo as int, s@.len() as int).drop_first() == s@.subrange(lo + 1, s@.len() as int));
        lo = lo + 1;
    }
    assert(s@.subrange(0, s@.len() as int) == s@);
    let ghost m = s@.subrange(lo as int, s@.len() as int);
    assert(trim_start_spec(m) == m);
    let mut hi: usize = s.len();
    while hi > lo && (s[hi - 1] == 32 || s[hi - 1] == 9 || s[hi - 1] == 10 || s[hi - 1] == 12
        || s[hi - 1] == 13)
        invariant
            lo <= hi <= s@.len(),
            m == s@.subrange(lo as int, s@.len() as int),
            trim_spec(s@) == trim_end_spec(m),
            trim_end_spec(m) == trim_end_spec(s@.subrange(lo as int, hi as int)),
        decreases hi,
    {
        assert(s@.subrange(lo as int, hi as int).drop_last() == s@.subrange(lo as int, hi - 1));
        hi = hi - 1;
    }
    copy_range(s, lo, hi)
}

/// Whether `a` and `b` are equal without regard to ASCII case.
pub fn eq_ignore_ascii_case(a: &[u8], b: &[u8]) -> (r: bool)
    ensures
        r == eq_ignore_case(a@, b@),
{
    if a.len() != b.len() {
        return false;
    }
    let mut i: usize = 0;
    while i < a.len()
        invariant
            a@.len() == b@.len(),
            i <= a@.len(),
            forall|j: int| 0 <= j < i ==> #[trigger] ascii_lower(a@[j]) == ascii_lower(b@[j]),
        decreases a@.len() - i,
    {
        let x = if 65 <= a[i] && a[i] <= 90 { a[i] + 32 } else { a[i] };
        let y = if 65 <= b[i] && b[i] <= 90 { b[i] + 32 } else { b[i] };
        if x != y {
            assert(ascii_lower(a@[i as int]) != ascii_lower(b@[i as int]));
            return false;
        }
        i = i + 1;
    }
    true
}

/// A transfer coding list names `chunked`: one of its comma separated items
/// is `chunked`, without regard to case or surrounding whitespace.
pub open spec fn names_chunked(te: Seq<u8>) -> bool {
    exists|i: int|
        0 <= i < split_all(te, seq![44u8]).len() && eq_ignore_case(
            trim_spec(#[trigger] split_all(te, seq![44u8])[i]),
            encode_utf8("chunked"@),
        )
}

/// What reading a chunked body from `p` gives, and what follows it: size
/// lines in hexadecimal, each followed by that many bytes and a line ending,
/// up to a chunk of size zero.
pub open spec fn recv_chunks(p: Seq<u8>) -> (Result<Seq<u8>, HttpError>, Seq<u8>)
    decreases p.len(),
{
    match take_line(p) {
        None => (Err(HttpError::InvalidContent), seq![]),
        Some((line, rest)) => match unsigned_value(line, 16) {
            None => (Err(HttpError::InvalidContent), rest),
            Some(n) => if n == 0 {
                (Ok(seq![]), rest)
            } else if n + 2 > usize::MAX || rest.len() < n + 2 || rest.len() >= p.len() {
                (Err(HttpError::InvalidContent), rest)
            } else {
                let (r, after) = recv_chunks(rest.skip(n + 2 as int));
                match r {
                    Ok(b) => (Ok(rest.take(n as int) + b), after),
                    Err(e) => (Err(e), after),
                }
            },
        },
    }
}

/// What reading a body framed by the headers `h` from `p` gives, and what
/// follows it. With `Content-Length`, that many bytes; else with a
/// `Transfer-Encoding` naming `chunked`, the chunks; else nothing.
pub open spec fn recv_body(p: Seq<u8>, h: Seq<HeaderView>) -> (Result<Seq<u8>, HttpError>, Seq<u8>) {
    match value_of(h, "content-length"@) {
        Some(v) => match unsigned_value(encode_utf8(v), 10) {
            Some(n) => if n <= usize::MAX {
                if p.len() >= n {
                    (Ok(p.take(n as int)), p.skip(n as int))
                } else {
                    (Err(HttpError::InvalidContent), seq![])
                }
            } else {
                (Err(HttpError::InvalidContentSize), p)
            },
            None => (Err(HttpError::InvalidContentSize), p),
        },
        None => match value_of(h, "transfer-encoding"@) {
            Some(te) => if names_chunked(encode_utf8(te)) {
                recv_chunks(p)
            } else {
                (Ok(seq![]), p)
            },
            None => (Ok(seq![]), p),
        },
    }
}

/// A message body: bytes, with text, form and multipart readings of them.
#[derive(Debug, Clone)]
pub struct Body {
    pub data: Vec<u8>,
}

/// Whether a `Transfer-Encoding` value names `chunked`.
fn has_chunked(te: &[u8]) -> (r: bool)
    ensures
        r == names_chunked(te@),
{
    let items = split_bytes(te, &[44u8]);
    let target = bytes_of("chunked");
    let mut i: usize = 0;
    assert(seq![44u8] == [44u8]@);
    while i < items.len()
        invariant
            i <= items@.len(),
            views(items@) == split_all(te@, seq![44u8]),
            target@ == encode_utf8("chunked"@),
            forall|j: int| 0 <= j < i ==> !eq_ignore_case(trim_spec(#[trigger] split_all(te@, seq![44u8])[j]), target@),
        decreases items@.len() - i,
    {
        assert(views(items@)[i as int] == items@[i as int]@);
        let t = trim_ascii(items[i].as_slice());
        if eq_ignore_ascii_case(t.as_slice(), target.as_slice()) {
            return true;
        }
        i = i + 1;
    }
    false
}

/// Reads a chunked body.
fn recv_chunked<S: ByteSource>(stream: &mut S) -> (r: Result<Vec<u8>, HttpError>)
    ensures
        match recv_chunks(old(stream).pending()).0 {
            Ok(b) => r matches Ok(v) && v@ == b && final(stream).pending() == recv_chunks(
                old(stream).pending(),
            ).1,
            Err(e) => r == Err::<Vec<u8>, HttpError>(e),
        },
{
    let mut data: Vec<u8> = Vec::new();
    let ghost initial = stream.pending();
    loop
        invariant
            initial == old(stream).pending(),
            recv_chunks(initial) == (match recv_chunks(stream.pending()).0 {
                Ok(b) => (Ok::<Seq<u8>, HttpError>(data@ + b), recv_chunks(stream.pending()).1),
                Err(e) => (Err(e), recv_chunks(stream.pending()).1),
            }),
        decreases stream.pending().len(),
    {
        let ghost p = stream.pending();
        proof {
            lemma_take_line_shrinks(p);
        }
        let line = match read_line(stream) {
            Ok(l) => l,
            Err(_) => {
                return Err(HttpError::InvalidContent);
            },
        };
        let ghost rest = stream.pending();
        let n = match parse_unsigned(line.as_slice(), 16, usize::MAX as u64) {
            Some(n) => n as usize,
            None => {
                return Err(HttpError::InvalidContent);
            },
        };
        if n == 0 {
            assert(data@ + Seq::<u8>::empty() == data@);
            return Ok(data);
        }
        if n > usize::MAX - 2 {
            return Err(HttpError::InvalidContent);
        }
        let chunk = match read_exact(stream, n + 2, HttpError::InvalidContent) {
            Ok(c) => c,
            Err(e) => {
                return Err(e);
            },
        };
        let ghost before = data@;
        let piece = copy_range(chunk.as_slice(), 0, n);
        push_all(&mut data, piece.as_slice());
        proof {
            assert(piece@ == rest.take(n as int));
            match recv_chunks(stream.pending()).0 {
                Ok(b) => {
                    assert(before + (rest.take(n as int) + b) == data@ + b);
                },
                Err(_) => {},
            }
        }
    }
}

impl Body {
    /// A body holding `data`.
    pub fn new(data: Vec<u8>) -> (r: Body)
        ensures
            r.data@ == data@,
    {
        Body { data }
    }

    /// An empty body.
    pub fn empty() -> (r: Body)
        ensures
            r.data@.len() == 0,
    {
        Body { data: Vec::new() }
    }

    /// The bytes.
    pub fn as_bytes(&self) -> (r: Vec<u8>)
        ensures
            r@ == self.data@,
    {
        copy_range(self.data.as_slice(), 0, self.data.len())
    }

    /// The bytes as text, where they are valid UTF-8.
    pub fn as_text(&self) -> (r: Option<String>)
        ensures
            r is Some <==> valid_utf8(self.data@),
            r matches Some(s) ==> s@ == decode_utf8(self.data@),
    {
        utf8_decode(self.as_bytes())
    }

    /// A body holding a copy of `bytes`.
    pub fn from_bytes(bytes: &[u8]) -> (r: Body)
        ensures
            r.data@ == bytes@,
    {
        Body { data: copy_range(bytes, 0, bytes.len()) }
    }

    /// A body holding the UTF-8 bytes of `text`.
    pub fn from_text(text: &str) -> (r: Body)
        ensures
            r.data@ == encode_utf8(text@),
    {
        Body { data: bytes_of(text) }
    }

    /// Reads a body framed as the headers say. With `Content-Length`, exactly
    /// that many bytes: a value that is no number fails with
    /// `InvalidContentSize`, a stream that ends first with `InvalidContent`.
    /// Else with a `Transfer-Encoding` that names `chunked`, the chunks up to
    /// one of size zero; a bad size line or a short chunk fails with
    /// `InvalidContent`. Else the body is empty.
    pub fn recv<S: ByteSource>(stream: &mut S, headers: &Headers) -> (r: Result<Body, HttpError>)
        ensures
            match recv_body(old(stream).pending(), headers@).0 {
                Ok(b) => r matches Ok(body) && body.data@ == b && final(stream).pending()
                    == recv_body(old(stream).pending(), headers@).1,
                Err(e) => r == Err::<Body, HttpError>(e),
            },
    {
        match headers.get("content-length") {
            Some(v) => {
                let vb = bytes_of(v.as_str());
                match parse_unsigned(vb.as_slice(), 10, usize::MAX as u64) {
                    Some(n) => {
                        let data = read_exact(stream, n as usize, HttpError::InvalidContent);
                        match data {
                            Ok(d) => Ok(Body { data: d }),
                            Err(e) => Err(e),
                        }
                    },
                    None => Err(HttpError::InvalidContentSize),
                }
            },
            None => match headers.get("transfer-encoding") {
                Some(te) => {
                    let tb = bytes_of(te.as_str());
                    if has_chunked(tb.as_slice()) {
                        match recv_chunked(stream) {
                            Ok(d) => Ok(Body { data: d }),
                            Err(e) => Err(e),
                        }
                    } else {
                        Ok(Body::empty())
                    }
                },
                None => Ok(Body::empty()),
            },
        }
    }
}

/// A part of a multipart body as plain values: name, body, file name and
/// content type.
pub type PartView = (Seq<char>, Seq<u8>, Option<Seq<char>>, Option<Seq<char>>);

/// An optional string as plain values.
pub open spec fn opt_view(o: Option<String>) -> Option<Seq<char>> {
    match o {
        Some(s) => Some(s@),
        None => None,
    }
}

/// A part as plain values.
pub open spec fn part_view(p: Part) -> PartView {
    (p.name@, p.body.data@, opt_view(p.filename), opt_view(p.content_type))
}

/// Parts as plain values.
pub open spec fn parts_view(ps: Seq<Part>) -> Seq<PartView> {
    ps.map_values(|p: Part| part_view(p))
}

/// The bytes of the text `s`.
pub open spec fn utf8(s: Seq<char>) -> Seq<u8> {
    encode_utf8(s)
}

/// The start of a part: its boundary line and its `Content-Disposition`
/// up to the closing quote of its name.
pub open spec fn part_lead(name: Seq<char>, boundary: Seq<char>) -> Seq<u8> {
    utf8("--"@) + utf8(boundary) + utf8("\r\nContent-Disposition: form-data; name=\""@) + utf8(name)
        + utf8("\""@)
}

/// The `; filename="..."` item of a part, if it has a file name.
pub open spec fn filename_bytes(f: Option<Seq<char>>) -> Seq<u8> {
    match f {
        Some(f) => utf8("; filename=\""@) + utf8(f) + utf8("\""@),
        None => seq![],
    }
}

/// The `Content-Type` line of a part, if it has a content type.
pub open spec fn content_type_bytes(t: Option<Seq<char>>) -> Seq<u8> {
    match t {
        Some(t) => utf8("Content-Type: "@) + utf8(t) + utf8("\r\n"@),
        None => seq![],
    }
}

/// The wire form of one part: the boundary line, its
/// `Content-Disposition` with name and file name, its `Content-Type`, a
/// blank line, and its body.
pub open spec fn part_bytes(p: PartView, boundary: Seq<char>) -> Seq<u8> {
    part_lead(p.0, boundary) + filename_bytes(p.2) + utf8("\r\n"@) + content_type_bytes(p.3) + utf8(
        "\r\n"@,
    ) + p.1
}

/// The wire form of parts one after the other.
pub open spec fn parts_bytes(ps: Seq<PartView>, boundary: Seq<char>) -> Seq<u8>
    decreases ps.len(),
{
    if ps.len() == 0 {
        seq![]
    } else {
        parts_bytes(ps.drop_last(), boundary) + part_bytes(ps.last(), boundary)
    }
}

/// The wire form of a multipart body: the parts, then the closing boundary
/// `--boundary--` and a line ending.
pub open spec fn multipart_bytes(ps: Seq<PartView>, boundary: Seq<char>) -> Seq<u8> {
    parts_bytes(ps, boundary) + utf8("--"@) + utf8(boundary) + utf8("--\r\n"@)
}

/// The `name: value` pairs among the lines of a part's head; a line without
/// `": "` is passed over.
pub open spec fn head_pairs(lines: Seq<Seq<u8>>) -> Seq<(Seq<u8>, Seq<u8>)>
    decreases lines.len(),
{
    if lines.len() == 0 {
        seq![]
    } else {
        let r = head_pairs(lines.drop_last());
        match split_at_first(lines.last(), utf8(": "@)) {
            Some(kv) => r.push(kv),
            None => r,
        }
    }
}

/// The value of the first pair whose name is `name` without regard to ASCII
/// case.
pub open spec fn head_value(pairs: Seq<(Seq<u8>, Seq<u8>)>, name: Seq<u8>) -> Option<Seq<u8>>
    decreases pairs.len(),
{
    if pairs.len() == 0 {
        None
    } else if eq_ignore_case(pairs[0].0, name) {
        Some(pairs[0].1)
    } else {
        head_value(pairs.drop_first(), name)
    }
}

/// `s` without one closing quote.
pub open spec fn unquote(s: Seq<u8>) -> Seq<u8> {
    if s.len() > 0 && s.last() == 34 {
        s.drop_last()
    } else {
        s
    }
}

/// The value of the first `;` separated item that, trimmed, starts with
/// `prefix` (such as `name="`): what follows the prefix, without a closing
/// quote.
pub open spec fn param_value(items: Seq<Seq<u8>>, prefix: Seq<u8>) -> Option<Seq<u8>>
    decreases items.len(),
{
    if items.len() == 0 {
        None
    } else if matches_at(trim_spec(items[0]), prefix, 0) {
        Some(unquote(trim_spec(items[0]).skip(prefix.len() as int)))
    } else {
        param_value(items.drop_first(), prefix)
    }
}

/// Optional bytes as text, where they are UTF-8.
pub open spec fn opt_text(o: Option<Seq<u8>>) -> Option<Seq<char>> {
    match o {
        Some(b) => if valid_utf8(b) {
            Some(decode_utf8(b))
        } else {
            None
        },
        None => None,
    }
}

/// The head and body of a part: split at the first blank line.
pub open spec fn head_and_body(seg: Seq<u8>) -> (Seq<u8>, Seq<u8>) {
    match split_at_first(seg, utf8("\r\n\r\n"@)) {
        Some(hb) => hb,
        None => (seg, seq![]),
    }
}

/// The part that a piece between two boundaries holds: it needs a
/// `Content-Disposition` head line with a `name="..."` item. Head names
/// compare without regard to ASCII case.
pub open spec fn parse_part(seg: Seq<u8>) -> Option<PartView> {
    let (head, body) = head_and_body(seg);
    let pairs = head_pairs(split_all(head, utf8("\r\n"@)));
    match head_value(pairs, utf8("content-disposition"@)) {
        None => None,
        Some(cd) => {
            let items = split_all(cd, utf8(";"@));
            match param_value(items, utf8("name=\""@)) {
                Some(n) => if valid_utf8(n) {
                    Some(
                        (
                            decode_utf8(n),
                            body,
                            opt_text(param_value(items, utf8("filename=\""@))),
                            opt_text(head_value(pairs, utf8("content-type"@))),
                        ),
                    )
                } else {
                    None
                },
                None => None,
            }
        },
    }
}

/// The parts that the pieces hold, in order, pieces that hold none passed over.
pub open spec fn parse_parts(segs: Seq<Seq<u8>>) -> Seq<PartView>
    decreases segs.len(),
{
    if segs.len() == 0 {
        seq![]
    } else {
        let r = parse_parts(segs.drop_last());
        match parse_part(segs.last()) {
            Some(p) => r.push(p),
            None => r,
        }
    }
}

/// The parts of a multipart body with the given boundary: the pieces between
/// the `--boundary` marks, each read as a part.
pub open spec fn multipart_parts(data: Seq<u8>, boundary: Seq<char>) -> Seq<PartView> {
    parse_parts(split_all(data, utf8("--"@) + utf8(boundary)))
}

/// A part of a multipart body.
#[derive(Clone, Debug)]
pub struct Part {
    pub name: String,
    pub body: Body,
    pub filename: Option<String>,
    pub content_type: Option<String>,
}

impl Part {
    /// A part with all its fields.
    pub fn new(name: String, body: Body, filename: Option<String>, content_type: Option<String>) -> (r: Part)
        ensures
            r.name@ == name@,
            r.body.data@ == body.data@,
            opt_view(r.filename) == opt_view(filename),
            opt_view(r.content_type) == opt_view(content_type),
    {
        Part { name, body, filename, content_type }
    }

    /// A part with a name and a body, with no file name or content type.
    pub fn body(name: String, body: Body) -> (r: Part)
        ensures
            r.name@ == name@,
            r.body.data@ == body.data@,
            r.filename is None,
            r.content_type is None,
    {
        Part { name, body, filename: None, content_type: None }
    }
}

/// The start of a part: boundary line and `Content-Disposition` up to the
/// name's closing quote.
fn part_lead_exec(name: &str, boundary: &str) -> (r: Vec<u8>)
    ensures
        r@ == part_lead(name@, boundary@),
{
    let mut v: Vec<u8> = Vec::new();
    push_all(&mut v, "--".as_bytes());
    push_all(&mut v, boundary.as_bytes());
    push_all(&mut v, "\r\nContent-Disposition: form-data; name=\"".as_bytes());
    push_all(&mut v, name.as_bytes());
    push_all(&mut v, "\"".as_bytes());
    v
}

/// The `; filename="..."` item, if there is a file name.
fn filename_exec(f: &Option<String>) -> (r: Vec<u8>)
    ensures
        r@ == filename_bytes(opt_view(*f)),
{
    let mut v: Vec<u8> = Vec::new();
    match f {
        Some(f) => {
            push_all(&mut v, "; filename=\"".as_bytes());
            push_all(&mut v, f.as_str().as_bytes());
            push_all(&mut v, "\"".as_bytes());
        },
        None => {},
    }
    v
}

/// The `Content-Type` line, if there is a content type.
fn content_type_exec(t: &Option<String>) -> (r: Vec<u8>)
    ensures
        r@ == content_type_bytes(opt_view(*t)),
{
    let mut v: Vec<u8> = Vec::new();
    match t {
        Some(t) => {
            push_all(&mut v, "Content-Type: ".as_bytes());
            push_all(&mut v, t.as_str().as_bytes());
            push_all(&mut v, "\r\n".as_bytes());
        },
        None => {},
    }
    v
}

/// Appends the wire form of one part.
fn push_part(data: &mut Vec<u8>, part: &Part, boundary: &str)
    ensures
        final(data)@ == old(data)@ + part_bytes(part_view(*part), boundary@),
{
    let a = part_lead_exec(part.name.as_str(), boundary);
    let b = filename_exec(&part.filename);
    let c = content_type_exec(&part.content_type);
    let mut v: Vec<u8> = Vec::new();
    push_all(&mut v, a.as_slice());
    push_all(&mut v, b.as_slice());
    push_all(&mut v, "\r\n".as_bytes());
    push_all(&mut v, c.as_slice());
    push_all(&mut v, "\r\n".as_bytes());
    push_all(&mut v, part.body.data.as_slice());
    assert(v@ == part_bytes(part_view(*part), boundary@));
    push_all(data, v.as_slice());
}

impl Body {
    /// The multipart body of `parts` with the given boundary: each part as
    /// its boundary line, head lines, a blank line and its body, then the
    /// closing `--boundary--` line.
    pub fn from_multipart(parts: Vec<Part>, boundary: String) -> (r: Body)
        ensures
            r.data@ == multipart_bytes(parts_view(parts@), boundary@),
    {
        let mut data: Vec<u8> = Vec::new();
        let mut i: usize = 0;
        while i < parts.len()
            invariant
                i <= parts@.len(),
                data@ == parts_bytes(parts_view(parts@).take(i as int), boundary@),
            decreases parts@.len() - i,
        {
            let ghost before = data@;
            push_part(&mut data, &parts[i], boundary.as_str());
            assert(parts_view(parts@).take(i + 1).drop_last() == parts_view(parts@).take(i as int));
            assert(parts_view(parts@).take(i + 1).last() == part_view(parts@[i as int]));
            i = i + 1;
        }
        assert(parts_view(parts@).take(i as int) == parts_view(parts@));
        push_all(&mut data, "--".as_bytes());
        push_all(&mut data, boundary.as_str().as_bytes());
        push_all(&mut data, "--\r\n".as_bytes());
        Body { data }
    }
}

/// Pairs of byte vectors as plain values.
pub open spec fn byte_pair_view(e: (Vec<u8>, Vec<u8>)) -> (Seq<u8>, Seq<u8>) {
    (e.0@, e.1@)
}

/// Sequences of pairs of byte vectors as plain values.
pub open spec fn byte_pairs_view(v: Seq<(Vec<u8>, Vec<u8>)>) -> Seq<(Seq<u8>, Seq<u8>)> {
    v.map_values(|e: (Vec<u8>, Vec<u8>)| byte_pair_view(e))
}

/// The `name: value` pairs among a part's head lines.
fn head_pairs_exec(lines: &Vec<Vec<u8>>) -> (r: Vec<(Vec<u8>, Vec<u8>)>)
    ensures
        byte_pairs_view(r@) == head_pairs(views(lines@)),
{
    let sep = ": ".as_bytes();
    let mut r: Vec<(Vec<u8>, Vec<u8>)> = Vec::new();
    let mut i: usize = 0;
    while i < lines.len()
        invariant
            i <= lines@.len(),
            sep@ == utf8(": "@),
            byte_pairs_view(r@) == head_pairs(views(lines@).take(i as int)),
        decreases lines@.len() - i,
    {
        let line = &lines[i];
        assert(views(lines@).take(i + 1).drop_last() == views(lines@).take(i as int));
        assert(views(lines@).take(i + 1).last() == line@);
        proof {
            lemma_find_from(line@, sep@, 0);
        }
        match find_bytes(line.as_slice(), sep, 0) {
            Some(k) => {
                let n = line.len();
                let key = copy_range(line.as_slice(), 0, k);
                let value = copy_range(line.as_slice(), k + sep.len(), n);
                let ghost before = r@;
                r.push((key, value));
                assert(byte_pairs_view(r@) =~= byte_pairs_view(before).push(byte_pair_view((key, value))));
            },
            None => {},
        }
        i = i + 1;
    }
    assert(views(lines@).take(i as int) == views(lines@));
    r
}

/// The value of the first head pair named `name`, without regard to ASCII
/// case.
fn head_value_exec(pairs: &Vec<(Vec<u8>, Vec<u8>)>, name: &[u8]) -> (r: Option<Vec<u8>>)
    ensures
        match head_value(byte_pairs_view(pairs@), name@) {
            Some(v) => r matches Some(x) && x@ == v,
            None => r is None,
        },
{
    let mut i: usize = 0;
    assert(byte_pairs_view(pairs@).skip(0) == byte_pairs_view(pairs@));
    while i < pairs.len()
        invariant
            i <= pairs@.len(),
            head_value(byte_pairs_view(pairs@), name@) == head_value(
                byte_pairs_view(pairs@).skip(i as int),
                name@,
            ),
        decreases pairs@.len() - i,
    {
        let ghost rest = byte_pairs_view(pairs@).skip(i as int);
        assert(rest[0] == byte_pair_view(pairs@[i as int]));
        assert(rest.drop_first() == byte_pairs_view(pairs@).skip(i + 1));
        if eq_ignore_ascii_case(pairs[i].0.as_slice(), name) {
            let v = copy_range(pairs[i].1.as_slice(), 0, pairs[i].1.len());
            return Some(v);
        }
        i = i + 1;
    }
    None
}

/// `s` without one closing quote.
fn unquote_exec(s: &[u8]) -> (r: Vec<u8>)
    ensures
        r@ == unquote(s@),
{
    let n = s.len();
    if n > 0 && s[n - 1] == 34 {
        copy_range(s, 0, n - 1)
    } else {
        copy_range(s, 0, n)
    }
}

/// The value of the first item that, trimmed, starts with `prefix`.
fn param_value_exec(items: &Vec<Vec<u8>>, prefix: &[u8]) -> (r: Option<Vec<u8>>)
    ensures
        match param_value(views(items@), prefix@) {
            Some(v) => r matches Some(x) && x@ == v,
            None => r is None,
        },
{
    let mut i: usize = 0;
    assert(views(items@).skip(0) == views(items@));
    while i < items.len()
        invariant
            i <= items@.len(),
            param_value(views(items@), prefix@) == param_value(views(items@).skip(i as int), prefix@),
        decreases items@.len() - i,
    {
        let ghost rest = views(items@).skip(i as int);
        assert(rest[0] == items@[i as int]@);
        assert(rest.drop_first() == views(items@).skip(i + 1));
        let t = trim_ascii(items[i].as_slice());
        if crate::bytes::matches_at_exec(t.as_slice(), prefix, 0) {
            let n = t.len();
            let tail = copy_range(t.as_slice(), prefix.len(), n);
            assert(tail@ == trim_spec(items@[i as int]@).skip(prefix@.len() as int));
            return Some(unquote_exec(tail.as_slice()));
        }
        i = i + 1;
    }
    None
}

/// Optional bytes as text, where they are UTF-8.
fn opt_text_exec(o: Option<Vec<u8>>) -> (r: Option<String>)
    ensures
        opt_view(r) == opt_text(match o {
            Some(v) => Some(v@),
            None => None,
        }),
{
    match o {
        Some(v) => utf8_decode(v),
        None => None,
    }
}

/// The part that a piece between two boundaries holds.
fn parse_part_exec(seg: &[u8]) -> (r: Option<Part>)
    ensures
        match parse_part(seg@) {
            Some(p) => r matches Some(x) && part_view(x) == p,
            None => r is None,
        },
{
    let blank = "\r\n\r\n".as_bytes();
    let (head, body) = crate::bytes::split_bytes_once(seg, blank);
    assert(head@ == head_and_body(seg@).0 && body@ == head_and_body(seg@).1);
    let crlf = "\r\n".as_bytes();
    proof {
        reveal_strlit("\r\n");
        assert(crlf@.len() > 0);
    }
    let lines = split_bytes(head.as_slice(), crlf);
    let pairs = head_pairs_exec(&lines);
    match head_value_exec(&pairs, "content-disposition".as_bytes()) {
        None => None,
        Some(cd) => {
            let semi = ";".as_bytes();
            proof {
                reveal_strlit(";");
                assert(semi@.len() > 0);
            }
            let items = split_bytes(cd.as_slice(), semi);
            match param_value_exec(&items, "name=\"".as_bytes()) {
                None => None,
                Some(n) => match utf8_decode(n) {
                    None => None,
                    Some(name) => {
                        let filename = opt_text_exec(param_value_exec(&items, "filename=\"".as_bytes()));
                        let content_type = opt_text_exec(head_value_exec(&pairs, "content-type".as_bytes()));
                        Some(Part { name, body: Body { data: body }, filename, content_type })
                    },
                },
            }
        },
    }
}

impl Body {
    /// The parts of this multipart body with the given boundary: the pieces
    /// between the `--boundary` marks, each read as a part; a piece without a
    /// `Content-Disposition` head line that has a `name="..."` item is passed
    /// over.
    pub fn as_multipart(&self, boundary: String) -> (r: Vec<Part>)
        ensures
            parts_view(r@) == multipart_parts(self.data@, boundary@),
    {
        let mut sep: Vec<u8> = Vec::new();
        push_all(&mut sep, "--".as_bytes());
        push_all(&mut sep, boundary.as_str().as_bytes());
        proof {
            reveal_strlit("--");
            assert(sep@.len() > 0);
        }
        let segs = split_bytes(self.data.as_slice(), sep.as_slice());
        let mut parts: Vec<Part> = Vec::new();
        let mut i: usize = 0;
        while i < segs.len()
            invariant
                i <= segs@.len(),
                views(segs@) == split_all(self.data@, utf8("--"@) + utf8(boundary@)),
                parts_view(parts@) == parse_parts(views(segs@).take(i as int)),
            decreases segs@.len() - i,
        {
            assert(views(segs@).take(i + 1).drop_last() == views(segs@).take(i as int));
            assert(views(segs@).take(i + 1).last() == segs@[i as int]@);
            match parse_part_exec(segs[i].as_slice()) {
                Some(p) => {
                    let ghost before = parts@;
                    parts.push(p);
                    assert(parts_view(parts@) =~= parts_view(before).push(part_view(p)));
                },
                None => {},
            }
            i = i + 1;
        }
        assert(views(segs@).take(i as int) == views(segs@));
        parts
    }
}

/// The number of characters a multipart boundary draws from.
pub const BOUNDARY_ALPHABET_LEN: usize = 74;

/// The character at position `i` of the boundary alphabet: ASCII letters,
/// digits, and `'()+_,-./:=?`.
pub open spec fn boundary_char(i: int) -> u8 {
    if i < 26 {
        (97 + i) as u8
    } else if i < 52 {
        (65 + i - 26) as u8
    } else if i < 62 {
        (48 + i - 52) as u8
    } else {
        let symbols = seq![39u8, 40u8, 41u8, 43u8, 95u8, 44u8, 45u8, 46u8, 47u8, 58u8, 61u8, 63u8];
        symbols[i - 62]
    }
}

/// A character of the boundary alphabet.
pub open spec fn is_boundary_char(c: char) -> bool {
    exists|i: int| 0 <= i < 74 && c == #[trigger] boundary_char(i) as char
}

/// Relies on `rand::thread_rng` and `Rng::gen_range`: a number drawn from
/// `lo` up to but not including `hi`.
#[verifier::external_body]
fn random_in(lo: usize, hi: usize) -> (r: usize)
    requires
        lo < hi,
    ensures
        lo <= r < hi,
{
    rand::Rng::gen_range(&mut rand::thread_rng(), lo..hi)
}

/// The character at position `i` of the boundary alphabet.
fn boundary_char_exec(i: usize) -> (r: u8)
    requires
        i < 74,
    ensures
        r == boundary_char(i as int),
        r < 128,
{
    if i < 26 {
        (97 + i) as u8
    } else if i < 52 {
        (65 + i - 26) as u8
    } else if i < 62 {
        (48 + i - 52) as u8
    } else {
        let symbols: [u8; 12] = [39u8, 40u8, 41u8, 43u8, 95u8, 44u8, 45u8, 46u8, 47u8, 58u8, 61u8, 63u8];
        assert(symbols@ == seq![39u8, 40u8, 41u8, 43u8, 95u8, 44u8, 45u8, 46u8, 47u8, 58u8, 61u8, 63u8]);
        symbols[i - 62]
    }
}

/// A random multipart boundary: 20 to 39 characters drawn from ASCII
/// letters, digits and `'()+_,-./:=?`.
pub fn gen_multipart_boundary() -> (r: String)
    ensures
        20 <= r@.len() < 40,
        forall|i: int| 0 <= i < r@.len() ==> is_boundary_char(#[trigger] r@[i]),
{
    let n = random_in(20, 40);
    let mut bytes: Vec<u8> = Vec::new();
    let ghost mut chars: Seq<char> = seq![];
    while bytes.len() < n
        invariant
            bytes@.len() <= n < 40,
            chars.len() == bytes@.len(),
            forall|j: int| 0 <= j < chars.len() ==> #[trigger] chars[j] as u8 == bytes@[j] && (chars[j] as u32) < 128,
            forall|j: int| 0 <= j < chars.len() ==> is_boundary_char(#[trigger] chars[j]),
        decreases n - bytes@.len(),
    {
        let k = random_in(0, BOUNDARY_ALPHABET_LEN);
        let b = boundary_char_exec(k);
        bytes.push(b);
        proof {
            assert(is_boundary_char(b as char));
            chars = chars.push(b as char);
        }
    }
    proof {
        assert(vstd::utf8::is_ascii_chars(chars));
        vstd::utf8::is_ascii_chars_encode_utf8(chars);
        assert(encode_utf8(chars) =~= bytes@);
    }
    crate::text::string_of_utf8(bytes)
}

/// The value of the first `;` separated item that, trimmed, starts with
/// `prefix`: what follows the prefix.
pub open spec fn prefixed_value(items: Seq<Seq<u8>>, prefix: Seq<u8>) -> Option<Seq<u8>>
    decreases items.len(),
{
    if items.len() == 0 {
        None
    } else if matches_at(trim_spec(items[0]), prefix, 0) {
        Some(trim_spec(items[0]).skip(prefix.len() as int))
    } else {
        prefixed_value(items.drop_first(), prefix)
    }
}

/// The boundary that a `Content-Type` value gives: its `boundary=` item.
pub open spec fn boundary_of(content_type: Option<Seq<char>>) -> Option<Seq<char>> {
    match content_type {
        Some(ct) => opt_text(prefixed_value(split_all(utf8(ct), utf8(";"@)), utf8("boundary="@))),
        None => None,
    }
}

/// The boundary that a `Content-Type` value gives.
pub fn boundary_exec(ct: &str) -> (r: Option<String>)
    ensures
        opt_view(r) == boundary_of(Some(ct@)),
{
    {
        {
            let b = bytes_of(ct);
            let semi = ";".as_bytes();
            proof {
                reveal_strlit(";");
                assert(semi@.len() > 0);
            }
            let items = split_bytes(b.as_slice(), semi);
            let prefix = "boundary=".as_bytes();
            let mut i: usize = 0;
            assert(views(items@).skip(0) == views(items@));
            while i < items.len()
                invariant
                    i <= items@.len(),
                    prefix@ == utf8("boundary="@),
                    views(items@) == split_all(utf8(ct@), utf8(";"@)),
                    prefixed_value(views(items@), prefix@) == prefixed_value(
                        views(items@).skip(i as int),
                        prefix@,
                    ),
                decreases items@.len() - i,
            {
                let ghost rest = views(items@).skip(i as int);
                assert(rest[0] == items@[i as int]@);
                assert(rest.drop_first() == views(items@).skip(i + 1));
                let t = trim_ascii(items[i].as_slice());
                if crate::bytes::matches_at_exec(t.as_slice(), prefix, 0) {
                    let n = t.len();
                    let tail = copy_range(t.as_slice(), prefix.len(), n);
                    assert(tail@ == trim_spec(items@[i as int]@).skip(prefix@.len() as int));
                    assert(prefixed_value(rest, prefix@) == Some(tail@));
                    assert(boundary_of(Some(ct@)) == opt_text(Some(tail@)));
                    let ghost tv = tail@;
                    let res = opt_text_exec(Some(tail));
                    assert(opt_view(res) == opt_text(Some(tv)));
                    return res;
                }
                i = i + 1;
            }
            None
        }
    }
}

/// A body that declares more bytes in `Content-Length` than the stream holds
/// fails with `InvalidContent`; it is never cut short.
pub proof fn lemma_short_body_fails(p: Seq<u8>, h: Seq<HeaderView>, v: Seq<char>, n: nat)
    requires
        value_of(h, "content-length"@) == Some(v),
        unsigned_value(encode_utf8(v), 10) == Some(n),
        n <= usize::MAX,
        p.len() < n,
    ensures
        recv_body(p, h).0 == Err::<Seq<u8>, HttpError>(HttpError::InvalidContent),
{
}

/// A sequence without the byte `c`.
pub open spec fn lacks(s: Seq<u8>, c: u8) -> bool {
    forall|i: int| 0 <= i < s.len() ==> #[trigger] s[i] != c
}

/// The bytes of the texts in a part's head.
proof fn lemma_head_literals()
    ensures
        utf8("\r\nContent-Disposition: form-data; name=\""@) == seq![13u8, 10u8, 67u8, 111u8, 110u8, 116u8, 101u8, 110u8, 116u8, 45u8, 68u8, 105u8, 115u8, 112u8, 111u8, 115u8, 105u8, 116u8, 105u8, 111u8, 110u8, 58u8, 32u8, 102u8, 111u8, 114u8, 109u8, 45u8, 100u8, 97u8, 116u8, 97u8, 59u8, 32u8, 110u8, 97u8, 109u8, 101u8, 61u8, 34u8],
        utf8("Content-Disposition"@) == seq![67u8, 111u8, 110u8, 116u8, 101u8, 110u8, 116u8, 45u8, 68u8, 105u8, 115u8, 112u8, 111u8, 115u8, 105u8, 116u8, 105u8, 111u8, 110u8],
        utf8("form-data; name=\""@) == seq![102u8, 111u8, 114u8, 109u8, 45u8, 100u8, 97u8, 116u8, 97u8, 59u8, 32u8, 110u8, 97u8, 109u8, 101u8, 61u8, 34u8],
        utf8("form-data"@) == seq![102u8, 111u8, 114u8, 109u8, 45u8, 100u8, 97u8, 116u8, 97u8],
        utf8("; filename=\""@) == seq![59u8, 32u8, 102u8, 105u8, 108u8, 101u8, 110u8, 97u8, 109u8, 101u8, 61u8, 34u8],
        utf8("Content-Type: "@) == seq![67u8, 111u8, 110u8, 116u8, 101u8, 110u8, 116u8, 45u8, 84u8, 121u8, 112u8, 101u8, 58u8, 32u8],
        utf8("Content-Type"@) == seq![67u8, 111u8, 110u8, 116u8, 101u8, 110u8, 116u8, 45u8, 84u8, 121u8, 112u8, 101u8],
        utf8("name=\""@) == seq![110u8, 97u8, 109u8, 101u8, 61u8, 34u8],
        utf8("filename=\""@) == seq![102u8, 105u8, 108u8, 101u8, 110u8, 97u8, 109u8, 101u8, 61u8, 34u8],
        utf8("content-disposition"@) == seq![99u8, 111u8, 110u8, 116u8, 101u8, 110u8, 116u8, 45u8, 100u8, 105u8, 115u8, 112u8, 111u8, 115u8, 105u8, 116u8, 105u8, 111u8, 110u8],
        utf8("content-type"@) == seq![99u8, 111u8, 110u8, 116u8, 101u8, 110u8, 116u8, 45u8, 116u8, 121u8, 112u8, 101u8],
        utf8("\""@) == seq![34u8],
        utf8("\r\n"@) == seq![13u8, 10u8],
        utf8("\r\n\r\n"@) == seq![13u8, 10u8, 13u8, 10u8],
        utf8(": "@) == seq![58u8, 32u8],
        utf8(";"@) == seq![59u8],
{
    reveal_strlit("\r\nContent-Disposition: form-data; name=\"");
    assert(vstd::utf8::is_ascii_chars("\r\nContent-Disposition: form-data; name=\""@));
    vstd::utf8::is_ascii_chars_encode_utf8("\r\nContent-Disposition: form-data; name=\""@);
    assert(utf8("\r\nContent-Disposition: form-data; name=\""@) =~= seq![13u8, 10u8, 67u8, 111u8, 110u8, 116u8, 101u8, 110u8, 116u8, 45u8, 68u8, 105u8, 115u8, 112u8, 111u8, 115u8, 105u8, 116u8, 105u8, 111u8, 110u8, 58u8, 32u8, 102u8, 111u8, 114u8, 109u8, 45u8, 100u8, 97u8, 116u8, 97u8, 59u8, 32u8, 110u8, 97u8, 109u8, 101u8, 61u8, 34u8]);
    reveal_strlit("Content-Disposition");
    assert(vstd::utf8::is_ascii_chars("Content-Disposition"@));
    vstd::utf8::is_ascii_chars_encode_utf8("Content-Disposition"@);
    assert(utf8("Content-Disposition"@) =~= seq![67u8, 111u8, 110u8, 116u8, 101u8, 110u8, 116u8, 45u8, 68u8, 105u8, 115u8, 112u8, 111u8, 115u8, 105u8, 116u8, 105u8, 111u8, 110u8]);
    reveal_strlit("form-data; name=\"");
    assert(vstd::utf8::is_ascii_chars("form-data; name=\""@));
    vstd::utf8::is_ascii_chars_encode_utf8("form-data; name=\""@);
    assert(utf8("form-data; name=\""@) =~= seq![102u8, 111u8, 114u8, 109u8, 45u8, 100u8, 97u8, 116u8, 97u8, 59u8, 32u8, 110u8, 97u8, 109u8, 101u8, 61u8, 34u8]);
    reveal_strlit("form-data");
    assert(vstd::utf8::is_ascii_chars("form-data"@));
    vstd::utf8::is_ascii_chars_encode_utf8("form-data"@);
    assert(utf8("form-data"@) =~= seq![102u8, 111u8, 114u8, 109u8, 45u8, 100u8, 97u8, 116u8, 97u8]);
    reveal_strlit("; filename=\"");
    assert(vstd::utf8::is_ascii_chars("; filename=\""@));
    vstd::utf8::is_ascii_chars_encode_utf8("; filename=\""@);
    assert(utf8("; filename=\""@) =~= seq![59u8, 32u8, 102u8, 105u8, 108u8, 101u8, 110u8, 97u8, 109u8, 101u8, 61u8, 34u8]);
    reveal_strlit("Content-Type: ");
    assert(vstd::utf8::is_ascii_chars("Content-Type: "@));
    vstd::utf8::is_ascii_chars_encode_utf8("Content-Type: "@);
    assert(utf8("Content-Type: "@) =~= seq![67u8, 111u8, 110u8, 116u8, 101u8, 110u8, 116u8, 45u8, 84u8, 121u8, 112u8, 101u8, 58u8, 32u8]);
    reveal_strlit("Content-Type");
    assert(vstd::utf8::is_ascii_chars("Content-Type"@));
    vstd::utf8::is_ascii_chars_encode_utf8("Content-Type"@);
    assert(utf8("Content-Type"@) =~= seq![67u8, 111u8, 110u8, 116u8, 101u8, 110u8, 116u8, 45u8, 84u8, 121u8, 112u8, 101u8]);
    reveal_strlit("name=\"");
    assert(vstd::utf8::is_ascii_chars("name=\""@));
    vstd::utf8::is_ascii_chars_encode_utf8("name=\""@);
    assert(utf8("name=\""@) =~= seq![110u8, 97u8, 109u8, 101u8, 61u8, 34u8]);
    reveal_strlit("filename=\"");
    assert(vstd::utf8::is_ascii_chars("filename=\""@));
    vstd::utf8::is_ascii_chars_encode_utf8("filename=\""@);
    assert(utf8("filename=\""@) =~= seq![102u8, 105u8, 108u8, 101u8, 110u8, 97u8, 109u8, 101u8, 61u8, 34u8]);
    reveal_strlit("content-disposition");
    assert(vstd::utf8::is_ascii_chars("content-disposition"@));
    vstd::utf8::is_ascii_chars_encode_utf8("content-disposition"@);
    assert(utf8("content-disposition"@) =~= seq![99u8, 111u8, 110u8, 116u8, 101u8, 110u8, 116u8, 45u8, 100u8, 105u8, 115u8, 112u8, 111u8, 115u8, 105u8, 116u8, 105u8, 111u8, 110u8]);
    reveal_strlit("content-type");
    assert(vstd::utf8::is_ascii_chars("content-type"@));
    vstd::utf8::is_ascii_chars_encode_utf8("content-type"@);
    assert(utf8("content-type"@) =~= seq![99u8, 111u8, 110u8, 116u8, 101u8, 110u8, 116u8, 45u8, 116u8, 121u8, 112u8, 101u8]);
    reveal_strlit("\"");
    assert(vstd::utf8::is_ascii_chars("\""@));
    vstd::utf8::is_ascii_chars_encode_utf8("\""@);
    assert(utf8("\""@) =~= seq![34u8]);
    reveal_strlit("\r\n");
    assert(vstd::utf8::is_ascii_chars("\r\n"@));
    vstd::utf8::is_ascii_chars_encode_utf8("\r\n"@);
    assert(utf8("\r\n"@) =~= seq![13u8, 10u8]);
    reveal_strlit("\r\n\r\n");
    assert(vstd::utf8::is_ascii_chars("\r\n\r\n"@));
    vstd::utf8::is_ascii_chars_encode_utf8("\r\n\r\n"@);
    assert(utf8("\r\n\r\n"@) =~= seq![13u8, 10u8, 13u8, 10u8]);
    reveal_strlit(": ");
    assert(vstd::utf8::is_ascii_chars(": "@));
    vstd::utf8::is_ascii_chars_encode_utf8(": "@);
    assert(utf8(": "@) =~= seq![58u8, 32u8]);
    reveal_strlit(";");
    assert(vstd::utf8::is_ascii_chars(";"@));
    vstd::utf8::is_ascii_chars_encode_utf8(";"@);
    assert(utf8(";"@) =~= seq![59u8]);
}

/// A part's name, file name and content type can stand in its head: none
/// holds a carriage return, and the name and file name hold no `;`.
pub open spec fn part_valid(p: PartView) -> bool {
    &&& lacks(utf8(p.0), 13) && lacks(utf8(p.0), 59)
    &&& (p.2 matches Some(f) ==> lacks(utf8(f), 13) && lacks(utf8(f), 59))
    &&& (p.3 matches Some(t) ==> lacks(utf8(t), 13))
}

/// The bytes of a part after its boundary mark.
pub open spec fn part_rest_bytes(p: PartView) -> Seq<u8> {
    utf8("\r\nContent-Disposition: form-data; name=\""@) + utf8(p.0) + utf8("\""@) + filename_bytes(p.2)
        + utf8("\r\n"@) + content_type_bytes(p.3) + utf8("\r\n"@) + p.1
}

/// The value of a part's `Content-Disposition` line.
pub open spec fn cd_value(p: PartView) -> Seq<u8> {
    utf8("form-data; name=\""@) + utf8(p.0) + utf8("\""@) + filename_bytes(p.2)
}

/// A part's `Content-Disposition` line.
pub open spec fn cd_line(p: PartView) -> Seq<u8> {
    utf8("Content-Disposition"@) + utf8(": "@) + cd_value(p)
}

/// A part's `Content-Type` line.
pub open spec fn ct_line(t: Seq<char>) -> Seq<u8> {
    utf8("Content-Type"@) + utf8(": "@) + utf8(t)
}

/// A part's head: its lines after the boundary mark, up to the blank line.
pub open spec fn head_bytes(p: PartView) -> Seq<u8> {
    utf8("\r\n"@) + cd_line(p) + match p.3 {
        Some(t) => utf8("\r\n"@) + ct_line(t),
        None => Seq::<u8>::empty(),
    }
}

/// The lines of a part's head.
pub open spec fn head_lines(p: PartView) -> Seq<Seq<u8>> {
    match p.3 {
        Some(t) => seq![Seq::<u8>::empty(), cd_line(p), ct_line(t)],
        None => seq![Seq::<u8>::empty(), cd_line(p)],
    }
}

/// Two sequences without a byte make a concatenation without it.
pub proof fn lemma_lacks_concat(a: Seq<u8>, b: Seq<u8>, c: u8)
    requires
        lacks(a, c),
        lacks(b, c),
    ensures
        lacks(a + b, c),
{
    assert forall|i: int| 0 <= i < (a + b).len() implies #[trigger] (a + b)[i] != c by {
        if i < a.len() {
            assert((a + b)[i] == a[i]);
        } else {
            assert((a + b)[i] == b[i - a.len()]);
        }
    }
}

/// The lines of a part's head hold no carriage return.
proof fn lemma_lines_lack_cr(p: PartView)
    requires
        part_valid(p),
    ensures
        lacks(cd_line(p), 13),
        p.3 matches Some(t) ==> lacks(ct_line(t), 13),
        cd_line(p).len() > 2 && cd_line(p)[0] == 67,
        p.3 matches Some(t) ==> ct_line(t).len() > 2 && ct_line(t)[0] == 67,
{
    lemma_head_literals();
    let fb = filename_bytes(p.2);
    match p.2 {
        Some(f) => {
            lemma_lacks_concat(utf8("; filename=\""@), utf8(f), 13);
            lemma_lacks_concat(utf8("; filename=\""@) + utf8(f), utf8("\""@), 13);
        },
        None => {},
    }
    assert(lacks(fb, 13));
    lemma_lacks_concat(utf8("form-data; name=\""@), utf8(p.0), 13);
    lemma_lacks_concat(utf8("form-data; name=\""@) + utf8(p.0), utf8("\""@), 13);
    lemma_lacks_concat(utf8("form-data; name=\""@) + utf8(p.0) + utf8("\""@), fb, 13);
    lemma_lacks_concat(utf8("Content-Disposition"@), utf8(": "@), 13);
    lemma_lacks_concat(utf8("Content-Disposition"@) + utf8(": "@), cd_value(p), 13);
    match p.3 {
        Some(t) => {
            lemma_lacks_concat(utf8("Content-Type"@), utf8(": "@), 13);
            lemma_lacks_concat(utf8("Content-Type"@) + utf8(": "@), utf8(t), 13);
        },
        None => {},
    }
}

/// A part after its boundary mark is its head, a blank line and its body.
proof fn lemma_part_rest_shape(p: PartView)
    ensures
        part_rest_bytes(p) == head_bytes(p) + utf8("\r\n\r\n"@) + p.1,
{
    lemma_head_literals();
    assert(utf8("\r\nContent-Disposition: form-data; name=\""@) =~= utf8("\r\n"@) + utf8(
        "Content-Disposition"@,
    ) + utf8(": "@) + utf8("form-data; name=\""@));
    assert(utf8("\r\n\r\n"@) =~= utf8("\r\n"@) + utf8("\r\n"@));
    match p.3 {
        Some(t) => {
            assert(utf8("Content-Type: "@) =~= utf8("Content-Type"@) + utf8(": "@));
        },
        None => {},
    }
    assert(part_rest_bytes(p) =~= head_bytes(p) + utf8("\r\n\r\n"@) + p.1);
}

/// The blank line after a part's head is the first one.
proof fn lemma_head_and_body(p: PartView)
    requires
        part_valid(p),
    ensures
        head_and_body(part_rest_bytes(p)) == (head_bytes(p), p.1),
{
    lemma_head_literals();
    lemma_part_rest_shape(p);
    lemma_lines_lack_cr(p);
    let h = head_bytes(p);
    let sep = utf8("\r\n\r\n"@);
    let t = part_rest_bytes(p);
    let l1 = cd_line(p);
    assert(t.subrange(h.len() as int, h.len() + 4 as int) =~= sep);
    assert forall|j: int| 0 <= j < h.len() implies !#[trigger] crate::bytes::matches_at(t, sep, j) by {
        assert(t[j] == h[j]);
        if h[j] != 13 {
            crate::bytes::lemma_no_match_without_first(t, sep, j);
        } else {
            if j < 2 {
                assert(j == 0);
                assert(t[2] == l1[0]);
            } else if j < 2 + l1.len() {
                assert(h[j] == l1[j - 2]);
            } else {
                match p.3 {
                    Some(ct) => {
                        let l2 = ct_line(ct);
                        if j == 2 + l1.len() {
                            assert(t[j + 2] == l2[0]);
                        } else if j == 3 + l1.len() {
                        } else {
                            assert(h[j] == l2[j - 4 - l1.len()]);
                        }
                    },
                    None => {},
                }
            }
            if crate::bytes::matches_at(t, sep, j) {
                assert(t.subrange(j, j + 4)[2] == t[j + 2]);
            }
        }
    }
    crate::bytes::lemma_find_first_at(t, sep, h.len() as int);
    assert(t.subrange(0, h.len() as int) == h);
    assert(t.subrange(h.len() + 4 as int, t.len() as int) == p.1);
}

/// The head pairs of a part.
pub open spec fn pairs_of(p: PartView) -> Seq<(Seq<u8>, Seq<u8>)> {
    match p.3 {
        Some(t) => seq![(utf8("Content-Disposition"@), cd_value(p)), (utf8("Content-Type"@), utf8(t))],
        None => seq![(utf8("Content-Disposition"@), cd_value(p))],
    }
}

/// The name item of a part's `Content-Disposition` value.
pub open spec fn name_item(p: PartView) -> Seq<u8> {
    seq![32u8] + utf8("name=\""@) + utf8(p.0) + utf8("\""@)
}

/// The file name item of a part's `Content-Disposition` value.
pub open spec fn filename_item(f: Seq<char>) -> Seq<u8> {
    seq![32u8] + utf8("filename=\""@) + utf8(f) + utf8("\""@)
}

/// The `;` separated items of a part's `Content-Disposition` value.
pub open spec fn items_of(p: PartView) -> Seq<Seq<u8>> {
    match p.2 {
        Some(f) => seq![utf8("form-data"@), name_item(p), filename_item(f)],
        None => seq![utf8("form-data"@), name_item(p)],
    }
}

/// A part's head splits into an empty line and its head lines.
proof fn lemma_head_lines(p: PartView)
    requires
        part_valid(p),
    ensures
        split_all(head_bytes(p), utf8("\r\n"@)) == head_lines(p),
{
    lemma_head_literals();
    lemma_lines_lack_cr(p);
    let crlf = utf8("\r\n"@);
    let l1 = cd_line(p);
    match p.3 {
        Some(t) => {
            let l2 = ct_line(t);
            assert(head_bytes(p) == Seq::<u8>::empty() + crlf + (l1 + crlf + l2));
            crate::bytes::lemma_split_prefix(Seq::<u8>::empty(), crlf, l1 + crlf + l2);
            crate::bytes::lemma_split_prefix(l1, crlf, l2);
            crate::bytes::lemma_split_none(l2, crlf);
            assert(head_lines(p) =~= seq![Seq::<u8>::empty()] + (seq![l1] + seq![l2]));
        },
        None => {
            assert(head_bytes(p) =~= Seq::<u8>::empty() + crlf + l1);
            crate::bytes::lemma_split_prefix(Seq::<u8>::empty(), crlf, l1);
            crate::bytes::lemma_split_none(l1, crlf);
            assert(head_lines(p) =~= seq![Seq::<u8>::empty()] + seq![l1]);
        },
    }
}

/// A line `name: value` whose name holds no `:` splits after the name.
proof fn lemma_split_header_line(name: Seq<u8>, value: Seq<u8>)
    requires
        lacks(name, 58),
    ensures
        split_at_first(name + seq![58u8, 32u8] + value, seq![58u8, 32u8]) == Some((name, value)),
{
    let sep = seq![58u8, 32u8];
    let t = name + sep + value;
    assert(t.subrange(name.len() as int, name.len() + 2 as int) =~= sep);
    assert forall|j: int| 0 <= j < name.len() implies !#[trigger] crate::bytes::matches_at(t, sep, j) by {
        assert(t[j] == name[j]);
        crate::bytes::lemma_no_match_without_first(t, sep, j);
    }
    crate::bytes::lemma_find_first_at(t, sep, name.len() as int);
    assert(t.subrange(0, name.len() as int) == name);
    assert(t.subrange(name.len() + 2 as int, t.len() as int) == value);
}

/// A part's head lines give its `Content-Disposition` and `Content-Type`
/// pairs.
proof fn lemma_head_pairs(p: PartView)
    requires
        part_valid(p),
    ensures
        head_pairs(head_lines(p)) == pairs_of(p),
{
    lemma_head_literals();
    let sep = utf8(": "@);
    let e = Seq::<u8>::empty();
    assert(split_at_first(e, sep) is None);
    assert(head_pairs(seq![e]) == head_pairs(Seq::<Seq<u8>>::empty())) by {
        assert(seq![e].drop_last() =~= Seq::<Seq<u8>>::empty());
    }
    let cdn = utf8("Content-Disposition"@);
    lemma_split_header_line(cdn, cd_value(p));
    assert(seq![e, cd_line(p)].drop_last() =~= seq![e]);
    assert(head_pairs(seq![e, cd_line(p)]) =~= seq![(cdn, cd_value(p))]);
    match p.3 {
        Some(t) => {
            let ctn = utf8("Content-Type"@);
            lemma_split_header_line(ctn, utf8(t));
            assert(seq![e, cd_line(p), ct_line(t)].drop_last() =~= seq![e, cd_line(p)]);
            assert(head_pairs(head_lines(p)) =~= pairs_of(p));
        },
        None => {},
    }
}

/// The head names that the encoder writes match the ones the decoder looks
/// for, without regard to ASCII case.
proof fn lemma_fold_names()
    ensures
        eq_ignore_case(utf8("Content-Disposition"@), utf8("content-disposition"@)),
        !eq_ignore_case(utf8("Content-Disposition"@), utf8("content-type"@)),
        eq_ignore_case(utf8("Content-Type"@), utf8("content-type"@)),
{
    lemma_head_literals();
    let a = utf8("Content-Disposition"@);
    let b = utf8("content-disposition"@);
    assert(a =~= b.update(0, 67u8).update(8, 68u8));
    assert forall|i: int| 0 <= i < a.len() implies #[trigger] ascii_lower(a[i]) == ascii_lower(b[i]) by {
        if i != 0 && i != 8 {
            assert(a[i] == b[i]);
        }
    }
    let c = utf8("Content-Type"@);
    let d = utf8("content-type"@);
    assert(c =~= d.update(0, 67u8).update(8, 84u8));
    assert forall|i: int| 0 <= i < c.len() implies #[trigger] ascii_lower(c[i]) == ascii_lower(d[i]) by {
        if i != 0 && i != 8 {
            assert(c[i] == d[i]);
        }
    }
}

/// Looking up a part's head pairs finds its disposition and content type.
proof fn lemma_head_values(p: PartView)
    ensures
        head_value(pairs_of(p), utf8("content-disposition"@)) == Some(cd_value(p)),
        head_value(pairs_of(p), utf8("content-type"@)) == match p.3 {
            Some(t) => Some(utf8(t)),
            None => None::<Seq<u8>>,
        },
{
    lemma_fold_names();
    match p.3 {
        Some(t) => {
            assert(pairs_of(p).drop_first() =~= seq![(utf8("Content-Type"@), utf8(t))]);
            assert(head_value(pairs_of(p).drop_first(), utf8("content-type"@)) == Some(utf8(t)));
        },
        None => {
            assert(pairs_of(p).drop_first() =~= Seq::<(Seq<u8>, Seq<u8>)>::empty());
        },
    }
}

/// A part's disposition value splits into `form-data`, its name item and
/// its file name item.
proof fn lemma_items(p: PartView)
    requires
        part_valid(p),
    ensures
        split_all(cd_value(p), utf8(";"@)) == items_of(p),
{
    lemma_head_literals();
    let semi = utf8(";"@);
    let fd = utf8("form-data"@);
    let ni = name_item(p);
    assert(utf8("form-data; name=\""@) =~= fd + semi + seq![32u8] + utf8("name=\""@));
    lemma_lacks_concat(seq![32u8] + utf8("name=\""@), utf8(p.0), 59);
    lemma_lacks_concat(seq![32u8] + utf8("name=\""@) + utf8(p.0), utf8("\""@), 59);
    assert(lacks(ni, 59));
    assert(lacks(fd, 59));
    match p.2 {
        Some(f) => {
            let fi = filename_item(f);
            assert(utf8("; filename=\""@) =~= semi + seq![32u8] + utf8("filename=\""@));
            assert(cd_value(p) =~= fd + semi + (ni + semi + fi));
            lemma_lacks_concat(seq![32u8] + utf8("filename=\""@), utf8(f), 59);
            lemma_lacks_concat(seq![32u8] + utf8("filename=\""@) + utf8(f), utf8("\""@), 59);
            crate::bytes::lemma_split_prefix(fd, semi, ni + semi + fi);
            crate::bytes::lemma_split_prefix(ni, semi, fi);
            crate::bytes::lemma_split_none(fi, semi);
            assert(items_of(p) =~= seq![fd] + (seq![ni] + seq![fi]));
        },
        None => {
            assert(cd_value(p) =~= fd + semi + ni);
            crate::bytes::lemma_split_prefix(fd, semi, ni);
            crate::bytes::lemma_split_none(ni, semi);
            assert(items_of(p) =~= seq![fd] + seq![ni]);
        },
    }
}

/// An item ` prefix...` trims to `prefix...`.
proof fn lemma_trim_item(prefix: Seq<u8>, rest: Seq<u8>)
    requires
        prefix.len() > 0,
        !is_ascii_space(prefix[0]),
        rest.len() > 0,
        rest.last() == 34,
    ensures
        trim_spec(seq![32u8] + prefix + rest) == prefix + rest,
{
    let s = seq![32u8] + prefix + rest;
    assert(s.drop_first() =~= prefix + rest);
    assert((prefix + rest)[0] == prefix[0]);
    assert(trim_start_spec(prefix + rest) == prefix + rest);
    assert((prefix + rest).last() == 34);
}

/// The bytes of the texts in a `Content-Disposition` value.
proof fn lemma_item_literals()
    ensures
        utf8("name=\""@) == seq![110u8, 97u8, 109u8, 101u8, 61u8, 34u8],
        utf8("filename=\""@) == seq![102u8, 105u8, 108u8, 101u8, 110u8, 97u8, 109u8, 101u8, 61u8, 34u8],
        utf8("form-data"@) == seq![102u8, 111u8, 114u8, 109u8, 45u8, 100u8, 97u8, 116u8, 97u8],
        utf8("\""@) == seq![34u8],
{
    lemma_head_literals();
}

/// The `name="..."` item gives the part's name; neither of the first two
/// items starts with `filename="`.
proof fn lemma_name_param(p: PartView)
    ensures
        param_value(items_of(p), utf8("name=\""@)) == Some(utf8(p.0)),
        !crate::bytes::matches_at(trim_spec(utf8("form-data"@)), utf8("filename=\""@), 0),
        !crate::bytes::matches_at(trim_spec(name_item(p)), utf8("filename=\""@), 0),
{
    lemma_item_literals();
    let np = utf8("name=\""@);
    let fp = utf8("filename=\""@);
    let q = utf8("\""@);
    let fd = utf8("form-data"@);
    assert(trim_start_spec(fd) == fd);
    assert(trim_end_spec(fd) == fd);
    crate::bytes::lemma_no_match_without_first(fd, np, 0);
    assert(!crate::bytes::matches_at(fd, fp, 0));
    lemma_trim_item(np, utf8(p.0) + q);
    assert(name_item(p) =~= seq![32u8] + np + (utf8(p.0) + q));
    let nt = np + (utf8(p.0) + q);
    assert(nt.subrange(0, np.len() as int) =~= np);
    assert(nt.skip(np.len() as int) =~= utf8(p.0) + q);
    assert(unquote(utf8(p.0) + q) =~= utf8(p.0));
    crate::bytes::lemma_no_match_without_first(nt, fp, 0);
    let items = items_of(p);
    assert(items.drop_first()[0] == name_item(p));
    assert(param_value(items.drop_first(), np) == Some(utf8(p.0)));
}

/// The `filename="..."` item gives the part's file name, if it has one.
proof fn lemma_filename_param(p: PartView)
    ensures
        param_value(items_of(p), utf8("filename=\""@)) == match p.2 {
            Some(f) => Some(utf8(f)),
            None => None::<Seq<u8>>,
        },
{
    lemma_name_param(p);
    lemma_item_literals();
    let fp = utf8("filename=\""@);
    let q = utf8("\""@);
    let items = items_of(p);
    assert(items[0] == utf8("form-data"@));
    assert(items.drop_first()[0] == name_item(p));
    match p.2 {
        Some(f) => {
            lemma_trim_item(fp, utf8(f) + q);
            assert(filename_item(f) =~= seq![32u8] + fp + (utf8(f) + q));
            let ft = fp + (utf8(f) + q);
            assert(ft.subrange(0, fp.len() as int) =~= fp);
            assert(ft.skip(fp.len() as int) =~= utf8(f) + q);
            assert(unquote(utf8(f) + q) =~= utf8(f));
            assert(items.drop_first().drop_first() =~= seq![filename_item(f)]);
            assert(param_value(items.drop_first().drop_first(), fp) == Some(utf8(f)));
            assert(param_value(items.drop_first(), fp) == Some(utf8(f)));
        },
        None => {
            assert(items.drop_first().drop_first() =~= Seq::<Seq<u8>>::empty());
            assert(param_value(items.drop_first(), fp) is None);
        },
    }
}

/// A part written after its boundary mark reads back as the same part:
/// name, file name, content type and body.
pub proof fn lemma_part_round_trip(p: PartView)
    requires
        part_valid(p),
    ensures
        parse_part(part_rest_bytes(p)) == Some(p),
{
    lemma_head_literals();
    lemma_head_and_body(p);
    lemma_head_lines(p);
    lemma_head_pairs(p);
    lemma_head_values(p);
    lemma_items(p);
    lemma_name_param(p);
    lemma_filename_param(p);
}

/// A piece that holds no head line names no part.
proof fn lemma_no_part(seg: Seq<u8>)
    requires
        lacks(seg, 58),
    ensures
        parse_part(seg) is None,
{
    lemma_head_literals();
    let (head, body) = head_and_body(seg);
    crate::bytes::lemma_find_from(seg, utf8("\r\n\r\n"@), 0);
    match split_at_first(seg, utf8("\r\n\r\n"@)) {
        Some((h, b)) => {
            assert(h == seg.subrange(0, h.len() as int));
        },
        None => {},
    }
    assert(lacks(head, 58));
    let lines = split_all(head, utf8("\r\n"@));
    lemma_pieces_lack(head, utf8("\r\n"@), 58, 0);
    lemma_no_pairs(lines);
}

/// Pieces of a sequence without a byte lack that byte too.
proof fn lemma_pieces_lack(s: Seq<u8>, sep: Seq<u8>, c: u8, start: int)
    requires
        lacks(s, c),
        0 <= start,
    ensures
        forall|i: int| 0 <= i < split_from(s, sep, start).len() ==> lacks(#[trigger] split_from(s, sep, start)[i], c),
    decreases s.len() - start,
{
    if sep.len() > 0 && start <= s.len() {
        crate::bytes::lemma_find_from(s, sep, start);
        match find_from(s, sep, start) {
            Some(i) => {
                lemma_pieces_lack(s, sep, c, i + sep.len());
                let first = s.subrange(start, i);
                assert(lacks(first, c)) by {
                    assert forall|k: int| 0 <= k < first.len() implies #[trigger] first[k] != c by {
                        assert(first[k] == s[start + k]);
                    }
                }
                let rest = split_from(s, sep, i + sep.len());
                assert forall|k: int| 0 <= k < (seq![first] + rest).len() implies lacks(#[trigger] (seq![first] + rest)[k], c) by {
                    if k > 0 {
                        assert((seq![first] + rest)[k] == rest[k - 1]);
                    }
                }
            },
            None => {
                let last = s.subrange(start, s.len() as int);
                assert forall|k: int| 0 <= k < last.len() implies #[trigger] last[k] != c by {
                    assert(last[k] == s[start + k]);
                }
            },
        }
    }
}

/// Lines without `:` give no `name: value` pairs.
proof fn lemma_no_pairs(lines: Seq<Seq<u8>>)
    requires
        forall|i: int| 0 <= i < lines.len() ==> lacks(#[trigger] lines[i], 58),
    ensures
        head_pairs(lines) == Seq::<(Seq<u8>, Seq<u8>)>::empty(),
    decreases lines.len(),
{
    lemma_head_literals();
    if lines.len() > 0 {
        assert forall|i: int| 0 <= i < lines.drop_last().len() implies lacks(#[trigger] lines.drop_last()[i], 58) by {
            assert(lines.drop_last()[i] == lines[i]);
        }
        lemma_no_pairs(lines.drop_last());
        let l = lines.last();
        assert(lacks(l, 58));
        crate::bytes::lemma_find_from(l, utf8(": "@), 0);
        match find_from(l, utf8(": "@), 0) {
            Some(j) => {
                crate::bytes::lemma_no_match_without_first(l, utf8(": "@), j);
            },
            None => {},
        }
    }
}

/// The boundary mark of a multipart body.
pub open spec fn boundary_mark(boundary: Seq<char>) -> Seq<u8> {
    utf8("--"@) + utf8(boundary)
}

/// A one-part multipart body: the mark, the rest of the part, the mark, and
/// the closing `--` line.
proof fn lemma_multipart_shape(p: PartView, boundary: Seq<char>)
    ensures
        part_bytes(p, boundary) == boundary_mark(boundary) + part_rest_bytes(p),
        multipart_bytes(seq![p], boundary) == boundary_mark(boundary) + part_rest_bytes(p)
            + boundary_mark(boundary) + seq![45u8, 45u8, 13u8, 10u8],
{
    reveal_strlit("--\r\n");
    assert(vstd::utf8::is_ascii_chars("--\r\n"@));
    vstd::utf8::is_ascii_chars_encode_utf8("--\r\n"@);
    assert(utf8("--\r\n"@) =~= seq![45u8, 45u8, 13u8, 10u8]);
    assert(part_bytes(p, boundary) =~= boundary_mark(boundary) + part_rest_bytes(p));
    assert(seq![p].drop_last() =~= Seq::<PartView>::empty());
    assert(seq![p].last() == p);
    assert(parts_bytes(Seq::<PartView>::empty(), boundary) == Seq::<u8>::empty());
    assert(parts_bytes(seq![p], boundary) =~= part_bytes(p, boundary));
    assert(multipart_bytes(seq![p], boundary) =~= boundary_mark(boundary) + part_rest_bytes(p)
        + boundary_mark(boundary) + seq![45u8, 45u8, 13u8, 10u8]);
}

/// Marks only at the two boundary lines cut the body into three pieces.
proof fn lemma_multipart_segments(sep: Seq<u8>, rest: Seq<u8>, tail: Seq<u8>)
    requires
        sep.len() > 0,
        forall|i: int|
            #[trigger] crate::bytes::matches_at(sep + rest + sep + tail, sep, i) ==> i == 0 || i == sep.len()
                + rest.len(),
    ensures
        split_all(sep + rest + sep + tail, sep) == seq![Seq::<u8>::empty(), rest, tail],
{
    let data = sep + rest + sep + tail;
    let n = sep.len() as int;
    let m = (sep + rest).len() as int;
    assert(data.subrange(0, n) =~= sep);
    assert(crate::bytes::matches_at(data, sep, 0));
    assert(find_from(data, sep, 0) == Some(0int));
    assert(data.subrange(0, 0) =~= Seq::<u8>::empty());
    assert(data.subrange(m, m + n) =~= sep);
    assert(crate::bytes::matches_at(data, sep, m));
    crate::bytes::lemma_find_from(data, sep, n);
    assert(find_from(data, sep, n) == Some(m));
    assert(data.subrange(n, m) =~= rest);
    crate::bytes::lemma_find_from(data, sep, m + n);
    assert(find_from(data, sep, m + n) is None);
    assert(data.subrange(m + n, data.len() as int) =~= tail);
    assert(split_from(data, sep, m + n) == seq![tail]);
    assert(split_from(data, sep, n) == seq![rest] + seq![tail]);
    assert(split_all(data, sep) == seq![Seq::<u8>::empty()] + (seq![rest] + seq![tail]));
    assert(split_all(data, sep) =~= seq![Seq::<u8>::empty(), rest, tail]);
}

/// A multipart body of one part reads back as that part, where the boundary
/// mark stands nowhere in it but at its two boundary lines.
pub proof fn lemma_multipart_round_trip(p: PartView, boundary: Seq<char>)
    requires
        part_valid(p),
        forall|i: int|
            #[trigger] crate::bytes::matches_at(multipart_bytes(seq![p], boundary), boundary_mark(boundary), i)
                ==> i == 0 || i == part_bytes(p, boundary).len(),
    ensures
        multipart_parts(multipart_bytes(seq![p], boundary), boundary) == seq![p],
{
    let sep = boundary_mark(boundary);
    let rest = part_rest_bytes(p);
    let tail = seq![45u8, 45u8, 13u8, 10u8];
    lemma_multipart_shape(p, boundary);
    reveal_strlit("--");
    assert(vstd::utf8::is_ascii_chars("--"@));
    vstd::utf8::is_ascii_chars_encode_utf8("--"@);
    assert(utf8("--"@).len() == 2);
    lemma_multipart_segments(sep, rest, tail);
    let segs = seq![Seq::<u8>::empty(), rest, tail];
    lemma_no_part(Seq::<u8>::empty());
    lemma_no_part(tail);
    lemma_part_round_trip(p);
    assert(segs.drop_last() =~= seq![Seq::<u8>::empty(), rest]);
    assert(seq![Seq::<u8>::empty(), rest].drop_last() =~= seq![Seq::<u8>::empty()]);
    assert(seq![Seq::<u8>::empty()].drop_last() =~= Seq::<Seq<u8>>::empty());
    assert(seq![Seq::<u8>::empty()].last() == Seq::<u8>::empty());
    assert(seq![Seq::<u8>::empty(), rest].last() == rest);
    assert(segs.last() == tail);
    assert(parse_parts(Seq::<Seq<u8>>::empty()) == Seq::<PartView>::empty());
    assert(parse_parts(seq![Seq::<u8>::empty()]) =~= Seq::<PartView>::empty());
    assert(parse_parts(seq![Seq::<u8>::empty(), rest]) =~= seq![p]);
    assert(parse_parts(segs) =~= seq![p]);
}

} // verus!
