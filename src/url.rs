//! URLs: `scheme://host[:port]/path[?query][#fragment]` and path-only forms.
use vstd::prelude::*;
use vstd::utf8::{decode_utf8, encode_utf8, valid_utf8};
use crate::bytes::{
    all_digits, copy_range, digits_value, find_bytes, find_from, lemma_find_from, parse_unsigned,
    split_all, split_at_first, split_bytes, unsigned_digits, unsigned_value, views,
};
use crate::error::HttpError;
use crate::text::{concat, decimal_of, decimal_string, utf8_decode};
use crate::body::Body;

verus! {

broadcast use vstd::utf8::encode_utf8_valid_utf8, vstd::utf8::encode_utf8_decode_utf8;

/// A byte that percent-encoding leaves as it is: an ASCII letter or digit,
/// `-`, `.`, `_` or `~`.
pub open spec fn is_unreserved(b: u8) -> bool {
    (48 <= b <= 57) || (65 <= b <= 90) || (97 <= b <= 122) || b == 45 || b == 46 || b == 95
        || b == 126
}

/// The uppercase hexadecimal digit of a value below sixteen.
pub open spec fn hex_char(d: u8) -> char {
    if d < 10 {
        (48 + d) as char
    } else {
        (55 + d) as char
    }
}

/// The percent-encoding of one byte.
pub open spec fn encode_byte(b: u8) -> Seq<char> {
    if is_unreserved(b) {
        seq![b as char]
    } else {
        seq!['%', hex_char(b / 16), hex_char(b % 16)]
    }
}

/// The percent-encoding of bytes: each byte but the unreserved ones as `%`
/// and two uppercase hexadecimal digits.
pub open spec fn percent_encode(b: Seq<u8>) -> Seq<char>
    decreases b.len(),
{
    if b.len() == 0 {
        seq![]
    } else {
        percent_encode(b.drop_last()) + encode_byte(b.last())
    }
}

/// The value of a hexadecimal digit, in either case.
pub open spec fn hex_value(b: u8) -> Option<u8> {
    if 48 <= b <= 57 {
        Some((b - 48) as u8)
    } else if 65 <= b <= 70 {
        Some((b - 55) as u8)
    } else if 97 <= b <= 102 {
        Some((b - 87) as u8)
    } else {
        None
    }
}

/// Percent-decoding of bytes: each `%` followed by two hexadecimal digits
/// stands for the byte they write; every other byte stands for itself.
pub open spec fn percent_decode(b: Seq<u8>) -> Seq<u8>
    decreases b.len(),
{
    if b.len() == 0 {
        seq![]
    } else if b[0] == 37 && b.len() >= 3 && hex_value(b[1]) is Some && hex_value(b[2]) is Some {
        seq![(hex_value(b[1]).unwrap() * 16 + hex_value(b[2]).unwrap()) as u8] + percent_decode(
            b.skip(3),
        )
    } else {
        seq![b[0]] + percent_decode(b.drop_first())
    }
}

/// Relies on `urlencoding::encode`: the percent-encoding of the UTF-8 bytes
/// of `s`.
#[verifier::external_body]
fn url_encode(s: &str) -> (r: String)
    ensures
        r@ == percent_encode(encode_utf8(s@)),
{
    urlencoding::encode(s).into_owned()
}

/// Relies on `urlencoding::decode_binary`: the percent-decoding of `b`.
#[verifier::external_body]
fn url_decode_bytes(b: &[u8]) -> (r: Vec<u8>)
    ensures
        r@ == percent_decode(b@),
{
    urlencoding::decode_binary(b).into_owned()
}

/// A query entry as plain values: key and value.
pub type QueryPair = (Seq<char>, Seq<char>);

/// The position of the entry with key `k`.
pub open spec fn key_index(q: Seq<QueryPair>, k: Seq<char>) -> Option<int>
    decreases q.len(),
{
    if q.len() == 0 {
        None
    } else {
        match key_index(q.drop_last(), k) {
            Some(i) => Some(i),
            None => if q.last().0 == k {
                Some(q.len() - 1)
            } else {
                None
            },
        }
    }
}

/// `q` with `k` mapped to `v`: an entry with that key takes the value where
/// it stands, or a new entry comes last.
pub open spec fn query_insert(q: Seq<QueryPair>, k: Seq<char>, v: Seq<char>) -> Seq<QueryPair> {
    match key_index(q, k) {
        Some(i) => q.update(i, (k, v)),
        None => q.push((k, v)),
    }
}

/// Query parameters: a map from key to value that keeps the order in which
/// keys first came.
#[derive(Debug, Clone)]
pub struct Query {
    entries: Vec<(String, String)>,
}

/// Name and value pairs as plain values.
pub open spec fn query_view(v: Seq<(String, String)>) -> Seq<QueryPair> {
    v.map_values(|e: (String, String)| (e.0@, e.1@))
}

impl View for Query {
    type V = Seq<QueryPair>;

    closed spec fn view(&self) -> Seq<QueryPair> {
        query_view(self.entries@)
    }
}

impl Query {
    /// No parameters.
    pub fn new() -> (r: Query)
        ensures
            r@ == Seq::<QueryPair>::empty(),
    {
        Query { entries: Vec::new() }
    }

    /// The position of the entry with key `key`.
    fn index_of(&self, key: &str) -> (r: Option<usize>)
        ensures
            match r {
                Some(i) => key_index(self@, key@) == Some(i as int) && i < self@.len(),
                None => key_index(self@, key@) is None,
            },
    {
        let wanted = key.to_owned();
        let mut i: usize = 0;
        while i < self.entries.len()
            invariant
                wanted@ == key@,
                i <= self.entries@.len(),
                key_index(self@.take(i as int), key@) is None,
            decreases self.entries@.len() - i,
        {
            assert(self@.take(i + 1).drop_last() == self@.take(i as int));
            assert(self@.take(i + 1).last() == self@[i as int]);
            if self.entries[i].0 == wanted {
                proof {
                    lemma_key_index_prefix(self@, key@, i + 1);
                }
                return Some(i);
            }
            i = i + 1;
        }
        assert(self@.take(i as int) == self@);
        None
    }

    /// The value of `key`.
    pub fn get(&self, key: &str) -> (r: Option<&String>)
        ensures
            match key_index(self@, key@) {
                Some(i) => r matches Some(v) && v@ == self@[i].1,
                None => r is None,
            },
    {
        match self.index_of(key) {
            Some(i) => Some(&self.entries[i].1),
            None => None,
        }
    }

    /// Maps `key` to `value`: an entry with that key takes the value where it
    /// stands, or a new entry comes last.
    pub fn insert(&mut self, key: String, value: String)
        ensures
            final(self)@ == query_insert(old(self)@, key@, value@),
    {
        match self.index_of(key.as_str()) {
            Some(i) => {
                self.entries.set(i, (key, value));
            },
            None => {
                self.entries.push((key, value));
            },
        }
        assert(self@ =~= query_insert(old(self)@, key@, value@));
    }

    /// The number of entries.
    pub fn len(&self) -> (r: usize)
        ensures
            r == self@.len(),
    {
        self.entries.len()
    }

    /// Whether there are no entries.
    pub fn is_empty(&self) -> (r: bool)
        ensures
            r == (self@.len() == 0),
    {
        self.entries.len() == 0
    }

    /// The entries as `key=value` text, both sides percent-encoded, joined
    /// by `&`.
    pub fn to_text(&self) -> (r: String)
        ensures
            r@ == query_text(self@),
    {
        let mut out = String::new();
        let mut i: usize = 0;
        let n = self.len();
        while i < n
            invariant
                n == self@.len(),
                i <= n,
                out@ == query_text(self@.take(i as int)),
            decreases n - i,
        {
            let (k, v) = self.entry(i);
            let ek = url_encode(k.as_str());
            let ev = url_encode(v.as_str());
            let kv = concat(ek.as_str(), "=");
            let kv = concat(kv.as_str(), ev.as_str());
            assert(self@.take(i + 1).drop_last() == self@.take(i as int));
            assert(self@.take(i + 1).last() == self@[i as int]);
            if i == 0 {
                assert(self@.take(1)[0] == self@[0]);
                out = kv;
            } else {
                let amp = concat(out.as_str(), "&");
                out = concat(amp.as_str(), kv.as_str());
            }
            i = i + 1;
        }
        assert(self@.take(i as int) == self@);
        out
    }

    /// The entry at position `i`.
    pub fn entry(&self, i: usize) -> (r: (&String, &String))
        requires
            i < self@.len(),
        ensures
            r.0@ == self@[i as int].0,
            r.1@ == self@[i as int].1,
    {
        (&self.entries[i].0, &self.entries[i].1)
    }
}

/// The key position found in the first `n` entries is the one found in all.
pub proof fn lemma_key_index_prefix(q: Seq<QueryPair>, k: Seq<char>, n: int)
    requires
        0 <= n <= q.len(),
        key_index(q.take(n), k) is Some,
    ensures
        key_index(q, k) == key_index(q.take(n), k),
    decreases q.len() - n,
{
    if n < q.len() {
        assert(q.take(n + 1).drop_last() == q.take(n));
        lemma_key_index_prefix(q, k, n + 1);
    } else {
        assert(q.take(n) == q);
    }
}

/// The origin of a URL: scheme, domain and port.
#[derive(Debug, Clone)]
pub struct RootURL {
    pub scheme: String,
    pub domain: String,
    pub port: u16,
}

/// An origin as plain values.
pub type RootView = (Seq<char>, Seq<char>, u16);

/// A URL as plain values: origin, path, fragment, query.
pub type UrlView = (Option<RootView>, Seq<char>, Option<Seq<char>>, Seq<QueryPair>);

/// An origin as plain values.
pub open spec fn root_view(r: RootURL) -> RootView {
    (r.scheme@, r.domain@, r.port)
}

/// The scheme's own port: 80 for `http`, 443 for `https`.
pub open spec fn default_port(scheme: Seq<char>) -> Option<u16> {
    if scheme == "http"@ {
        Some(80)
    } else if scheme == "https"@ {
        Some(443)
    } else {
        None
    }
}

/// The text of an origin: `scheme://domain`, then `:port` unless the port
/// is the scheme's own.
pub open spec fn root_text(r: RootView) -> Seq<char> {
    r.0 + "://"@ + r.1 + if default_port(r.0) == Some(r.2) {
        seq![]
    } else {
        ":"@ + decimal_of(r.2 as nat)
    }
}

/// The text of one query entry: `key=value`, both percent-encoded.
pub open spec fn pair_text(p: QueryPair) -> Seq<char> {
    percent_encode(encode_utf8(p.0)) + "="@ + percent_encode(encode_utf8(p.1))
}

/// The text of query entries, joined by `&`.
pub open spec fn query_text(q: Seq<QueryPair>) -> Seq<char>
    decreases q.len(),
{
    if q.len() == 0 {
        seq![]
    } else if q.len() == 1 {
        pair_text(q[0])
    } else {
        query_text(q.drop_last()) + "&"@ + pair_text(q.last())
    }
}

/// The text of a URL after its origin: path, then `?` and the query if
/// there is one, then `#` and the fragment if there is one.
pub open spec fn path_text(u: UrlView) -> Seq<char> {
    u.1 + (if u.3.len() == 0 {
        seq![]
    } else {
        "?"@ + query_text(u.3)
    }) + match u.2 {
        Some(a) => "#"@ + a,
        None => seq![],
    }
}

/// The text of a URL.
pub open spec fn url_text(u: UrlView) -> Seq<char> {
    match u.0 {
        Some(r) => root_text(r) + path_text(u),
        None => path_text(u),
    }
}

/// The text that UTF-8 bytes encode.
pub open spec fn text_of(b: Seq<u8>) -> Option<Seq<char>> {
    if valid_utf8(b) {
        Some(decode_utf8(b))
    } else {
        None
    }
}

/// One `key=value` entry of a query string, both sides percent-decoded; an
/// entry without `=` has an empty value. `None` where a side does not decode
/// to UTF-8.
pub open spec fn decode_entry(e: Seq<u8>) -> Option<QueryPair> {
    let (k, v) = match split_at_first(e, encode_utf8("="@)) {
        Some(kv) => kv,
        None => (e, seq![]),
    };
    match (text_of(percent_decode(k)), text_of(percent_decode(v))) {
        (Some(dk), Some(dv)) => Some((dk, dv)),
        _ => None,
    }
}

/// The entries of a query string split at `&`, later keys overriding earlier
/// ones, entries that do not decode passed over.
pub open spec fn query_of_entries(es: Seq<Seq<u8>>) -> Seq<QueryPair>
    decreases es.len(),
{
    if es.len() == 0 {
        seq![]
    } else {
        let q = query_of_entries(es.drop_last());
        match decode_entry(es.last()) {
            Some(p) => query_insert(q, p.0, p.1),
            None => q,
        }
    }
}

/// `s` split at the first `sep`, or all of `s` and nothing.
pub open spec fn split_or_all(s: Seq<u8>, sep: Seq<u8>) -> (Seq<u8>, Seq<u8>) {
    match split_at_first(s, sep) {
        Some(p) => p,
        None => (s, seq![]),
    }
}

/// The path, fragment and query of the text after a URL's origin.
pub open spec fn parse_path_part(t: Seq<u8>) -> Option<(Seq<char>, Option<Seq<char>>, Seq<QueryPair>)> {
    let (rest, anchor) = split_or_all(t, encode_utf8("#"@));
    let (path, query) = split_or_all(rest, encode_utf8("?"@));
    match (text_of(path), text_of(anchor)) {
        (Some(p), Some(a)) => Some(
            (
                p,
                if a.len() == 0 {
                    None
                } else {
                    Some(a)
                },
                if query.len() == 0 {
                    seq![]
                } else {
                    query_of_entries(split_all(query, encode_utf8("&"@)))
                },
            ),
        ),
        _ => None,
    }
}

/// The origin that a scheme and a `host[:port]` give: without a port, the
/// scheme's own, and only `http` and `https` have one.
pub open spec fn parse_root(scheme: Seq<u8>, host: Seq<u8>) -> Option<RootView> {
    let (domain, port) = match split_at_first(host, encode_utf8(":"@)) {
        Some((d, p)) => (
            d,
            match unsigned_value(p, 10) {
                Some(n) => if n <= 65535 {
                    Some(n as u16)
                } else {
                    None
                },
                None => None,
            },
        ),
        None => (
            host,
            match text_of(scheme) {
                Some(s) => default_port(s),
                None => None,
            },
        ),
    };
    match (text_of(scheme), text_of(domain), port) {
        (Some(s), Some(d), Some(p)) => Some((s, d, p)),
        _ => None,
    }
}

/// What parsing the UTF-8 bytes `t` of a URL gives.
pub open spec fn parse_url(t: Seq<u8>) -> Result<UrlView, HttpError> {
    if t.len() > 0 && t[0] == 47 {
        match parse_path_part(t) {
            Some((p, a, q)) => Ok((None, p, a, q)),
            None => Err(HttpError::UrlError),
        }
    } else {
        match split_at_first(t, encode_utf8("://"@)) {
            None => Err(HttpError::UrlError),
            Some((scheme, host_and_path)) => {
                let (host, path) = match split_at_first(host_and_path, encode_utf8("/"@)) {
                    Some((h, p)) => (h, encode_utf8("/"@) + p),
                    None => (host_and_path, encode_utf8("/"@)),
                };
                match (parse_root(scheme, host), parse_path_part(path)) {
                    (Some(r), Some((p, a, q))) => Ok((Some(r), p, a, q)),
                    _ => Err(HttpError::UrlError),
                }
            },
        }
    }
}

/// A URL: an optional origin, a path, an optional fragment and query
/// parameters.
#[derive(Debug, Clone)]
pub struct URL {
    pub root: Option<RootURL>,
    pub path: String,
    pub anchor: Option<String>,
    pub query: Query,
}

/// An optional origin as plain values.
pub open spec fn opt_root_view(r: Option<RootURL>) -> Option<RootView> {
    match r {
        Some(x) => Some(root_view(x)),
        None => None,
    }
}

/// An optional string as plain values.
pub open spec fn opt_str_view(o: Option<String>) -> Option<Seq<char>> {
    match o {
        Some(s) => Some(s@),
        None => None,
    }
}

/// A URL as plain values.
pub open spec fn url_view(u: URL) -> UrlView {
    (opt_root_view(u.root), u.path@, opt_str_view(u.anchor), u.query@)
}

/// The text that the UTF-8 bytes `b` encode, if they are UTF-8.
fn text_exec(b: &[u8]) -> (r: Option<String>)
    ensures
        match text_of(b@) {
            Some(t) => r matches Some(s) && s@ == t,
            None => r is None,
        },
{
    utf8_decode(copy_range(b, 0, b.len()))
}

/// `s` split at the first `sep`, or all of `s` and nothing.
fn split_or_all_exec(s: &[u8], sep: &[u8]) -> (r: (Vec<u8>, Vec<u8>))
    ensures
        r.0@ == split_or_all(s@, sep@).0,
        r.1@ == split_or_all(s@, sep@).1,
{
    crate::bytes::split_bytes_once(s, sep)
}

/// One `key=value` entry of a query string, both sides percent-decoded.
fn decode_entry_exec(e: &[u8]) -> (r: Option<(String, String)>)
    ensures
        match decode_entry(e@) {
            Some(p) => r matches Some(kv) && kv.0@ == p.0 && kv.1@ == p.1,
            None => r is None,
        },
{
    let (k, v) = split_or_all_exec(e, "=".as_bytes());
    let dk = url_decode_bytes(k.as_slice());
    let dv = url_decode_bytes(v.as_slice());
    match (text_exec(dk.as_slice()), text_exec(dv.as_slice())) {
        (Some(a), Some(b)) => Some((a, b)),
        _ => None,
    }
}

/// The entries of a query string.
fn query_exec(query: &[u8]) -> (r: Query)
    ensures
        r@ == query_of_entries(split_all(query@, encode_utf8("&"@))),
{
    let amp = "&".as_bytes();
    proof {
        reveal_strlit("&");
        assert(amp@.len() > 0);
    }
    let es = split_bytes(query, amp);
    let mut q = Query::new();
    let mut i: usize = 0;
    while i < es.len()
        invariant
            i <= es@.len(),
            views(es@) == split_all(query@, encode_utf8("&"@)),
            q@ == query_of_entries(views(es@).take(i as int)),
        decreases es@.len() - i,
    {
        assert(views(es@).take(i + 1).drop_last() == views(es@).take(i as int));
        assert(views(es@).take(i + 1).last() == es@[i as int]@);
        match decode_entry_exec(es[i].as_slice()) {
            Some((k, v)) => {
                q.insert(k, v);
            },
            None => {},
        }
        i = i + 1;
    }
    assert(views(es@).take(i as int) == views(es@));
    q
}

/// The path, fragment and query of the text after a URL's origin.
fn path_part_exec(t: &[u8]) -> (r: Option<(String, Option<String>, Query)>)
    ensures
        match parse_path_part(t@) {
            Some((p, a, q)) => r matches Some(x) && x.0@ == p && opt_str_view(x.1) == a && x.2@ == q,
            None => r is None,
        },
{
    let (rest, anchor) = split_or_all_exec(t, "#".as_bytes());
    let (path, query) = split_or_all_exec(rest.as_slice(), "?".as_bytes());
    match (text_exec(path.as_slice()), text_exec(anchor.as_slice())) {
        (Some(p), Some(a)) => {
            let anchor = if a.as_str().is_empty() {
                None
            } else {
                Some(a)
            };
            let q = if query.len() == 0 {
                Query::new()
            } else {
                query_exec(query.as_slice())
            };
            Some((p, anchor, q))
        },
        _ => None,
    }
}

/// The origin that a scheme and a `host[:port]` give.
fn root_exec(scheme: &[u8], host: &[u8]) -> (r: Option<RootURL>)
    ensures
        match parse_root(scheme@, host@) {
            Some(v) => r matches Some(x) && root_view(x) == v,
            None => r is None,
        },
{
    let sch = text_exec(scheme);
    let colon = ":".as_bytes();
    let (domain, port): (Vec<u8>, Option<u16>) = match find_bytes(host, colon, 0) {
        Some(i) => {
            proof {
                lemma_find_from(host@, colon@, 0);
            }
            let n = host.len();
            let d = copy_range(host, 0, i);
            let p = copy_range(host, i + colon.len(), n);
            let port = match parse_unsigned(p.as_slice(), 10, 65535) {
                Some(v) => Some(v as u16),
                None => None,
            };
            (d, port)
        },
        None => {
            let port = match &sch {
                Some(s) => {
                    if *s == "http".to_owned() {
                        Some(80u16)
                    } else if *s == "https".to_owned() {
                        Some(443u16)
                    } else {
                        None
                    }
                },
                None => None,
            };
            (copy_range(host, 0, host.len()), port)
        },
    };
    match (sch, text_exec(domain.as_slice()), port) {
        (Some(s), Some(d), Some(p)) => Some(RootURL { scheme: s, domain: d, port: p }),
        _ => None,
    }
}

impl RootURL {
    /// The text of the origin: `scheme://domain`, then `:port` unless the
    /// port is the scheme's own.
    pub fn to_string(&self) -> (r: String)
        ensures
            r@ == root_text(root_view(*self)),
    {
        let head = concat(self.scheme.as_str(), "://");
        let head = concat(head.as_str(), self.domain.as_str());
        let is_default = if self.scheme == "http".to_owned() {
            self.port == 80
        } else if self.scheme == "https".to_owned() {
            self.port == 443
        } else {
            false
        };
        if is_default {
            assert(head@ + Seq::<char>::empty() == head@);
            head
        } else {
            let p = decimal_string(self.port as u64);
            let tail = concat(":", p.as_str());
            concat(head.as_str(), tail.as_str())
        }
    }
}

impl URL {
    /// A URL of the given parts.
    pub fn new(root: Option<RootURL>, path: String, anchor: Option<String>, query: Query) -> (r: URL)
        ensures
            url_view(r) == (opt_root_view(root), path@, opt_str_view(anchor), query@),
    {
        URL { root, path, anchor, query }
    }

    /// Parses `scheme://host[:port]/path[?query][#fragment]`, or a path-only
    /// form starting with `/`. Fails with `UrlError` where no `://` separates
    /// a scheme, where the port is no number below 65536, or where there is
    /// no port and the scheme is neither `http` nor `https`.
    pub fn from_str(text: &str) -> (r: Result<URL, HttpError>)
        ensures
            match parse_url(encode_utf8(text@)) {
                Ok(u) => r matches Ok(x) && url_view(x) == u,
                Err(e) => r == Err::<URL, HttpError>(e),
            },
    {
        let t = text.as_bytes();
        if t.len() > 0 && t[0] == 47 {
            return match path_part_exec(t) {
                Some((p, a, q)) => Ok(URL { root: None, path: p, anchor: a, query: q }),
                None => Err(HttpError::UrlError),
            };
        }
        let sep = "://".as_bytes();
        match find_bytes(t, sep, 0) {
            None => Err(HttpError::UrlError),
            Some(i) => {
                proof {
                    lemma_find_from(t@, sep@, 0);
                }
                let n = t.len();
                let scheme = copy_range(t, 0, i);
                let hp = copy_range(t, i + sep.len(), n);
                let slash = "/".as_bytes();
                let (host, path): (Vec<u8>, Vec<u8>) = match find_bytes(hp.as_slice(), slash, 0) {
                    Some(j) => {
                        proof {
                            lemma_find_from(hp@, slash@, 0);
                        }
                        let m = hp.len();
                        let h = copy_range(hp.as_slice(), 0, j);
                        let mut p = copy_range(slash, 0, slash.len());
                        let rest = copy_range(hp.as_slice(), j + slash.len(), m);
                        crate::bytes::push_all(&mut p, rest.as_slice());
                        (h, p)
                    },
                    None => (hp, copy_range(slash, 0, slash.len())),
                };
                match (root_exec(scheme.as_slice(), host.as_slice()), path_part_exec(path.as_slice())) {
                    (Some(r), Some((p, a, q))) => Ok(URL { root: Some(r), path: p, anchor: a, query: q }),
                    _ => Err(HttpError::UrlError),
                }
            },
        }
    }

    /// The text after the origin: path, then `?` and the percent-encoded
    /// query if there is one, then `#` and the fragment if there is one.
    pub fn to_path_str(&self) -> (r: String)
        ensures
            r@ == path_text(url_view(*self)),
    {
        let q = if self.query.is_empty() {
            String::new()
        } else {
            let qs = self.query.to_text();
            concat("?", qs.as_str())
        };
        let a = match &self.anchor {
            Some(a) => concat("#", a.as_str()),
            None => String::new(),
        };
        let pq = concat(self.path.as_str(), q.as_str());
        concat(pq.as_str(), a.as_str())
    }

    /// The text of the URL: origin, path, then `?` and the percent-encoded
    /// query if there is one, then `#` and the fragment if there is one.
    pub fn to_string(&self) -> (r: String)
        ensures
            r@ == url_text(url_view(*self)),
    {
        let p = self.to_path_str();
        match &self.root {
            Some(root) => {
                let r = root.to_string();
                concat(r.as_str(), p.as_str())
            },
            None => p,
        }
    }
}

/// Values that name a URL.
pub trait IntoURL: Sized {
    /// The URL this value names, or the error that reading it gives.
    spec fn url_of(&self) -> Result<UrlView, HttpError>;

    /// The URL, or `UrlError` where the text is no URL.
    fn to_url(self) -> (r: Result<URL, HttpError>)
        ensures
            match self.url_of() {
                Ok(u) => r matches Ok(x) && url_view(x) == u,
                Err(e) => r == Err::<URL, HttpError>(e),
            },
    ;
}

impl IntoURL for &str {
    open spec fn url_of(&self) -> Result<UrlView, HttpError> {
        parse_url(encode_utf8((*self)@))
    }

    fn to_url(self) -> (r: Result<URL, HttpError>) {
        URL::from_str(self)
    }
}

impl IntoURL for String {
    open spec fn url_of(&self) -> Result<UrlView, HttpError> {
        parse_url(encode_utf8(self@))
    }

    fn to_url(self) -> (r: Result<URL, HttpError>) {
        URL::from_str(self.as_str())
    }
}

impl IntoURL for &String {
    open spec fn url_of(&self) -> Result<UrlView, HttpError> {
        parse_url(encode_utf8((*self)@))
    }

    fn to_url(self) -> (r: Result<URL, HttpError>) {
        URL::from_str(self.as_str())
    }
}

impl IntoURL for URL {
    open spec fn url_of(&self) -> Result<UrlView, HttpError> {
        Ok(url_view(*self))
    }

    fn to_url(self) -> (r: Result<URL, HttpError>) {
        Ok(self)
    }
}

/// An `http` origin on port 80, or an `https` origin on port 443, is written
/// without its port.
pub proof fn lemma_default_port_omitted(r: RootView)
    requires
        (r.0 == "http"@ && r.2 == 80) || (r.0 == "https"@ && r.2 == 443),
    ensures
        root_text(r) == r.0 + "://"@ + r.1,
{
    reveal_strlit("http");
    reveal_strlit("https");
    assert(r.0 + "://"@ + r.1 + Seq::<char>::empty() == r.0 + "://"@ + r.1);
}

impl Body {
    /// A form body: the entries as `key=value` text, both sides
    /// percent-encoded, joined by `&`.
    pub fn from_query(params: Query) -> (r: Body)
        ensures
            r.data@ == encode_utf8(query_text(params@)),
    {
        let t = params.to_text();
        Body::from_text(t.as_str())
    }

    /// The body read as a form: its text, without a leading `?`, split at
    /// `&` into `key=value` entries, both sides percent-decoded. `None` where
    /// the body is not UTF-8.
    pub fn as_query(&self) -> (r: Option<Query>)
        ensures
            match body_query(self.data@) {
                Some(q) => r matches Some(x) && x@ == q,
                None => r is None,
            },
    {
        if !crate::text::is_utf8(self.data.as_slice()) {
            return None;
        }
        let n = self.data.len();
        let start: usize = if n > 0 && self.data[0] == 63 { 1 } else { 0 };
        let rest = copy_range(self.data.as_slice(), start, n);
        Some(query_exec(rest.as_slice()))
    }
}

/// What a form body gives: its entries, where it is UTF-8.
pub open spec fn body_query(data: Seq<u8>) -> Option<Seq<QueryPair>> {
    if valid_utf8(data) {
        let rest = if data.len() > 0 && data[0] == 63 {
            data.skip(1)
        } else {
            data
        };
        Some(query_of_entries(split_all(rest, encode_utf8("&"@))))
    } else {
        None
    }
}

/// Percent-encoding two byte sequences one after the other gives the two
/// encodings one after the other.
pub proof fn lemma_percent_encode_concat(a: Seq<u8>, c: Seq<u8>)
    ensures
        percent_encode(a + c) == percent_encode(a) + percent_encode(c),
    decreases c.len(),
{
    if c.len() == 0 {
        assert(a + c == a);
        assert(percent_encode(a) + Seq::<char>::empty() == percent_encode(a));
    } else {
        assert((a + c).drop_last() == a + c.drop_last());
        assert((a + c).last() == c.last());
        lemma_percent_encode_concat(a, c.drop_last());
    }
}

/// The bytes of the encoding of one byte: the byte itself where it is
/// unreserved, else `%` and its two hexadecimal digits.
pub proof fn lemma_encode_byte_bytes(x: u8)
    ensures
        is_unreserved(x) ==> encode_utf8(encode_byte(x)) == seq![x],
        !is_unreserved(x) ==> encode_utf8(encode_byte(x)) == seq![
            37u8,
            hex_char(x / 16) as u8,
            hex_char(x % 16) as u8,
        ],
        !is_unreserved(x) ==> hex_value(hex_char(x / 16) as u8) == Some(x / 16) && hex_value(
            hex_char(x % 16) as u8,
        ) == Some(x % 16),
{
    let e = encode_byte(x);
    assert(vstd::utf8::is_ascii_chars(e));
    vstd::utf8::is_ascii_chars_encode_utf8(e);
    if is_unreserved(x) {
        assert(encode_utf8(e) =~= seq![x]);
    } else {
        assert(encode_utf8(e) =~= seq![37u8, hex_char(x / 16) as u8, hex_char(x % 16) as u8]);
    }
}

/// Percent-decoding the bytes of a percent-encoding gives back the bytes
/// that were encoded.
pub proof fn lemma_percent_round_trip(b: Seq<u8>)
    ensures
        percent_decode(encode_utf8(percent_encode(b))) == b,
    decreases b.len(),
{
    if b.len() > 0 {
        let x = b[0];
        let tail = b.drop_first();
        assert(b == seq![x] + tail);
        lemma_percent_encode_concat(seq![x], tail);
        assert(seq![x].drop_last() == Seq::<u8>::empty());
        assert(seq![x].last() == x);
        assert(percent_encode(Seq::<u8>::empty()) == Seq::<char>::empty());
        assert(percent_encode(seq![x]) == Seq::<char>::empty() + encode_byte(x));
        assert(Seq::<char>::empty() + encode_byte(x) == encode_byte(x));
        crate::text::lemma_encode_utf8_concat(encode_byte(x), percent_encode(tail));
        lemma_encode_byte_bytes(x);
        lemma_percent_round_trip(tail);
        let rest = encode_utf8(percent_encode(tail));
        let all = encode_utf8(encode_byte(x)) + rest;
        assert(encode_utf8(percent_encode(b)) == all);
        if is_unreserved(x) {
            assert(all[0] == x);
            assert(all.drop_first() == rest);
            assert(percent_decode(all) == seq![x] + percent_decode(rest));
        } else {
            assert(all[0] == 37);
            assert(all.skip(3) == rest);
            assert((x / 16) * 16 + x % 16 == x);
            assert(percent_decode(all) == seq![x] + percent_decode(rest));
        }
    }
}

/// A byte that a percent-encoding never holds: `=`, `&`, `#` or `?`.
pub open spec fn is_url_delimiter(b: u8) -> bool {
    b == 61 || b == 38 || b == 35 || b == 63
}

/// A percent-encoding has only unreserved characters, `%` and hexadecimal
/// digits: never `=`, `&`, `#` or `?`.
pub proof fn lemma_percent_bytes(b: Seq<u8>)
    ensures
        forall|j: int|
            0 <= j < encode_utf8(percent_encode(b)).len() ==> !is_url_delimiter(
                #[trigger] encode_utf8(percent_encode(b))[j],
            ),
    decreases b.len(),
{
    if b.len() > 0 {
        let x = b.last();
        lemma_percent_bytes(b.drop_last());
        crate::text::lemma_encode_utf8_concat(percent_encode(b.drop_last()), encode_byte(x));
        lemma_encode_byte_bytes(x);
        let e = encode_utf8(percent_encode(b.drop_last()));
        let f = encode_utf8(encode_byte(x));
        assert(encode_utf8(percent_encode(b)) == e + f);
        assert forall|j: int| 0 <= j < f.len() implies !is_url_delimiter(#[trigger] f[j]) by {
            if !is_unreserved(x) {
                assert(x / 16 < 16 && x % 16 < 16);
            }
        }
        assert forall|j: int| 0 <= j < (e + f).len() implies !is_url_delimiter(#[trigger] (e + f)[j]) by {
            if j >= e.len() {
                assert((e + f)[j] == f[j - e.len()]);
            } else {
                assert((e + f)[j] == e[j]);
            }
        }
    }
}

/// The bytes of one query entry's text.
pub open spec fn pair_bytes(p: QueryPair) -> Seq<u8> {
    encode_utf8(pair_text(p))
}

/// One entry's text reads back as that entry.
pub proof fn lemma_entry_round_trip(p: QueryPair)
    ensures
        decode_entry(pair_bytes(p)) == Some(p),
        forall|j: int| 0 <= j < pair_bytes(p).len() ==> pair_bytes(p)[j] != 38,
        forall|j: int| 0 <= j < pair_bytes(p).len() ==> pair_bytes(p)[j] != 35 && pair_bytes(p)[j] != 63,
{
    let ek = encode_utf8(percent_encode(encode_utf8(p.0)));
    let ev = encode_utf8(percent_encode(encode_utf8(p.1)));
    crate::text::lemma_encode_utf8_concat(percent_encode(encode_utf8(p.0)), "="@);
    crate::text::lemma_encode_utf8_concat(percent_encode(encode_utf8(p.0)) + "="@, percent_encode(encode_utf8(p.1)));
    reveal_strlit("=");
    assert(vstd::utf8::is_ascii_chars("="@));
    vstd::utf8::is_ascii_chars_encode_utf8("="@);
    assert(encode_utf8("="@) =~= seq![61u8]);
    assert(pair_bytes(p) == ek + seq![61u8] + ev);
    lemma_percent_bytes(encode_utf8(p.0));
    lemma_percent_bytes(encode_utf8(p.1));
    crate::bytes::lemma_find_byte_at(ek + seq![61u8] + ev, 61, 0, ek.len() as int);
    assert((ek + seq![61u8] + ev).subrange(0, ek.len() as int) == ek);
    assert((ek + seq![61u8] + ev).subrange(ek.len() + 1 as int, (ek + seq![61u8] + ev).len() as int) == ev);
    lemma_percent_round_trip(encode_utf8(p.0));
    lemma_percent_round_trip(encode_utf8(p.1));
    assert forall|j: int| 0 <= j < pair_bytes(p).len() implies pair_bytes(p)[j] != 38 && !is_url_delimiter(#[trigger] pair_bytes(p)[j]) || pair_bytes(p)[j] == 61 by {
        if j < ek.len() {
            assert((ek + seq![61u8] + ev)[j] == ek[j]);
        } else if j > ek.len() {
            assert((ek + seq![61u8] + ev)[j] == ev[j - ek.len() - 1]);
        }
    }
}

/// The entries' texts, in order.
pub open spec fn entry_bytes(q: Seq<QueryPair>) -> Seq<Seq<u8>> {
    q.map_values(|p: QueryPair| pair_bytes(p))
}

/// A key that no entry has is at no position.
pub proof fn lemma_key_index_absent(q: Seq<QueryPair>, k: Seq<char>)
    requires
        forall|i: int| 0 <= i < q.len() ==> q[i].0 != k,
    ensures
        key_index(q, k) is None,
    decreases q.len(),
{
    if q.len() > 0 {
        lemma_key_index_absent(q.drop_last(), k);
    }
}

/// The text of a query, split at `&`, gives the entries' texts.
pub proof fn lemma_query_pieces(q: Seq<QueryPair>)
    requires
        q.len() > 0,
    ensures
        split_all(encode_utf8(query_text(q)), seq![38u8]) == entry_bytes(q),
    decreases q.len(),
{
    lemma_entry_round_trip(q.last());
    if q.len() == 1 {
        crate::bytes::lemma_split_single(pair_bytes(q[0]), 38);
        assert(entry_bytes(q) =~= seq![pair_bytes(q[0])]);
    } else {
        let front = q.drop_last();
        lemma_query_pieces(front);
        reveal_strlit("&");
        assert(vstd::utf8::is_ascii_chars("&"@));
        vstd::utf8::is_ascii_chars_encode_utf8("&"@);
        assert(encode_utf8("&"@) =~= seq![38u8]);
        crate::text::lemma_encode_utf8_concat(query_text(front), "&"@);
        crate::text::lemma_encode_utf8_concat(query_text(front) + "&"@, pair_text(q.last()));
        assert(encode_utf8(query_text(q)) == encode_utf8(query_text(front)) + seq![38u8] + pair_bytes(q.last()));
        crate::bytes::lemma_split_append(encode_utf8(query_text(front)), pair_bytes(q.last()), 38, 0);
        assert(entry_bytes(q) =~= entry_bytes(front) + seq![pair_bytes(q.last())]);
    }
}

/// Reading the entries' texts back gives the entries, where no two share a
/// key.
pub proof fn lemma_entries_round_trip(q: Seq<QueryPair>)
    requires
        forall|i: int, j: int| 0 <= i < j < q.len() ==> q[i].0 != q[j].0,
    ensures
        query_of_entries(entry_bytes(q)) == q,
    decreases q.len(),
{
    if q.len() > 0 {
        let front = q.drop_last();
        assert(entry_bytes(q).drop_last() =~= entry_bytes(front));
        assert(entry_bytes(q).last() == pair_bytes(q.last()));
        lemma_entries_round_trip(front);
        lemma_entry_round_trip(q.last());
        assert forall|i: int| 0 <= i < front.len() implies front[i].0 != q.last().0 by {
            assert(front[i] == q[i]);
        }
        lemma_key_index_absent(front, q.last().0);
        assert(front.push(q.last()) == q);
    }
}

/// A query written as text and read back gives the same entries in the same
/// order, where no two entries share a key.
pub proof fn lemma_query_round_trip(q: Seq<QueryPair>)
    requires
        q.len() > 0,
        forall|i: int, j: int| 0 <= i < j < q.len() ==> q[i].0 != q[j].0,
    ensures
        query_of_entries(split_all(encode_utf8(query_text(q)), encode_utf8("&"@))) == q,
{
    reveal_strlit("&");
    assert(vstd::utf8::is_ascii_chars("&"@));
    vstd::utf8::is_ascii_chars_encode_utf8("&"@);
    assert(encode_utf8("&"@) =~= seq![38u8]);
    lemma_query_pieces(q);
    lemma_entries_round_trip(q);
}

/// The bytes of a query's text hold no `#` and no `?`.
pub proof fn lemma_query_bytes(q: Seq<QueryPair>)
    ensures
        forall|j: int|
            0 <= j < encode_utf8(query_text(q)).len() ==> #[trigger] encode_utf8(query_text(q))[j]
                != 35 && encode_utf8(query_text(q))[j] != 63,
    decreases q.len(),
{
    if q.len() == 1 {
        lemma_entry_round_trip(q[0]);
    } else if q.len() > 1 {
        let front = q.drop_last();
        lemma_query_bytes(front);
        lemma_entry_round_trip(q.last());
        reveal_strlit("&");
        assert(vstd::utf8::is_ascii_chars("&"@));
        vstd::utf8::is_ascii_chars_encode_utf8("&"@);
        assert(encode_utf8("&"@) =~= seq![38u8]);
        crate::text::lemma_encode_utf8_concat(query_text(front), "&"@);
        crate::text::lemma_encode_utf8_concat(query_text(front) + "&"@, pair_text(q.last()));
        let a = encode_utf8(query_text(front));
        let t = a + seq![38u8] + pair_bytes(q.last());
        assert(encode_utf8(query_text(q)) == t);
        assert forall|j: int| 0 <= j < t.len() implies #[trigger] t[j] != 35 && t[j] != 63 by {
            if j < a.len() {
                assert(t[j] == a[j]);
            } else if j > a.len() {
                assert(t[j] == pair_bytes(q.last())[j - a.len() - 1]);
            }
        }
    }
}

/// The bytes of a number written in decimal: ASCII digits that read back as
/// the number.
pub proof fn lemma_decimal_round_trip(n: nat)
    ensures
        unsigned_value(encode_utf8(decimal_of(n)), 10) == Some(n),
        encode_utf8(decimal_of(n)).len() > 0,
        forall|j: int|
            0 <= j < encode_utf8(decimal_of(n)).len() ==> 48 <= #[trigger] encode_utf8(decimal_of(n))[j] <= 57,
    decreases n,
{
    let d = (n % 10) as u8;
    let c = seq![((n % 10) + 48) as char];
    assert(vstd::utf8::is_ascii_chars(c));
    vstd::utf8::is_ascii_chars_encode_utf8(c);
    assert(encode_utf8(c) =~= seq![(d + 48) as u8]);
    let b = encode_utf8(decimal_of(n));
    if n < 10 {
        assert(decimal_of(n) == c);
        assert(b.drop_last() =~= Seq::<u8>::empty());
        assert(digits_value(b, 10) == digits_value(Seq::<u8>::empty(), 10) * 10 + n);
    } else {
        lemma_decimal_round_trip(n / 10);
        crate::text::lemma_encode_utf8_concat(decimal_of(n / 10), c);
        let a = encode_utf8(decimal_of(n / 10));
        assert(b == a + seq![(d + 48) as u8]);
        assert(b.drop_last() == a);
        assert(unsigned_digits(a) == a);
        assert(digits_value(b, 10) == digits_value(a, 10) * 10 + n % 10);
        assert((n / 10) * 10 + n % 10 == n);
        assert forall|j: int| 0 <= j < b.len() implies 48 <= #[trigger] b[j] <= 57 by {
            if j < a.len() {
                assert(b[j] == a[j]);
            }
        }
    }
    assert(unsigned_digits(b) == b);
    assert(all_digits(b, 10));
}

/// The UTF-8 bytes of a one-character ASCII literal.
proof fn lemma_ascii_literal(c: char)
    requires
        (c as u32) < 128,
    ensures
        encode_utf8(seq![c]) == seq![c as u8],
{
    assert(vstd::utf8::is_ascii_chars(seq![c]));
    vstd::utf8::is_ascii_chars_encode_utf8(seq![c]);
    assert(encode_utf8(seq![c]) =~= seq![c as u8]);
}

/// The path, fragment and query of a URL are well formed: the path starts
/// with `/` and holds no `?` or `#`, a fragment is not empty, and no two
/// query entries share a key.
pub open spec fn path_part_valid(u: UrlView) -> bool {
    let pb = encode_utf8(u.1);
    &&& pb.len() > 0 && pb[0] == 47
    &&& forall|j: int| 0 <= j < pb.len() ==> #[trigger] pb[j] != 35 && pb[j] != 63
    &&& (u.2 matches Some(a) ==> a.len() > 0)
    &&& forall|i: int, j: int| 0 <= i < j < u.3.len() ==> u.3[i].0 != u.3[j].0
}

/// The text after a URL's origin reads back as its path, fragment and query.
pub proof fn lemma_path_part_round_trip(u: UrlView)
    requires
        path_part_valid(u),
    ensures
        parse_path_part(encode_utf8(path_text(u))) == Some((u.1, u.2, u.3)),
{
    reveal_strlit("?");
    reveal_strlit("#");
    assert("?"@ == seq!['?']);
    assert("#"@ == seq!['#']);
    lemma_ascii_literal('?');
    lemma_ascii_literal('#');
    let pb = encode_utf8(u.1);
    let qc = if u.3.len() == 0 {
        Seq::<char>::empty()
    } else {
        "?"@ + query_text(u.3)
    };
    let ac = match u.2 {
        Some(a) => "#"@ + a,
        None => Seq::<char>::empty(),
    };
    assert(path_text(u) == u.1 + qc + ac);
    crate::text::lemma_encode_utf8_concat(u.1, qc);
    crate::text::lemma_encode_utf8_concat(u.1 + qc, ac);
    let qb = encode_utf8(qc);
    let ab = encode_utf8(ac);
    let t = encode_utf8(path_text(u));
    assert(t == pb + qb + ab);
    lemma_query_bytes(u.3);
    let qt = encode_utf8(query_text(u.3));
    if u.3.len() == 0 {
        assert(qb == Seq::<u8>::empty());
    } else {
        crate::text::lemma_encode_utf8_concat("?"@, query_text(u.3));
        assert(qb == seq![63u8] + qt);
    }
    match u.2 {
        Some(a) => {
            crate::text::lemma_encode_utf8_concat("#"@, a);
            assert(ab == seq![35u8] + encode_utf8(a));
        },
        None => {
            assert(ab == Seq::<u8>::empty());
        },
    }
    let front = pb + qb;
    assert forall|j: int| 0 <= j < front.len() implies #[trigger] front[j] != 35 by {
        if j < pb.len() {
            assert(front[j] == pb[j]);
        } else if u.3.len() > 0 {
            assert(front[j] == qb[j - pb.len()]);
            if j > pb.len() {
                assert(qb[j - pb.len()] == qt[j - pb.len() - 1]);
            }
        }
    }
    let empty_text = encode_utf8(Seq::<char>::empty());
    assert(empty_text =~= Seq::<u8>::empty());
    match u.2 {
        Some(a) => {
            crate::bytes::lemma_find_byte_at(t, 35, 0, front.len() as int);
            assert(t.subrange(0, front.len() as int) == front);
            assert(t.subrange(front.len() + 1 as int, t.len() as int) == encode_utf8(a));
            assert(split_or_all(t, encode_utf8("#"@)) == (front, encode_utf8(a)));
        },
        None => {
            crate::bytes::lemma_find_byte_none(t, 35, 0);
            assert(t == front);
            assert(split_or_all(t, encode_utf8("#"@)) == (front, Seq::<u8>::empty()));
            assert(text_of(Seq::<u8>::empty()) == Some(Seq::<char>::empty()));
        },
    }
    if u.3.len() == 0 {
        assert(front == pb);
        crate::bytes::lemma_find_byte_none(front, 63, 0);
        assert(split_or_all(front, encode_utf8("?"@)) == (pb, Seq::<u8>::empty()));
    } else {
        crate::bytes::lemma_find_byte_at(front, 63, 0, pb.len() as int);
        assert(front.subrange(0, pb.len() as int) == pb);
        assert(front.subrange(pb.len() + 1 as int, front.len() as int) == qt);
        assert(split_or_all(front, encode_utf8("?"@)) == (pb, qt));
        lemma_entry_round_trip(u.3[0]);
        lemma_query_nonempty_bytes(u.3);
        lemma_query_round_trip(u.3);
    }
}

/// The text of a query with entries is not empty.
proof fn lemma_query_nonempty_bytes(q: Seq<QueryPair>)
    requires
        q.len() > 0,
    ensures
        encode_utf8(query_text(q)).len() > 0,
    decreases q.len(),
{
    if q.len() == 1 {
        lemma_entry_round_trip(q[0]);
        let p = q[0];
        crate::text::lemma_encode_utf8_concat(percent_encode(encode_utf8(p.0)), "="@);
        crate::text::lemma_encode_utf8_concat(percent_encode(encode_utf8(p.0)) + "="@, percent_encode(encode_utf8(p.1)));
        reveal_strlit("=");
        lemma_ascii_literal('=');
        assert("="@ == seq!['=']);
    } else {
        lemma_query_nonempty_bytes(q.drop_last());
        crate::text::lemma_encode_utf8_concat(query_text(q.drop_last()), "&"@);
        crate::text::lemma_encode_utf8_concat(query_text(q.drop_last()) + "&"@, pair_text(q.last()));
    }
}

/// An origin is well formed: its scheme and its domain hold no `:` and no
/// `/`.
pub open spec fn root_valid(r: RootView) -> bool {
    &&& forall|j: int| 0 <= j < encode_utf8(r.0).len() ==> #[trigger] encode_utf8(r.0)[j] != 58 && encode_utf8(r.0)[j] != 47
    &&& forall|j: int| 0 <= j < encode_utf8(r.1).len() ==> #[trigger] encode_utf8(r.1)[j] != 58 && encode_utf8(r.1)[j] != 47
}

/// The bytes of an origin's host part: the domain, then `:` and the port
/// unless the port is the scheme's own.
pub open spec fn host_bytes(r: RootView) -> Seq<u8> {
    encode_utf8(r.1) + if default_port(r.0) == Some(r.2) {
        Seq::<u8>::empty()
    } else {
        seq![58u8] + encode_utf8(decimal_of(r.2 as nat))
    }
}

/// An origin's text is its scheme, `://` and its host part; the host part
/// holds no `/` and reads back as the origin.
proof fn lemma_root_bytes(r: RootView)
    requires
        root_valid(r),
    ensures
        encode_utf8(root_text(r)) == encode_utf8(r.0) + seq![58u8, 47u8, 47u8] + host_bytes(r),
        forall|j: int| 0 <= j < host_bytes(r).len() ==> #[trigger] host_bytes(r)[j] != 47,
        parse_root(encode_utf8(r.0), host_bytes(r)) == Some(r),
{
    reveal_strlit("://");
    reveal_strlit(":");
    assert("://"@ == seq![':', '/', '/']);
    assert(":"@ == seq![':']);
    lemma_ascii_literal(':');
    assert(vstd::utf8::is_ascii_chars("://"@));
    vstd::utf8::is_ascii_chars_encode_utf8("://"@);
    assert(encode_utf8("://"@) =~= seq![58u8, 47u8, 47u8]);
    let sb = encode_utf8(r.0);
    let db = encode_utf8(r.1);
    let pc = if default_port(r.0) == Some(r.2) {
        Seq::<char>::empty()
    } else {
        ":"@ + decimal_of(r.2 as nat)
    };
    lemma_decimal_round_trip(r.2 as nat);
    let digits = encode_utf8(decimal_of(r.2 as nat));
    if default_port(r.0) == Some(r.2) {
        assert(encode_utf8(pc) =~= Seq::<u8>::empty());
    } else {
        crate::text::lemma_encode_utf8_concat(":"@, decimal_of(r.2 as nat));
    }
    assert(encode_utf8(pc) + Seq::<u8>::empty() == encode_utf8(pc));
    crate::text::lemma_encode_utf8_concat(r.0, "://"@);
    crate::text::lemma_encode_utf8_concat(r.0 + "://"@, r.1);
    crate::text::lemma_encode_utf8_concat(r.0 + "://"@ + r.1, pc);
    assert(host_bytes(r) == db + encode_utf8(pc));
    let host = host_bytes(r);
    assert forall|j: int| 0 <= j < host.len() implies #[trigger] host[j] != 47 by {
        if j < db.len() {
            assert(host[j] == db[j]);
        } else if default_port(r.0) != Some(r.2) {
            if j > db.len() {
                assert(host[j] == digits[j - db.len() - 1]);
            }
        }
    }
    if default_port(r.0) == Some(r.2) {
        assert(host == db);
        crate::bytes::lemma_find_byte_none(host, 58, 0);
    } else {
        crate::bytes::lemma_find_byte_at(host, 58, 0, db.len() as int);
        assert(host.subrange(0, db.len() as int) == db);
        assert(host.subrange(db.len() + 1 as int, host.len() as int) == digits);
    }
}

/// A scheme without `:` ends where `://` first occurs.
proof fn lemma_scheme_split(sb: Seq<u8>, hp: Seq<u8>)
    requires
        forall|j: int| 0 <= j < sb.len() ==> #[trigger] sb[j] != 58,
    ensures
        split_at_first(sb + seq![58u8, 47u8, 47u8] + hp, seq![58u8, 47u8, 47u8]) == Some((sb, hp)),
{
    let sep = seq![58u8, 47u8, 47u8];
    let t = sb + sep + hp;
    lemma_find_from(t, sep, 0);
    assert(t.subrange(sb.len() as int, sb.len() + 3 as int) =~= sep);
    assert(crate::bytes::matches_at(t, sep, sb.len() as int));
    assert forall|i: int| 0 <= i < sb.len() implies !#[trigger] crate::bytes::matches_at(t, sep, i) by {
        if crate::bytes::matches_at(t, sep, i) {
            assert(t.subrange(i, i + 3)[0] == t[i]);
            assert(t[i] == sb[i]);
        }
    }
    assert(t.subrange(0, sb.len() as int) == sb);
    assert(t.subrange(sb.len() + 3 as int, t.len() as int) == hp);
}

/// A host without `/` ends where the path's `/` starts.
proof fn lemma_host_split(host: Seq<u8>, tb: Seq<u8>)
    requires
        forall|j: int| 0 <= j < host.len() ==> #[trigger] host[j] != 47,
        tb.len() > 0,
        tb[0] == 47,
    ensures
        split_at_first(host + tb, seq![47u8]) == Some((host, tb.drop_first())),
{
    let hp = host + tb;
    crate::bytes::lemma_find_byte_at(hp, 47, 0, host.len() as int);
    assert(hp.subrange(0, host.len() as int) == host);
    assert(hp.subrange(host.len() + 1 as int, hp.len() as int) == tb.drop_first());
}

/// Any URL whose parts are well formed, written as text and parsed again,
/// gives the same URL: origin, path, fragment, and the query entries in the
/// same order.
pub proof fn lemma_url_round_trip(u: UrlView)
    requires
        path_part_valid(u),
        u.0 matches Some(r) ==> root_valid(r),
    ensures
        parse_url(encode_utf8(url_text(u))) == Ok::<UrlView, HttpError>(u),
{
    lemma_path_part_round_trip(u);
    let tb = encode_utf8(path_text(u));
    let pb = encode_utf8(u.1);
    crate::text::lemma_encode_utf8_concat(u.1, path_text(u).subrange(u.1.len() as int, path_text(u).len() as int));
    assert(u.1 + path_text(u).subrange(u.1.len() as int, path_text(u).len() as int) == path_text(u));
    assert(tb[0] == pb[0]);
    match u.0 {
        None => {},
        Some(r) => {
            reveal_strlit("://");
            reveal_strlit("/");
            assert("://"@ == seq![':', '/', '/']);
            assert("/"@ == seq!['/']);
            lemma_ascii_literal('/');
            assert(vstd::utf8::is_ascii_chars("://"@));
            vstd::utf8::is_ascii_chars_encode_utf8("://"@);
            assert(encode_utf8("://"@) =~= seq![58u8, 47u8, 47u8]);
            lemma_root_bytes(r);
            let sb = encode_utf8(r.0);
            let host = host_bytes(r);
            crate::text::lemma_encode_utf8_concat(root_text(r), path_text(u));
            let t = encode_utf8(url_text(u));
            assert(t == sb + seq![58u8, 47u8, 47u8] + (host + tb));
            lemma_scheme_split(sb, host + tb);
            lemma_host_split(host, tb);
            assert(seq![47u8] + tb.drop_first() == tb);
            if sb.len() > 0 {
                assert(t[0] == sb[0]);
            } else {
                assert(t[0] == 58);
            }
        },
    }
}

} // verus!
