//! Ordered HTTP headers whose names compare without regard to case.
use vstd::prelude::*;
use vstd::utf8::{decode_utf8, encode_utf8, valid_utf8};
use crate::bytes::{copy_range, find_bytes, lemma_find_from, push_all, split_at_first};
use crate::error::HttpError;
use crate::stream::{read_line, take_line, lemma_take_line_shrinks, ByteSource};
use crate::text::{bytes_of, lower_of, lowercase, utf8_decode};

verus! {

broadcast use vstd::utf8::encode_utf8_valid_utf8, vstd::utf8::encode_utf8_decode_utf8;

/// A header as plain values: name and value.
pub type HeaderView = (Seq<char>, Seq<char>);

/// Two header names are the same name: their lowercase forms are equal.
pub open spec fn same_name(a: Seq<char>, b: Seq<char>) -> bool {
    lower_of(a) == lower_of(b)
}

/// The position of the first header named `key`.
pub open spec fn first_named(h: Seq<HeaderView>, key: Seq<char>) -> Option<int>
    decreases h.len(),
{
    if h.len() == 0 {
        None
    } else if same_name(h[0].0, key) {
        Some(0)
    } else {
        match first_named(h.drop_first(), key) {
            Some(i) => Some(i + 1),
            None => None,
        }
    }
}

/// The value of the first header named `key`.
pub open spec fn value_of(h: Seq<HeaderView>, key: Seq<char>) -> Option<Seq<char>> {
    match first_named(h, key) {
        Some(i) => Some(h[i].1),
        None => None,
    }
}

/// `h` with `key` set to `value`: the first header of that name takes the
/// value, or a new header comes last.
pub open spec fn put_spec(h: Seq<HeaderView>, key: Seq<char>, value: Seq<char>) -> Seq<HeaderView> {
    match first_named(h, key) {
        Some(i) => h.update(i, (h[i].0, value)),
        None => h.push((key, value)),
    }
}

/// `h` without the headers named `key`, the others in their order.
pub open spec fn without_name(h: Seq<HeaderView>, key: Seq<char>) -> Seq<HeaderView>
    decreases h.len(),
{
    if h.len() == 0 {
        seq![]
    } else {
        let r = without_name(h.drop_last(), key);
        if same_name(h.last().0, key) {
            r
        } else {
            r.push(h.last())
        }
    }
}

/// The wire form of one header: `name: value` and a line ending.
pub open spec fn header_line_bytes(e: HeaderView) -> Seq<u8> {
    encode_utf8(e.0) + seq![58u8, 32u8] + encode_utf8(e.1) + seq![13u8, 10u8]
}

/// The wire form of headers: each as `name: value` and a line ending, in
/// order, with no blank line after them.
pub open spec fn headers_bytes(h: Seq<HeaderView>) -> Seq<u8>
    decreases h.len(),
{
    if h.len() == 0 {
        seq![]
    } else {
        headers_bytes(h.drop_last()) + header_line_bytes(h.last())
    }
}

/// The header that a line `name: value` gives: split at the first `": "`,
/// both sides valid UTF-8.
pub open spec fn parse_header_line(line: Seq<u8>) -> Option<HeaderView> {
    match split_at_first(line, seq![58u8, 32u8]) {
        Some((k, v)) => if valid_utf8(k) && valid_utf8(v) {
            Some((decode_utf8(k), decode_utf8(v)))
        } else {
            None
        },
        None => None,
    }
}

/// What reading a header block from `p` gives, and what follows it: lines
/// up to an empty one, each a `name: value` header.
pub open spec fn recv_headers(p: Seq<u8>) -> (Result<Seq<HeaderView>, HttpError>, Seq<u8>)
    decreases p.len(),
{
    match take_line(p) {
        None => (Err(HttpError::InvalidHeaders), seq![]),
        Some((line, rest)) => if line.len() == 0 {
            (Ok(seq![]), rest)
        } else if rest.len() >= p.len() {
            (Err(HttpError::InvalidHeaders), seq![])
        } else {
            match parse_header_line(line) {
                None => (Err(HttpError::InvalidHeaders), rest),
                Some(e) => {
                    let (r, after) = recv_headers(rest);
                    match r {
                        Ok(h) => (Ok(seq![e] + h), after),
                        Err(err) => (Err(err), after),
                    }
                },
            }
        },
    }
}

/// A name and value pair as plain values.
pub open spec fn pair_view(e: (String, String)) -> HeaderView {
    (e.0@, e.1@)
}

/// Name and value pairs as plain values.
pub open spec fn entries_view(v: Seq<(String, String)>) -> Seq<HeaderView> {
    v.map_values(|e: (String, String)| pair_view(e))
}

/// HTTP headers: an ordered list of name and value pairs. Several headers may
/// share a name; lookups compare names without regard to case.
#[derive(Debug, Clone)]
pub struct Headers {
    entries: Vec<(String, String)>,
}

impl View for Headers {
    type V = Seq<HeaderView>;

    closed spec fn view(&self) -> Seq<HeaderView> {
        entries_view(self.entries@)
    }
}

/// Whether `name` and `key` are the same header name, `lkey` being the
/// lowercase form of `key`.
fn name_matches(name: &String, lkey: &String, Ghost(key): Ghost<Seq<char>>) -> (r: bool)
    requires
        lkey@ == lower_of(key),
    ensures
        r == same_name(name@, key),
{
    let l = lowercase(name.as_str());
    l == *lkey
}

impl Headers {
    /// No headers.
    pub fn new() -> (r: Headers)
        ensures
            r@ == Seq::<HeaderView>::empty(),
    {
        Headers { entries: Vec::new() }
    }

    /// Headers holding `entries`, in their order.
    pub fn from_entries(entries: Vec<(String, String)>) -> (r: Headers)
        ensures
            r@ == entries_view(entries@),
    {
        Headers { entries }
    }

    /// The position of the first header named `key`.
    fn position(&self, key: &str) -> (r: Option<usize>)
        ensures
            match r {
                Some(i) => first_named(self@, key@) == Some(i as int) && i < self@.len(),
                None => first_named(self@, key@) is None,
            },
    {
        proof {
            lemma_first_named(self@, key@);
            assert(self@.skip(0) == self@);
        }
        let lkey = lowercase(key);
        let mut i: usize = 0;
        while i < self.entries.len()
            invariant
                i <= self.entries@.len(),
                lkey@ == lower_of(key@),
                first_named(self@, key@) == match first_named(self@.skip(i as int), key@) {
                    Some(j) => Some(j + i),
                    None => None,
                },
            decreases self.entries@.len() - i,
        {
            assert(self@.skip(i as int)[0] == self@[i as int]);
            assert(self@.skip(i as int).drop_first() == self@.skip(i + 1));
            if name_matches(&self.entries[i].0, &lkey, Ghost(key@)) {
                return Some(i);
            }
            i = i + 1;
        }
        None
    }

    /// Whether a header is named `header`.
    pub fn contains(&self, header: &str) -> (r: bool)
        ensures
            r == first_named(self@, header@) is Some,
    {
        self.position(header).is_some()
    }

    /// Whether a header is named `key`.
    pub fn contains_key(&self, key: &str) -> (r: bool)
        ensures
            r == first_named(self@, key@) is Some,
    {
        self.contains(key)
    }

    /// Whether a header has the value `value`.
    pub fn contains_value(&self, value: &str) -> (r: bool)
        ensures
            r == exists|i: int| 0 <= i < self@.len() && #[trigger] self@[i].1 == value@,
    {
        let wanted = value.to_owned();
        let mut i: usize = 0;
        while i < self.entries.len()
            invariant
                wanted@ == value@,
                i <= self.entries@.len(),
                forall|j: int| 0 <= j < i ==> #[trigger] self@[j].1 != value@,
            decreases self.entries@.len() - i,
        {
            if self.entries[i].1 == wanted {
                assert(self@[i as int].1 == value@);
                return true;
            }
            i = i + 1;
        }
        false
    }

    /// The value of the first header named `key`.
    pub fn get(&self, key: &str) -> (r: Option<String>)
        ensures
            match r {
                Some(v) => value_of(self@, key@) == Some(v@),
                None => value_of(self@, key@) is None,
            },
    {
        match self.position(key) {
            Some(i) => Some(self.entries[i].1.clone()),
            None => None,
        }
    }

    /// Adds a header after the others, whatever headers of that name exist.
    pub fn add(&mut self, key: &str, value: String)
        ensures
            final(self)@ == old(self)@.push((key@, value@)),
    {
        self.entries.push((key.to_owned(), value));
        assert(self@ =~= old(self)@.push((key@, value@)));
    }

    /// Sets the header `key`: the first header of that name takes `value`, or
    /// a new header comes last.
    pub fn put(&mut self, key: &str, value: String)
        ensures
            final(self)@ == put_spec(old(self)@, key@, value@),
    {
        match self.position(key) {
            Some(i) => {
                let name = self.entries[i].0.clone();
                self.entries.set(i, (name, value));
                assert(self@ =~= put_spec(old(self)@, key@, value@));
            },
            None => {
                self.add(key, value);
            },
        }
    }

    /// Adds the header `key` only where no header has that name.
    pub fn put_default(&mut self, key: &str, value: String)
        ensures
            first_named(old(self)@, key@) is Some ==> final(self)@ == old(self)@,
            first_named(old(self)@, key@) is None ==> final(self)@ == old(self)@.push(
                (key@, value@),
            ),
    {
        if !self.contains(key) {
            self.add(key, value);
        }
    }

    /// Removes every header named `key`, the others keeping their order.
    pub fn remove(&mut self, key: &str)
        ensures
            final(self)@ == without_name(old(self)@, key@),
    {
        let lkey = lowercase(key);
        let mut kept: Vec<(String, String)> = Vec::new();
        let mut i: usize = 0;
        let ghost h = self@;
        while i < self.entries.len()
            invariant
                h == self@,
                h == old(self)@,
                i <= self.entries@.len(),
                lkey@ == lower_of(key@),
                entries_view(kept@) == without_name(
                    h.take(i as int),
                    key@,
                ),
            decreases self.entries@.len() - i,
        {
            assert(h.take(i + 1).drop_last() == h.take(i as int));
            assert(h.take(i + 1).last() == h[i as int]);
            if !name_matches(&self.entries[i].0, &lkey, Ghost(key@)) {
                let e = (self.entries[i].0.clone(), self.entries[i].1.clone());
                kept.push(e);
                assert(entries_view(kept@) =~= without_name(
                    h.take(i as int),
                    key@,
                ).push(h[i as int]));
            }
            i = i + 1;
        }
        assert(h.take(i as int) == h);
        self.entries = kept;
    }

    /// The names, in order.
    pub fn keys(&self) -> (r: Vec<String>)
        ensures
            r@.len() == self@.len(),
            forall|i: int| 0 <= i < r@.len() ==> #[trigger] r@[i]@ == self@[i].0,
    {
        let mut r: Vec<String> = Vec::new();
        let mut i: usize = 0;
        while i < self.entries.len()
            invariant
                i <= self.entries@.len(),
                r@.len() == i,
                forall|j: int| 0 <= j < i ==> #[trigger] r@[j]@ == self@[j].0,
            decreases self.entries@.len() - i,
        {
            r.push(self.entries[i].0.clone());
            i = i + 1;
        }
        r
    }

    /// The values, in order.
    pub fn values(&self) -> (r: Vec<String>)
        ensures
            r@.len() == self@.len(),
            forall|i: int| 0 <= i < r@.len() ==> #[trigger] r@[i]@ == self@[i].1,
    {
        let mut r: Vec<String> = Vec::new();
        let mut i: usize = 0;
        while i < self.entries.len()
            invariant
                i <= self.entries@.len(),
                r@.len() == i,
                forall|j: int| 0 <= j < i ==> #[trigger] r@[j]@ == self@[j].1,
            decreases self.entries@.len() - i,
        {
            r.push(self.entries[i].1.clone());
            i = i + 1;
        }
        r
    }

    /// The headers as name and value pairs, in order.
    pub fn entries(&self) -> (r: Vec<(String, String)>)
        ensures
            entries_view(r@) == self@,
    {
        let mut r: Vec<(String, String)> = Vec::new();
        let mut i: usize = 0;
        while i < self.entries.len()
            invariant
                i <= self.entries@.len(),
                entries_view(r@) == self@.take(i as int),
            decreases self.entries@.len() - i,
        {
            let e = (self.entries[i].0.clone(), self.entries[i].1.clone());
            assert(pair_view(e) == self@[i as int]);
            let ghost before = r@;
            r.push(e);
            assert(entries_view(r@) =~= entries_view(before).push(pair_view(e)));
            assert(entries_view(r@) =~= self@.take(i + 1));
            i = i + 1;
        }
        assert(self@.take(i as int) == self@);
        r
    }

    /// The number of headers.
    pub fn len(&self) -> (r: usize)
        ensures
            r == self@.len(),
    {
        self.entries.len()
    }

    /// Removes all headers.
    pub fn clear(&mut self)
        ensures
            final(self)@ == Seq::<HeaderView>::empty(),
    {
        self.entries.clear();
        assert(self@ =~= Seq::<HeaderView>::empty());
    }

    /// The wire form: each header as `name: value` and `\r\n`, in order,
    /// with no blank line after them.
    pub fn to_bytes(&self) -> (r: Vec<u8>)
        ensures
            r@ == headers_bytes(self@),
    {
        let mut out: Vec<u8> = Vec::new();
        let mut i: usize = 0;
        while i < self.entries.len()
            invariant
                i <= self.entries@.len(),
                out@ == headers_bytes(self@.take(i as int)),
            decreases self.entries@.len() - i,
        {
            assert(self@.take(i + 1).drop_last() == self@.take(i as int));
            assert(self@.take(i + 1).last() == self@[i as int]);
            let k = bytes_of(self.entries[i].0.as_str());
            let v = bytes_of(self.entries[i].1.as_str());
            push_all(&mut out, k.as_slice());
            push_all(&mut out, &[58u8, 32u8]);
            push_all(&mut out, v.as_slice());
            push_all(&mut out, &[13u8, 10u8]);
            assert(out@ =~= headers_bytes(self@.take(i as int)) + header_line_bytes(
                self@[i as int],
            ));
            i = i + 1;
        }
        assert(self@.take(i as int) == self@);
        out
    }

    /// Reads a header block: `name: value` lines up to an empty line. A line
    /// without `": "`, or not UTF-8, or the end of the stream before the empty
    /// line, fails with `InvalidHeaders`.
    pub fn recv<S: ByteSource>(stream: &mut S) -> (r: Result<Headers, HttpError>)
        ensures
            match recv_headers(old(stream).pending()).0 {
                Ok(h) => r matches Ok(hs) && hs@ == h && final(stream).pending() == recv_headers(
                    old(stream).pending(),
                ).1,
                Err(e) => r == Err::<Headers, HttpError>(e),
            },
    {
        let mut headers = Headers::new();
        let ghost initial = stream.pending();
        loop
            invariant
                initial == old(stream).pending(),
                recv_headers(initial) == (match recv_headers(stream.pending()).0 {
                    Ok(h) => (
                        Ok::<Seq<HeaderView>, HttpError>(headers@ + h),
                        recv_headers(stream.pending()).1,
                    ),
                    Err(e) => (Err(e), recv_headers(stream.pending()).1),
                }),
            decreases stream.pending().len(),
        {
            let ghost p = stream.pending();
            proof {
                lemma_take_line_shrinks(p);
            }
            let line = match read_line(stream) {
                Ok(l) => l,
                Err(_) => {
                    return Err(HttpError::InvalidHeaders);
                },
            };
            if line.len() == 0 {
                assert(headers@ + Seq::<HeaderView>::empty() == headers@);
                return Ok(headers);
            }
            match parse_header_line_exec(&line) {
                None => {
                    return Err(HttpError::InvalidHeaders);
                },
                Some((k, v)) => {
                    let ghost before = headers@;
                    headers.add(k.as_str(), v);
                    proof {
                        let e = (k@, v@);
                        match recv_headers(stream.pending()).0 {
                            Ok(h) => {
                                assert(before + (seq![e] + h) == headers@ + h);
                            },
                            Err(_) => {},
                        }
                    }
                },
            }
        }
    }
}

/// The header that a line `name: value` gives.
fn parse_header_line_exec(line: &Vec<u8>) -> (r: Option<(String, String)>)
    ensures
        match parse_header_line(line@) {
            Some(e) => r matches Some(kv) && kv.0@ == e.0 && kv.1@ == e.1,
            None => r is None,
        },
{
    let sep: [u8; 2] = [58u8, 32u8];
    assert(sep@ == seq![58u8, 32u8]);
    match find_bytes(line.as_slice(), &sep, 0) {
        None => None,
        Some(i) => {
            proof {
                lemma_find_from(line@, seq![58u8, 32u8], 0);
            }
            let n = line.len();
            let k = copy_range(line.as_slice(), 0, i);
            let v = copy_range(line.as_slice(), i + 2, n);
            match (utf8_decode(k), utf8_decode(v)) {
                (Some(ks), Some(vs)) => Some((ks, vs)),
                _ => None,
            }
        },
    }
}

/// Where the first header named `key` stands: `first_named` gives the first
/// position whose name is the same as `key`.
pub proof fn lemma_first_named(h: Seq<HeaderView>, key: Seq<char>)
    ensures
        match first_named(h, key) {
            Some(i) => 0 <= i < h.len() && same_name(h[i].0, key) && forall|j: int|
                0 <= j < i ==> !same_name(#[trigger] h[j].0, key),
            None => forall|j: int| 0 <= j < h.len() ==> !same_name(#[trigger] h[j].0, key),
        },
    decreases h.len(),
{
    if h.len() > 0 {
        let t = h.drop_first();
        lemma_first_named(t, key);
        assert forall|j: int| 0 < j < h.len() implies h[j].0 == #[trigger] t[j - 1].0 by {}
        if !same_name(h[0].0, key) {
            match first_named(t, key) {
                Some(i) => {
                    assert forall|j: int| 0 <= j < i + 1 implies !same_name(
                        #[trigger] h[j].0,
                        key,
                    ) by {
                        if j > 0 {
                            assert(h[j].0 == t[j - 1].0);
                        }
                    }
                },
                None => {
                    assert forall|j: int| 0 <= j < h.len() implies !same_name(
                        #[trigger] h[j].0,
                        key,
                    ) by {
                        if j > 0 {
                            assert(h[j].0 == t[j - 1].0);
                        }
                    }
                },
            }
        }
    }
}

/// Setting a header and then looking it up by any name that is the same
/// without regard to case gives the value set.
pub proof fn lemma_put_then_get(h: Seq<HeaderView>, key: Seq<char>, other: Seq<char>, value: Seq<char>)
    requires
        same_name(key, other),
    ensures
        value_of(put_spec(h, key, value), other) == Some(value),
{
    lemma_first_named(h, key);
    let h2 = put_spec(h, key, value);
    lemma_first_named(h2, other);
    match first_named(h, key) {
        Some(i) => {
            assert(h2 == h.update(i, (h[i].0, value)));
            assert forall|j: int| 0 <= j < h.len() implies #[trigger] h2[j].0 == h[j].0 by {}
            assert(h2[i].1 == value);
            match first_named(h2, other) {
                Some(k) => {
                    if k < i {
                        assert(h2[k].0 == h[k].0);
                        assert(same_name(h[k].0, key));
                        assert(false);
                    } else if k > i {
                        assert(h2[i].0 == h[i].0);
                        assert(same_name(h2[i].0, other));
                        assert(false);
                    }
                    assert(k == i);
                    assert(value_of(h2, other) == Some(h2[k].1));
                },
                None => {
                    assert(h2[i].0 == h[i].0);
                },
            }
        },
        None => {
            assert(h2 == h.push((key, value)));
            match first_named(h2, other) {
                Some(k) => {
                    if k < h.len() {
                        assert(h2[k] == h[k]);
                        assert(same_name(h[k].0, key));
                        assert(false);
                    }
                    assert(k == h.len());
                    assert(value_of(h2, other) == Some(h2[k].1));
                },
                None => {
                    assert(h2[h.len() as int] == (key, value));
                    assert(same_name(h2[h.len() as int].0, other));
                },
            }
        },
    }
}

} // verus!
