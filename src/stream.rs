//! Byte sources that the codec reads from, and line reading over them.
use vstd::prelude::*;
use crate::bytes::{copy_range, find_first, find_from, lemma_find_from, lemma_single_match};

verus! {

/// A source of bytes read one at a time, such as a socket or a buffer.
///
/// Its model is the sequence of bytes it will still yield before it reports
/// the end of the stream.
pub trait ByteSource {
    /// The bytes still to come, in order.
    spec fn pending(&self) -> Seq<u8>;

    /// The next byte, or `None` at the end of the stream.
    fn read_byte(&mut self) -> (r: Option<u8>)
        ensures
            old(self).pending().len() == 0 ==> r is None && final(self).pending() == old(
                self,
            ).pending(),
            old(self).pending().len() > 0 ==> r == Some(old(self).pending()[0])
                && final(self).pending() == old(self).pending().drop_first(),
    ;
}

/// A byte source over bytes held in memory. It records whether a read ever
/// found it empty, so that a caller feeding it from a socket knows that more
/// bytes could have changed the outcome.
pub struct ByteReader {
    data: Vec<u8>,
    pos: usize,
    ended: bool,
}

impl ByteReader {
    /// A reader that yields `data` and then ends.
    pub fn new(data: Vec<u8>) -> (r: ByteReader)
        ensures
            r.pending() == data@,
    {
        let r = ByteReader { data, pos: 0, ended: false };
        assert(r.data@.subrange(0, r.data@.len() as int) == r.data@);
        r
    }

    /// Whether a read has found no byte left.
    pub closed spec fn ended(&self) -> bool {
        self.ended
    }

    /// Whether a read has found no byte left.
    pub fn reached_end(&self) -> (r: bool)
        ensures
            r == self.ended(),
    {
        self.ended
    }

    /// The bytes not read yet, taken out of the reader.
    pub fn into_remaining(self) -> (r: Vec<u8>)
        ensures
            r@ == self.pending(),
    {
        if self.pos <= self.data.len() {
            copy_range(self.data.as_slice(), self.pos, self.data.len())
        } else {
            Vec::new()
        }
    }
}

impl ByteSource for ByteReader {
    closed spec fn pending(&self) -> Seq<u8> {
        if self.pos <= self.data@.len() {
            self.data@.subrange(self.pos as int, self.data@.len() as int)
        } else {
            seq![]
        }
    }

    fn read_byte(&mut self) -> (r: Option<u8>) {
        if self.pos < self.data.len() {
            let b = self.data[self.pos];
            self.pos = self.pos + 1;
            assert(old(self).pending().drop_first() == self.pending());
            Some(b)
        } else {
            self.ended = true;
            None
        }
    }
}

/// The line feed that ends a line.
pub open spec fn lf() -> Seq<u8> {
    seq![10u8]
}

/// A line without its carriage return, if it ends with one.
pub open spec fn strip_cr(l: Seq<u8>) -> Seq<u8> {
    if l.len() > 0 && l.last() == 13 {
        l.drop_last()
    } else {
        l
    }
}

/// The first line of `p`, without its line ending (`\r\n` or `\n`), and what
/// follows it; `None` when no line feed comes.
pub open spec fn take_line(p: Seq<u8>) -> Option<(Seq<u8>, Seq<u8>)> {
    match find_first(p, lf()) {
        Some(i) => Some((strip_cr(p.subrange(0, i)), p.subrange(i + 1, p.len() as int))),
        None => None,
    }
}

/// What follows a line is shorter than what held it.
pub proof fn lemma_take_line_shrinks(p: Seq<u8>)
    ensures
        take_line(p) matches Some((l, rest)) ==> (rest.len() < p.len() && l.len() < p.len()),
{
    lemma_find_from(p, lf(), 0);
}

/// Reads one line: the bytes up to the next line feed, without the line
/// ending (`\r\n` or `\n`). At the end of the stream before a line feed it
/// fails with `ReadLineEof`.
pub fn read_line<S: ByteSource>(stream: &mut S) -> (r: Result<Vec<u8>, crate::error::HttpError>)
    ensures
        match take_line(old(stream).pending()) {
            Some((line, rest)) => r matches Ok(l) && l@ == line && final(stream).pending() == rest,
            None => r == Err::<Vec<u8>, crate::error::HttpError>(
                crate::error::HttpError::ReadLineEof,
            ),
        },
{
    let ghost initial = stream.pending();
    let mut line: Vec<u8> = Vec::new();
    loop
        invariant
            initial == old(stream).pending(),
            line@.len() <= initial.len(),
            line@ == initial.subrange(0, line@.len() as int),
            stream.pending() == initial.subrange(line@.len() as int, initial.len() as int),
            find_first(initial, lf()) == find_from(initial, lf(), line@.len() as int),
        decreases stream.pending().len(),
    {
        let ghost k = line@.len() as int;
        match stream.read_byte() {
            None => {
                assert(k == initial.len());
                return Err(crate::error::HttpError::ReadLineEof);
            },
            Some(b) => {
                assert(b == initial[k]);
                proof {
                    lemma_single_match(initial, 10, k);
                }
                if b == 10 {
                    let mut content = line;
                    let n = content.len();
                    if n > 0 && content[n - 1] == 13 {
                        content.pop();
                    }
                    proof {
                        assert(find_first(initial, lf()) == Some(k));
                        assert(stream.pending() == initial.subrange(k + 1, initial.len() as int));
                        assert(content@ == strip_cr(initial.subrange(0, k)));
                    }
                    return Ok(content);
                }
                line.push(b);
                assert(line@ == initial.subrange(0, k + 1));
                assert(stream.pending() == initial.subrange(k + 1, initial.len() as int));
            },
        }
    }
}

/// Reads exactly `n` bytes; fails with `err` when the stream ends first.
pub fn read_exact<S: ByteSource>(stream: &mut S, n: usize, err: crate::error::HttpError) -> (r: Result<
    Vec<u8>,
    crate::error::HttpError,
>)
    ensures
        old(stream).pending().len() >= n ==> (r matches Ok(b) && b@ == old(stream).pending().take(
            n as int,
        ) && final(stream).pending() == old(stream).pending().skip(n as int)),
        old(stream).pending().len() < n ==> r == Err::<Vec<u8>, crate::error::HttpError>(err),
{
    let ghost initial = stream.pending();
    let mut out: Vec<u8> = Vec::new();
    while out.len() < n
        invariant
            initial == old(stream).pending(),
            out@.len() <= n,
            out@.len() <= initial.len(),
            out@ == initial.subrange(0, out@.len() as int),
            stream.pending() == initial.subrange(out@.len() as int, initial.len() as int),
        decreases n - out@.len(),
    {
        let ghost k = out@.len() as int;
        match stream.read_byte() {
            None => {
                return Err(err);
            },
            Some(b) => {
                out.push(b);
                assert(out@ == initial.subrange(0, k + 1));
                assert(stream.pending() == initial.subrange(k + 1, initial.len() as int));
            },
        }
    }
    assert(out@ == initial.take(n as int));
    Ok(out)
}

} // verus!
