//! Strings and their UTF-8 bytes.
use vstd::prelude::*;
use vstd::utf8::*;
use vstd::string::*;
use crate::bytes::copy_range;

verus! {

broadcast use vstd::utf8::encode_utf8_valid_utf8, vstd::utf8::encode_utf8_decode_utf8;

/// What `str::to_lowercase` makes of a string.
pub uninterp spec fn lower_of(s: Seq<char>) -> Seq<char>;

/// Relies on `str::to_lowercase`: the lowercase form of `s`, which depends on
/// its characters alone.
#[verifier::external_body]
pub(crate) fn lowercase(s: &str) -> (r: String)
    ensures
        r@ == lower_of(s@),
{
    s.to_lowercase()
}

/// Relies on `String::from_utf8`: the string that `b` encodes when `b` is
/// valid UTF-8, and nothing otherwise.
#[verifier::external_body]
pub(crate) fn utf8_decode(b: Vec<u8>) -> (r: Option<String>)
    ensures
        r is Some <==> valid_utf8(b@),
        r matches Some(s) ==> s@ == decode_utf8(b@),
{
    String::from_utf8(b).ok()
}

/// Whether `b` is valid UTF-8.
pub fn is_utf8(b: &[u8]) -> (r: bool)
    ensures
        r == valid_utf8(b@),
{
    utf8_decode(copy_range(b, 0, b.len())).is_some()
}

/// The UTF-8 bytes of `s`.
pub fn bytes_of(s: &str) -> (r: Vec<u8>)
    ensures
        r@ == encode_utf8(s@),
{
    let b = s.as_bytes();
    copy_range(b, 0, b.len())
}

/// The string that the UTF-8 bytes `b` encode.
pub fn string_of_utf8(b: Vec<u8>) -> (r: String)
    requires
        valid_utf8(b@),
    ensures
        r@ == decode_utf8(b@),
{
    match utf8_decode(b) {
        Some(s) => s,
        None => String::new(),
    }
}

/// The encoding of two strings one after the other is the two encodings one
/// after the other.
pub proof fn lemma_encode_utf8_concat(a: Seq<char>, b: Seq<char>)
    ensures
        encode_utf8(a + b) == encode_utf8(a) + encode_utf8(b),
    decreases a.len(),
{
    if a.len() == 0 {
        assert(a + b == b);
    } else {
        assert((a + b).drop_first() == a.drop_first() + b);
        lemma_encode_utf8_concat(a.drop_first(), b);
    }
}

/// `a` followed by `b`.
pub fn concat(a: &str, b: &str) -> (r: String)
    ensures
        r@ == a@ + b@,
{
    let mut v = bytes_of(a);
    let w = bytes_of(b);
    crate::bytes::push_all(&mut v, w.as_slice());
    proof {
        lemma_encode_utf8_concat(a@, b@);
    }
    string_of_utf8(v)
}

/// The decimal digits of `n`, most significant first, without leading zeros.
pub open spec fn decimal_of(n: nat) -> Seq<char>
    decreases n,
{
    if n < 10 {
        seq![(n + 48) as char]
    } else {
        decimal_of(n / 10) + seq![((n % 10) + 48) as char]
    }
}

/// The one-character string of the ASCII character `b`.
pub fn ascii_char_string(b: u8) -> (r: String)
    requires
        b < 128,
    ensures
        r@ == seq![b as char],
{
    let v: Vec<u8> = vec![b];
    proof {
        let c = seq![b as char];
        assert(is_ascii_chars(c));
        is_ascii_chars_encode_utf8(c);
        assert(encode_utf8(c) =~= v@);
    }
    string_of_utf8(v)
}

/// `n` written in decimal.
pub fn decimal_string(n: u64) -> (r: String)
    ensures
        r@ == decimal_of(n as nat),
    decreases n,
{
    if n < 10 {
        ascii_char_string(n as u8 + 48)
    } else {
        let high = decimal_string(n / 10);
        let low = ascii_char_string((n % 10) as u8 + 48);
        concat(high.as_str(), low.as_str())
    }
}

} // verus!
