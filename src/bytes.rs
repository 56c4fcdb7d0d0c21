//! Searching, splitting and number reading on byte sequences.
use vstd::prelude::*;

verus! {

/// `pat` occurs in `s` at position `i`.
pub open spec fn matches_at(s: Seq<u8>, pat: Seq<u8>, i: int) -> bool {
    0 <= i && i + pat.len() <= s.len() && s.subrange(i, i + pat.len()) == pat
}

/// The first position at or after `i` where `pat` occurs in `s`.
pub open spec fn find_from(s: Seq<u8>, pat: Seq<u8>, i: int) -> Option<int>
    decreases s.len() + 1 - i,
{
    if i < 0 || i + pat.len() > s.len() {
        None
    } else if matches_at(s, pat, i) {
        Some(i)
    } else {
        find_from(s, pat, i + 1)
    }
}

/// The first position where `pat` occurs in `s`.
pub open spec fn find_first(s: Seq<u8>, pat: Seq<u8>) -> Option<int> {
    find_from(s, pat, 0)
}

/// `s` cut around the first occurrence of `sep`, if there is one.
pub open spec fn split_at_first(s: Seq<u8>, sep: Seq<u8>) -> Option<(Seq<u8>, Seq<u8>)> {
    match find_first(s, sep) {
        Some(i) => Some((s.subrange(0, i), s.subrange(i + sep.len(), s.len() as int))),
        None => None,
    }
}

/// The pieces of `s` from position `start` on, cut at each occurrence of `sep`
/// from left to right.
pub open spec fn split_from(s: Seq<u8>, sep: Seq<u8>, start: int) -> Seq<Seq<u8>>
    decreases s.len() - start,
{
    if sep.len() == 0 || start < 0 || start > s.len() {
        seq![]
    } else {
        match find_from(s, sep, start) {
            Some(i) => if start <= i && i + sep.len() <= s.len() {
                seq![s.subrange(start, i)] + split_from(s, sep, i + sep.len())
            } else {
                seq![]
            },
            None => seq![s.subrange(start, s.len() as int)],
        }
    }
}

/// The pieces of `s` between the occurrences of `sep`, like `str::split`.
pub open spec fn split_all(s: Seq<u8>, sep: Seq<u8>) -> Seq<Seq<u8>> {
    split_from(s, sep, 0)
}

/// The contents of a sequence of vectors.
pub open spec fn views(v: Seq<Vec<u8>>) -> Seq<Seq<u8>> {
    v.map_values(|x: Vec<u8>| x@)
}

/// `find_from` gives the first position at or after `i` where `pat` occurs.
pub proof fn lemma_find_from(s: Seq<u8>, pat: Seq<u8>, i: int)
    requires
        0 <= i,
    ensures
        match find_from(s, pat, i) {
            Some(j) => i <= j && matches_at(s, pat, j) && forall|k: int|
                i <= k < j ==> !#[trigger] matches_at(s, pat, k),
            None => forall|k: int| i <= k ==> !#[trigger] matches_at(s, pat, k),
        },
    decreases s.len() + 1 - i,
{
    if i + pat.len() > s.len() {
    } else if matches_at(s, pat, i) {
    } else {
        lemma_find_from(s, pat, i + 1);
    }
}

/// Appends all of `src` to `dst`.
pub fn push_all(dst: &mut Vec<u8>, src: &[u8])
    ensures
        final(dst)@ == old(dst)@ + src@,
{
    let mut i: usize = 0;
    while i < src.len()
        invariant
            i <= src@.len(),
            dst@ == old(dst)@ + src@.subrange(0, i as int),
        decreases src@.len() - i,
    {
        dst.push(src[i]);
        i = i + 1;
        assert(src@.subrange(0, i as int) == src@.subrange(0, i - 1) + seq![src@[i - 1]]);
    }
    assert(src@.subrange(0, i as int) == src@);
}

/// The bytes of `s` from `lo` up to `hi`, as a vector.
pub fn copy_range(s: &[u8], lo: usize, hi: usize) -> (r: Vec<u8>)
    requires
        lo <= hi <= s@.len(),
    ensures
        r@ == s@.subrange(lo as int, hi as int),
        lo == 0 && hi == s@.len() ==> r@ == s@,
{
    assert(s@.subrange(0, s@.len() as int) == s@);
    let mut r: Vec<u8> = Vec::new();
    let mut i: usize = lo;
    while i < hi
        invariant
            lo <= i <= hi <= s@.len(),
            r@ == s@.subrange(lo as int, i as int),
        decreases hi - i,
    {
        r.push(s[i]);
        i = i + 1;
        assert(s@.subrange(lo as int, i as int) == s@.subrange(lo as int, i - 1) + seq![s@[i - 1]]);
    }
    r
}

/// Whether `pat` occurs in `s` at position `i`.
pub fn matches_at_exec(s: &[u8], pat: &[u8], i: usize) -> (r: bool)
    ensures
        r == matches_at(s@, pat@, i as int),
{
    if pat.len() > s.len() || i > s.len() - pat.len() {
        return false;
    }
    let mut j: usize = 0;
    while j < pat.len()
        invariant
            i + pat@.len() <= s@.len(),
            j <= pat@.len(),
            forall|k: int| 0 <= k < j ==> s@[i + k] == pat@[k],
        decreases pat@.len() - j,
    {
        let n = s.len();
        assert(i + j < n);
        let k: usize = i + j;
        if s[k] != pat[j] {
            assert(s@.subrange(i as int, i + pat@.len())[j as int] != pat@[j as int]);
            return false;
        }
        j = j + 1;
    }
    assert(s@.subrange(i as int, i + pat@.len()) =~= pat@);
    true
}

/// The first position at or after `from` where `pat` occurs in `s`.
pub fn find_bytes(s: &[u8], pat: &[u8], from: usize) -> (r: Option<usize>)
    ensures
        match r {
            Some(i) => find_from(s@, pat@, from as int) == Some(i as int),
            None => find_from(s@, pat@, from as int) is None,
        },
{
    let mut i: usize = from;
    if pat.len() > s.len() || i > s.len() - pat.len() {
        return None;
    }
    loop
        invariant
            from <= i <= s@.len() - pat@.len(),
            pat@.len() <= s@.len(),
            find_from(s@, pat@, from as int) == find_from(s@, pat@, i as int),
        decreases s@.len() - i,
    {
        if matches_at_exec(s, pat, i) {
            return Some(i);
        }
        if i >= s.len() - pat.len() {
            assert(find_from(s@, pat@, i + 1) is None);
            return None;
        }
        i = i + 1;
    }
}

/// `bytes` cut around the first occurrence of `sep`: the part before it and
/// the part after it, or all of `bytes` and nothing where `sep` does not occur.
pub fn split_bytes_once(bytes: &[u8], sep: &[u8]) -> (r: (Vec<u8>, Vec<u8>))
    ensures
        match split_at_first(bytes@, sep@) {
            Some((a, b)) => r.0@ == a && r.1@ == b,
            None => r.0@ == bytes@ && r.1@.len() == 0,
        },
{
    match find_bytes(bytes, sep, 0) {
        Some(i) => {
            proof {
                lemma_find_from(bytes@, sep@, 0);
            }
            let n = bytes.len();
            assert(i + sep@.len() <= n);
            (copy_range(bytes, 0, i), copy_range(bytes, i + sep.len(), n))
        },
        None => (copy_range(bytes, 0, bytes.len()), Vec::new()),
    }
}

/// `bytes` cut at every occurrence of `sep`, from left to right; the pieces
/// between the occurrences, the first and the last included even when empty.
pub fn split_bytes(bytes: &[u8], sep: &[u8]) -> (r: Vec<Vec<u8>>)
    requires
        sep@.len() > 0,
    ensures
        views(r@) == split_all(bytes@, sep@),
{
    let mut parts: Vec<Vec<u8>> = Vec::new();
    let mut start: usize = 0;
    loop
        invariant
            sep@.len() > 0,
            start <= bytes@.len(),
            views(parts@) + split_from(bytes@, sep@, start as int) == split_all(bytes@, sep@),
        decreases bytes@.len() - start,
    {
        proof {
            lemma_find_from(bytes@, sep@, start as int);
        }
        match find_bytes(bytes, sep, start) {
            Some(i) => {
                let piece = copy_range(bytes, start, i);
                proof {
                    assert(views(parts@.push(piece)) == views(parts@) + seq![piece@]);
                    assert(views(parts@) + split_from(bytes@, sep@, start as int) == views(
                        parts@,
                    ) + (seq![piece@] + split_from(bytes@, sep@, i + sep@.len())));
                    assert(views(parts@) + (seq![piece@] + split_from(bytes@, sep@, i + sep@.len()))
                        == (views(parts@) + seq![piece@]) + split_from(bytes@, sep@, i + sep@.len()));
                }
                let n = bytes.len();
                assert(matches_at(bytes@, sep@, i as int));
                assert(i + sep@.len() <= n);
                parts.push(piece);
                start = i + sep.len();
            },
            None => {
                let piece = copy_range(bytes, start, bytes.len());
                proof {
                    assert(views(parts@.push(piece)) == views(parts@) + seq![piece@]);
                }
                parts.push(piece);
                return parts;
            },
        }
    }
}

/// The value of a digit in the given radix (at most 16), if it is one.
pub open spec fn digit_value(b: u8, radix: nat) -> Option<nat> {
    let v: int = if 48 <= b <= 57 {
        b - 48
    } else if 97 <= b <= 102 {
        b - 87
    } else if 65 <= b <= 70 {
        b - 55
    } else {
        99
    };
    if v < radix {
        Some(v as nat)
    } else {
        None
    }
}

/// `s` holds only digits of the radix.
pub open spec fn all_digits(s: Seq<u8>, radix: nat) -> bool {
    forall|i: int| 0 <= i < s.len() ==> (#[trigger] digit_value(s[i], radix)) is Some
}

/// The number that the digits `s` write in the radix.
pub open spec fn digits_value(s: Seq<u8>, radix: nat) -> nat
    decreases s.len(),
{
    if s.len() == 0 {
        0
    } else {
        digits_value(s.drop_last(), radix) * radix + digit_value(s.last(), radix).unwrap_or(0)
    }
}

/// The unsigned number that `s` writes in the radix, as `from_str_radix`
/// reads it: an optional `+`, then at least one digit.
pub open spec fn unsigned_value(s: Seq<u8>, radix: nat) -> Option<nat> {
    if unsigned_digits(s).len() > 0 && all_digits(unsigned_digits(s), radix) {
        Some(digits_value(unsigned_digits(s), radix))
    } else {
        None
    }
}

/// The digits of an unsigned number: `s` without a leading `+`.
pub open spec fn unsigned_digits(s: Seq<u8>) -> Seq<u8> {
    if s.len() > 0 && s[0] == 43 {
        s.subrange(1, s.len() as int)
    } else {
        s
    }
}

/// The value of the digit `b` in the radix.
pub fn digit_of(b: u8, radix: u8) -> (r: Option<u8>)
    requires
        2 <= radix <= 16,
    ensures
        match r {
            Some(v) => digit_value(b, radix as nat) == Some(v as nat),
            None => digit_value(b, radix as nat) is None,
        },
{
    let v: u8 = if 48 <= b && b <= 57 {
        b - 48
    } else if 97 <= b && b <= 102 {
        b - 87
    } else if 65 <= b && b <= 70 {
        b - 55
    } else {
        99
    };
    if v < radix {
        Some(v)
    } else {
        None
    }
}

/// Reads an unsigned number in the radix (2 to 16) that must not exceed `max`:
/// the number where `s` writes one no larger than `max`, else `None`.
pub fn parse_unsigned(s: &[u8], radix: u8, max: u64) -> (r: Option<u64>)
    requires
        2 <= radix <= 16,
    ensures
        match r {
            Some(v) => unsigned_value(s@, radix as nat) == Some(v as nat) && v <= max,
            None => match unsigned_value(s@, radix as nat) {
                Some(v) => v > max,
                None => true,
            },
        },
{
    let start: usize = if s.len() > 0 && s[0] == 43 {
        1
    } else {
        0
    };
    let ghost body = unsigned_digits(s@);
    assert(body == s@.subrange(start as int, s@.len() as int));
    if start >= s.len() {
        assert(body.len() == 0);
        return None;
    }
    let mut value: u64 = 0;
    let mut i: usize = start;
    while i < s.len()
        invariant
            2 <= radix <= 16,
            start <= i <= s@.len(),
            body == s@.subrange(start as int, s@.len() as int),
            body == unsigned_digits(s@),
            all_digits(s@.subrange(start as int, i as int), radix as nat),
            value == digits_value(s@.subrange(start as int, i as int), radix as nat),
            value <= max,
        decreases s@.len() - i,
    {
        let ghost prefix = s@.subrange(start as int, i as int);
        let ghost next = s@.subrange(start as int, i + 1);
        assert(next.drop_last() == prefix);
        assert(next.last() == s@[i as int]);
        match digit_of(s[i], radix) {
            None => {
                assert(body[i - start] == s@[i as int]);
                assert(digit_value(body[i - start], radix as nat) is None);
                assert(!all_digits(body, radix as nat));
                assert(unsigned_value(s@, radix as nat) is None);
                return None;
            },
            Some(d) => {
                assert(digits_value(next, radix as nat) == value * radix + d);
                assert(all_digits(next, radix as nat)) by {
                    assert forall|k: int| 0 <= k < next.len() implies (#[trigger] digit_value(
                        next[k],
                        radix as nat,
                    )) is Some by {
                        if k < prefix.len() {
                            assert(next[k] == prefix[k]);
                        }
                    }
                }
                let m = value.checked_mul(radix as u64);
                match m {
                    None => {
                        assert(digits_value(next, radix as nat) > max);
                        proof {
                            if all_digits(body, radix as nat) {
                                lemma_digits_value_grows(body, radix as nat, i + 1 - start);
                                assert(body.subrange(0, i + 1 - start) == next);
                                assert(digits_value(body, radix as nat) > max);
                                assert(unsigned_value(s@, radix as nat) == Some(digits_value(body, radix as nat)));
                            }
                        }
                        return None;
                    },
                    Some(m) => {
                        let a = m.checked_add(d as u64);
                        match a {
                            Some(a) if a <= max => {
                                value = a;
                            },
                            _ => {
                                assert(digits_value(next, radix as nat) > max);
                                proof {
                                    if all_digits(body, radix as nat) {
                                        lemma_digits_value_grows(body, radix as nat, i + 1 - start);
                                        assert(body.subrange(0, i + 1 - start) == next);
                                        assert(digits_value(body, radix as nat) > max);
                                        assert(unsigned_value(s@, radix as nat) == Some(digits_value(body, radix as nat)));
                                    }
                                }
                                return None;
                            },
                        }
                    },
                }
            },
        }
        i = i + 1;
    }
    assert(s@.subrange(start as int, i as int) == body);
    Some(value)
}

/// A number written with more digits is no smaller than the one its first
/// digits write.
pub proof fn lemma_digits_value_grows(s: Seq<u8>, radix: nat, n: int)
    requires
        0 <= n <= s.len(),
        radix >= 1,
        all_digits(s, radix),
    ensures
        digits_value(s, radix) >= digits_value(s.subrange(0, n), radix),
    decreases s.len(),
{
    if n < s.len() {
        assert(s.drop_last() == s.subrange(0, s.len() - 1));
        assert(all_digits(s.drop_last(), radix)) by {
            assert forall|k: int| 0 <= k < s.drop_last().len() implies (#[trigger] digit_value(
                s.drop_last()[k],
                radix,
            )) is Some by {
                assert(s.drop_last()[k] == s[k]);
            }
        }
        lemma_digits_value_grows(s.drop_last(), radix, n);
        assert(s.drop_last().subrange(0, n) == s.subrange(0, n));
        let p = digits_value(s.drop_last(), radix);
        assert(p * radix >= p) by (nonlinear_arith)
            requires
                radix >= 1,
        ;
    } else {
        assert(s.subrange(0, n) == s);
    }
}

/// A one-byte pattern occurs where that byte stands.
pub proof fn lemma_single_match(p: Seq<u8>, b: u8, i: int)
    requires
        0 <= i < p.len(),
    ensures
        matches_at(p, seq![b], i) <==> p[i] == b,
{
    if p[i] == b {
        assert(p.subrange(i, i + 1) =~= seq![b]);
    } else {
        assert(p.subrange(i, i + 1)[0] != seq![b][0]);
    }
}

/// Where a single byte first occurs at or after `start`.
pub proof fn lemma_find_byte(s: Seq<u8>, c: u8, start: int)
    requires
        0 <= start,
    ensures
        match find_from(s, seq![c], start) {
            Some(i) => start <= i < s.len() && s[i] == c && forall|j: int| start <= j < i ==> s[j] != c,
            None => forall|j: int| start <= j < s.len() ==> s[j] != c,
        },
{
    lemma_find_from(s, seq![c], start);
    match find_from(s, seq![c], start) {
        Some(i) => {
            lemma_single_match(s, c, i);
            assert forall|j: int| start <= j < i implies s[j] != c by {
                lemma_single_match(s, c, j);
            }
        },
        None => {
            assert forall|j: int| start <= j < s.len() implies s[j] != c by {
                lemma_single_match(s, c, j);
            }
        },
    }
}

/// The first occurrence of a byte is the one that the characterization
/// names.
pub proof fn lemma_find_byte_at(s: Seq<u8>, c: u8, start: int, i: int)
    requires
        0 <= start <= i < s.len(),
        s[i] == c,
        forall|j: int| start <= j < i ==> s[j] != c,
    ensures
        find_from(s, seq![c], start) == Some(i),
{
    lemma_find_byte(s, c, start);
}

/// No occurrence of a byte at or after `start`.
pub proof fn lemma_find_byte_none(s: Seq<u8>, c: u8, start: int)
    requires
        0 <= start,
        forall|j: int| start <= j < s.len() ==> s[j] != c,
    ensures
        find_from(s, seq![c], start) is None,
{
    lemma_find_byte(s, c, start);
    if start < s.len() {
        assert(s[start] != c);
    }
}

/// Splitting at a byte what ends with that byte and a piece without it
/// gives the pieces of the front and then that piece.
pub proof fn lemma_split_append(x: Seq<u8>, y: Seq<u8>, c: u8, start: int)
    requires
        0 <= start <= x.len(),
        forall|j: int| 0 <= j < y.len() ==> y[j] != c,
    ensures
        split_from(x + seq![c] + y, seq![c], start) == split_from(x, seq![c], start) + seq![y],
    decreases x.len() - start,
{
    let s = x + seq![c] + y;
    lemma_find_byte(x, c, start);
    match find_from(x, seq![c], start) {
        Some(i) => {
            lemma_find_byte_at(s, c, start, i);
            lemma_split_append(x, y, c, i + 1);
            assert(s.subrange(start, i) == x.subrange(start, i));
            let a = seq![x.subrange(start, i)];
            let b = split_from(x, seq![c], i + 1);
            assert(split_from(s, seq![c], start) == a + split_from(s, seq![c], i + 1));
            assert(split_from(x, seq![c], start) == a + b);
            assert(a + (b + seq![y]) == (a + b) + seq![y]);
        },
        None => {
            lemma_find_byte_at(s, c, start, x.len() as int);
            lemma_find_byte_none(s, c, x.len() + 1 as int);
            assert(s.subrange(start, x.len() as int) == x.subrange(start, x.len() as int));
            assert(s.subrange(x.len() + 1 as int, s.len() as int) == y);
            assert(split_from(s, seq![c], x.len() + 1 as int) == seq![y]);
            assert(split_from(x, seq![c], start) == seq![x.subrange(start, x.len() as int)]);
        },
    }
}

/// A sequence without the byte splits into itself alone.
pub proof fn lemma_split_single(y: Seq<u8>, c: u8)
    requires
        forall|j: int| 0 <= j < y.len() ==> y[j] != c,
    ensures
        split_all(y, seq![c]) == seq![y],
{
    lemma_find_byte_none(y, c, 0);
    assert(y.subrange(0, y.len() as int) == y);
}

/// Searching the back part of a concatenation is searching that part, with
/// positions shifted by the front's length.
pub proof fn lemma_find_shift(p: Seq<u8>, y: Seq<u8>, pat: Seq<u8>, k: int)
    requires
        0 <= k,
    ensures
        find_from(p + y, pat, p.len() + k) == match find_from(y, pat, k) {
            Some(i) => Some(i + p.len()),
            None => None,
        },
    decreases y.len() + 1 - k,
{
    let t = p + y;
    if k + pat.len() <= y.len() {
        assert(t.subrange(p.len() + k, p.len() + k + pat.len()) == y.subrange(k, k + pat.len()));
        lemma_find_shift(p, y, pat, k + 1);
        assert(p.len() + k + 1 == p.len() + (k + 1));
    }
}

/// Splitting the back part of a concatenation from a position is splitting
/// that part.
pub proof fn lemma_split_shift(p: Seq<u8>, y: Seq<u8>, sep: Seq<u8>, k: int)
    requires
        0 <= k <= y.len(),
        sep.len() > 0,
    ensures
        split_from(p + y, sep, p.len() + k) == split_from(y, sep, k),
    decreases y.len() - k,
{
    let t = p + y;
    lemma_find_shift(p, y, sep, k);
    lemma_find_from(y, sep, k);
    match find_from(y, sep, k) {
        Some(i) => {
            assert(t.subrange(p.len() + k, p.len() + i) == y.subrange(k, i));
            lemma_split_shift(p, y, sep, i + sep.len());
            assert(p.len() + i + sep.len() == p.len() + (i + sep.len()));
        },
        None => {
            assert(t.subrange(p.len() + k, t.len() as int) == y.subrange(k, y.len() as int));
        },
    }
}

/// The first occurrence is the one before which there is none.
pub proof fn lemma_find_first_at(t: Seq<u8>, pat: Seq<u8>, i: int)
    requires
        matches_at(t, pat, i),
        forall|j: int| 0 <= j < i ==> !#[trigger] matches_at(t, pat, j),
    ensures
        find_first(t, pat) == Some(i),
        split_at_first(t, pat) == Some((t.subrange(0, i), t.subrange(i + pat.len(), t.len() as int))),
{
    lemma_find_from(t, pat, 0);
}

/// No occurrence where the first byte of the pattern never stands.
pub proof fn lemma_no_match_without_first(t: Seq<u8>, pat: Seq<u8>, j: int)
    requires
        pat.len() > 0,
        0 <= j < t.len(),
        t[j] != pat[0],
    ensures
        !matches_at(t, pat, j),
{
    if matches_at(t, pat, j) {
        assert(t.subrange(j, j + pat.len())[0] == t[j]);
    }
}

/// A front without the first byte of the separator is the first piece.
pub proof fn lemma_split_prefix(x: Seq<u8>, sep: Seq<u8>, y: Seq<u8>)
    requires
        sep.len() > 0,
        forall|i: int| 0 <= i < x.len() ==> #[trigger] x[i] != sep[0],
    ensures
        split_all(x + sep + y, sep) == seq![x] + split_all(y, sep),
{
    let t = x + sep + y;
    assert(t.subrange(x.len() as int, x.len() + sep.len() as int) == sep);
    assert forall|j: int| 0 <= j < x.len() implies !#[trigger] matches_at(t, sep, j) by {
        assert(t[j] == x[j]);
        lemma_no_match_without_first(t, sep, j);
    }
    lemma_find_first_at(t, sep, x.len() as int);
    assert(t.subrange(0, x.len() as int) == x);
    assert(t == (x + sep) + y);
    lemma_split_shift(x + sep, y, sep, 0);
    assert((x + sep).len() + 0 == x.len() + sep.len());
}

/// A sequence without the first byte of the separator is one piece.
pub proof fn lemma_split_none(y: Seq<u8>, sep: Seq<u8>)
    requires
        sep.len() > 0,
        forall|i: int| 0 <= i < y.len() ==> #[trigger] y[i] != sep[0],
    ensures
        split_all(y, sep) == seq![y],
{
    lemma_find_from(y, sep, 0);
    match find_from(y, sep, 0) {
        Some(i) => {
            lemma_no_match_without_first(y, sep, i);
        },
        None => {
            assert(y.subrange(0, y.len() as int) == y);
        },
    }
}

} // verus!
