use vstd::prelude::*;
use vstd::slice::{slice_subrange, slice_to_vec};
use vstd::utf8::{decode_utf8, encode_utf8, valid_utf8};

verus! {

/// A decoded protocol value.
#[derive(Debug, PartialEq, Eq)]
pub enum Frame {
    SImple(String),
    Error(String),
    Integer(u64),
    Bulk(Vec<u8>),
    Null,
    Array(Vec<Frame>),
}

/// Why a decode attempt produced no frame.
#[derive(Clone, Debug, PartialEq, Eq)]
pub enum Error {
    /// Not enough bytes yet: retry from the same offset once more arrive.
    Incomplete,
    /// The bytes can never form a frame.
    Other(String),
}

impl Error {
    /// A sentence for the peer or the log.
    pub fn describe(&self) -> (r: String)
        ensures
            self matches Error::Other(m) ==> r@ == m@,
            self is Incomplete ==> r@ == "stream ended early"@,
    {
        match self {
            Error::Incomplete => String::from_str("stream ended early"),
            Error::Other(m) => m.as_str().to_string(),
        }
    }
}

impl From<String> for Error {
    fn from(src: String) -> (r: Error) {
        Error::Other(src)
    }
}

impl Error {
    /// A protocol error carrying `msg`.
    pub fn other(msg: &str) -> (r: Error)
        ensures
            r matches Error::Other(m) && m@ == msg@,
    {
        Error::Other(msg.to_string())
    }
}

impl<'a> From<&'a str> for Error {
    fn from(src: &'a str) -> (r: Error) {
        Error::other(src)
    }
}

impl<'a> vstd::std_specs::convert::FromSpecImpl<&'a str> for Error {
    /// No spec value of `String` can be named from a `str`: what this
    /// conversion gives is stated by `Error::other`, which it calls.
    open spec fn obeys_from_spec() -> bool {
        false
    }

    open spec fn from_spec(src: &'a str) -> Error {
        Error::Incomplete
    }
}

impl vstd::std_specs::convert::FromSpecImpl<String> for Error {
    open spec fn obeys_from_spec() -> bool {
        true
    }

    open spec fn from_spec(src: String) -> Error {
        Error::Other(src)
    }
}

/// The mathematical value of a frame.
pub enum FrameV {
    Simple(Seq<char>),
    Error(Seq<char>),
    Integer(u64),
    Bulk(Seq<u8>),
    Null,
    Array(Seq<FrameV>),
}

impl Frame {
    pub open spec fn view(self) -> FrameV
        decreases self,
    {
        match self {
            Frame::SImple(s) => FrameV::Simple(s@),
            Frame::Error(s) => FrameV::Error(s@),
            Frame::Integer(n) => FrameV::Integer(n),
            Frame::Bulk(b) => FrameV::Bulk(b@),
            Frame::Null => FrameV::Null,
            Frame::Array(v) => FrameV::Array(
                Seq::new(v.len() as nat, |i: int| if 0 <= i < v.len() { v[i].view() } else { FrameV::Null }),
            ),
        }
    }
}

/// Outcome of decoding at an offset: a value with the offset just past it, a
/// request for more bytes, or malformed input.
pub enum Decoded<T> {
    Done(T, int),
    Incomplete,
    Invalid,
}

pub open spec fn is_digit(b: u8) -> bool {
    48 <= b <= 57
}

/// First index at or after `i` that does not hold a decimal digit.
pub open spec fn digits_end(t: Seq<u8>, i: int) -> int
    decreases t.len() - i,
{
    if i < 0 || i >= t.len() || !is_digit(t[i]) {
        i
    } else {
        digits_end(t, i + 1)
    }
}

/// Value of a run of decimal digits, most significant first.
pub open spec fn digits_value(d: Seq<u8>) -> nat
    decreases d.len(),
{
    if d.len() == 0 {
        0
    } else {
        digits_value(d.drop_last()) * 10 + (d.last() - 48) as nat
    }
}

/// What `atoi::<u64>` returns: an optional sign, then the longest run of
/// digits, with whatever follows ignored.
pub open spec fn atoi_u64(t: Seq<u8>) -> Option<u64> {
    let signed = t.len() > 0 && (t[0] == 43u8 || t[0] == 45u8);
    let off: int = if signed { 1 } else { 0 };
    let end = digits_end(t, off);
    let v = digits_value(t.subrange(off, end));
    if end == 0 {
        None
    } else if t.len() > 0 && t[0] == 45u8 {
        if v == 0 { Some(0u64) } else { None }
    } else if v <= u64::MAX {
        Some(v as u64)
    } else {
        None
    }
}

/// A length or integer field: a non-empty run of decimal digits whose value
/// fits in 64 bits, and nothing else.
pub open spec fn decimal(line: Seq<u8>) -> Option<u64> {
    if line.len() > 0 && (forall|j: int| 0 <= j < line.len() ==> is_digit(#[trigger] line[j]))
        && digits_value(line) <= u64::MAX {
        Some(digits_value(line) as u64)
    } else {
        None
    }
}

/// Index of the first CR LF pair that starts at or after `i`.
pub open spec fn find_crlf(s: Seq<u8>, i: int) -> Option<int>
    decreases s.len() - i,
{
    if i < 0 || i + 1 >= s.len() {
        None
    } else if s[i] == 13u8 && s[i + 1] == 10u8 {
        Some(i)
    } else {
        find_crlf(s, i + 1)
    }
}

/// The frame that starts at offset `p` of `s`.
pub open spec fn parse_spec(s: Seq<u8>, p: int) -> Decoded<FrameV>
    decreases s.len() - p, 0int via parse_spec_decreases
{
    if p < 0 || p >= s.len() {
        Decoded::Incomplete
    } else {
        let tag = s[p];
        if tag == 43u8 || tag == 45u8 {
            match find_crlf(s, p + 1) {
                None => Decoded::Incomplete,
                Some(i) => {
                    let line = s.subrange(p + 1, i);
                    if !valid_utf8(line) {
                        Decoded::Invalid
                    } else if tag == 43u8 {
                        Decoded::Done(FrameV::Simple(decode_utf8(line)), i + 2)
                    } else {
                        Decoded::Done(FrameV::Error(decode_utf8(line)), i + 2)
                    }
                },
            }
        } else if tag == 58u8 {
            match find_crlf(s, p + 1) {
                None => Decoded::Incomplete,
                Some(i) => match decimal(s.subrange(p + 1, i)) {
                    None => Decoded::Invalid,
                    Some(n) => Decoded::Done(FrameV::Integer(n), i + 2),
                },
            }
        } else if tag == 36u8 {
            if p + 1 >= s.len() {
                Decoded::Incomplete
            } else {
                match find_crlf(s, p + 1) {
                    None => Decoded::Incomplete,
                    Some(i) => if s[p + 1] == 45u8 {
                        if s.subrange(p + 1, i) == seq![45u8, 49u8] {
                            Decoded::Done(FrameV::Null, i + 2)
                        } else {
                            Decoded::Invalid
                        }
                    } else {
                        match decimal(s.subrange(p + 1, i)) {
                            None => Decoded::Invalid,
                            Some(n) => if i + 2 + n + 2 <= s.len() {
                                if s[i + 2 + n] == 13u8 && s[i + 3 + n] == 10u8 {
                                    Decoded::Done(FrameV::Bulk(s.subrange(i + 2, i + 2 + n)), i + 4 + n)
                                } else {
                                    Decoded::Invalid
                                }
                            } else {
                                Decoded::Incomplete
                            },
                        }
                    },
                }
            }
        } else if tag == 42u8 {
            match find_crlf(s, p + 1) {
                None => Decoded::Incomplete,
                Some(i) => match decimal(s.subrange(p + 1, i)) {
                    None => Decoded::Invalid,
                    Some(n) => array_of(parse_items_spec(s, i + 2, n as nat)),
                },
            }
        } else {
            Decoded::Invalid
        }
    }
}

pub proof fn lemma_find_crlf_bounds(s: Seq<u8>, i: int)
    ensures
        find_crlf(s, i) matches Some(j) ==> 0 <= i <= j && j + 2 <= s.len() && s[j] == 13u8
            && s[j + 1] == 10u8,
    decreases s.len() - i,
{
    if !(i < 0 || i + 1 >= s.len()) && !(s[i] == 13u8 && s[i + 1] == 10u8) {
        lemma_find_crlf_bounds(s, i + 1);
    }
}

#[via_fn]
proof fn parse_spec_decreases(s: Seq<u8>, p: int) {
    lemma_find_crlf_bounds(s, p + 1);
}

pub open spec fn array_of(d: Decoded<Seq<FrameV>>) -> Decoded<FrameV> {
    match d {
        Decoded::Done(items, e) => Decoded::Done(FrameV::Array(items), e),
        Decoded::Incomplete => Decoded::Incomplete,
        Decoded::Invalid => Decoded::Invalid,
    }
}

/// `n` frames one after the other, starting at offset `p` of `s`.
pub open spec fn parse_items_spec(s: Seq<u8>, p: int, n: nat) -> Decoded<Seq<FrameV>>
    decreases s.len() - p, 1int, n,
{
    if n == 0 {
        if 0 <= p <= s.len() { Decoded::Done(Seq::empty(), p) } else { Decoded::Invalid }
    } else if p < 0 || p >= s.len() {
        Decoded::Incomplete
    } else {
        match parse_spec(s, p) {
            Decoded::Done(f, e) => if p < e <= s.len() {
                match parse_items_spec(s, e, (n - 1) as nat) {
                    Decoded::Done(fs, e2) => Decoded::Done(seq![f].add(fs), e2),
                    Decoded::Incomplete => Decoded::Incomplete,
                    Decoded::Invalid => Decoded::Invalid,
                }
            } else {
                Decoded::Invalid
            },
            Decoded::Incomplete => Decoded::Incomplete,
            Decoded::Invalid => Decoded::Invalid,
        }
    }
}

/// Decimal digits of `n`, most significant first, with no leading zero.
pub open spec fn dec(n: nat) -> Seq<u8>
    decreases n,
{
    if n < 10 {
        seq![(48 + n) as u8]
    } else {
        dec(n / 10).push((48 + n % 10) as u8)
    }
}

pub open spec fn crlf() -> Seq<u8> {
    seq![13u8, 10u8]
}

/// The wire form of a frame.
pub open spec fn encode_spec(f: FrameV) -> Seq<u8>
    decreases f,
{
    match f {
        FrameV::Simple(t) => seq![43u8] + encode_utf8(t) + crlf(),
        FrameV::Error(t) => seq![45u8] + encode_utf8(t) + crlf(),
        FrameV::Integer(n) => seq![58u8] + dec(n as nat) + crlf(),
        FrameV::Bulk(b) => seq![36u8] + dec(b.len()) + crlf() + b + crlf(),
        FrameV::Null => seq![36u8, 45u8, 49u8, 13u8, 10u8],
        FrameV::Array(items) => seq![42u8] + dec(items.len()) + crlf() + encode_items(items),
    }
}

/// The wire forms of `items`, one after the other.
pub open spec fn encode_items(items: Seq<FrameV>) -> Seq<u8>
    decreases items,
{
    if items.len() == 0 {
        Seq::empty()
    } else {
        encode_items(items.drop_last()) + encode_spec(items.last())
    }
}

/// Puts decoded items in front of what the rest of an array decodes to.
pub open spec fn prepend(pre: Seq<FrameV>, d: Decoded<Seq<FrameV>>) -> Decoded<Seq<FrameV>> {
    match d {
        Decoded::Done(fs, e) => Decoded::Done(pre + fs, e),
        Decoded::Incomplete => Decoded::Incomplete,
        Decoded::Invalid => Decoded::Invalid,
    }
}

proof fn lemma_items_step(s: Seq<u8>, items: Seq<FrameV>, cur: int, m: nat)
    requires
        m > 0,
        0 <= cur < s.len(),
        parse_spec(s, cur) matches Decoded::Done(_, e) && cur < e <= s.len(),
    ensures
        prepend(items, parse_items_spec(s, cur, m)) == prepend(
            items.push(parse_spec(s, cur)->Done_0),
            parse_items_spec(s, parse_spec(s, cur)->Done_1, (m - 1) as nat),
        ),
{
    let f = parse_spec(s, cur)->Done_0;
    let e = parse_spec(s, cur)->Done_1;
    if let Decoded::Done(fs, e2) = parse_items_spec(s, e, (m - 1) as nat) {
        assert(items + (seq![f] + fs) =~= items.push(f) + fs);
    }
}

/// A read position over a borrowed byte buffer.
pub struct Cursor<'a> {
    pub buf: &'a [u8],
    pub pos: usize,
}

impl<'a> Cursor<'a> {
    pub fn new(buf: &'a [u8]) -> (r: Cursor<'a>)
        ensures
            r.buf@ == buf@,
            r.pos == 0,
    {
        Cursor { buf, pos: 0 }
    }

    pub fn position(&self) -> (r: usize)
        ensures
            r == self.pos,
    {
        self.pos
    }
}

/// Takes one byte.
pub fn get_u8(src: &mut Cursor) -> (r: Result<u8, Error>)
    ensures
        final(src).buf == old(src).buf,
        old(src).pos < old(src).buf@.len() ==> r == Ok::<u8, Error>(old(src).buf@[old(src).pos as int])
            && final(src).pos == old(src).pos + 1,
        old(src).pos >= old(src).buf@.len() ==> r == Err::<u8, Error>(Error::Incomplete)
            && final(src).pos == old(src).pos,
        old(src).pos <= old(src).buf@.len() ==> final(src).pos <= final(src).buf@.len(),
{
    if src.pos >= src.buf.len() {
        return Err(Error::Incomplete);
    }
    let b = src.buf[src.pos];
    src.pos = src.pos + 1;
    Ok(b)
}

/// Looks at the next byte without taking it.
pub fn peek_u8(src: &Cursor) -> (r: Result<u8, Error>)
    ensures
        src.pos < src.buf@.len() ==> r == Ok::<u8, Error>(src.buf@[src.pos as int]),
        src.pos >= src.buf@.len() ==> r == Err::<u8, Error>(Error::Incomplete),
{
    if src.pos >= src.buf.len() {
        return Err(Error::Incomplete);
    }
    Ok(src.buf[src.pos])
}

/// The bytes left after the cursor: none once it stands at or past the end.
pub open spec fn remaining(src: Cursor) -> int {
    if src.pos <= src.buf@.len() {
        src.buf@.len() - src.pos
    } else {
        0
    }
}

/// Takes `n` bytes, or none when fewer remain.
pub fn skip(src: &mut Cursor, n: usize) -> (r: Result<(), Error>)
    ensures
        final(src).buf == old(src).buf,
        n <= remaining(*old(src)) ==> r is Ok && final(src).pos == old(src).pos + n,
        n > remaining(*old(src)) ==> r == Err::<(), Error>(Error::Incomplete)
            && final(src).pos == old(src).pos,
        old(src).pos <= old(src).buf@.len() ==> final(src).pos <= final(src).buf@.len(),
{
    let rem = if src.pos <= src.buf.len() { src.buf.len() - src.pos } else { 0 };
    if n > rem {
        return Err(Error::Incomplete);
    }
    src.pos = src.pos + n;
    Ok(())
}

/// Takes the bytes up to the next CR LF, and the CR LF; the line excludes it.
pub fn get_line<'a>(src: &mut Cursor<'a>) -> (r: Result<&'a [u8], Error>)
    ensures
        final(src).buf == old(src).buf,
        match find_crlf(old(src).buf@, old(src).pos as int) {
            Some(i) => r matches Ok(line) && line@ == old(src).buf@.subrange(old(src).pos as int, i)
                && final(src).pos == i + 2,
            None => r == Err::<&[u8], Error>(Error::Incomplete) && final(src).pos == old(src).pos,
        },
        old(src).pos <= old(src).buf@.len() ==> final(src).pos <= final(src).buf@.len(),
{
    let start = src.pos;
    let end = src.buf.len();
    let mut i = start;
    while i < end && i + 1 < end
        invariant
            start <= i,
            start == old(src).pos,
            src.buf == old(src).buf,
            end == src.buf@.len(),
            src.pos == start,
            find_crlf(src.buf@, start as int) == find_crlf(src.buf@, i as int),
        decreases end - i,
    {
        if src.buf[i] == 13u8 && src.buf[i + 1] == 10u8 {
            src.pos = i + 2;
            let line = slice_subrange(src.buf, start, i);
            assert(find_crlf(src.buf@, i as int) == Some(i as int));
            return Ok(line);
        }
        i = i + 1;
    }
    Err(Error::Incomplete)
}

/// Relies on atoi::atoi for u64: an optional sign, then the longest run of
/// digits, as `atoi_u64` states.
#[verifier::external_body]
fn atoi_u64_of(text: &[u8]) -> (r: Option<u64>)
    ensures
        r == atoi_u64(text@),
{
    atoi::atoi::<u64>(text)
}

proof fn lemma_digits_end_all(t: Seq<u8>, i: int)
    requires
        0 <= i <= t.len(),
        forall|j: int| i <= j < t.len() ==> is_digit(#[trigger] t[j]),
    ensures
        digits_end(t, i) == t.len(),
    decreases t.len() - i,
{
    if i < t.len() {
        lemma_digits_end_all(t, i + 1);
    }
}

fn all_digits(line: &[u8]) -> (r: bool)
    ensures
        r == (forall|k: int| 0 <= k < line@.len() ==> is_digit(#[trigger] line@[k])),
{
    let mut j: usize = 0;
    while j < line.len()
        invariant
            j <= line@.len(),
            forall|k: int| 0 <= k < j ==> is_digit(#[trigger] line@[k]),
        decreases line@.len() - j,
    {
        if line[j] < 48u8 || line[j] > 57u8 {
            return false;
        }
        j = j + 1;
    }
    true
}

/// Takes a line and reads it as a decimal number: only digits, at least one.
pub fn get_decimal(src: &mut Cursor) -> (r: Result<u64, Error>)
    ensures
        final(src).buf == old(src).buf,
        match find_crlf(old(src).buf@, old(src).pos as int) {
            Some(i) => final(src).pos == i + 2 && match decimal(
                old(src).buf@.subrange(old(src).pos as int, i),
            ) {
                Some(n) => r == Ok::<u64, Error>(n),
                None => r matches Err(Error::Other(_)),
            },
            None => r == Err::<u64, Error>(Error::Incomplete) && final(src).pos == old(src).pos,
        },
        old(src).pos <= old(src).buf@.len() ==> final(src).pos <= final(src).buf@.len(),
{
    let line = match get_line(src) {
        Ok(line) => line,
        Err(e) => return Err(e),
    };
    if line.len() == 0 || !all_digits(line) {
        return Err(Error::Other(String::from_str("protocol error; invalid frame format")));
    }
    proof {
        lemma_digits_end_all(line@, 0);
        assert(line@.subrange(0, line@.len() as int) =~= line@);
    }
    match atoi_u64_of(line) {
        Some(n) => Ok(n),
        None => Err(Error::Other(String::from_str("protocol error; invalid frame format"))),
    }
}

impl Frame {
    /// The walk behind `check`; the cursor may stop anywhere on an error.
    fn check_from(src: &mut Cursor) -> (r: Result<(), Error>)
        ensures
            final(src).buf == old(src).buf,
            match parse_spec(old(src).buf@, old(src).pos as int) {
                Decoded::Done(_, e) => r is Ok && final(src).pos == e,
                Decoded::Incomplete => r == Err::<(), Error>(Error::Incomplete),
                Decoded::Invalid => r matches Err(Error::Other(_)),
            },
            r is Ok ==> old(src).pos < final(src).pos <= final(src).buf@.len(),
            old(src).pos <= old(src).buf@.len() ==> final(src).pos <= final(src).buf@.len(),
        decreases old(src).buf@.len() - old(src).pos,
    {
        let ghost s = src.buf@;
        let ghost p0 = src.pos as int;
        proof {
            lemma_find_crlf_bounds(s, p0 + 1);
        }
        let tag = match get_u8(src) {
            Ok(t) => t,
            Err(e) => return Err(e),
        };
        if tag == 43u8 || tag == 45u8 {
            let line = match get_line(src) {
                Ok(l) => l,
                Err(e) => return Err(e),
            };
            match utf8_string(slice_to_vec(line)) {
                Some(_) => Ok(()),
                None => Err(Error::Other(String::from_str("protocol error; invalid frame format"))),
            }
        } else if tag == 58u8 {
            match get_decimal(src) {
                Ok(_) => Ok(()),
                Err(e) => Err(e),
            }
        } else if tag == 36u8 {
            let next = match peek_u8(src) {
                Ok(b) => b,
                Err(e) => return Err(e),
            };
            if next == 45u8 {
                let line = match get_line(src) {
                    Ok(l) => l,
                    Err(e) => return Err(e),
                };
                if line.len() == 2 && line[0] == 45u8 && line[1] == 49u8 {
                    assert(line@ =~= seq![45u8, 49u8]);
                    Ok(())
                } else {
                    Err(Error::Other(String::from_str("protocol error; invalid frame format")))
                }
            } else {
                let n = match get_decimal(src) {
                    Ok(n) => n,
                    Err(e) => return Err(e),
                };
                let rem = src.buf.len() - src.pos;
                if n > rem as u64 || (rem as u64) - n < 2 {
                    return Err(Error::Incomplete);
                }
                let len = n as usize;
                if src.buf[src.pos + len] != 13u8 || src.buf[src.pos + len + 1] != 10u8 {
                    return Err(Error::Other(String::from_str("protocol error; invalid frame format")));
                }
                skip(src, len + 2)
            }
        } else if tag == 42u8 {
            let n = match get_decimal(src) {
                Ok(n) => n,
                Err(e) => return Err(e),
            };
            let ghost start = src.pos as int;
            assert(parse_spec(s, p0) == array_of(parse_items_spec(s, start, n as nat)));
            let ghost mut items: Seq<FrameV> = Seq::empty();
            let mut k: u64 = 0;
            assert(items + parse_items_spec(s, start, n as nat)->Done_0 =~= parse_items_spec(s, start, n as nat)->Done_0);
            while k < n
                invariant
                    src.buf == old(src).buf,
                    p0 == old(src).pos,
                    src.buf@ == s,
                    parse_spec(s, p0) == array_of(parse_items_spec(s, start, n as nat)),
                    p0 < start <= src.pos <= s.len(),
                    k <= n,
                    prepend(items, parse_items_spec(s, src.pos as int, (n - k) as nat))
                        == parse_items_spec(s, start, n as nat),
                decreases n - k,
            {
                let ghost cur = src.pos as int;
                match Frame::check_from(src) {
                    Ok(()) => {},
                    Err(e) => {
                        assert(parse_spec(s, cur) is Incomplete ==> parse_items_spec(s, cur, (n - k) as nat) is Incomplete);
                        assert(parse_spec(s, cur) is Invalid ==> parse_items_spec(s, cur, (n - k) as nat) is Invalid);
                        return Err(e);
                    },
                }
                proof {
                    lemma_items_step(s, items, cur, (n - k) as nat);
                    items = items.push(parse_spec(s, cur)->Done_0);
                }
                k = k + 1;
            }
            assert(items + Seq::<FrameV>::empty() =~= items);
            Ok(())
        } else {
            Err(Error::Other(String::from_str("protocol error; invalid frame type byte")))
        }
    }
}

impl Frame {
    /// The walk behind `parse`; the cursor may stop anywhere on an error.
    fn parse_from(src: &mut Cursor) -> (r: Result<Frame, Error>)
        ensures
            final(src).buf == old(src).buf,
            match parse_spec(old(src).buf@, old(src).pos as int) {
                Decoded::Done(f, e) => r matches Ok(fr) && fr@ == f && final(src).pos == e,
                Decoded::Incomplete => r == Err::<Frame, Error>(Error::Incomplete),
                Decoded::Invalid => r matches Err(Error::Other(_)),
            },
            r is Ok ==> old(src).pos < final(src).pos <= final(src).buf@.len(),
            old(src).pos <= old(src).buf@.len() ==> final(src).pos <= final(src).buf@.len(),
        decreases old(src).buf@.len() - old(src).pos,
    {
        let ghost s = src.buf@;
        let ghost p0 = src.pos as int;
        proof {
            lemma_find_crlf_bounds(s, p0 + 1);
        }
        let tag = match get_u8(src) {
            Ok(t) => t,
            Err(e) => return Err(e),
        };
        if tag == 43u8 || tag == 45u8 {
            let line = match get_line(src) {
                Ok(l) => l,
                Err(e) => return Err(e),
            };
            match utf8_string(slice_to_vec(line)) {
                Some(t) => if tag == 43u8 {
                    Ok(Frame::SImple(t))
                } else {
                    Ok(Frame::Error(t))
                },
                None => Err(Error::Other(String::from_str("protocol error; invalid frame format"))),
            }
        } else if tag == 58u8 {
            match get_decimal(src) {
                Ok(n) => Ok(Frame::Integer(n)),
                Err(e) => Err(e),
            }
        } else if tag == 36u8 {
            let next = match peek_u8(src) {
                Ok(b) => b,
                Err(e) => return Err(e),
            };
            if next == 45u8 {
                let line = match get_line(src) {
                    Ok(l) => l,
                    Err(e) => return Err(e),
                };
                if line.len() == 2 && line[0] == 45u8 && line[1] == 49u8 {
                    assert(line@ =~= seq![45u8, 49u8]);
                    Ok(Frame::Null)
                } else {
                    Err(Error::Other(String::from_str("protocol error; invalid frame format")))
                }
            } else {
                let n = match get_decimal(src) {
                    Ok(n) => n,
                    Err(e) => return Err(e),
                };
                let rem = src.buf.len() - src.pos;
                if n > rem as u64 || (rem as u64) - n < 2 {
                    return Err(Error::Incomplete);
                }
                let len = n as usize;
                if src.buf[src.pos + len] != 13u8 || src.buf[src.pos + len + 1] != 10u8 {
                    return Err(Error::Other(String::from_str("protocol error; invalid frame format")));
                }
                let data = slice_to_vec(slice_subrange(src.buf, src.pos, src.pos + len));
                src.pos = src.pos + len + 2;
                Ok(Frame::Bulk(data))
            }
        } else if tag == 42u8 {
            let n = match get_decimal(src) {
                Ok(n) => n,
                Err(e) => return Err(e),
            };
            let ghost start = src.pos as int;
            assert(parse_spec(s, p0) == array_of(parse_items_spec(s, start, n as nat)));
            let ghost mut items: Seq<FrameV> = Seq::empty();
            let mut out: Vec<Frame> = Vec::new();
            let mut k: u64 = 0;
            assert(items + parse_items_spec(s, start, n as nat)->Done_0 =~= parse_items_spec(s, start, n as nat)->Done_0);
            while k < n
                invariant
                    src.buf == old(src).buf,
                    p0 == old(src).pos,
                    src.buf@ == s,
                    parse_spec(s, p0) == array_of(parse_items_spec(s, start, n as nat)),
                    p0 < start <= src.pos <= s.len(),
                    k <= n,
                    out@.len() == items.len(),
                    forall|j: int| 0 <= j < items.len() ==> (#[trigger] out@[j])@ == items[j],
                    prepend(items, parse_items_spec(s, src.pos as int, (n - k) as nat))
                        == parse_items_spec(s, start, n as nat),
                decreases n - k,
            {
                let ghost cur = src.pos as int;
                let f = match Frame::parse_from(src) {
                    Ok(f) => f,
                    Err(e) => {
                        assert(parse_spec(s, cur) is Incomplete ==> parse_items_spec(s, cur, (n - k) as nat) is Incomplete);
                        assert(parse_spec(s, cur) is Invalid ==> parse_items_spec(s, cur, (n - k) as nat) is Invalid);
                        return Err(e);
                    },
                };
                proof {
                    lemma_items_step(s, items, cur, (n - k) as nat);
                    items = items.push(parse_spec(s, cur)->Done_0);
                }
                out.push(f);
                k = k + 1;
            }
            assert(items + Seq::<FrameV>::empty() =~= items);
            let r = Frame::Array(out);
            assert(r@->Array_0 =~= items);
            Ok(r)
        } else {
            Err(Error::Other(String::from_str("protocol error; invalid frame type byte")))
        }
    }
}

/// Appends the decimal digits of `n`.
fn push_decimal(dst: &mut Vec<u8>, n: u64)
    ensures
        final(dst)@ == old(dst)@ + dec(n as nat),
    decreases n,
{
    if n >= 10 {
        push_decimal(dst, n / 10);
    }
    dst.push((48 + n % 10) as u8);
    assert(final(dst)@ =~= old(dst)@ + dec(n as nat));
}

/// Appends every byte of `b`.
fn push_all(dst: &mut Vec<u8>, b: &[u8])
    ensures
        final(dst)@ == old(dst)@ + b@,
{
    let mut i: usize = 0;
    while i < b.len()
        invariant
            i <= b@.len(),
            dst@ == old(dst)@ + b@.subrange(0, i as int),
        decreases b@.len() - i,
    {
        dst.push(b[i]);
        i = i + 1;
        assert(dst@ =~= old(dst)@ + b@.subrange(0, i as int));
    }
    assert(b@.subrange(0, i as int) =~= b@);
}

impl Frame {
    /// Appends the wire form of the frame.
    pub fn encode(&self, dst: &mut Vec<u8>)
        ensures
            final(dst)@ == old(dst)@ + encode_spec(self@),
        decreases self,
    {
        let ghost f = self@;
        match self {
            Frame::SImple(t) => {
                dst.push(43u8);
                push_all(dst, t.as_str().as_bytes());
                dst.push(13u8);
                dst.push(10u8);
            },
            Frame::Error(t) => {
                dst.push(45u8);
                push_all(dst, t.as_str().as_bytes());
                dst.push(13u8);
                dst.push(10u8);
            },
            Frame::Integer(n) => {
                dst.push(58u8);
                push_decimal(dst, *n);
                dst.push(13u8);
                dst.push(10u8);
            },
            Frame::Bulk(b) => {
                dst.push(36u8);
                push_decimal(dst, b.len() as u64);
                dst.push(13u8);
                dst.push(10u8);
                push_all(dst, b.as_slice());
                dst.push(13u8);
                dst.push(10u8);
            },
            Frame::Null => {
                dst.push(36u8);
                dst.push(45u8);
                dst.push(49u8);
                dst.push(13u8);
                dst.push(10u8);
            },
            Frame::Array(v) => {
                dst.push(42u8);
                push_decimal(dst, v.len() as u64);
                dst.push(13u8);
                dst.push(10u8);
                let ghost head = dst@;
                let ghost items = f->Array_0;
                let mut i: usize = 0;
                assert(items.subrange(0, 0) =~= Seq::<FrameV>::empty());
                while i < v.len()
                    invariant
                        self@ == f,
                        *self == Frame::Array(*v),
                        items.len() == v@.len(),
                        forall|j: int| 0 <= j < v@.len() ==> items[j] == (#[trigger] v@[j])@,
                        i <= v@.len(),
                        dst@ == head + encode_items(items.subrange(0, i as int)),
                    decreases v@.len() - i,
                {
                    proof {
                        vstd::std_specs::vec::axiom_vec_index_decreases(*v, i as int);
                    }
                    v[i].encode(dst);
                    assert(items.subrange(0, i + 1).drop_last() =~= items.subrange(0, i as int));
                    i = i + 1;
                    assert(dst@ =~= head + encode_items(items.subrange(0, i as int)));
                }
                assert(items.subrange(0, i as int) =~= items);
            },
        }
        assert(final(dst)@ =~= old(dst)@ + encode_spec(self@));
    }
}

impl Frame {
    /// Reports whether a whole frame starts at the cursor, and moves the cursor
    /// past it; on an error the cursor stays where it was.
    pub fn check(src: &mut Cursor) -> (r: Result<(), Error>)
        ensures
            final(src).buf == old(src).buf,
            match parse_spec(old(src).buf@, old(src).pos as int) {
                Decoded::Done(_, e) => r is Ok && final(src).pos == e,
                Decoded::Incomplete => r == Err::<(), Error>(Error::Incomplete),
                Decoded::Invalid => r matches Err(Error::Other(_)),
            },
            r is Ok ==> old(src).pos < final(src).pos <= final(src).buf@.len(),
            r is Err ==> final(src).pos == old(src).pos,
            old(src).pos <= old(src).buf@.len() ==> final(src).pos <= final(src).buf@.len(),
    {
        let start = src.pos;
        let r = Frame::check_from(src);
        if r.is_err() {
            src.pos = start;
        }
        r
    }

    /// Decodes the frame that starts at the cursor, and moves the cursor past
    /// it; on an error the cursor stays where it was.
    pub fn parse(src: &mut Cursor) -> (r: Result<Frame, Error>)
        ensures
            final(src).buf == old(src).buf,
            match parse_spec(old(src).buf@, old(src).pos as int) {
                Decoded::Done(f, e) => r matches Ok(fr) && fr@ == f && final(src).pos == e,
                Decoded::Incomplete => r == Err::<Frame, Error>(Error::Incomplete),
                Decoded::Invalid => r matches Err(Error::Other(_)),
            },
            r is Ok ==> old(src).pos < final(src).pos <= final(src).buf@.len(),
            r is Err ==> final(src).pos == old(src).pos,
            old(src).pos <= old(src).buf@.len() ==> final(src).pos <= final(src).buf@.len(),
    {
        let start = src.pos;
        let r = Frame::parse_from(src);
        if r.is_err() {
            src.pos = start;
        }
        r
    }
}

/// Relies on String::from_utf8: a string exactly when the bytes are valid
/// UTF-8, holding the characters they encode.
#[verifier::external_body]
fn utf8_string(bytes: Vec<u8>) -> (r: Option<String>)
    ensures
        r is Some <==> valid_utf8(bytes@),
        r matches Some(t) ==> t@ == decode_utf8(bytes@),
{
    String::from_utf8(bytes).ok()
}

} // verus!
