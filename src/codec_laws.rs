use vstd::prelude::*;
use vstd::utf8::{encode_utf8, encode_utf8_decode_utf8, encode_utf8_valid_utf8};

use crate::frame::{
    dec, decimal, digits_value, encode_items, encode_spec, find_crlf,
    is_digit, parse_items_spec, parse_spec, Decoded, Frame, FrameV,
};

verus! {

/// No CR LF pair inside `b`.
pub open spec fn no_crlf(b: Seq<u8>) -> bool {
    forall|i: int| 0 <= i < b.len() - 1 ==> !(#[trigger] b[i] == 13u8 && b[i + 1] == 10u8)
}

/// A frame whose wire form reads back as itself: its text holds no line
/// terminator, and its lengths fit the length fields.
pub open spec fn encodable(f: FrameV) -> bool
    decreases f,
{
    match f {
        FrameV::Simple(t) => no_crlf(encode_utf8(t)),
        FrameV::Error(t) => no_crlf(encode_utf8(t)),
        FrameV::Bulk(b) => b.len() <= u64::MAX,
        FrameV::Array(items) => items.len() <= u64::MAX && encodable_items(items),
        _ => true,
    }
}

/// Every one of `items` is encodable.
pub open spec fn encodable_items(items: Seq<FrameV>) -> bool
    decreases items,
{
    items.len() == 0 || (encodable(items[0]) && encodable_items(items.skip(1)))
}

proof fn lemma_dec(n: nat)
    ensures
        dec(n).len() >= 1,
        forall|j: int| 0 <= j < dec(n).len() ==> is_digit(#[trigger] dec(n)[j]),
        digits_value(dec(n)) == n,
    decreases n,
{
    if n >= 10 {
        lemma_dec(n / 10);
        assert(dec(n).drop_last() =~= dec(n / 10));
        assert((n / 10) * 10 + n % 10 == n) by (nonlinear_arith);
        assert(dec(n).last() - 48 == n % 10);
        assert(digits_value(dec(n)) == digits_value(dec(n).drop_last()) * 10 + (dec(n).last() - 48) as nat);
        assert(digits_value(dec(n)) == (n / 10) * 10 + n % 10);
    } else {
        assert(dec(n).drop_last() =~= Seq::<u8>::empty());
        assert(dec(n).last() - 48 == n);
        assert(digits_value(dec(n)) == digits_value(dec(n).drop_last()) * 10 + (dec(n).last() - 48) as nat);
    }
}

proof fn lemma_decimal_dec(n: nat)
    requires
        n <= u64::MAX,
    ensures
        decimal(dec(n)) == Some(n as u64),
{
    lemma_dec(n);
}

proof fn lemma_window(s: Seq<u8>, p: int, e: Seq<u8>, a: int, b: int)
    requires
        0 <= p,
        p + e.len() <= s.len(),
        s.subrange(p, p + e.len()) == e,
        0 <= a <= b <= e.len(),
    ensures
        s.subrange(p + a, p + b) == e.subrange(a, b),
{
    assert forall|k: int| 0 <= k < b - a implies s.subrange(p + a, p + b)[k] == e.subrange(a, b)[k] by {
        assert(s[p + a + k] == s.subrange(p, p + e.len())[a + k]);
    }
    assert(s.subrange(p + a, p + b) =~= e.subrange(a, b));
}

/// A line of `s` from `a` that holds no CR LF and is followed by one ends there.
proof fn lemma_find_line(s: Seq<u8>, a: int, b: int)
    requires
        0 <= a <= b,
        b + 2 <= s.len(),
        s[b] == 13u8,
        s[b + 1] == 10u8,
        no_crlf(s.subrange(a, b)),
    ensures
        find_crlf(s, a) == Some(b),
    decreases b - a,
{
    if a < b {
        assert(s.subrange(a, b)[0] == s[a]);
        if a + 1 < b {
            assert(s.subrange(a, b)[1] == s[a + 1]);
        }
        assert(s.subrange(a + 1, b) =~= s.subrange(a, b).subrange(1, b - a));
        lemma_find_line(s, a + 1, b);
    }
}

proof fn lemma_digits_no_crlf(t: Seq<u8>)
    requires
        forall|j: int| 0 <= j < t.len() ==> is_digit(#[trigger] t[j]),
    ensures
        no_crlf(t),
{
}

proof fn lemma_encode_items_front(items: Seq<FrameV>)
    requires
        items.len() > 0,
    ensures
        encode_items(items) == encode_spec(items[0]) + encode_items(items.skip(1)),
    decreases items.len(),
{
    if items.len() == 1 {
        assert(items.drop_last() =~= Seq::<FrameV>::empty());
        assert(items.skip(1) =~= Seq::<FrameV>::empty());
        assert(encode_items(items) =~= encode_spec(items[0]) + encode_items(items.skip(1)));
    } else {
        lemma_encode_items_front(items.drop_last());
        assert(items.drop_last().skip(1) =~= items.skip(1).drop_last());
        assert(items.drop_last()[0] == items[0]);
        assert(items.skip(1).last() == items.last());
        assert(encode_items(items) =~= encode_spec(items[0]) + encode_items(items.skip(1)));
    }
}

/// Bytes equal to a frame's wire form, wherever they stand, decode to that frame.
proof fn lemma_parse_encode_text(s: Seq<u8>, p: int, f: FrameV, t: Seq<char>)
    requires
        0 <= p,
        p + encode_spec(f).len() <= s.len(),
        s.subrange(p, p + encode_spec(f).len()) == encode_spec(f),
        f == FrameV::Simple(t) || f == FrameV::Error(t),
        no_crlf(encode_utf8(t)),
    ensures
        parse_spec(s, p) == Decoded::Done(f, p + encode_spec(f).len()),
{
    let e = encode_spec(f);
    assert(s[p] == e[0]);
        let line = encode_utf8(t);
        let b = p + 1 + line.len();
        assert(s[b] == e[b - p]);
        assert(s[b + 1] == e[b + 1 - p]);
        lemma_window(s, p, e, 1, b - p);
        assert(e.subrange(1, b - p) =~= line);
        lemma_find_line(s, p + 1, b);
        encode_utf8_valid_utf8(t);
        encode_utf8_decode_utf8(t);
}

proof fn lemma_parse_encode_integer(s: Seq<u8>, p: int, f: FrameV, n: u64)
    requires
        0 <= p,
        p + encode_spec(f).len() <= s.len(),
        s.subrange(p, p + encode_spec(f).len()) == encode_spec(f),
        f == FrameV::Integer(n),
    ensures
        parse_spec(s, p) == Decoded::Done(f, p + encode_spec(f).len()),
{
    let e = encode_spec(f);
    assert(s[p] == e[0]);
        let line = dec(n as nat);
        let b = p + 1 + line.len();
        lemma_dec(n as nat);
        assert(s[b] == e[b - p]);
        assert(s[b + 1] == e[b + 1 - p]);
        lemma_window(s, p, e, 1, b - p);
        assert(e.subrange(1, b - p) =~= line);
        lemma_digits_no_crlf(line);
        lemma_find_line(s, p + 1, b);
        lemma_decimal_dec(n as nat);
}

proof fn lemma_parse_encode_bulk(s: Seq<u8>, p: int, f: FrameV, data: Seq<u8>)
    requires
        0 <= p,
        p + encode_spec(f).len() <= s.len(),
        s.subrange(p, p + encode_spec(f).len()) == encode_spec(f),
        f == FrameV::Bulk(data),
        data.len() <= u64::MAX,
    ensures
        parse_spec(s, p) == Decoded::Done(f, p + encode_spec(f).len()),
{
    let e = encode_spec(f);
    assert(s[p] == e[0]);
        let line = dec(data.len());
        let b = p + 1 + line.len();
        lemma_dec(data.len());
        assert(s[b] == e[b - p]);
        assert(s[b + 1] == e[b + 1 - p]);
        lemma_window(s, p, e, 1, b - p);
        assert(e.subrange(1, b - p) =~= line);
        assert(s[p + 1] == line[0]);
        lemma_digits_no_crlf(line);
        lemma_find_line(s, p + 1, b);
        lemma_decimal_dec(data.len());
        lemma_window(s, p, e, b + 2 - p, b + 2 - p + data.len());
        assert(e.subrange(b + 2 - p, b + 2 - p + data.len()) =~= data);
        assert(s[b + 2 + data.len()] == e[b + 2 - p + data.len()]);
        assert(s[b + 3 + data.len()] == e[b + 3 - p + data.len()]);
}

proof fn lemma_parse_encode_null(s: Seq<u8>, p: int, f: FrameV)
    requires
        0 <= p,
        p + encode_spec(f).len() <= s.len(),
        s.subrange(p, p + encode_spec(f).len()) == encode_spec(f),
        f == FrameV::Null,
    ensures
        parse_spec(s, p) == Decoded::Done(f, p + encode_spec(f).len()),
{
    let e = encode_spec(f);
    assert(s[p] == e[0]);
        assert(s[p + 1] == 45u8);
        assert(s[p + 2] == 49u8);
        assert(s[p + 3] == 13u8);
        assert(s[p + 4] == 10u8);
        assert(s.subrange(p + 1, p + 3) =~= seq![45u8, 49u8]);
        assert(no_crlf(s.subrange(p + 1, p + 3)));
        lemma_find_line(s, p + 1, p + 3);
}

pub proof fn lemma_parse_encode(s: Seq<u8>, p: int, f: FrameV)
    requires
        encodable(f),
        0 <= p,
        p + encode_spec(f).len() <= s.len(),
        s.subrange(p, p + encode_spec(f).len()) == encode_spec(f),
    ensures
        parse_spec(s, p) == Decoded::Done(f, p + encode_spec(f).len()),
    decreases f,
{
    let e = encode_spec(f);
    assert(s[p] == e[0]);
    match f {
        FrameV::Simple(t) => {
            lemma_parse_encode_text(s, p, f, t);
        },
        FrameV::Error(t) => {
            lemma_parse_encode_text(s, p, f, t);
        },
        FrameV::Integer(n) => {
            lemma_parse_encode_integer(s, p, f, n);
        },
        FrameV::Bulk(data) => {
            lemma_parse_encode_bulk(s, p, f, data);
        },
        FrameV::Null => {
            lemma_parse_encode_null(s, p, f);
        },
        FrameV::Array(items) => {
            let line = dec(items.len());
            let b = p + 1 + line.len();
            lemma_dec(items.len());
            assert(s[b] == e[b - p]);
            assert(s[b + 1] == e[b + 1 - p]);
            lemma_window(s, p, e, 1, b - p);
            assert(e.subrange(1, b - p) =~= line);
            lemma_digits_no_crlf(line);
            lemma_find_line(s, p + 1, b);
            lemma_decimal_dec(items.len());
            let body = encode_items(items);
            lemma_window(s, p, e, b + 2 - p, b + 2 - p + body.len());
            assert(e.subrange(b + 2 - p, b + 2 - p + body.len()) =~= body);
            lemma_parse_encode_items(s, b + 2, items);
        },
    }
}

/// Bytes equal to the wire forms of `items` decode to those items.
pub proof fn lemma_parse_encode_items(s: Seq<u8>, q: int, items: Seq<FrameV>)
    requires
        encodable_items(items),
        0 <= q,
        q + encode_items(items).len() <= s.len(),
        s.subrange(q, q + encode_items(items).len()) == encode_items(items),
    ensures
        parse_items_spec(s, q, items.len()) == Decoded::Done(items, q + encode_items(items).len()),
    decreases items,
{
    if items.len() > 0 {
        lemma_encode_items_front(items);
        let f = items[0];
        let rest = items.skip(1);
        let ef = encode_spec(f);
        let er = encode_items(rest);
        assert(s.subrange(q, q + ef.len()) =~= ef) by {
            assert(s.subrange(q, q + ef.len()) =~= s.subrange(q, q + encode_items(items).len()).subrange(0, ef.len() as int));
        }
        assert(s.subrange(q + ef.len(), q + ef.len() + er.len()) =~= er) by {
            assert(s.subrange(q + ef.len(), q + ef.len() + er.len()) =~= s.subrange(q, q + encode_items(items).len()).subrange(ef.len() as int, (ef.len() + er.len()) as int));
        }
        lemma_parse_encode(s, q, f);
        lemma_encode_nonempty(f);
        lemma_parse_encode_items(s, q + ef.len(), rest);
        assert(seq![f] + rest =~= items);
    } else {
        assert(items =~= Seq::<FrameV>::empty());
    }
}

proof fn lemma_encode_nonempty(f: FrameV)
    ensures
        encode_spec(f).len() >= 1,
{
}

/// Round trip: the wire form of any frame whose text holds no line terminator
/// decodes, on its own, to that same frame, using every byte.
pub proof fn lemma_round_trip(f: &Frame)
    requires
        encodable(f@),
    ensures
        parse_spec(encode_spec(f@), 0) == Decoded::Done(f@, encode_spec(f@).len() as int),
{
    let e = encode_spec(f@);
    assert(e.subrange(0, e.len() as int) =~= e);
    lemma_parse_encode(e, 0, f@);
}

/// `t` holds the bytes of `s` below `e`, as far as `t` reaches.
pub open spec fn agrees_below(s: Seq<u8>, t: Seq<u8>, e: int) -> bool {
    forall|j: int| 0 <= j < e && j < t.len() ==> #[trigger] t[j] == s[j]
}

proof fn lemma_agree_crlf(s: Seq<u8>, t: Seq<u8>, a: int, i: int)
    requires
        0 <= a,
        find_crlf(s, a) == Some(i),
        agrees_below(s, t, i + 2),
    ensures
        t.len() >= i + 2 ==> find_crlf(t, a) == Some(i),
        t.len() < i + 2 ==> find_crlf(t, a) is None,
    decreases i - a,
{
    crate::frame::lemma_find_crlf_bounds(s, a);
    if a < i {
        if a + 1 < t.len() {
            assert(t[a] == s[a]);
            assert(t[a + 1] == s[a + 1]);
        }
        lemma_agree_crlf(s, t, a + 1, i);
    } else if a + 1 < t.len() {
        assert(t[a] == s[a]);
        assert(t[a + 1] == s[a + 1]);
    }
}

proof fn lemma_agree_window(s: Seq<u8>, t: Seq<u8>, a: int, b: int, e: int)
    requires
        0 <= a <= b <= e,
        b <= t.len(),
        b <= s.len(),
        agrees_below(s, t, e),
    ensures
        t.subrange(a, b) == s.subrange(a, b),
{
    assert forall|j: int| 0 <= j < b - a implies t.subrange(a, b)[j] == s.subrange(a, b)[j] by {
        assert(t[a + j] == s[a + j]);
    }
    assert(t.subrange(a, b) =~= s.subrange(a, b));
}

/// A frame's decoding reads no byte past its end: bytes that agree up to the
/// end decode to the same frame, and a prefix that stops short of the end asks
/// for more.
pub proof fn lemma_decode_reads_frame_only(s: Seq<u8>, t: Seq<u8>, p: int)
    requires
        0 <= p,
        parse_spec(s, p) is Done,
        agrees_below(s, t, parse_spec(s, p)->Done_1),
    ensures
        p < parse_spec(s, p)->Done_1 <= s.len(),
        t.len() >= parse_spec(s, p)->Done_1 ==> parse_spec(t, p) == parse_spec(s, p),
        t.len() < parse_spec(s, p)->Done_1 ==> parse_spec(t, p) is Incomplete,
    decreases s.len() - p, 0int,
{
    let e = parse_spec(s, p)->Done_1;
    crate::frame::lemma_find_crlf_bounds(s, p + 1);
    let tag = s[p];
    let i = find_crlf(s, p + 1)->Some_0;
    if tag == 42u8 {
        let n = decimal(s.subrange(p + 1, i))->Some_0;
        lemma_agree_items_bound(s, i + 2, n as nat);
    }
    assert(i + 2 <= e);
    lemma_agree_mono(s, t, i + 2, e);
    if t.len() > p {
        assert(t[p] == s[p]);
    }
    if tag == 36u8 && t.len() > p + 1 {
        assert(t[p + 1] == s[p + 1]);
    }
    lemma_agree_crlf(s, t, p + 1, i);
    if t.len() >= i + 2 {
        lemma_agree_window(s, t, p + 1, i, e);
    }
    if tag == 36u8 && s[p + 1] != 45u8 {
        let n = decimal(s.subrange(p + 1, i))->Some_0;
        if t.len() >= e {
            lemma_agree_window(s, t, i + 2, i + 2 + n, e);
            assert(t[i + 2 + n] == s[i + 2 + n]);
            assert(t[i + 3 + n] == s[i + 3 + n]);
        }
    }
    if tag == 42u8 {
        let n = decimal(s.subrange(p + 1, i))->Some_0;
        if t.len() >= i + 2 {
            lemma_agree_items(s, t, i + 2, n as nat);
        }
    }
}

proof fn lemma_agree_mono(s: Seq<u8>, t: Seq<u8>, a: int, b: int)
    requires
        a <= b,
        agrees_below(s, t, b),
    ensures
        agrees_below(s, t, a),
{
}

proof fn lemma_agree_items(s: Seq<u8>, t: Seq<u8>, q: int, n: nat)
    requires
        0 <= q <= t.len(),
        parse_items_spec(s, q, n) is Done,
        agrees_below(s, t, parse_items_spec(s, q, n)->Done_1),
    ensures
        q <= parse_items_spec(s, q, n)->Done_1 <= s.len(),
        n > 0 ==> q < parse_items_spec(s, q, n)->Done_1,
        t.len() >= parse_items_spec(s, q, n)->Done_1 ==> parse_items_spec(t, q, n)
            == parse_items_spec(s, q, n),
        t.len() < parse_items_spec(s, q, n)->Done_1 ==> parse_items_spec(t, q, n) is Incomplete,
    decreases s.len() - q, 1int, n,
{
    if n > 0 {
        let e1 = parse_spec(s, q)->Done_1;
        let e = parse_items_spec(s, q, n)->Done_1;
        lemma_agree_items_bound(s, q, n);
        lemma_agree_items_bound(s, e1, (n - 1) as nat);
        lemma_agree_mono(s, t, e1, e);
        lemma_decode_reads_frame_only(s, t, q);
        assert(parse_items_spec(s, e1, (n - 1) as nat)->Done_1 == e);
        if t.len() >= e1 {
            lemma_agree_items(s, t, e1, (n - 1) as nat);
            assert(parse_spec(t, q) == parse_spec(s, q));
            if t.len() < e {
                assert(parse_items_spec(t, e1, (n - 1) as nat) is Incomplete);
                assert(parse_items_spec(t, q, n) is Incomplete);
            }
        } else {
            assert(parse_spec(t, q) is Incomplete);
            assert(parse_items_spec(t, q, n) is Incomplete);
        }
    }
}

proof fn lemma_agree_items_bound(s: Seq<u8>, q: int, n: nat)
    requires
        0 <= q,
        parse_items_spec(s, q, n) is Done,
    ensures
        q <= parse_items_spec(s, q, n)->Done_1 <= s.len(),
        n > 0 ==> q < parse_items_spec(s, q, n)->Done_1,
    decreases s.len() - q, n,
{
    if n > 0 {
        let e1 = parse_spec(s, q)->Done_1;
        lemma_agree_items_bound(s, e1, (n - 1) as nat);
    }
}

/// Incremental delivery: however the wire form of an encodable frame is cut,
/// every strict prefix decodes as "incomplete", and the whole decodes to the frame.
pub proof fn lemma_prefixes_incomplete(f: &Frame, k: int)
    requires
        encodable(f@),
        0 <= k < encode_spec(f@).len(),
    ensures
        parse_spec(encode_spec(f@).subrange(0, k), 0) is Incomplete,
        parse_spec(encode_spec(f@), 0) == Decoded::Done(f@, encode_spec(f@).len() as int),
{
    let e = encode_spec(f@);
    lemma_round_trip(f);
    let t = e.subrange(0, k);
    assert(agrees_below(e, t, e.len() as int));
    lemma_decode_reads_frame_only(e, t, 0);
}

/// A frame can only start with one of the five type bytes: any other first
/// byte is malformed input, never a request for more bytes.
pub proof fn lemma_unknown_tag_invalid(s: Seq<u8>, p: int)
    requires
        0 <= p < s.len(),
        s[p] != 43u8 && s[p] != 45u8 && s[p] != 58u8 && s[p] != 36u8 && s[p] != 42u8,
    ensures
        parse_spec(s, p) is Invalid,
{
}

/// Null comes from exactly the five bytes `$-1\r\n`.
pub proof fn lemma_null_only_from_minus_one(s: Seq<u8>, p: int)
    requires
        0 <= p,
        parse_spec(s, p) matches Decoded::Done(FrameV::Null, _),
    ensures
        s.subrange(p, parse_spec(s, p)->Done_1) == seq![36u8, 45u8, 49u8, 13u8, 10u8],
{
    crate::frame::lemma_find_crlf_bounds(s, p + 1);
    let i = find_crlf(s, p + 1)->Some_0;
    assert(s.subrange(p + 1, i) == seq![45u8, 49u8]);
    assert(s[p + 1] == s.subrange(p + 1, i)[0]);
    assert(s[p + 2] == s.subrange(p + 1, i)[1]);
    assert(s.subrange(p, i + 2) =~= seq![36u8, 45u8, 49u8, 13u8, 10u8]);
}

/// A decode outcome with its end moved by `k`.
pub open spec fn shifted(d: Decoded<FrameV>, k: int) -> Decoded<FrameV> {
    match d {
        Decoded::Done(f, e) => Decoded::Done(f, e + k),
        Decoded::Incomplete => Decoded::Incomplete,
        Decoded::Invalid => Decoded::Invalid,
    }
}

pub open spec fn shifted_items(d: Decoded<Seq<FrameV>>, k: int) -> Decoded<Seq<FrameV>> {
    match d {
        Decoded::Done(fs, e) => Decoded::Done(fs, e + k),
        Decoded::Incomplete => Decoded::Incomplete,
        Decoded::Invalid => Decoded::Invalid,
    }
}

/// From offset `p` on, `t` holds the bytes of `s` moved by `k`, and nothing more.
pub open spec fn same_tail(s: Seq<u8>, t: Seq<u8>, p: int, k: int) -> bool {
    &&& 0 <= p
    &&& 0 <= p + k
    &&& t.len() == s.len() + k
    &&& forall|j: int| p <= j < s.len() ==> #[trigger] s[j] == t[j + k]
}

proof fn lemma_shift_crlf(s: Seq<u8>, t: Seq<u8>, p: int, k: int, a: int)
    requires
        same_tail(s, t, p, k),
        p <= a,
    ensures
        find_crlf(t, a + k) == match find_crlf(s, a) {
            Some(i) => Some(i + k),
            None => None::<int>,
        },
    decreases s.len() - a,
{
    if a + 1 < s.len() {
        assert(s[a] == t[a + k]);
        assert(s[a + 1] == t[a + 1 + k]);
        lemma_shift_crlf(s, t, p, k, a + 1);
    }
}

proof fn lemma_shift_window(s: Seq<u8>, t: Seq<u8>, p: int, k: int, a: int, b: int)
    requires
        same_tail(s, t, p, k),
        p <= a <= b <= s.len(),
    ensures
        t.subrange(a + k, b + k) == s.subrange(a, b),
{
    assert forall|j: int| 0 <= j < b - a implies t.subrange(a + k, b + k)[j] == s.subrange(a, b)[j] by {
        assert(s[a + j] == t[a + j + k]);
    }
    assert(t.subrange(a + k, b + k) =~= s.subrange(a, b));
}

proof fn lemma_shift_frame(s: Seq<u8>, t: Seq<u8>, p: int, k: int, a: int)
    requires
        same_tail(s, t, p, k),
        p <= a,
    ensures
        parse_spec(t, a + k) == shifted(parse_spec(s, a), k),
    decreases s.len() - a, 0int,
{
    if a < s.len() {
        crate::frame::lemma_find_crlf_bounds(s, a + 1);
        assert(s[a] == t[a + k]);
        if a + 1 < s.len() {
            assert(s[a + 1] == t[a + 1 + k]);
        }
        lemma_shift_crlf(s, t, p, k, a + 1);
        if let Some(i) = find_crlf(s, a + 1) {
            lemma_shift_window(s, t, p, k, a + 1, i);
            if let Some(n) = decimal(s.subrange(a + 1, i)) {
                if i + 2 + n + 2 <= s.len() {
                    assert(s[i + 2 + n] == t[i + 2 + n + k]);
                    assert(s[i + 3 + n] == t[i + 3 + n + k]);
                    lemma_shift_window(s, t, p, k, i + 2, i + 2 + n);
                }
                lemma_shift_items(s, t, p, k, i + 2, n as nat);
            }
        }
    }
}

proof fn lemma_shift_items(s: Seq<u8>, t: Seq<u8>, p: int, k: int, b: int, n: nat)
    requires
        same_tail(s, t, p, k),
        p <= b,
    ensures
        parse_items_spec(t, b + k, n) == shifted_items(parse_items_spec(s, b, n), k),
    decreases s.len() - b, 1int, n,
{
    if n > 0 && b < s.len() {
        lemma_shift_frame(s, t, p, k, b);
        if let Decoded::Done(f, e) = parse_spec(s, b) {
            if b < e <= s.len() {
                lemma_shift_items(s, t, p, k, e, (n - 1) as nat);
            }
        }
    }
}

/// Decoding reads only the bytes from the cursor on: two buffers whose
/// remaining bytes are equal decode to the same outcome, and a frame moves
/// each cursor by the same number of bytes, whatever came before it.
pub proof fn lemma_decode_depends_on_tail(s: Seq<u8>, p: int, t: Seq<u8>, q: int)
    requires
        0 <= p <= s.len(),
        0 <= q <= t.len(),
        s.subrange(p, s.len() as int) == t.subrange(q, t.len() as int),
    ensures
        parse_spec(t, q) == shifted(parse_spec(s, p), q - p),
{
    let k = q - p;
    let ls = s.subrange(p, s.len() as int);
    let lt = t.subrange(q, t.len() as int);
    assert(ls.len() == s.len() - p);
    assert(lt.len() == t.len() - q);
    assert(t.len() == s.len() + k);
    assert forall|j: int| p <= j < s.len() implies #[trigger] s[j] == t[j + k] by {
        assert(s[j] == ls[j - p]);
        assert(t[j + k] == lt[j - p]);
    }
    lemma_shift_frame(s, t, p, k, p);
}

} // verus!
