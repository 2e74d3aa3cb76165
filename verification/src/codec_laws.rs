//! What the decoder makes of what the encoder writes.

use vstd::prelude::*;
use vstd::utf8::encode_utf8;
use crate::frame::{
    RespFrame, RespError, decodes_as, FrameView, Decoded, BulkScan, encoding, encodings, crlf, crlf_from, crlf_pos, decode_spec,
    scan_bulks, bulk_items, lemma_encodings_append, is_crlf_at,
};
use crate::text::{
    decimal, digits_of, digits_value, is_digit, all_digits, unsigned_text, signed_text, usize_text,
    i64_text, lossy_text,
};

verus! {

pub proof fn lemma_digits_of(n: nat)
    ensures
        digits_of(n).len() > 0,
        all_digits(digits_of(n)),
        digits_value(digits_of(n)) == n,
    decreases n,
{
    let d = digits_of(n);
    if n < 10 {
        assert(d.drop_last() =~= Seq::<u8>::empty());
        assert(digits_value(d) == digits_value(d.drop_last()) * 10 + (d.last() - 48) as nat);
    } else {
        lemma_digits_of(n / 10);
        assert(d.drop_last() =~= digits_of(n / 10));
        assert(d.last() == (48 + n % 10) as u8);
        assert((d.last() - 48) as nat == n % 10);
        assert(digits_value(d) == digits_value(digits_of(n / 10)) * 10 + n % 10);
        assert((n / 10) * 10 + n % 10 == n);
        assert forall|i: int| 0 <= i < d.len() implies is_digit(#[trigger] d[i]) by {
            if i < d.len() - 1 {
                assert(d[i] == digits_of(n / 10)[i]);
            }
        }
    }
}

pub proof fn lemma_decimal_text(i: int)
    ensures
        signed_text(decimal(i)) == Some(i),
        i >= 0 ==> unsigned_text(decimal(i)) == Some(i as nat),
        forall|j: int| 0 <= j < decimal(i).len() ==> #[trigger] decimal(i)[j] != 13u8,
        decimal(i).len() > 0,
{
    if i < 0 {
        lemma_digits_of((-i) as nat);
        let d = decimal(i);
        assert(d.drop_first() =~= digits_of((-i) as nat));
        assert forall|j: int| 0 <= j < d.len() implies #[trigger] d[j] != 13u8 by {
            if j > 0 {
                assert(d[j] == digits_of((-i) as nat)[j - 1]);
                assert(is_digit(digits_of((-i) as nat)[j - 1]));
            }
        }
    } else {
        lemma_digits_of(i as nat);
        let d = decimal(i);
        assert(is_digit(d[0]));
        assert forall|j: int| 0 <= j < d.len() implies #[trigger] d[j] != 13u8 by {
            assert(is_digit(d[j]));
        }
    }
}

/// Whether `d` holds no line end (a carriage return followed by a line feed).
pub open spec fn no_line_end(d: Seq<u8>) -> bool {
    forall|j: int| 0 <= j < d.len() - 1 ==> !(#[trigger] d[j] == 13u8 && d[j + 1] == 10u8)
}

/// The first line end of `t` at or after `i` is at `a`, when none starts
/// between them.
pub proof fn lemma_first_crlf(t: Seq<u8>, a: int, i: int)
    requires
        0 <= i <= a,
        a + 1 < t.len(),
        t[a] == 13u8,
        t[a + 1] == 10u8,
        forall|j: int| i <= j < a ==> !is_crlf_at(t, j),
    ensures
        crlf_from(t, i) == Some(a),
    decreases a - i,
{
    if i < a {
        assert(!is_crlf_at(t, i));
        lemma_first_crlf(t, a, i + 1);
    }
}

/// A line made of a decimal and its line end, read back.
pub proof fn lemma_decimal_line(t: Seq<u8>, i: int)
    requires
        t.len() >= decimal(i).len() + 2,
        t.take(decimal(i).len() as int) == decimal(i),
        t[decimal(i).len() as int] == 13u8,
        t[decimal(i).len() + 1int] == 10u8,
    ensures
        crlf_pos(t) == Some(decimal(i).len() as int),
        t.take(decimal(i).len() as int) == decimal(i),
{
    lemma_decimal_text(i);
    let a = decimal(i).len() as int;
    assert forall|j: int| 0 <= j < a implies !is_crlf_at(t, j) by {
        assert(t[j] == t.take(a)[j]);
    }
    lemma_first_crlf(t, a, 0);
}

/// A bulk string that the decoder can read back: adding its two line-end
/// bytes to its length stays within `usize`.
pub open spec fn small_bulk(f: FrameView) -> bool {
    f matches FrameView::BulkString(b) && b.len() + 2 <= usize::MAX
}

pub open spec fn bulk_array(items: Seq<FrameView>) -> bool {
    &&& items.len() <= usize::MAX
    &&& forall|i: int| 0 <= i < items.len() ==> small_bulk(#[trigger] items[i])
}

pub proof fn lemma_encodings_first(items: Seq<FrameView>)
    requires
        items.len() > 0,
    ensures
        encodings(items) == encoding(items[0]) + encodings(items.drop_first()),
{
    let one = seq![items[0]];
    lemma_encodings_append(one, items.drop_first());
    assert(one + items.drop_first() =~= items);
    assert(one.drop_last() =~= Seq::<FrameView>::empty());
    assert(encodings(one) == encodings(one.drop_last()) + encoding(one.last()));
    assert(encodings(one.drop_last()) =~= Seq::<u8>::empty());
    assert(encodings(one) =~= encoding(items[0]));
}

/// Scanning the encodings of bulk strings finds each of them and ends right
/// after the last.
pub proof fn lemma_scan_encoded_bulks(s: Seq<u8>, pos: int, items: Seq<FrameView>)
    requires
        0 <= pos,
        pos + encodings(items).len() <= s.len(),
        s.subrange(pos, pos + encodings(items).len()) == encodings(items),
        forall|i: int| 0 <= i < items.len() ==> small_bulk(#[trigger] items[i]),
    ensures
        scan_bulks(s, pos, items.len()) == BulkScan::Done(pos + encodings(items).len()),
        bulk_items(s, pos, items.len()) == items,
    decreases items.len(),
{
    if items.len() == 0 {
        assert(bulk_items(s, pos, 0) =~= items);
    } else {
        lemma_encodings_first(items);
        let first = items[0];
        assert(small_bulk(first));
        let b = first->BulkString_0;
        let d = decimal(b.len() as int);
        let e = encoding(first);
        let rest_items = items.drop_first();
        let q = d.len() as int;
        assert(e == seq![36u8] + d + crlf() + b + crlf());
        assert(e.len() == 1 + q + 2 + b.len() + 2);
        let enc = encodings(items);
        assert(enc == e + encodings(rest_items));
        // the element in place
        assert forall|j: int| 0 <= j < e.len() implies s[pos + j] == #[trigger] e[j] by {
            assert(s.subrange(pos, pos + enc.len())[j] == enc[j]);
        }
        assert(e[0] == 36u8);
        assert(s[pos] == 36u8);
        let t = s.skip(pos + 1);
        assert(t.take(q) =~= d) by {
            assert forall|j: int| 0 <= j < q implies t.take(q)[j] == d[j] by {
                assert(s[pos + 1 + j] == e[1 + j]);
            }
        }
        assert(e[1 + q] == 13u8);
        assert(e[2 + q] == 10u8);
        assert(t[q] == e[1 + q]);
        assert(t[q + 1] == e[2 + q]);
        lemma_decimal_line(t, b.len() as int);
        lemma_decimal_text(b.len() as int);
        assert(s.subrange(pos + 1, pos + 1 + q) =~= t.take(q));
        assert(usize_text(s.subrange(pos + 1, pos + 1 + q)) == Some(b.len()));
        assert(s.subrange(pos + q + 3, pos + q + 3 + b.len()) =~= b) by {
            assert forall|j: int| 0 <= j < b.len() implies s.subrange(pos + q + 3, pos + q + 3 + b.len())[j] == b[j] by {
                assert(s[pos + q + 3 + j] == e[q + 3 + j]);
            }
        }
        let next = pos + q + 3 + b.len() + 2;
        assert(next == pos + e.len());
        assert(s.subrange(next, next + encodings(rest_items).len()) =~= encodings(rest_items)) by {
            assert forall|j: int| 0 <= j < encodings(rest_items).len() implies
                s.subrange(next, next + encodings(rest_items).len())[j] == encodings(rest_items)[j] by {
                assert(s.subrange(pos, pos + enc.len())[e.len() + j] == enc[e.len() + j]);
            }
        }
        assert forall|i: int| 0 <= i < rest_items.len() implies small_bulk(#[trigger] rest_items[i]) by {
            assert(rest_items[i] == items[i + 1]);
        }
        lemma_scan_encoded_bulks(s, next, rest_items);
        assert(rest_items.len() == (items.len() - 1) as nat);
        assert(bulk_items(s, pos, items.len()) =~= items);
    }
}

/// An array of bulk strings, encoded, decodes to itself and takes exactly its
/// encoding off the buffer, whatever follows it.
pub proof fn lemma_decode_encoded_array(items: Seq<FrameView>, rest: Seq<u8>)
    requires
        bulk_array(items),
    ensures
        decode_spec(encoding(FrameView::Array(items)) + rest)
            == Decoded::Complete(FrameView::Array(items), encoding(FrameView::Array(items)).len() as int),
{
    let e = encoding(FrameView::Array(items));
    let s = e + rest;
    let d = decimal(items.len() as int);
    let q = d.len() as int;
    assert(e == seq![42u8] + d + crlf() + encodings(items));
    let t = s.skip(1);
    assert(t.take(q) =~= d);
    assert(t[q] == 13u8);
    assert(t[q + 1] == 10u8);
    lemma_decimal_line(t, items.len() as int);
    lemma_decimal_text(items.len() as int);
    let h = q + 3;
    assert(s.subrange(h, h + encodings(items).len()) =~= encodings(items));
    lemma_scan_encoded_bulks(s, h, items);
}

/// An integer, encoded, decodes to itself.
pub proof fn lemma_decode_encoded_integer(i: int, rest: Seq<u8>)
    requires
        i64::MIN <= i <= i64::MAX,
    ensures
        decode_spec(encoding(FrameView::Integer(i)) + rest)
            == Decoded::Complete(FrameView::Integer(i), encoding(FrameView::Integer(i)).len() as int),
{
    let e = encoding(FrameView::Integer(i));
    let s = e + rest;
    let d = decimal(i);
    let q = d.len() as int;
    let t = s.skip(1);
    assert(t.take(q) =~= d);
    assert(t[q] == 13u8);
    assert(t[q + 1] == 10u8);
    lemma_decimal_line(t, i);
    lemma_decimal_text(i);
    assert(t.take(q) == d);
}

/// A simple string whose text holds no line end decodes to the lossy reading
/// of its UTF-8 bytes.
pub proof fn lemma_decode_encoded_simple(text: Seq<char>, rest: Seq<u8>)
    requires
        no_line_end(encode_utf8(text)),
    ensures
        decode_spec(encoding(FrameView::SimpleString(text)) + rest)
            == Decoded::Complete(FrameView::SimpleString(lossy_text(encode_utf8(text))), encoding(FrameView::SimpleString(text)).len() as int),
{
    let e = encoding(FrameView::SimpleString(text));
    let s = e + rest;
    let u = encode_utf8(text);
    let q = u.len() as int;
    let t = s.skip(1);
    assert(t.take(q) =~= u);
    assert forall|j: int| 0 <= j < q implies !is_crlf_at(t, j) by {
        assert(t[j] == u[j]);
        if j + 1 < q {
            assert(t[j + 1] == u[j + 1]);
        } else {
            assert(t[j + 1] == 13u8);
        }
    }
    lemma_first_crlf(t, q, 0);
}


pub open spec fn pow10(k: nat) -> nat
    decreases k,
{
    if k == 0 { 1 } else { 10 * pow10((k - 1) as nat) }
}

pub proof fn lemma_digits_len(n: nat, k: nat)
    requires
        k >= 1,
        n < pow10(k),
    ensures
        digits_of(n).len() <= k,
    decreases k,
{
    if n >= 10 {
        assert(k >= 2) by {
            if k == 1 {
                assert(pow10(1) == 10 * pow10(0));
            }
        }
        assert(n / 10 < pow10((k - 1) as nat)) by {
            assert(pow10(k) == 10 * pow10((k - 1) as nat));
        }
        lemma_digits_len(n / 10, (k - 1) as nat);
    }
}

/// The decimal text of a `u64` takes at most twenty bytes.
pub proof fn lemma_decimal_u64_len(n: u64)
    ensures
        decimal(n as int).len() <= 20,
{
    reveal_with_fuel(pow10, 21);
    assert(pow10(20) == 100000000000000000000nat);
    lemma_digits_len(n as nat, 20);
}


pub proof fn lemma_cut_line(t: Seq<u8>, d: Seq<u8>)
    requires
        t.len() < d.len() + 2,
        t.len() <= (d + crlf()).len(),
        t == (d + crlf()).take(t.len() as int),
        no_line_end(d),
    ensures
        crlf_pos(t) is None,
{
    crate::frame::lemma_crlf_from(t, 0);
    if let Some(p) = crlf_pos(t) {
        assert(t[p] == (d + crlf())[p]);
        assert(t[p + 1] == (d + crlf())[p + 1]);
        if p + 1 < d.len() {
            assert((d + crlf())[p] == d[p]);
            assert((d + crlf())[p + 1] == d[p + 1]);
        } else if p < d.len() {
            assert((d + crlf())[p + 1] == 13u8);
        }
    }
}

/// Scanning a part cut from the encodings of bulk strings finds them
/// incomplete.
pub proof fn lemma_scan_cut_bulks(s: Seq<u8>, full: Seq<u8>, pos: int, items: Seq<FrameView>)
    requires
        0 <= pos <= s.len(),
        s.len() <= full.len(),
        s == full.take(s.len() as int),
        pos + encodings(items).len() <= full.len(),
        full.subrange(pos, pos + encodings(items).len()) == encodings(items),
        s.len() < pos + encodings(items).len(),
        forall|i: int| 0 <= i < items.len() ==> small_bulk(#[trigger] items[i]),
    ensures
        scan_bulks(s, pos, items.len()) == BulkScan::Incomplete,
    decreases items.len(),
{
    if items.len() == 0 {
        assert(encodings(items) =~= Seq::<u8>::empty());
    } else if pos < s.len() {
        lemma_encodings_first(items);
        let first = items[0];
        assert(small_bulk(first));
        let b = first->BulkString_0;
        let d = decimal(b.len() as int);
        let e = encoding(first);
        let rest_items = items.drop_first();
        let q = d.len() as int;
        let enc = encodings(items);
        assert(e == seq![36u8] + d + crlf() + b + crlf());
        assert(enc == e + encodings(rest_items));
        assert forall|j: int| 0 <= j < e.len() implies full[pos + j] == #[trigger] e[j] by {
            assert(full.subrange(pos, pos + enc.len())[j] == enc[j]);
        }
        assert(e[0] == 36u8);
        assert(s[pos] == full[pos]);
        lemma_decimal_text(b.len() as int);
        let t = s.skip(pos + 1);
        if t.len() < d.len() + 2 {
            assert(t =~= (d + crlf()).take(t.len() as int)) by {
                assert forall|j: int| 0 <= j < t.len() implies t[j] == (d + crlf())[j] by {
                    assert(t[j] == full[pos + 1 + j]);
                    assert(e[1 + j] == (d + crlf())[j]);
                }
            }
            lemma_cut_line(t, d);
        } else {
            assert(t.take(q) =~= d) by {
                assert forall|j: int| 0 <= j < q implies t.take(q)[j] == d[j] by {
                    assert(t[j] == full[pos + 1 + j]);
                    assert(e[1 + j] == d[j]);
                }
            }
            assert(e[1 + q] == 13u8);
            assert(e[2 + q] == 10u8);
            assert(t[q] == full[pos + 1 + q]);
            assert(t[q + 1] == full[pos + 2 + q]);
            lemma_decimal_line(t, b.len() as int);
            assert(s.subrange(pos + 1, pos + 1 + q) =~= t.take(q));
            let next = pos + q + 3 + b.len() + 2;
            if s.len() - (pos + q + 3) >= b.len() + 2 {
                assert(next == pos + e.len());
                assert(full.subrange(next, next + encodings(rest_items).len()) =~= encodings(rest_items)) by {
                    assert forall|j: int| 0 <= j < encodings(rest_items).len() implies
                        full.subrange(next, next + encodings(rest_items).len())[j] == encodings(rest_items)[j] by {
                        assert(full.subrange(pos, pos + enc.len())[e.len() + j] == enc[e.len() + j]);
                    }
                }
                assert forall|i: int| 0 <= i < rest_items.len() implies small_bulk(#[trigger] rest_items[i]) by {
                    assert(rest_items[i] == items[i + 1]);
                }
                lemma_scan_cut_bulks(s, full, next, rest_items);
                assert(rest_items.len() == (items.len() - 1) as nat);
            }
        }
    }
}

/// A part cut from the encoding of an array of bulk strings, shorter than the
/// whole, decodes as incomplete: the decoder waits for more bytes.
pub proof fn lemma_cut_array_incomplete(items: Seq<FrameView>, cut: int)
    requires
        bulk_array(items),
        0 <= cut < encoding(FrameView::Array(items)).len(),
    ensures
        decode_spec(encoding(FrameView::Array(items)).take(cut)) == Decoded::Incomplete,
{
    let full = encoding(FrameView::Array(items));
    let s = full.take(cut);
    if cut > 0 {
        let d = decimal(items.len() as int);
        let q = d.len() as int;
        assert(full == seq![42u8] + d + crlf() + encodings(items));
        assert(s[0] == 42u8);
        lemma_decimal_text(items.len() as int);
        let t = s.skip(1);
        if t.len() < d.len() + 2 {
            assert(t =~= (d + crlf()).take(t.len() as int)) by {
                assert forall|j: int| 0 <= j < t.len() implies t[j] == (d + crlf())[j] by {
                    assert(t[j] == full[1 + j]);
                }
            }
            lemma_cut_line(t, d);
        } else {
            assert(t.take(q) =~= d);
            assert(t[q] == 13u8);
            assert(t[q + 1] == 10u8);
            lemma_decimal_line(t, items.len() as int);
            let h = q + 3;
            assert(full.subrange(h, h + encodings(items).len()) =~= encodings(items));
            assert(s =~= full.take(s.len() as int));
            lemma_scan_cut_bulks(s, full, h, items);
        }
    }
}


/// A part cut from the encoding of an integer, shorter than the whole, decodes
/// as incomplete.
pub proof fn lemma_cut_integer_incomplete(i: int, cut: int)
    requires
        0 <= cut < encoding(FrameView::Integer(i)).len(),
    ensures
        decode_spec(encoding(FrameView::Integer(i)).take(cut)) == Decoded::Incomplete,
{
    let full = encoding(FrameView::Integer(i));
    let s = full.take(cut);
    if cut > 0 {
        let d = decimal(i);
        lemma_decimal_text(i);
        assert(s[0] == 58u8);
        let t = s.skip(1);
        assert(t =~= (d + crlf()).take(t.len() as int)) by {
            assert forall|j: int| 0 <= j < t.len() implies t[j] == (d + crlf())[j] by {
                assert(t[j] == full[1 + j]);
            }
        }
        lemma_cut_line(t, d);
    }
}

/// A part cut from the encoding of a simple string without carriage returns,
/// shorter than the whole, decodes as incomplete.
pub proof fn lemma_cut_simple_incomplete(text: Seq<char>, cut: int)
    requires
        no_line_end(encode_utf8(text)),
        0 <= cut < encoding(FrameView::SimpleString(text)).len(),
    ensures
        decode_spec(encoding(FrameView::SimpleString(text)).take(cut)) == Decoded::Incomplete,
{
    let full = encoding(FrameView::SimpleString(text));
    let s = full.take(cut);
    if cut > 0 {
        let d = encode_utf8(text);
        assert(s[0] == 43u8);
        let t = s.skip(1);
        assert(t =~= (d + crlf()).take(t.len() as int)) by {
            assert forall|j: int| 0 <= j < t.len() implies t[j] == (d + crlf())[j] by {
                assert(t[j] == full[1 + j]);
            }
        }
        lemma_cut_line(t, d);
    }
}

/// The frames whose encoding the decoder reads back: integers, simple
/// strings that hold no line end, and arrays of bulk strings.
pub open spec fn reads_back(f: FrameView) -> bool {
    match f {
        FrameView::Integer(i) => i64::MIN <= i <= i64::MAX,
        FrameView::SimpleString(t) => no_line_end(encode_utf8(t)),
        FrameView::Array(items) => bulk_array(items),
        _ => false,
    }
}

/// Whatever the decoder reports, a wait or an error leaves the buffer as it
/// was, and a frame takes a non-empty prefix off it.
pub proof fn lemma_decoder_takes_only_a_prefix(before: Seq<u8>, after: Seq<u8>, r: Result<Option<RespFrame>, RespError>)
    requires
        decodes_as(before, after, r),
    ensures
        (r matches Ok(None) || r is Err) ==> after == before,
        r matches Ok(Some(_)) ==> exists|n: int| 0 < n <= before.len() && after == before.skip(n),
{
}

/// Decoding undoes encoding: on an encoded frame followed by any bytes, the
/// decoder gives the frame back and leaves exactly the bytes that followed.
pub proof fn lemma_decoder_reads_back(f: FrameView, rest: Seq<u8>, after: Seq<u8>, r: Result<Option<RespFrame>, RespError>)
    requires
        reads_back(f),
        decodes_as(encoding(f) + rest, after, r),
    ensures
        r matches Ok(Some(g)) && g@ == f,
        after == rest,
{
    let e = encoding(f);
    match f {
        FrameView::Integer(i) => lemma_decode_encoded_integer(i, rest),
        FrameView::SimpleString(t) => {
            lemma_decode_encoded_simple(t, rest);
            vstd::utf8::encode_utf8_valid_utf8(t);
            vstd::utf8::encode_utf8_decode_utf8(t);
        },
        FrameView::Array(items) => lemma_decode_encoded_array(items, rest),
        _ => {},
    }
    assert((e + rest).skip(e.len() as int) =~= rest);
}

/// A frame cut anywhere short of its end makes the decoder wait, and it keeps
/// every byte of the cut: a frame split across reads is never consumed in
/// part, misread or refused.
pub proof fn lemma_decoder_waits_on_a_cut(f: FrameView, cut: int, after: Seq<u8>, r: Result<Option<RespFrame>, RespError>)
    requires
        reads_back(f),
        0 <= cut < encoding(f).len(),
        decodes_as(encoding(f).take(cut), after, r),
    ensures
        r matches Ok(None),
        after == encoding(f).take(cut),
{
    match f {
        FrameView::Integer(i) => lemma_cut_integer_incomplete(i, cut),
        FrameView::SimpleString(t) => lemma_cut_simple_incomplete(t, cut),
        FrameView::Array(items) => lemma_cut_array_incomplete(items, cut),
        _ => {},
    }
}

} // verus!
