//! RESP frames: their mathematical view, their wire encoding, and the
//! two-pass decoder that waits for more bytes when a frame is split.

use vstd::prelude::*;
use vstd::string::StringExecFns;
use vstd::utf8::*;
use bytes::{Bytes, BytesMut};
use crate::buffers::{bytes_contents, buf_contents, buf_extend, bytes_as_slice, buf_as_slice, buf_advance, buf_split_to, buf_freeze};
use crate::text::{decimal, decimal_i64, decimal_usize, lossy_text, lossy_string, usize_text, i64_text, parse_usize, parse_i64, message};

verus! {

/// A frame of the protocol.
#[derive(Debug, PartialEq)]
pub enum RespFrame {
    SimpleString(String),
    Error(String),
    Integer(i64),
    BulkString(Bytes),
    Array(Vec<RespFrame>),
    Null,
}

/// What a frame denotes: strings as characters, bulk strings as bytes.
pub enum FrameView {
    SimpleString(Seq<char>),
    Error(Seq<char>),
    Integer(int),
    BulkString(Seq<u8>),
    Array(Seq<FrameView>),
    Null,
}

pub open spec fn frame_view(f: RespFrame) -> FrameView
    decreases f,
{
    match f {
        RespFrame::SimpleString(s) => FrameView::SimpleString(s@),
        RespFrame::Error(s) => FrameView::Error(s@),
        RespFrame::Integer(i) => FrameView::Integer(i as int),
        RespFrame::BulkString(b) => FrameView::BulkString(bytes_contents(b)),
        RespFrame::Array(v) => FrameView::Array(frames_view(v@)),
        RespFrame::Null => FrameView::Null,
    }
}

pub open spec fn frames_view(s: Seq<RespFrame>) -> Seq<FrameView>
    decreases s,
{
    if s.len() == 0 {
        Seq::empty()
    } else {
        frames_view(s.drop_last()).push(frame_view(s.last()))
    }
}

impl View for RespFrame {
    type V = FrameView;

    open spec fn view(&self) -> FrameView {
        frame_view(*self)
    }
}

impl Clone for RespFrame {
    fn clone(&self) -> (r: RespFrame)
        ensures
            r@ == self@,
    {
        self.copy()
    }
}

/// The two bytes that end every line of the protocol.
pub open spec fn crlf() -> Seq<u8> {
    seq![13u8, 10u8]
}

/// The wire encoding of a frame.
pub open spec fn encoding(f: FrameView) -> Seq<u8>
    decreases f,
{
    match f {
        FrameView::SimpleString(s) => seq![43u8] + encode_utf8(s) + crlf(),
        FrameView::Error(s) => seq![45u8] + encode_utf8(s) + crlf(),
        FrameView::Integer(i) => seq![58u8] + decimal(i) + crlf(),
        FrameView::BulkString(b) => seq![36u8] + decimal(b.len() as int) + crlf() + b + crlf(),
        FrameView::Array(items) => seq![42u8] + decimal(items.len() as int) + crlf() + encodings(items),
        FrameView::Null => seq![36u8, 45u8, 49u8, 13u8, 10u8],
    }
}

/// The encodings of a sequence of frames, one after the other.
pub open spec fn encodings(items: Seq<FrameView>) -> Seq<u8>
    decreases items,
{
    if items.len() == 0 {
        Seq::empty()
    } else {
        encodings(items.drop_last()) + encoding(items.last())
    }
}


pub proof fn lemma_frames_view(s: Seq<RespFrame>)
    ensures
        frames_view(s).len() == s.len(),
        forall|i: int| 0 <= i < s.len() ==> #[trigger] frames_view(s)[i] == frame_view(s[i]),
    decreases s.len(),
{
    if s.len() > 0 {
        lemma_frames_view(s.drop_last());
    }
}

pub proof fn lemma_encodings_append(a: Seq<FrameView>, b: Seq<FrameView>)
    ensures
        encodings(a + b) == encodings(a) + encodings(b),
    decreases b.len(),
{
    if b.len() == 0 {
        assert(a + b =~= a);
        assert(encodings(b) =~= Seq::<u8>::empty());
        assert(encodings(a) + encodings(b) =~= encodings(a));
    } else {
        assert((a + b).drop_last() =~= a + b.drop_last());
        assert((a + b).last() == b.last());
        lemma_encodings_append(a, b.drop_last());
        assert(encodings(a) + encodings(b) =~= encodings(a) + encodings(b.drop_last()) + encoding(b.last()));
    }
}

/// Whether a line end starts at `i`.
pub open spec fn is_crlf_at(s: Seq<u8>, i: int) -> bool {
    0 <= i && i + 1 < s.len() && s[i] == 13u8 && s[i + 1] == 10u8
}

/// The first line end at or after `i`.
pub open spec fn crlf_from(s: Seq<u8>, i: int) -> Option<int>
    decreases s.len() - i,
{
    if i < 0 || i + 1 >= s.len() {
        None
    } else if is_crlf_at(s, i) {
        Some(i)
    } else {
        crlf_from(s, i + 1)
    }
}

/// The position of the first line end.
pub open spec fn crlf_pos(s: Seq<u8>) -> Option<int> {
    crlf_from(s, 0)
}

pub proof fn lemma_crlf_from(s: Seq<u8>, i: int)
    requires
        0 <= i,
    ensures
        match crlf_from(s, i) {
            Some(p) => i <= p && is_crlf_at(s, p) && forall|j: int| i <= j < p ==> !is_crlf_at(s, j),
            None => forall|j: int| i <= j ==> !is_crlf_at(s, j),
        },
    decreases s.len() - i,
{
    if i + 1 < s.len() && !is_crlf_at(s, i) {
        lemma_crlf_from(s, i + 1);
    }
}

/// The index of the first `\r\n` in `buf`.
pub fn find_crlf(buf: &[u8]) -> (r: Option<usize>)
    ensures
        match r {
            Some(p) => crlf_pos(buf@) == Some(p as int),
            None => crlf_pos(buf@) is None,
        },
{
    let n = buf.len();
    let mut i: usize = 0;
    while n > 0 && i < n - 1
        invariant
            n == buf@.len(),
            i <= n,
            crlf_from(buf@, 0) == crlf_from(buf@, i as int),
        decreases n - i,
    {
        if buf[i] == 13u8 && buf[i + 1] == 10u8 {
            return Some(i);
        }
        i = i + 1;
    }
    None
}

fn push_bytes(buf: &mut BytesMut, v: &Vec<u8>)
    requires
        buf_contents(*old(buf)).len() + v@.len() <= isize::MAX,
    ensures
        buf_contents(*final(buf)) == buf_contents(*old(buf)) + v@,
{
    buf_extend(buf, v.as_slice());
}

fn push_byte(buf: &mut BytesMut, b: u8)
    requires
        buf_contents(*old(buf)).len() + 1 <= isize::MAX,
    ensures
        buf_contents(*final(buf)) == buf_contents(*old(buf)).push(b),
{
    let v: Vec<u8> = vec![b];
    assert(v@ =~= seq![b]);
    buf_extend(buf, v.as_slice());
    assert(buf_contents(*old(buf)) + seq![b] =~= buf_contents(*old(buf)).push(b));
}

fn push_crlf(buf: &mut BytesMut)
    requires
        buf_contents(*old(buf)).len() + 2 <= isize::MAX,
    ensures
        buf_contents(*final(buf)) == buf_contents(*old(buf)) + crlf(),
{
    let v: Vec<u8> = vec![13u8, 10u8];
    assert(v@ =~= crlf());
    buf_extend(buf, v.as_slice());
}

impl RespFrame {
    /// Appends the wire encoding of the frame to `buf`.
    pub fn encode(&self, buf: &mut BytesMut)
        requires
            buf_contents(*old(buf)).len() + encoding(self@).len() <= isize::MAX,
        ensures
            buf_contents(*final(buf)) == buf_contents(*old(buf)) + encoding(self@),
        decreases self,
    {
        let ghost start = buf_contents(*buf);
        match self {
            RespFrame::SimpleString(s) => {
                push_byte(buf, 43u8);
                let b = s.as_str().as_bytes();
                buf_extend(buf, b);
                push_crlf(buf);
                assert(buf_contents(*buf) =~= start + encoding(self@));
            },
            RespFrame::Error(e) => {
                push_byte(buf, 45u8);
                let b = e.as_str().as_bytes();
                buf_extend(buf, b);
                push_crlf(buf);
                assert(buf_contents(*buf) =~= start + encoding(self@));
            },
            RespFrame::Integer(i) => {
                push_byte(buf, 58u8);
                let d = decimal_i64(*i);
                push_bytes(buf, &d);
                push_crlf(buf);
                assert(buf_contents(*buf) =~= start + encoding(self@));
            },
            RespFrame::BulkString(b) => {
                push_byte(buf, 36u8);
                let body = bytes_as_slice(b);
                let d = decimal_usize(body.len());
                push_bytes(buf, &d);
                push_crlf(buf);
                buf_extend(buf, body);
                push_crlf(buf);
                assert(buf_contents(*buf) =~= start + encoding(self@));
            },
            RespFrame::Array(frames) => {
                let ghost items = frames_view(frames@);
                proof {
                    lemma_frames_view(frames@);
                }
                push_byte(buf, 42u8);
                let d = decimal_usize(frames.len());
                push_bytes(buf, &d);
                push_crlf(buf);
                let ghost header = buf_contents(*buf);
                assert(header =~= start + (seq![42u8] + decimal(items.len() as int) + crlf()));
                assert(encoding(self@) == seq![42u8] + decimal(items.len() as int) + crlf() + encodings(items));
                let mut i: usize = 0;
                while i < frames.len()
                    invariant
                        i <= frames@.len(),
                        items == frames_view(frames@),
                        items.len() == frames@.len(),
                        forall|j: int| 0 <= j < frames@.len() ==> #[trigger] items[j] == frame_view(frames@[j]),
                        *self == RespFrame::Array(*frames),
                        encoding(self@) == seq![42u8] + decimal(items.len() as int) + crlf() + encodings(items),
                        header == start + (seq![42u8] + decimal(items.len() as int) + crlf()),
                        buf_contents(*buf) == header + encodings(items.take(i as int)),
                        start.len() + encoding(self@).len() <= isize::MAX,
                    decreases frames@.len() - i,
                {
                    proof {
                        lemma_encodings_append(items.take(i + 1), items.skip(i + 1));
                        assert(items.take(i + 1) + items.skip(i + 1) =~= items);
                        assert(items.take(i + 1).drop_last() =~= items.take(i as int));
                    }
                    let f = &frames[i];
                    f.encode(buf);
                    i = i + 1;
                }
                assert(items.take(i as int) =~= items);
                assert(buf_contents(*buf) =~= start + encoding(self@));
            },
            RespFrame::Null => {
                let v: Vec<u8> = vec![36u8, 45u8, 49u8, 13u8, 10u8];
                push_bytes(buf, &v);
                assert(buf_contents(*buf) =~= start + encoding(self@));
            },
        }
    }

    /// Appends the encoding of the frame to `buf` where the buffer then holds
    /// at most `isize::MAX` bytes, and says so; otherwise leaves `buf` as it
    /// was and returns `false`.
    pub fn encode_checked(&self, buf: &mut BytesMut) -> (r: bool)
        ensures
            r == (buf_contents(*old(buf)).len() + encoding(self@).len() <= isize::MAX),
            r ==> buf_contents(*final(buf)) == buf_contents(*old(buf)) + encoding(self@),
            !r ==> buf_contents(*final(buf)) == buf_contents(*old(buf)),
    {
        let len = buf_as_slice(buf).len();
        if len > isize::MAX as usize {
            return false;
        }
        match self.encoded_len() {
            None => false,
            Some(n) => {
                if n > isize::MAX as usize - len {
                    false
                } else {
                    self.encode(buf);
                    true
                }
            },
        }
    }

    /// The number of bytes the encoding of the frame takes, or `None` where
    /// that number exceeds `usize::MAX`.
    pub fn encoded_len(&self) -> (r: Option<usize>)
        ensures
            match r {
                Some(n) => n == encoding(self@).len(),
                None => encoding(self@).len() > usize::MAX,
            },
        decreases self,
    {
        match self {
            RespFrame::SimpleString(s) => {
                let n = s.as_str().as_bytes().len();
                if n > usize::MAX - 3 { None } else { Some(n + 3) }
            },
            RespFrame::Error(s) => {
                let n = s.as_str().as_bytes().len();
                if n > usize::MAX - 3 { None } else { Some(n + 3) }
            },
            RespFrame::Integer(i) => {
                let d = decimal_i64(*i);
                if d.len() > usize::MAX - 3 { None } else { Some(d.len() + 3) }
            },
            RespFrame::BulkString(b) => {
                let n = bytes_as_slice(b).len();
                let d = decimal_usize(n);
                if d.len() > usize::MAX - 5 || n > usize::MAX - 5 - d.len() {
                    None
                } else {
                    Some(d.len() + 5 + n)
                }
            },
            RespFrame::Array(frames) => {
                let ghost items = frames_view(frames@);
                proof {
                    lemma_frames_view(frames@);
                }
                let d = decimal_usize(frames.len());
                if d.len() > usize::MAX - 3 {
                    return None;
                }
                let mut acc: usize = d.len() + 3;
                let mut i: usize = 0;
                while i < frames.len()
                    invariant
                        i <= frames@.len(),
                        items == frames_view(frames@),
                        items.len() == frames@.len(),
                        forall|j: int| 0 <= j < frames@.len() ==> #[trigger] items[j] == frame_view(frames@[j]),
                        *self == RespFrame::Array(*frames),
                        encoding(self@) == seq![42u8] + decimal(items.len() as int) + crlf() + encodings(items),
                        acc == d@.len() + 3 + encodings(items.take(i as int)).len(),
                        d@ == decimal(items.len() as int),
                    decreases frames@.len() - i,
                {
                    proof {
                        lemma_encodings_append(items.take(i + 1), items.skip(i + 1));
                        assert(items.take(i + 1) + items.skip(i + 1) =~= items);
                        assert(items.take(i + 1).drop_last() =~= items.take(i as int));
                        assert(decreases_to!(*self => (*self)->Array_0));
                        assert(decreases_to!(*frames => frames@));
                        assert(decreases_to!(frames@ => frames@[i as int]));
                    }
                    let f = &frames[i];
                    match f.encoded_len() {
                        None => {
                            return None;
                        },
                        Some(m) => {
                            if m > usize::MAX - acc {
                                return None;
                            }
                            acc = acc + m;
                        },
                    }
                    i = i + 1;
                }
                assert(items.take(i as int) =~= items);
                Some(acc)
            },
            RespFrame::Null => Some(5),
        }
    }

    /// A copy of the frame; bulk strings share their bytes.
    fn copy(&self) -> (r: RespFrame)
        ensures
            r@ == self@,
        decreases self,
    {
        match self {
            RespFrame::SimpleString(s) => RespFrame::SimpleString(s.clone()),
            RespFrame::Error(s) => RespFrame::Error(s.clone()),
            RespFrame::Integer(i) => RespFrame::Integer(*i),
            RespFrame::BulkString(b) => RespFrame::BulkString(b.clone()),
            RespFrame::Array(frames) => {
                let mut out: Vec<RespFrame> = Vec::new();
                let mut i: usize = 0;
                proof {
                    lemma_frames_view(frames@);
                }
                while i < frames.len()
                    invariant
                        i <= frames@.len(),
                        *self == RespFrame::Array(*frames),
                        out@.len() == i,
                        forall|j: int| 0 <= j < i ==> #[trigger] frame_view(out@[j]) == frame_view(frames@[j]),
                    decreases frames@.len() - i,
                {
                    let f = &frames[i];
                    proof {
                        assert(decreases_to!(*self => (*self)->Array_0));
                        assert(decreases_to!(*frames => frames@));
                        assert(decreases_to!(frames@ => frames@[i as int]));
                    }
                    let c = f.copy();
                    out.push(c);
                    i = i + 1;
                }
                proof {
                    lemma_frames_view(out@);
                    lemma_frames_view(frames@);
                    assert(frames_view(out@) =~= frames_view(frames@));
                }
                RespFrame::Array(out)
            },
            RespFrame::Null => RespFrame::Null,
        }
    }
}


/// `std::io::Error`, opaque: carried in `RespError::Io`, never looked into.
#[verifier::external_type_specification]
#[verifier::external_body]
pub struct ExIoError(std::io::Error);

/// Why a frame could not be read.
#[derive(Debug)]
pub enum RespError {
    Incomplete,
    InvalidProtocol(String),
    Io(std::io::Error),
}

impl From<std::io::Error> for RespError {
    fn from(err: std::io::Error) -> (r: RespError) {
        RespError::Io(err)
    }
}

impl vstd::std_specs::convert::FromSpecImpl<std::io::Error> for RespError {
    open spec fn obeys_from_spec() -> bool {
        true
    }

    open spec fn from_spec(err: std::io::Error) -> RespError {
        RespError::Io(err)
    }
}

/// `<io::Error as ToString>::to_string`: the error's own text, which is not
/// described.
#[verifier::external_body]
fn io_error_text(err: &std::io::Error) -> (r: String) {
    err.to_string()
}

fn joined(prefix: &str, rest: &str) -> (r: String)
    ensures
        r@ == prefix@ + rest@,
{
    let mut out = message(prefix);
    out.append(rest);
    out
}

impl RespError {
    /// How the error reads to a person.
    pub fn describe(&self) -> (r: String)
        ensures
            match self {
                RespError::Incomplete => r@ == "Incomplete frame"@,
                RespError::InvalidProtocol(m) => r@ == "Invalid Protocol: "@ + m@,
                RespError::Io(_) => exists|t: Seq<char>| r@ == "IO Error: "@ + t,
            },
    {
        match self {
            RespError::Incomplete => message("Incomplete frame"),
            RespError::InvalidProtocol(m) => joined("Invalid Protocol: ", m.as_str()),
            RespError::Io(e) => {
                let t = io_error_text(e);
                joined("IO Error: ", t.as_str())
            },
        }
    }
}

/// What reading the front of a buffer yields.
pub enum Decoded {
    /// More bytes are needed; nothing is consumed.
    Incomplete,
    /// The bytes break the protocol; the message says how.
    Invalid(Seq<char>),
    /// A bulk string announces a length so large that adding its two line-end
    /// bytes overflows `usize`.
    LengthOverflow,
    /// A whole frame, and the number of bytes it takes.
    Complete(FrameView, int),
}

/// What scanning the bulk strings of an array yields.
pub enum BulkScan {
    Incomplete,
    Invalid(Seq<char>),
    LengthOverflow,
    /// All of them are there; the array ends at the given position.
    Done(int),
}

/// Scans `count` bulk strings starting at `pos`: each is `$`, its length, a
/// line end, the bytes, and two more bytes that are skipped.
pub open spec fn scan_bulks(s: Seq<u8>, pos: int, count: nat) -> BulkScan
    decreases count,
{
    if count == 0 {
        BulkScan::Done(pos)
    } else if pos >= s.len() {
        BulkScan::Incomplete
    } else if s[pos] != 36u8 {
        BulkScan::Invalid("Expected BulkString"@)
    } else {
        match crlf_pos(s.skip(pos + 1)) {
            None => BulkScan::Incomplete,
            Some(q) => match usize_text(s.subrange(pos + 1, pos + 1 + q)) {
                None => BulkScan::Invalid("Invalid String Len"@),
                Some(len) => if len + 2 > usize::MAX {
                    BulkScan::LengthOverflow
                } else if s.len() - (pos + q + 3) < len + 2 {
                    BulkScan::Incomplete
                } else {
                    scan_bulks(s, pos + q + 3 + len + 2, (count - 1) as nat)
                },
            },
        }
    }
}

pub proof fn lemma_scan_bulks_end(s: Seq<u8>, pos: int, count: nat)
    ensures
        scan_bulks(s, pos, count) matches BulkScan::Done(end) ==> pos <= end && (pos <= s.len() ==> end <= s.len()),
    decreases count,
{
    if count > 0 && pos < s.len() && s[pos] == 36u8 {
        match crlf_pos(s.skip(pos + 1)) {
            None => {},
            Some(q) => {
                lemma_crlf_from(s.skip(pos + 1), 0);
                match usize_text(s.subrange(pos + 1, pos + 1 + q)) {
                    None => {},
                    Some(len) => {
                        lemma_scan_bulks_end(s, pos + q + 3 + len + 2, (count - 1) as nat);
                    },
                }
            },
        }
    }
}

/// The bytes of the `count` bulk strings that start at `pos`.
pub open spec fn bulk_items(s: Seq<u8>, pos: int, count: nat) -> Seq<FrameView>
    decreases count,
{
    if count == 0 || pos >= s.len() {
        Seq::empty()
    } else {
        match crlf_pos(s.skip(pos + 1)) {
            None => Seq::empty(),
            Some(q) => match usize_text(s.subrange(pos + 1, pos + 1 + q)) {
                None => Seq::empty(),
                Some(len) => seq![FrameView::BulkString(s.subrange(pos + q + 3, pos + q + 3 + len))]
                    + bulk_items(s, pos + q + 3 + len + 2, (count - 1) as nat),
            },
        }
    }
}

/// What the decoder reads from the front of `s`: a simple string, an integer,
/// or an array of bulk strings; any other first byte is refused.
pub open spec fn decode_spec(s: Seq<u8>) -> Decoded {
    if s.len() == 0 {
        Decoded::Incomplete
    } else {
        let rest = s.skip(1);
        if s[0] == 43u8 {
            match crlf_pos(rest) {
                None => Decoded::Incomplete,
                Some(p) => Decoded::Complete(FrameView::SimpleString(lossy_text(rest.take(p))), p + 3),
            }
        } else if s[0] == 58u8 {
            match crlf_pos(rest) {
                None => Decoded::Incomplete,
                Some(p) => match i64_text(rest.take(p)) {
                    None => Decoded::Invalid("Invalid Integer"@),
                    Some(n) => Decoded::Complete(FrameView::Integer(n), p + 3),
                },
            }
        } else if s[0] == 42u8 {
            match crlf_pos(rest) {
                None => Decoded::Incomplete,
                Some(p) => match usize_text(rest.take(p)) {
                    None => Decoded::Invalid("Invalid Array Len"@),
                    Some(n) => match scan_bulks(s, p + 3, n) {
                        BulkScan::Done(end) => Decoded::Complete(FrameView::Array(bulk_items(s, p + 3, n)), end),
                        BulkScan::Incomplete => Decoded::Incomplete,
                        BulkScan::Invalid(m) => Decoded::Invalid(m),
                        BulkScan::LengthOverflow => Decoded::LengthOverflow,
                    },
                },
            }
        } else {
            Decoded::Invalid("Invalid Protocol"@)
        }
    }
}

/// The first line end at or after `start`, as an offset from `start`.
fn crlf_after(s: &[u8], start: usize) -> (r: Option<usize>)
    requires
        start <= s@.len(),
    ensures
        match r {
            Some(q) => crlf_pos(s@.skip(start as int)) == Some(q as int),
            None => crlf_pos(s@.skip(start as int)) is None,
        },
{
    let ghost t = s@.skip(start as int);
    let n = s.len();
    let mut j: usize = start;
    while n > 0 && j < n - 1
        invariant
            start <= j <= n,
            n == s@.len(),
            t == s@.skip(start as int),
            crlf_from(t, 0) == crlf_from(t, j - start),
        decreases n - j,
    {
        if s[j] == 13u8 && s[j + 1] == 10u8 {
            assert(is_crlf_at(t, j - start));
            return Some(j - start);
        }
        assert(!is_crlf_at(t, j - start));
        j = j + 1;
    }
    None
}

fn invalid(m: &str) -> (r: RespError)
    ensures
        r matches RespError::InvalidProtocol(x) && x@ == m@,
{
    RespError::InvalidProtocol(message(m))
}

/// Whether the decoder's outcome matches `decode_spec` for the buffer as it was.
pub open spec fn decodes_as(before: Seq<u8>, after: Seq<u8>, r: Result<Option<RespFrame>, RespError>) -> bool {
    match (r, decode_spec(before)) {
        (Ok(None), Decoded::Incomplete) => after == before,
        (Err(RespError::InvalidProtocol(m)), Decoded::Invalid(msg)) => m@ == msg && after == before,
        (Ok(Some(f)), Decoded::Complete(v, n)) => f@ == v && 0 < n <= before.len() && after == before.skip(n),
        _ => false,
    }
}

pub proof fn lemma_crlf_skip(s: Seq<u8>, k: int, i: int)
    requires
        0 <= k <= s.len(),
        0 <= i,
    ensures
        crlf_from(s.skip(k), i) == match crlf_from(s, i + k) {
            Some(x) => Some(x - k),
            None => None::<int>,
        },
    decreases s.len() - i,
{
    if i + k + 1 < s.len() && !is_crlf_at(s, i + k) {
        lemma_crlf_skip(s, k, i + 1);
    }
}

/// The outcome of the first pass over an array's elements.
pub enum ArrayScan {
    Incomplete,
    Invalid(String),
    LengthOverflow,
    Done(usize),
}

/// The first pass: walks over the `array_len` bulk strings that start at `h`
/// without taking anything out of the buffer.
fn scan_array(s: &[u8], h: usize, array_len: usize) -> (r: ArrayScan)
    requires
        h <= s@.len(),
    ensures
        match (r, scan_bulks(s@, h as int, array_len as nat)) {
            (ArrayScan::Incomplete, BulkScan::Incomplete) => true,
            (ArrayScan::Invalid(m), BulkScan::Invalid(msg)) => m@ == msg,
            (ArrayScan::LengthOverflow, BulkScan::LengthOverflow) => true,
            (ArrayScan::Done(e), BulkScan::Done(end)) => e == end,
            _ => false,
        },
{
    let ghost s0 = s@;
    let n = s.len();
    let mut pos: usize = h;
    let mut k: usize = 0;
    while k < array_len
        invariant
            s@ == s0,
            n == s0.len(),
            h <= pos <= n,
            k <= array_len,
            scan_bulks(s0, h as int, array_len as nat) == scan_bulks(s0, pos as int, (array_len - k) as nat),
        decreases array_len - k,
    {
        if pos >= n {
            return ArrayScan::Incomplete;
        }
        if s[pos] != 36u8 {
            return ArrayScan::Invalid(message("Expected BulkString"));
        }
        match crlf_after(s, pos + 1) {
            None => {
                return ArrayScan::Incomplete;
            },
            Some(q) => {
                proof {
                    lemma_crlf_from(s0.skip(pos + 1), 0);
                }
                let len_bytes = &s[pos + 1..pos + 1 + q];
                assert(len_bytes@ =~= s0.subrange(pos + 1, pos + 1 + q));
                match parse_usize(len_bytes) {
                    None => {
                        return ArrayScan::Invalid(message("Invalid String Len"));
                    },
                    Some(str_len) => {
                        if str_len > usize::MAX - 2 {
                            return ArrayScan::LengthOverflow;
                        }
                        let body = pos + q + 3;
                        if n - body < str_len + 2 {
                            return ArrayScan::Incomplete;
                        }
                        pos = body + str_len + 2;
                    },
                }
            },
        }
        k = k + 1;
    }
    ArrayScan::Done(pos)
}

/// Reads an array of bulk strings whose header, `*` and the count, takes the
/// first `p + 3` bytes of `src`: a first pass checks that every element is
/// there, a second one splits the elements off the buffer.
fn parse_array(src: &mut BytesMut, p: usize, array_len: usize) -> (r: Result<Option<RespFrame>, RespError>)
    requires
        buf_contents(*old(src)).len() > 0,
        buf_contents(*old(src))[0] == 42u8,
        crlf_pos(buf_contents(*old(src)).skip(1)) == Some(p as int),
        !(scan_bulks(buf_contents(*old(src)), p + 3, array_len as nat) is LengthOverflow),
    ensures
        match (r, scan_bulks(buf_contents(*old(src)), p + 3, array_len as nat)) {
            (Ok(None), BulkScan::Incomplete) => buf_contents(*final(src)) == buf_contents(*old(src)),
            (Err(RespError::InvalidProtocol(m)), BulkScan::Invalid(msg)) => m@ == msg
                && buf_contents(*final(src)) == buf_contents(*old(src)),
            (Ok(Some(f)), BulkScan::Done(end)) => f@ == FrameView::Array(bulk_items(buf_contents(*old(src)), p + 3, array_len as nat))
                && p + 3 <= end <= buf_contents(*old(src)).len()
                && buf_contents(*final(src)) == buf_contents(*old(src)).skip(end),
            _ => false,
        },
{
    let ghost s0 = buf_contents(*src);
    proof {
        lemma_crlf_from(s0.skip(1), 0);
    }
    let s = buf_as_slice(src);
    let n = s.len();
    let h: usize = p + 3;
    let end_pos = match scan_array(s, h, array_len) {
        ArrayScan::Incomplete => {
            return Ok(None);
        },
        ArrayScan::Invalid(m) => {
            return Err(RespError::InvalidProtocol(m));
        },
        ArrayScan::LengthOverflow => {
            assert(false);
            return Ok(None);
        },
        ArrayScan::Done(e) => e,
    };
    let ghost end = end_pos as int;
    proof {
        lemma_scan_bulks_end(s0, h as int, array_len as nat);
    }

    proof {
        lemma_crlf_skip(s0, 1, 0);
        lemma_crlf_from(s0, 0);
        assert(crlf_from(s0, 0) == crlf_from(s0, 1));
    }
    let header_len = match find_crlf(buf_as_slice(src)) {
        Some(x) => x,
        None => {
            assert(false);
            0
        },
    };
    assert(header_len == p + 1);
    buf_advance(src, header_len + 2);

    let mut frames: Vec<RespFrame> = Vec::new();
    let mut pos: usize = h;
    let mut k: usize = 0;
    while k < array_len
        invariant
            h == p + 3,
            n == s0.len(),
            h <= pos <= end <= s0.len(),
            k <= array_len,
            buf_contents(*src) == s0.skip(pos as int),
            scan_bulks(s0, pos as int, (array_len - k) as nat) == BulkScan::Done(end),
            bulk_items(s0, h as int, array_len as nat) == frames_view(frames@) + bulk_items(s0, pos as int, (array_len - k) as nat),
        decreases array_len - k,
    {
        assert(s0.skip(pos as int).skip(1) =~= s0.skip(pos + 1));
        buf_advance(src, 1);
        proof {
            lemma_crlf_from(s0.skip(pos + 1), 0);
        }
        let len_pos = match find_crlf(buf_as_slice(src)) {
            Some(x) => x,
            None => {
                assert(false);
                0
            },
        };
        let rest = buf_as_slice(src);
        let len_bytes = &rest[0..len_pos];
        assert(len_bytes@ =~= s0.subrange(pos + 1, pos + 1 + len_pos));
        let str_len = match parse_usize(len_bytes) {
            Some(x) => x,
            None => {
                assert(false);
                0
            },
        };
        assert(s0.skip(pos + 1).skip(len_pos + 2) =~= s0.skip(pos + len_pos + 3));
        buf_advance(src, len_pos + 2);
        let body = buf_split_to(src, str_len);
        assert(s0.skip(pos + len_pos + 3).take(str_len as int) =~= s0.subrange(pos + len_pos + 3, pos + len_pos + 3 + str_len));
        assert(s0.skip(pos + len_pos + 3).skip(str_len as int) =~= s0.skip(pos + len_pos + 3 + str_len));
        let zero_copy_text = buf_freeze(body);
        let ghost before = frames@;
        frames.push(RespFrame::BulkString(zero_copy_text));
        assert(frames@.drop_last() =~= before);
        assert(frame_view(frames@.last()) == FrameView::BulkString(s0.subrange(pos + len_pos + 3, pos + len_pos + 3 + str_len)));
        assert(s0.skip(pos + len_pos + 3 + str_len).skip(2) =~= s0.skip(pos + len_pos + 3 + str_len + 2));
        buf_advance(src, 2);
        let ghost item = FrameView::BulkString(s0.subrange(pos + len_pos + 3, pos + len_pos + 3 + str_len));
        assert(frames_view(frames@) == frames_view(before).push(item));
        assert(bulk_items(s0, pos as int, (array_len - k) as nat)
            == seq![item] + bulk_items(s0, pos + len_pos + 3 + str_len + 2, (array_len - k - 1) as nat));
        assert(frames_view(before) + (seq![item] + bulk_items(s0, pos + len_pos + 3 + str_len + 2, (array_len - k - 1) as nat))
            =~= frames_view(frames@) + bulk_items(s0, pos + len_pos + 3 + str_len + 2, (array_len - k - 1) as nat));
        proof {
            lemma_scan_bulks_end(s0, pos + len_pos + 3 + str_len + 2, (array_len - k - 1) as nat);
        }
        pos = pos + len_pos + 3 + str_len + 2;
        k = k + 1;
    }
    assert(frames_view(frames@) + bulk_items(s0, pos as int, 0) =~= frames_view(frames@));
    Ok(Some(RespFrame::Array(frames)))
}

/// Reads one frame from the front of `src`, removing its bytes; leaves `src`
/// unchanged when the frame is not all there yet or breaks the protocol.
fn parse_frame(src: &mut BytesMut) -> (r: Result<Option<RespFrame>, RespError>)
    requires
        !(decode_spec(buf_contents(*old(src))) is LengthOverflow),
    ensures
        decodes_as(buf_contents(*old(src)), buf_contents(*final(src)), r),
{
    let ghost s0 = buf_contents(*src);
    let s = buf_as_slice(src);
    let n = s.len();
    if n == 0 {
        return Ok(None);
    }
    let tag = s[0];
    assert(s@.skip(1) =~= s0.skip(1));
    if tag == 43u8 {
        match crlf_after(s, 1) {
            None => Ok(None),
            Some(p) => {
                proof { lemma_crlf_from(s0.skip(1), 0); }
                let text_bytes = &s[1..1 + p];
                assert(text_bytes@ =~= s0.skip(1).take(p as int));
                let text = lossy_string(text_bytes);
                buf_advance(src, p + 3);
                Ok(Some(RespFrame::SimpleString(text)))
            },
        }
    } else if tag == 58u8 {
        match crlf_after(s, 1) {
            None => Ok(None),
            Some(p) => {
                proof { lemma_crlf_from(s0.skip(1), 0); }
                let num_bytes = &s[1..1 + p];
                assert(num_bytes@ =~= s0.skip(1).take(p as int));
                match parse_i64(num_bytes) {
                    None => Err(invalid("Invalid Integer")),
                    Some(number) => {
                        buf_advance(src, p + 3);
                        Ok(Some(RespFrame::Integer(number)))
                    },
                }
            },
        }
    } else if tag == 42u8 {
        match crlf_after(s, 1) {
            None => Ok(None),
            Some(p) => {
                proof { lemma_crlf_from(s0.skip(1), 0); }
                let num_bytes = &s[1..1 + p];
                assert(num_bytes@ =~= s0.skip(1).take(p as int));
                match parse_usize(num_bytes) {
                    None => Err(invalid("Invalid Array Len")),
                    Some(array_len) => parse_array(src, p, array_len),
                }
            },
        }
    } else {
        Err(invalid("Invalid Protocol"))
    }
}


/// Whether the front of `s` is an array one of whose bulk strings announces a
/// length that overflows `usize` once its line end is added: the one input the
/// decoder does not accept.
fn announces_oversized_bulk(s: &[u8]) -> (r: bool)
    ensures
        r == (decode_spec(s@) is LengthOverflow),
{
    let n = s.len();
    if n == 0 || s[0] != 42u8 {
        return false;
    }
    match crlf_after(s, 1) {
        None => false,
        Some(p) => {
            proof { lemma_crlf_from(s@.skip(1), 0); }
            let num_bytes = &s[1..1 + p];
            assert(num_bytes@ =~= s@.skip(1).take(p as int));
            match parse_usize(num_bytes) {
                None => false,
                Some(array_len) => match scan_array(s, p + 3, array_len) {
                    ArrayScan::LengthOverflow => true,
                    _ => false,
                },
            }
        },
    }
}

/// The codec that turns the byte stream of a connection into frames and
/// frames back into bytes.
#[derive(Debug)]
pub struct RespCodec;

impl RespCodec {
    /// Takes the next whole frame off the front of `src`, or `None` while it
    /// is incomplete.
    pub fn decode(&mut self, src: &mut BytesMut) -> (r: Result<Option<RespFrame>, RespError>)
        requires
            !(decode_spec(buf_contents(*old(src))) is LengthOverflow),
        ensures
            decodes_as(buf_contents(*old(src)), buf_contents(*final(src)), r),
    {
        parse_frame(src)
    }

    /// `decode`, on every input: `None` where a bulk string announces a length
    /// that overflows `usize` (the buffer is then left as it was).
    pub fn decode_checked(&mut self, src: &mut BytesMut) -> (r: Option<Result<Option<RespFrame>, RespError>>)
        ensures
            match r {
                None => decode_spec(buf_contents(*old(src))) is LengthOverflow
                    && buf_contents(*final(src)) == buf_contents(*old(src)),
                Some(res) => decodes_as(buf_contents(*old(src)), buf_contents(*final(src)), res),
            },
    {
        if announces_oversized_bulk(buf_as_slice(src)) {
            None
        } else {
            Some(self.decode(src))
        }
    }

    /// `encode`, on every input: `false`, with `dst` left as it was, where
    /// the buffer would outgrow `isize::MAX` bytes.
    pub fn encode_checked(&mut self, item: RespFrame, dst: &mut BytesMut) -> (r: bool)
        ensures
            r == (buf_contents(*old(dst)).len() + encoding(item@).len() <= isize::MAX),
            r ==> buf_contents(*final(dst)) == buf_contents(*old(dst)) + encoding(item@),
            !r ==> buf_contents(*final(dst)) == buf_contents(*old(dst)),
    {
        item.encode_checked(dst)
    }

    /// Appends the encoding of `item` to `dst`.
    pub fn encode(&mut self, item: RespFrame, dst: &mut BytesMut) -> (r: Result<(), RespError>)
        requires
            buf_contents(*old(dst)).len() + encoding(item@).len() <= isize::MAX,
        ensures
            r is Ok,
            buf_contents(*final(dst)) == buf_contents(*old(dst)) + encoding(item@),
    {
        item.encode(dst);
        Ok(())
    }
}

} // verus!
