//! Decoding a stream, and replaying an append-only file, do not depend on
//! how the bytes are split: reading them in chunks, and decoding after each
//! chunk, yields the same frames, the same store and the same bytes left as
//! reading them all at once.

use vstd::prelude::*;
use crate::frame::{
    FrameView, Decoded, BulkScan, decode_spec, scan_bulks, bulk_items, crlf_from, crlf_pos,
    lemma_crlf_from, lemma_scan_bulks_end,
};
use crate::store::Slot;
use crate::db::{replay_spec, replay_command, ReplayEndView};

verus! {

pub proof fn lemma_crlf_extend(s: Seq<u8>, t: Seq<u8>, i: int)
    requires
        0 <= i,
        crlf_from(s, i) is Some,
    ensures
        crlf_from(s + t, i) == crlf_from(s, i),
    decreases s.len() - i,
{
    if i + 1 < s.len() && !(s[i] == 13u8 && s[i + 1] == 10u8) {
        lemma_crlf_extend(s, t, i + 1);
    }
}

pub proof fn lemma_scan_extend(s: Seq<u8>, t: Seq<u8>, pos: int, count: nat)
    requires
        0 <= pos <= s.len(),
        !(scan_bulks(s, pos, count) is Incomplete),
    ensures
        scan_bulks(s + t, pos, count) == scan_bulks(s, pos, count),
        scan_bulks(s, pos, count) is Done ==> bulk_items(s + t, pos, count) == bulk_items(s, pos, count),
    decreases count,
{
    if count > 0 {
        let u = s + t;
        assert(pos < s.len());
        assert(u[pos] == s[pos]);
        if s[pos] == 36u8 {
            let a = s.skip(pos + 1);
            assert(u.skip(pos + 1) =~= a + t);
            lemma_crlf_from(a, 0);
            let q = crlf_pos(a)->Some_0;
            lemma_crlf_extend(a, t, 0);
            assert(u.subrange(pos + 1, pos + 1 + q) =~= s.subrange(pos + 1, pos + 1 + q));
            let next = pos + q + 3;
            match crate::text::usize_text(s.subrange(pos + 1, pos + 1 + q)) {
                None => {},
                Some(len) => {
                    if len + 2 <= usize::MAX && s.len() - next >= len + 2 {
                        assert(u.subrange(next, next + len) =~= s.subrange(next, next + len));
                        lemma_scan_extend(s, t, next + len + 2, (count - 1) as nat);
                    }
                },
            }
        }
    }
}

/// A frame, an error or an oversized length found at the front of `s` is
/// found the same whatever follows `s`.
pub proof fn lemma_decode_extend(s: Seq<u8>, t: Seq<u8>)
    requires
        !(decode_spec(s) is Incomplete),
    ensures
        decode_spec(s + t) == decode_spec(s),
{
    let u = s + t;
    assert(s.len() > 0);
    assert(u[0] == s[0]);
    let rest = s.skip(1);
    assert(u.skip(1) =~= rest + t);
    if s[0] == 43u8 || s[0] == 58u8 || s[0] == 42u8 {
        lemma_crlf_from(rest, 0);
        let p = crlf_pos(rest)->Some_0;
        lemma_crlf_extend(rest, t, 0);
        assert((rest + t).take(p) =~= rest.take(p));
        if s[0] == 42u8 {
            match crate::text::usize_text(rest.take(p)) {
                None => {},
                Some(n) => {
                    lemma_scan_extend(s, t, p + 3, n);
                },
            }
        }
    }
}

/// A whole frame takes at least one byte and no more than there are.
pub proof fn lemma_decode_complete_len(s: Seq<u8>)
    ensures
        decode_spec(s) matches Decoded::Complete(_, n) ==> 0 < n <= s.len(),
{
    if s.len() > 0 && (s[0] == 43u8 || s[0] == 58u8 || s[0] == 42u8) {
        let rest = s.skip(1);
        lemma_crlf_from(rest, 0);
        if s[0] == 42u8 {
            if let Some(p) = crlf_pos(rest) {
                if let Some(n) = crate::text::usize_text(rest.take(p)) {
                    lemma_scan_bulks_end(s, p + 3, n);
                }
            }
        }
    }
}

/// Decoding the front of `s` frame after frame: the frames, the bytes left,
/// and what stopped it.
pub open spec fn drain(s: Seq<u8>) -> (Seq<FrameView>, Seq<u8>, Decoded)
    decreases s.len(),
{
    match decode_spec(s) {
        Decoded::Complete(f, n) => if 0 < n <= s.len() {
            let r = drain(s.skip(n));
            (seq![f] + r.0, r.1, r.2)
        } else {
            (Seq::empty(), s, decode_spec(s))
        },
        _ => (Seq::empty(), s, decode_spec(s)),
    }
}

/// Reading `chunks` one after the other into a buffer that holds `buf`, and
/// decoding all it can after each: the frames, the bytes left, and what
/// stopped it.
pub open spec fn feed(buf: Seq<u8>, chunks: Seq<Seq<u8>>) -> (Seq<FrameView>, Seq<u8>, Decoded)
    decreases chunks.len(),
{
    if chunks.len() == 0 {
        (Seq::empty(), buf, Decoded::Incomplete)
    } else {
        let d = drain(buf + chunks[0]);
        if d.2 is Incomplete {
            let r = feed(d.1, chunks.drop_first());
            (d.0 + r.0, r.1, r.2)
        } else {
            d
        }
    }
}

pub proof fn lemma_drain_waits(s: Seq<u8>)
    ensures
        drain(s).2 is Incomplete ==> decode_spec(drain(s).1) is Incomplete,
        drain(s).2 == decode_spec(drain(s).1),
    decreases s.len(),
{
    lemma_decode_complete_len(s);
    if let Decoded::Complete(f, n) = decode_spec(s) {
        lemma_drain_waits(s.skip(n));
    }
}

/// Once decoding stops at something other than a wait, more bytes change
/// nothing.
pub proof fn lemma_drain_stuck(s: Seq<u8>, t: Seq<u8>)
    requires
        !(drain(s).2 is Incomplete),
    ensures
        drain(s + t).0 == drain(s).0,
        drain(s + t).2 == drain(s).2,
    decreases s.len(),
{
    lemma_decode_complete_len(s);
    lemma_decode_extend(s, t);
    if let Decoded::Complete(f, n) = decode_spec(s) {
        assert((s + t).skip(n) =~= s.skip(n) + t);
        lemma_drain_stuck(s.skip(n), t);
    }
}

/// Decoding `s` then more bytes `t`: the frames of `s`, then those of what
/// `s` left followed by `t`.
pub proof fn lemma_drain_append(s: Seq<u8>, t: Seq<u8>)
    requires
        drain(s).2 is Incomplete,
    ensures
        ({
            let d = drain(s);
            let r = drain(d.1 + t);
            drain(s + t) == (d.0 + r.0, r.1, r.2)
        }),
    decreases s.len(),
{
    lemma_decode_complete_len(s);
    match decode_spec(s) {
        Decoded::Complete(f, n) => {
            lemma_decode_extend(s, t);
            assert((s + t).skip(n) =~= s.skip(n) + t);
            lemma_drain_append(s.skip(n), t);
            let d2 = drain(s.skip(n));
            let r = drain(d2.1 + t);
            assert(seq![f] + (d2.0 + r.0) =~= (seq![f] + d2.0) + r.0);
        },
        _ => {
            assert(Seq::<FrameView>::empty() + drain(s + t).0 =~= drain(s + t).0);
        },
    }
}

/// However the stream is cut into chunks, decoding after each chunk yields
/// the frames, and leaves the bytes, that decoding it all at once does, so
/// long as decoding it all at once meets no error.
pub proof fn lemma_split_stream_decodes_alike(chunks: Seq<Seq<u8>>)
    requires
        drain(chunks.flatten()).2 is Incomplete,
    ensures
        feed(Seq::empty(), chunks) == drain(chunks.flatten()),
{
    assert(Seq::<u8>::empty() + chunks.flatten() =~= chunks.flatten());
    lemma_feed(Seq::empty(), chunks);
}

pub proof fn lemma_feed(buf: Seq<u8>, chunks: Seq<Seq<u8>>)
    requires
        decode_spec(buf) is Incomplete,
        drain(buf + chunks.flatten()).2 is Incomplete,
    ensures
        feed(buf, chunks) == drain(buf + chunks.flatten()),
    decreases chunks.len(),
{
    if chunks.len() == 0 {
        assert(buf + chunks.flatten() =~= buf);
    } else {
        let c = chunks[0];
        let rest = chunks.drop_first();
        assert(buf + chunks.flatten() =~= (buf + c) + rest.flatten());
        if !(drain(buf + c).2 is Incomplete) {
            lemma_drain_stuck(buf + c, rest.flatten());
        }
        let d = drain(buf + c);
        lemma_drain_append(buf + c, rest.flatten());
        lemma_drain_waits(buf + c);
        lemma_feed(d.1, rest);
        let r = feed(d.1, rest);
        assert(d.0 + r.0 == drain(buf + chunks.flatten()).0);
    }
}

/// Replaying `chunks` one after the other into a buffer that holds `buf`,
/// replaying all it can after each, as a file is read: the store, the bytes
/// left, and what stopped the replay after the last chunk. A replay that
/// stops at a bad frame goes on with the next chunk; one that meets an
/// oversized bulk length ends there.
pub open spec fn replay_chunks(buf: Seq<u8>, m: Map<Seq<char>, Slot>, chunks: Seq<Seq<u8>>, now: int) -> (Map<Seq<char>, Slot>, Seq<u8>, ReplayEndView)
    decreases chunks.len(),
{
    if chunks.len() == 0 {
        (m, buf, ReplayEndView::NeedMore)
    } else {
        let s = buf + chunks[0];
        let r = replay_spec(s, m, now);
        if chunks.len() == 1 || r.2 is Oversized {
            (r.0, s.skip(r.1), r.2)
        } else {
            replay_chunks(s.skip(r.1), r.0, chunks.drop_first(), now)
        }
    }
}

pub proof fn lemma_replay_bounds(s: Seq<u8>, m: Map<Seq<char>, Slot>, now: int)
    ensures
        0 <= replay_spec(s, m, now).1 <= s.len(),
        replay_spec(s, m, now).2 is NeedMore <==> decode_spec(s.skip(replay_spec(s, m, now).1)) is Incomplete,
        !(replay_spec(s, m, now).2 is OtherError),
        replay_spec(s, m, now).2 matches ReplayEndView::Invalid(msg) ==> decode_spec(s.skip(replay_spec(s, m, now).1)) == Decoded::Invalid(msg),
    decreases s.len(),
{
    lemma_decode_complete_len(s);
    if let Decoded::Complete(f, n) = decode_spec(s) {
        let m2 = replay_command(m, crate::cmd::command_spec(f), now);
        lemma_replay_bounds(s.skip(n), m2, now);
        assert(s.skip(n).skip(replay_spec(s.skip(n), m2, now).1) =~= s.skip(replay_spec(s, m, now).1));
    } else {
        assert(s.skip(0) =~= s);
    }
}

pub proof fn lemma_replay_stuck(s: Seq<u8>, t: Seq<u8>, m: Map<Seq<char>, Slot>, now: int)
    requires
        !(replay_spec(s, m, now).2 is NeedMore),
    ensures
        replay_spec(s + t, m, now) == replay_spec(s, m, now),
    decreases s.len(),
{
    lemma_decode_complete_len(s);
    lemma_decode_extend(s, t);
    if let Decoded::Complete(f, n) = decode_spec(s) {
        assert((s + t).skip(n) =~= s.skip(n) + t);
        lemma_replay_stuck(s.skip(n), t, replay_command(m, crate::cmd::command_spec(f), now), now);
    }
}

#[verifier::rlimit(80)]
pub proof fn lemma_replay_append(s: Seq<u8>, t: Seq<u8>, m: Map<Seq<char>, Slot>, now: int)
    requires
        replay_spec(s, m, now).2 is NeedMore,
    ensures
        ({
            let a = replay_spec(s, m, now);
            let b = replay_spec(s.skip(a.1) + t, a.0, now);
            replay_spec(s + t, m, now) == (b.0, a.1 + b.1, b.2)
        }),
    decreases s.len(),
{
    lemma_decode_complete_len(s);
    match decode_spec(s) {
        Decoded::Complete(f, n) => {
            lemma_decode_extend(s, t);
            assert((s + t).skip(n) =~= s.skip(n) + t);
            let m2 = replay_command(m, crate::cmd::command_spec(f), now);
            lemma_replay_append(s.skip(n), t, m2, now);
            lemma_replay_bounds(s.skip(n), m2, now);
            let a2 = replay_spec(s.skip(n), m2, now);
            assert(s.skip(n).skip(a2.1) =~= s.skip(n + a2.1));
        },
        _ => {
            assert(s.skip(0) =~= s);
        },
    }
}

pub proof fn lemma_skip_concat(s: Seq<u8>, f: Seq<u8>, a: int, b: int)
    requires
        0 <= a <= s.len(),
        0 <= b <= s.len() - a + f.len(),
    ensures
        (s.skip(a) + f).skip(b) == (s + f).skip(a + b),
{
    assert((s.skip(a) + f).skip(b) =~= (s + f).skip(a + b));
}

#[verifier::rlimit(80)]
pub proof fn lemma_replay_feed(buf: Seq<u8>, m: Map<Seq<char>, Slot>, chunks: Seq<Seq<u8>>, now: int)
    requires
        chunks.len() > 0,
        decode_spec(buf) is Incomplete || decode_spec(buf) is Invalid,
        !(replay_spec(buf + chunks.flatten(), m, now).2 is Oversized),
    ensures
        ({
            let whole = buf + chunks.flatten();
            let r = replay_spec(whole, m, now);
            replay_chunks(buf, m, chunks, now) == (r.0, whole.skip(r.1), r.2)
        }),
    decreases chunks.len(),
{
    let c = chunks[0];
    let rest = chunks.drop_first();
    let f = rest.flatten();
    let s = buf + c;
    let whole = s + f;
    assert(buf + chunks.flatten() =~= whole);
    let a = replay_spec(s, m, now);
    lemma_replay_bounds(s, m, now);
    if rest.len() == 0 {
        assert(whole =~= s);
    } else if a.2 is NeedMore {
        lemma_replay_append(s, f, m, now);
        let b = replay_spec(s.skip(a.1) + f, a.0, now);
        lemma_replay_bounds(s.skip(a.1) + f, a.0, now);
        lemma_replay_feed(s.skip(a.1), a.0, rest, now);
        lemma_skip_concat(s, f, a.1, b.1);
    } else {
        lemma_replay_stuck(s, f, m, now);
        assert(a.2 is Invalid);
        let t = s.skip(a.1);
        assert(decode_spec(t) is Invalid);
        lemma_decode_extend(t, f);
        assert(replay_spec(t + f, a.0, now) == (a.0, 0int, a.2));
        lemma_replay_feed(t, a.0, rest, now);
        lemma_skip_concat(s, f, a.1, 0);
        assert((t + f).skip(0) =~= t + f);
    }
}

pub proof fn lemma_replay_incomplete(s: Seq<u8>, m: Map<Seq<char>, Slot>, now: int)
    requires
        decode_spec(s) is Incomplete,
    ensures
        replay_spec(s, m, now) == (m, 0int, ReplayEndView::NeedMore),
{
}

/// However the file is cut into reads, replaying after each read rebuilds the
/// store, and leaves the bytes, that replaying it all at once does, and stops
/// where it does: at the end of the bytes, or at a bad frame that no later
/// read gets past; a frame that straddles two reads is applied once. Left
/// out is a file that announces an oversized bulk length, where replaying
/// cannot go on.
pub proof fn lemma_split_file_replays_alike(m: Map<Seq<char>, Slot>, chunks: Seq<Seq<u8>>, now: int)
    requires
        !(replay_spec(chunks.flatten(), m, now).2 is Oversized),
    ensures
        ({
            let r = replay_spec(chunks.flatten(), m, now);
            replay_chunks(Seq::empty(), m, chunks, now) == (r.0, chunks.flatten().skip(r.1), r.2)
        }),
{
    assert(Seq::<u8>::empty() + chunks.flatten() =~= chunks.flatten());
    assert(decode_spec(Seq::<u8>::empty()) is Incomplete);
    if chunks.len() == 0 {
        assert(chunks.flatten() =~= Seq::<u8>::empty());
        assert(Seq::<u8>::empty().skip(0) =~= Seq::<u8>::empty());
    } else {
        lemma_replay_feed(Seq::empty(), m, chunks, now);
    }
}

} // verus!
