//! The append-only file rebuilds the store: what the store logs for each
//! `SET` reads back, through the decoder and the command parser, as the same
//! `SET`; replaying a log rebuilds the store that the logged commands built;
//! replaying a compacted file rebuilds every key it kept.

use vstd::prelude::*;
use vstd::utf8::{encode_utf8, decode_utf8, valid_utf8, is_ascii_chars, encode_utf8_valid_utf8,
    encode_utf8_decode_utf8, is_ascii_chars_encode_utf8};
use crate::frame::{FrameView, Decoded, encoding, encodings, decode_spec};
use crate::codec_laws::{lemma_decode_encoded_array, bulk_array, small_bulk, lemma_decimal_text,
    lemma_decimal_u64_len, lemma_encodings_first};
use crate::text::{decimal, lossy_text, u64_text};
use crate::cmd::{CommandView, command_spec, string_arg, upper_text, ascii_upper, verb_of};
use crate::store::{Slot, max_instant, step, log_frame, set_word, ex_word, deadline, rewrites, rewrite_frame, rewrite_keys, compaction_time};
use crate::db::{replay_spec, replay_command, ReplayEndView};

verus! {

/// An ASCII word, as bytes, reads back as itself.
pub proof fn lemma_ascii_bytes(w: Seq<char>, b: Seq<u8>)
    requires
        is_ascii_chars(w),
        b.len() == w.len(),
        forall|i: int| 0 <= i < b.len() ==> b[i] == w[i] as u8,
    ensures
        valid_utf8(b),
        lossy_text(b) == w,
        encode_utf8(w) == b,
{
    is_ascii_chars_encode_utf8(w);
    assert(encode_utf8(w) =~= b);
    encode_utf8_valid_utf8(w);
    encode_utf8_decode_utf8(w);
}

pub proof fn lemma_upper_word(w: Seq<char>)
    requires
        is_ascii_chars(w),
        forall|i: int| 0 <= i < w.len() ==> !('a' <= #[trigger] w[i] && w[i] <= 'z'),
    ensures
        upper_text(w) == w,
{
    assert(ascii_upper(w) =~= w);
}

/// A key, as UTF-8 bytes, reads back as itself.
pub proof fn lemma_key_bytes(k: Seq<char>)
    ensures
        string_arg(FrameView::BulkString(encode_utf8(k))) == Ok::<Seq<char>, Seq<char>>(k),
{
    encode_utf8_valid_utf8(k);
    encode_utf8_decode_utf8(k);
}

/// The seconds of an expiry, as decimal bytes, read back as the number.
pub proof fn lemma_seconds_bytes(t: u64)
    ensures
        string_arg(FrameView::BulkString(decimal(t as int))) matches Ok(secs)
            && u64_text(encode_utf8(secs)) == Some(t as nat),
{
    let d = decimal(t as int);
    lemma_decimal_text(t as int);
    crate::codec_laws::lemma_digits_of(t as nat);
    let w = Seq::new(d.len(), |i: int| d[i] as char);
    assert forall|i: int| 0 <= i < w.len() implies '\0' <= #[trigger] w[i] && w[i] <= '\u{7f}' by {
        assert(48 <= d[i] <= 57);
    }
    assert forall|i: int| 0 <= i < d.len() implies d[i] == w[i] as u8 by {
        assert(48 <= d[i] <= 57);
    }
    lemma_ascii_bytes(w, d);
}

/// The command words: `SET` and `EX` read back as themselves, and differ
/// from the other command names.
pub proof fn lemma_words()
    ensures
        verb_of(FrameView::BulkString(set_word())) == Some("SET"@),
        string_arg(FrameView::BulkString(ex_word())) == Ok::<Seq<char>, Seq<char>>("EX"@),
        upper_text("EX"@) == "EX"@,
        "SET"@ != "GET"@,
{
    reveal_strlit("SET");
    reveal_strlit("EX");
    reveal_strlit("GET");
    lemma_ascii_bytes("SET"@, set_word());
    lemma_upper_word("SET"@);
    lemma_ascii_bytes("EX"@, ex_word());
    lemma_upper_word("EX"@);
    assert("SET"@[0] != "GET"@[0]);
}

/// What the store logs for a `SET` parses back as that `SET`.
#[verifier::spinoff_prover]
#[verifier::rlimit(40)]
pub proof fn lemma_log_frame_command(k: Seq<char>, v: FrameView, t: Option<u64>)
    ensures
        command_spec(log_frame(k, v, t)) == Ok::<CommandView, Seq<char>>(CommandView::SetKey { key: k, value: v, time: t }),
{
    lemma_words();
    lemma_key_bytes(k);
    match t {
        Some(secs) => lemma_seconds_bytes(secs),
        None => {},
    }
}

/// A `SET` whose record the decoder can read back: the value is a bulk
/// string and the key and value lengths plus their line ends fit in `usize`.
pub open spec fn loggable(c: CommandView) -> bool {
    c matches CommandView::SetKey { key, value, time } && small_bulk(value) && encode_utf8(key).len() + 2 <= usize::MAX
}

pub proof fn lemma_log_frame_bulks(k: Seq<char>, v: FrameView, t: Option<u64>)
    requires
        small_bulk(v),
        encode_utf8(k).len() + 2 <= usize::MAX,
    ensures
        log_frame(k, v, t) matches FrameView::Array(items) && bulk_array(items),
{
    match t {
        Some(secs) => lemma_decimal_u64_len(secs),
        None => {},
    }
}

/// Replaying a `SET` at `now` sets its key to its value; with `EX t` the key
/// expires exactly `t` seconds after `now`, whatever `t` is, and without
/// `EX` it never expires.
pub proof fn lemma_replay_set_deadline(m: Map<Seq<char>, Slot>, k: Seq<char>, v: FrameView, t: Option<u64>, now: int)
    requires
        0 <= now <= max_instant(),
    ensures
        ({
            let r = replay_command(m, Ok(CommandView::SetKey { key: k, value: v, time: t }), now);
            &&& r.contains_key(k)
            &&& r[k].value == v
            &&& (t matches Some(secs) ==> r[k].expires_at matches Some(d) && d == now + secs * 1_000_000_000)
            &&& (t is None ==> r[k].expires_at is None)
        }),
{
    reveal(replay_command);
}

/// A record, followed by anything, is decoded and replayed as its `SET`.
pub proof fn lemma_replay_record(k: Seq<char>, v: FrameView, t: Option<u64>, rest: Seq<u8>, m: Map<Seq<char>, Slot>, now: int)
    requires
        small_bulk(v),
        encode_utf8(k).len() + 2 <= usize::MAX,
    ensures
        replay_spec(encoding(log_frame(k, v, t)) + rest, m, now) == ({
            let r = replay_spec(rest, m.insert(k, Slot { value: v, expires_at: deadline(now, t) }), now);
            (r.0, encoding(log_frame(k, v, t)).len() + r.1, r.2)
        }),
{
    reveal(replay_command);
    let f = log_frame(k, v, t);
    lemma_log_frame_bulks(k, v, t);
    let items = f->Array_0;
    lemma_decode_encoded_array(items, rest);
    lemma_log_frame_command(k, v, t);
    let s = encoding(f) + rest;
    assert(s.skip(encoding(f).len() as int) =~= rest);
}

/// What a run of commands does to a store, and the log it writes.
pub open spec fn history(m: Map<Seq<char>, Slot>, cs: Seq<CommandView>, now: int) -> (Map<Seq<char>, Slot>, Seq<u8>)
    decreases cs.len(),
{
    if cs.len() == 0 {
        (m, Seq::empty())
    } else {
        let st = step(m, cs[0], now);
        let h = history(st.store, cs.drop_first(), now);
        (h.0, match st.log {
            Some(f) => encoding(f) + h.1,
            None => h.1,
        })
    }
}

/// Replaying the log of a run of `SET`s rebuilds the store they built: all
/// of the log is consumed and the replay then waits for more.
pub proof fn lemma_log_replays(m: Map<Seq<char>, Slot>, cs: Seq<CommandView>, now: int)
    requires
        forall|i: int| 0 <= i < cs.len() ==> loggable(#[trigger] cs[i]),
    ensures
        replay_spec(history(m, cs, now).1, m, now)
            == (history(m, cs, now).0, history(m, cs, now).1.len() as int, ReplayEndView::NeedMore),
    decreases cs.len(),
{
    if cs.len() == 0 {
        assert(decode_spec(Seq::<u8>::empty()) == Decoded::Incomplete);
    } else {
        let c = cs[0];
        assert(loggable(c));
        let k = c->SetKey_key;
        let v = c->SetKey_value;
        let t = c->SetKey_time;
        let st = step(m, c, now);
        assert forall|i: int| 0 <= i < cs.drop_first().len() implies loggable(#[trigger] cs.drop_first()[i]) by {
            assert(cs.drop_first()[i] == cs[i + 1]);
        }
        lemma_log_replays(st.store, cs.drop_first(), now);
        lemma_replay_record(k, v, t, history(st.store, cs.drop_first(), now).1, m, now);
    }
}


/// What replaying a compacted file sets a kept key to: its value, with its
/// remaining whole seconds counted from the time of the replay.
pub open spec fn restored_slot(m: Map<Seq<char>, Slot>, k: Seq<char>, now1: int, now2: int) -> Slot {
    Slot { value: m[k].value, expires_at: deadline(now2, compaction_time(m[k], now1)) }
}

/// The store that replaying a compaction of `m` taken at `now1` rebuilds at
/// `now2`.
pub open spec fn restored(m: Map<Seq<char>, Slot>, now1: int, now2: int) -> Map<Seq<char>, Slot> {
    Map::new(|k: Seq<char>| rewrite_keys(m, now1).contains(k), |k: Seq<char>| restored_slot(m, k, now1, now2))
}

pub open spec fn insert_restored(base: Map<Seq<char>, Slot>, m: Map<Seq<char>, Slot>, ks: Seq<Seq<char>>, now1: int, now2: int) -> Map<Seq<char>, Slot>
    decreases ks.len(),
{
    if ks.len() == 0 {
        base
    } else {
        insert_restored(base.insert(ks[0], restored_slot(m, ks[0], now1, now2)), m, ks.drop_first(), now1, now2)
    }
}

pub proof fn lemma_insert_restored(base: Map<Seq<char>, Slot>, m: Map<Seq<char>, Slot>, ks: Seq<Seq<char>>, now1: int, now2: int)
    ensures
        insert_restored(base, m, ks, now1, now2) == Map::new(
            |k: Seq<char>| base.contains_key(k) || ks.contains(k),
            |k: Seq<char>| if ks.contains(k) { restored_slot(m, k, now1, now2) } else { base[k] },
        ),
    decreases ks.len(),
{
    if ks.len() > 0 {
        let b2 = base.insert(ks[0], restored_slot(m, ks[0], now1, now2));
        lemma_insert_restored(b2, m, ks.drop_first(), now1, now2);
        assert forall|k: Seq<char>| ks.contains(k) <==> (k == ks[0] || ks.drop_first().contains(k)) by {
            if ks.contains(k) && k != ks[0] {
                let i = choose|i: int| 0 <= i < ks.len() && ks[i] == k;
                assert(ks.drop_first()[i - 1] == k);
            }
            if ks.drop_first().contains(k) {
                let i = choose|i: int| 0 <= i < ks.drop_first().len() && ks.drop_first()[i] == k;
                assert(ks[i + 1] == k);
            }
            if k == ks[0] {
                assert(ks[0] == k);
            }
        }
        assert(insert_restored(base, m, ks, now1, now2) =~= Map::new(
            |k: Seq<char>| base.contains_key(k) || ks.contains(k),
            |k: Seq<char>| if ks.contains(k) { restored_slot(m, k, now1, now2) } else { base[k] },
        ));
    } else {
        assert(insert_restored(base, m, ks, now1, now2) =~= Map::new(
            |k: Seq<char>| base.contains_key(k) || ks.contains(k),
            |k: Seq<char>| if ks.contains(k) { restored_slot(m, k, now1, now2) } else { base[k] },
        ));
    }
}

/// Whether every key of `ks` is in `m` and its record can be read back.
pub open spec fn loggable_keys(m: Map<Seq<char>, Slot>, ks: Seq<Seq<char>>) -> bool {
    forall|i: int| 0 <= i < ks.len() ==> m.contains_key(#[trigger] ks[i]) && small_bulk(m[ks[i]].value)
        && encode_utf8(ks[i]).len() + 2 <= usize::MAX
}

pub proof fn lemma_replay_rewritten(m: Map<Seq<char>, Slot>, ks: Seq<Seq<char>>, base: Map<Seq<char>, Slot>, now1: int, now2: int)
    requires
        loggable_keys(m, ks),
    ensures
        ({
            let bytes = encodings(ks.map_values(|k: Seq<char>| rewrite_frame(m, k, now1)));
            replay_spec(bytes, base, now2) == (insert_restored(base, m, ks, now1, now2), bytes.len() as int, ReplayEndView::NeedMore)
        }),
    decreases ks.len(),
{
    let frames = ks.map_values(|k: Seq<char>| rewrite_frame(m, k, now1));
    if ks.len() == 0 {
        assert(frames =~= Seq::<FrameView>::empty());
        assert(encodings(frames) =~= Seq::<u8>::empty());
        assert(decode_spec(Seq::<u8>::empty()) == Decoded::Incomplete);
    } else {
        let k = ks[0];
        let rest_ks = ks.drop_first();
        assert(frames.drop_first() =~= rest_ks.map_values(|k: Seq<char>| rewrite_frame(m, k, now1)));
        lemma_encodings_first(frames);
        assert forall|i: int| 0 <= i < rest_ks.len() implies m.contains_key(#[trigger] rest_ks[i]) && small_bulk(m[rest_ks[i]].value)
            && encode_utf8(rest_ks[i]).len() + 2 <= usize::MAX by {
            assert(rest_ks[i] == ks[i + 1]);
        }
        let b2 = base.insert(k, restored_slot(m, k, now1, now2));
        lemma_replay_rewritten(m, rest_ks, b2, now1, now2);
        assert(m.contains_key(ks[0]));
        lemma_replay_record(k, m[k].value, compaction_time(m[k], now1),
            encodings(rest_ks.map_values(|k: Seq<char>| rewrite_frame(m, k, now1))), base, now2);
    }
}

/// Replaying, at `now2`, the records that a compaction of `m` wrote at `now1`
/// rebuilds every key the compaction kept, with its value and its remaining
/// whole seconds, and nothing else; all of it is consumed.
pub proof fn lemma_compaction_replays(m: Map<Seq<char>, Slot>, now1: int, now2: int, frames: Seq<FrameView>)
    requires
        rewrites(m, now1, frames),
        forall|k: Seq<char>| rewrite_keys(m, now1).contains(k) ==> small_bulk(#[trigger] m[k].value)
            && encode_utf8(k).len() + 2 <= usize::MAX,
    ensures
        replay_spec(encodings(frames), Map::empty(), now2)
            == (restored(m, now1, now2), encodings(frames).len() as int, ReplayEndView::NeedMore),
{
    let ks = choose|ks: Seq<Seq<char>>| {
        &&& ks.no_duplicates()
        &&& ks.to_set() == rewrite_keys(m, now1)
        &&& frames == ks.map_values(|k: Seq<char>| rewrite_frame(m, k, now1))
    };
    assert forall|i: int| 0 <= i < ks.len() implies m.contains_key(#[trigger] ks[i]) && small_bulk(m[ks[i]].value)
        && encode_utf8(ks[i]).len() + 2 <= usize::MAX by {
        assert(ks.to_set().contains(ks[i]));
    }
    lemma_replay_rewritten(m, ks, Map::empty(), now1, now2);
    lemma_insert_restored(Map::empty(), m, ks, now1, now2);
    assert forall|k: Seq<char>| ks.contains(k) == rewrite_keys(m, now1).contains(k) by {
        assert(ks.to_set().contains(k) == ks.contains(k));
    }
    assert(insert_restored(Map::empty(), m, ks, now1, now2) =~= restored(m, now1, now2));
}

} // verus!
