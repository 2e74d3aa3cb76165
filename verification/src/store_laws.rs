//! What the store promises across commands.

use vstd::prelude::*;
use crate::frame::FrameView;
use crate::cmd::CommandView;
use crate::store::{Slot, step, expired, deadline, unexpired, max_instant, rewrites, rewrite_frame, log_frame};

verus! {

/// A `GET` before the deadline of a `SET` returns the value that was set and
/// leaves the store as the `SET` left it.
pub proof fn lemma_get_after_set(m: Map<Seq<char>, Slot>, k: Seq<char>, v: FrameView, t: Option<u64>, now1: int, now2: int)
    requires
        0 <= now1,
        t matches Some(secs) ==> now2 <= now1 + secs * 1_000_000_000 && now1 + secs * 1_000_000_000 <= u128::MAX,
    ensures
        ({
            let after_set = step(m, CommandView::SetKey { key: k, value: v, time: t }, now1).store;
            &&& step(after_set, CommandView::Get { key: k }, now2).reply == v
            &&& step(after_set, CommandView::Get { key: k }, now2).store == after_set
        }),
{
}

/// A `GET` never returns an expired value: it answers `Null` and drops the key.
pub proof fn lemma_get_never_stale(m: Map<Seq<char>, Slot>, k: Seq<char>, now: int)
    requires
        m.contains_key(k),
        expired(m[k], now),
    ensures
        step(m, CommandView::Get { key: k }, now).reply == FrameView::SimpleString("Null"@),
        !step(m, CommandView::Get { key: k }, now).store.contains_key(k),
{
}

/// A later `SET` of the same key wins.
pub proof fn lemma_set_overwrites(m: Map<Seq<char>, Slot>, k: Seq<char>, v1: FrameView, v2: FrameView, t1: Option<u64>, t2: Option<u64>, now: int)
    ensures
        step(step(m, CommandView::SetKey { key: k, value: v1, time: t1 }, now).store, CommandView::SetKey { key: k, value: v2, time: t2 }, now).store
            == step(m, CommandView::SetKey { key: k, value: v2, time: t2 }, now).store,
{
    assert(m.insert(k, Slot { value: v1, expires_at: deadline(now, t1) }).insert(k, Slot { value: v2, expires_at: deadline(now, t2) })
        =~= m.insert(k, Slot { value: v2, expires_at: deadline(now, t2) }));
}

/// `DEL` after `SET` removes the key and counts one removal; a second `DEL`
/// counts none.
pub proof fn lemma_del_after_set(m: Map<Seq<char>, Slot>, k: Seq<char>, v: FrameView, t: Option<u64>, now: int)
    ensures
        ({
            let s1 = step(m, CommandView::SetKey { key: k, value: v, time: t }, now).store;
            let d1 = step(s1, CommandView::Del { key: k }, now);
            let d2 = step(d1.store, CommandView::Del { key: k }, now);
            &&& d1.reply == FrameView::Integer(1)
            &&& !d1.store.contains_key(k)
            &&& d2.reply == FrameView::Integer(0)
        }),
{
}

/// `EXIST` changes nothing and answers one exactly when the key is held.
pub proof fn lemma_exist_reads_only(m: Map<Seq<char>, Slot>, k: Seq<char>, now: int)
    ensures
        step(m, CommandView::Exist { key: k }, now).store == m,
        step(m, CommandView::Exist { key: k }, now).reply == FrameView::Integer(if m.contains_key(k) { 1 } else { 0 }),
{
}

/// A purge keeps exactly the keys that have not expired, unchanged.
pub proof fn lemma_purge_keeps_live(m: Map<Seq<char>, Slot>, now: int, k: Seq<char>)
    ensures
        unexpired(m, now).contains_key(k) <==> (m.contains_key(k) && !expired(m[k], now)),
        unexpired(m, now).contains_key(k) ==> unexpired(m, now)[k] == m[k],
{
}

/// `SET key value EX t` at `now` makes the key expire exactly `t` seconds
/// later, whatever `t` is: its deadline is `now + t * 10^9` nanoseconds.
pub proof fn lemma_set_ex_deadline(m: Map<Seq<char>, Slot>, k: Seq<char>, v: FrameView, t: u64, now: int)
    requires
        0 <= now <= max_instant(),
    ensures
        ({
            let s = step(m, CommandView::SetKey { key: k, value: v, time: Some(t) }, now).store;
            &&& s.contains_key(k)
            &&& s[k].value == v
            &&& s[k].expires_at matches Some(d) && d == now + t * 1_000_000_000
        }),
{
}

/// `SET key value` without `EX` makes a key that never expires.
pub proof fn lemma_set_without_ex_never_expires(m: Map<Seq<char>, Slot>, k: Seq<char>, v: FrameView, now: int)
    ensures
        ({
            let s = step(m, CommandView::SetKey { key: k, value: v, time: None }, now).store;
            &&& s.contains_key(k)
            &&& s[k].value == v
            &&& s[k].expires_at is None
        }),
{
}

/// After `SET key value EX t` at `now1`, a `GET` at any `now2` later than
/// `t` seconds after `now1` answers `Null` and drops the key.
pub proof fn lemma_get_after_expiry(m: Map<Seq<char>, Slot>, k: Seq<char>, v: FrameView, t: u64, now1: int, now2: int)
    requires
        0 <= now1 <= max_instant(),
        now2 > now1 + t * 1_000_000_000,
    ensures
        ({
            let after_set = step(m, CommandView::SetKey { key: k, value: v, time: Some(t) }, now1).store;
            &&& step(after_set, CommandView::Get { key: k }, now2).reply == FrameView::SimpleString("Null"@)
            &&& !step(after_set, CommandView::Get { key: k }, now2).store.contains_key(k)
        }),
{
}

/// `DEL` removes its key whatever its deadline, touches no other key, and
/// answers 1 exactly when the key was held, expired or not; a second `DEL`
/// of the same key answers 0.
pub proof fn lemma_del_removes(m: Map<Seq<char>, Slot>, k: Seq<char>, now: int)
    ensures
        !step(m, CommandView::Del { key: k }, now).store.contains_key(k),
        forall|x: Seq<char>| x != k ==> (#[trigger] step(m, CommandView::Del { key: k }, now).store.contains_key(x)) == m.contains_key(x),
        forall|x: Seq<char>| x != k && m.contains_key(x) ==> #[trigger] step(m, CommandView::Del { key: k }, now).store[x] == m[x],
        step(m, CommandView::Del { key: k }, now).reply == FrameView::Integer(if m.contains_key(k) { 1 } else { 0 }),
        step(step(m, CommandView::Del { key: k }, now).store, CommandView::Del { key: k }, now).reply == FrameView::Integer(0),
{
}

/// Whether a key is still live for a compaction at `now`: it never expires,
/// or its deadline lies after `now`.
pub open spec fn live_at(m: Map<Seq<char>, Slot>, k: Seq<char>, now: int) -> bool {
    &&& m.contains_key(k)
    &&& (m[k].expires_at matches Some(d) ==> d > now)
}

/// A compaction at `now` writes a record for every live key, and nothing
/// else: every record it writes is that of a live key.
pub proof fn lemma_compaction_writes_live_keys(m: Map<Seq<char>, Slot>, now: int, frames: Seq<FrameView>)
    requires
        rewrites(m, now, frames),
    ensures
        forall|k: Seq<char>| #[trigger] live_at(m, k, now) ==> exists|i: int| 0 <= i < frames.len() && frames[i] == rewrite_frame(m, k, now),
        forall|i: int| #![trigger frames[i]] 0 <= i < frames.len() ==> exists|k: Seq<char>| #![trigger rewrite_frame(m, k, now)] live_at(m, k, now) && frames[i] == rewrite_frame(m, k, now),
{
    let ks = choose|ks: Seq<Seq<char>>| {
        &&& ks.no_duplicates()
        &&& ks.to_set() == crate::store::rewrite_keys(m, now)
        &&& frames == ks.map_values(|k: Seq<char>| rewrite_frame(m, k, now))
    };
    assert forall|k: Seq<char>| #[trigger] live_at(m, k, now) implies exists|i: int| 0 <= i < frames.len() && frames[i] == rewrite_frame(m, k, now) by {
        assert(crate::store::rewrite_keys(m, now).contains(k));
        assert(ks.to_set().contains(k));
        let j = choose|j: int| 0 <= j < ks.len() && ks[j] == k;
        assert(frames[j] == rewrite_frame(m, k, now));
    }
    assert forall|i: int| #![trigger frames[i]] 0 <= i < frames.len() implies exists|k: Seq<char>| #![trigger rewrite_frame(m, k, now)] live_at(m, k, now) && frames[i] == rewrite_frame(m, k, now) by {
        let k = ks[i];
        assert(ks.to_set().contains(k));
        assert(crate::store::rewrite_keys(m, now).contains(k));
        assert(live_at(m, k, now));
        assert(frames[i] == rewrite_frame(m, k, now));
    }
}

/// The record a compaction at `now` writes for a live key is its `SET`, with
/// the whole seconds left before its deadline, or without `EX` where it never
/// expires.
pub proof fn lemma_compaction_record(m: Map<Seq<char>, Slot>, k: Seq<char>, now: int)
    requires
        live_at(m, k, now),
        m[k].expires_at matches Some(d) ==> (d - now) / 1_000_000_000 <= u64::MAX,
    ensures
        m[k].expires_at is None ==> rewrite_frame(m, k, now) == log_frame(k, m[k].value, None),
        m[k].expires_at matches Some(d) ==> exists|s: u64| s == (d - now) / 1_000_000_000 && rewrite_frame(m, k, now) == log_frame(k, m[k].value, Some(s)),
{
    if let Some(d) = m[k].expires_at {
        let s = ((d - now) / 1_000_000_000) as u64;
        assert(rewrite_frame(m, k, now) == log_frame(k, m[k].value, Some(s)));
    }
}

/// A purge at `now` keeps a key exactly when it never expires or its
/// deadline is not before `now`, and keeps it unchanged.
pub proof fn lemma_purge_drops_only_past_deadlines(m: Map<Seq<char>, Slot>, now: int, k: Seq<char>)
    ensures
        unexpired(m, now).contains_key(k) <==> (m.contains_key(k) && (m[k].expires_at matches Some(d) ==> d >= now)),
        unexpired(m, now).contains_key(k) ==> unexpired(m, now)[k] == m[k],
{
}

} // verus!
