//! One shard of the store: keys mapped to frames, each with an optional
//! deadline after which the key is expired.

use vstd::prelude::*;
use vstd::utf8::encode_utf8;
use crate::frame::{RespFrame, FrameView, frames_view, lemma_frames_view};
use crate::cmd::{Command, CommandView};
use crate::buffers::{bytes_copy_from_slice, bytes_from_vec};
use crate::text::{decimal, decimal_u64, message};

verus! {

/// The largest instant the store takes, in nanoseconds: the span of a
/// `Duration`.
pub open spec fn max_instant() -> int {
    u64::MAX * 1_000_000_000 + 999_999_999
}

/// What a key holds: a frame and, where it expires, its deadline in
/// nanoseconds.
pub struct Slot {
    pub value: FrameView,
    pub expires_at: Option<u128>,
}

/// A key whose deadline lies strictly before `now` is expired.
pub open spec fn expired(slot: Slot, now: int) -> bool {
    slot.expires_at matches Some(d) && now > d
}

/// The deadline of a key set at `now` to live `time` seconds.
pub open spec fn deadline(now: int, time: Option<u64>) -> Option<u128> {
    match time {
        Some(t) => Some((now + t * 1_000_000_000) as u128),
        None => None,
    }
}

/// The bytes `SET`.
pub open spec fn set_word() -> Seq<u8> {
    seq![83u8, 69u8, 84u8]
}

/// The bytes `EX`.
pub open spec fn ex_word() -> Seq<u8> {
    seq![69u8, 88u8]
}

/// The append-only-file record of a `SET`: the command as a client would send
/// it, with `EX` and the seconds where the key expires.
pub open spec fn log_frame(key: Seq<char>, value: FrameView, time: Option<u64>) -> FrameView {
    let base = seq![FrameView::BulkString(set_word()), FrameView::BulkString(encode_utf8(key)), value];
    match time {
        Some(t) => FrameView::Array(base + seq![FrameView::BulkString(ex_word()), FrameView::BulkString(decimal(t as int))]),
        None => FrameView::Array(base),
    }
}

/// The store, the reply and the record to log after one command.
pub struct Step {
    pub store: Map<Seq<char>, Slot>,
    pub reply: FrameView,
    pub log: Option<FrameView>,
}

/// What one command does to a store at `now`.
pub open spec fn step(m: Map<Seq<char>, Slot>, cmd: CommandView, now: int) -> Step {
    match cmd {
        CommandView::Get { key } => if !m.contains_key(key) {
            Step { store: m, reply: FrameView::SimpleString("Null"@), log: None }
        } else if expired(m[key], now) {
            Step { store: m.remove(key), reply: FrameView::SimpleString("Null"@), log: None }
        } else {
            Step { store: m, reply: m[key].value, log: None }
        },
        CommandView::SetKey { key, value, time } => Step {
            store: m.insert(key, Slot { value, expires_at: deadline(now, time) }),
            reply: FrameView::SimpleString("OK"@),
            log: Some(log_frame(key, value, time)),
        },
        CommandView::Del { key } => Step {
            store: m.remove(key),
            reply: FrameView::Integer(if m.contains_key(key) { 1 } else { 0 }),
            log: None,
        },
        CommandView::Exist { key } => Step {
            store: m,
            reply: FrameView::Integer(if m.contains_key(key) { 1 } else { 0 }),
            log: None,
        },
        CommandView::Unknown => Step {
            store: m,
            reply: FrameView::Error("ERR unknown command"@),
            log: None,
        },
    }
}

/// The keys that a purge at `now` keeps: those not expired.
pub open spec fn unexpired(m: Map<Seq<char>, Slot>, now: int) -> Map<Seq<char>, Slot> {
    Map::new(|k: Seq<char>| m.contains_key(k) && !expired(m[k], now), |k: Seq<char>| m[k])
}

/// Whether a compaction at `now` keeps a key: it never expires or its
/// deadline is still ahead.
pub open spec fn kept_by_rewrite(slot: Slot, now: int) -> bool {
    match slot.expires_at {
        Some(d) => d > now,
        None => true,
    }
}

/// The whole seconds left before a deadline, at most `u64::MAX`.
pub open spec fn seconds_left(d: int, now: int) -> u64 {
    let secs = (d - now) / 1_000_000_000;
    if secs > u64::MAX { u64::MAX } else { secs as u64 }
}

/// The expiry, in seconds from `now`, that a compaction writes for a key.
pub open spec fn compaction_time(slot: Slot, now: int) -> Option<u64> {
    match slot.expires_at {
        Some(d) => Some(seconds_left(d as int, now)),
        None => None,
    }
}

/// The record that a compaction at `now` writes for a key.
pub open spec fn rewrite_frame(m: Map<Seq<char>, Slot>, k: Seq<char>, now: int) -> FrameView {
    log_frame(k, m[k].value, compaction_time(m[k], now))
}

/// The keys that a compaction at `now` writes out.
pub open spec fn rewrite_keys(m: Map<Seq<char>, Slot>, now: int) -> Set<Seq<char>> {
    Set::new(|k: Seq<char>| m.contains_key(k) && kept_by_rewrite(m[k], now))
}

/// A list of records that holds, once each, the record of every key that a
/// compaction at `now` keeps.
pub open spec fn rewrites(m: Map<Seq<char>, Slot>, now: int, frames: Seq<FrameView>) -> bool {
    exists|ks: Seq<Seq<char>>| {
        &&& ks.no_duplicates()
        &&& ks.to_set() == rewrite_keys(m, now)
        &&& frames == ks.map_values(|k: Seq<char>| rewrite_frame(m, k, now))
    }
}

pub open spec fn option_view(f: Option<RespFrame>) -> Option<FrameView> {
    match f {
        Some(x) => Some(x@),
        None => None,
    }
}

/// The key of a `GET`, `SET`, `DEL` or `EXIST`.
pub open spec fn command_key_of(c: CommandView) -> Seq<char> {
    match c {
        CommandView::Get { key } => key,
        CommandView::SetKey { key, .. } => key,
        CommandView::Del { key } => key,
        CommandView::Exist { key } => key,
        CommandView::Unknown => Seq::empty(),
    }
}

/// A stored key with its frame and deadline.
pub struct Entry {
    pub key: String,
    pub value: RespFrame,
    pub expires_at: Option<u128>,
}

pub open spec fn slot_of(e: Entry) -> Slot {
    Slot { value: e.value@, expires_at: e.expires_at }
}

pub open spec fn has_key(s: Seq<Entry>, k: Seq<char>) -> bool {
    exists|i: int| 0 <= i < s.len() && #[trigger] s[i].key@ == k
}

pub open spec fn distinct_keys(s: Seq<Entry>) -> bool {
    forall|i: int, j: int| 0 <= i < s.len() && 0 <= j < s.len() && i != j ==> #[trigger] s[i].key@ != #[trigger] s[j].key@
}

pub open spec fn key_index(s: Seq<Entry>, k: Seq<char>) -> int {
    choose|i: int| 0 <= i < s.len() && #[trigger] s[i].key@ == k
}

/// The map that a list of entries with distinct keys stands for.
pub open spec fn entries_view(s: Seq<Entry>) -> Map<Seq<char>, Slot> {
    Map::new(|k: Seq<char>| has_key(s, k), |k: Seq<char>| slot_of(s[key_index(s, k)]))
}

pub proof fn lemma_key_index(s: Seq<Entry>, i: int)
    requires
        distinct_keys(s),
        0 <= i < s.len(),
    ensures
        has_key(s, s[i].key@),
        key_index(s, s[i].key@) == i,
        entries_view(s).contains_key(s[i].key@),
        entries_view(s)[s[i].key@] == slot_of(s[i]),
{
    assert(has_key(s, s[i].key@));
}

pub proof fn lemma_view_update(s: Seq<Entry>, i: int, e: Entry)
    requires
        distinct_keys(s),
        0 <= i < s.len(),
        s[i].key@ == e.key@,
    ensures
        distinct_keys(s.update(i, e)),
        entries_view(s.update(i, e)) == entries_view(s).insert(e.key@, slot_of(e)),
{
    let t = s.update(i, e);
    assert forall|a: int, b: int| 0 <= a < t.len() && 0 <= b < t.len() && a != b implies #[trigger] t[a].key@ != #[trigger] t[b].key@ by {
        assert(t[a].key@ == s[a].key@);
        assert(t[b].key@ == s[b].key@);
    }
    assert forall|k: Seq<char>| has_key(t, k) == has_key(s, k) by {
        if has_key(s, k) {
            let j = choose|j: int| 0 <= j < s.len() && #[trigger] s[j].key@ == k;
            assert(t[j].key@ == k);
        }
        if has_key(t, k) {
            let j = choose|j: int| 0 <= j < t.len() && #[trigger] t[j].key@ == k;
            assert(s[j].key@ == k);
        }
    }
    assert forall|k: Seq<char>| #[trigger] entries_view(t).contains_key(k) implies entries_view(t)[k]
        == entries_view(s).insert(e.key@, slot_of(e))[k] by {
        let j = choose|j: int| 0 <= j < t.len() && #[trigger] t[j].key@ == k;
        lemma_key_index(t, j);
        lemma_key_index(s, j);
    }
    assert(entries_view(t) =~= entries_view(s).insert(e.key@, slot_of(e)));
}

pub proof fn lemma_view_push(s: Seq<Entry>, e: Entry)
    requires
        distinct_keys(s),
        !has_key(s, e.key@),
    ensures
        distinct_keys(s.push(e)),
        entries_view(s.push(e)) == entries_view(s).insert(e.key@, slot_of(e)),
{
    let t = s.push(e);
    assert forall|a: int, b: int| 0 <= a < t.len() && 0 <= b < t.len() && a != b implies #[trigger] t[a].key@ != #[trigger] t[b].key@ by {
        if a < s.len() && b < s.len() {
            assert(t[a] == s[a] && t[b] == s[b]);
        } else if a < s.len() {
            assert(t[a] == s[a]);
        } else {
            assert(t[b] == s[b]);
        }
    }
    assert forall|k: Seq<char>| has_key(t, k) == (has_key(s, k) || k == e.key@) by {
        if has_key(s, k) {
            let j = choose|j: int| 0 <= j < s.len() && #[trigger] s[j].key@ == k;
            assert(t[j].key@ == k);
        }
        if k == e.key@ {
            assert(t[s.len() as int].key@ == k);
        }
        if has_key(t, k) {
            let j = choose|j: int| 0 <= j < t.len() && #[trigger] t[j].key@ == k;
            if j < s.len() {
                assert(s[j].key@ == k);
            }
        }
    }
    assert forall|k: Seq<char>| #[trigger] entries_view(t).contains_key(k) implies entries_view(t)[k]
        == entries_view(s).insert(e.key@, slot_of(e))[k] by {
        let j = choose|j: int| 0 <= j < t.len() && #[trigger] t[j].key@ == k;
        lemma_key_index(t, j);
        if j < s.len() {
            assert(t[j] == s[j]);
            lemma_key_index(s, j);
        }
    }
    assert(entries_view(t) =~= entries_view(s).insert(e.key@, slot_of(e)));
}

pub proof fn lemma_view_prepend(s: Seq<Entry>, e: Entry)
    requires
        distinct_keys(s),
        !has_key(s, e.key@),
    ensures
        distinct_keys(seq![e] + s),
        entries_view(seq![e] + s) == entries_view(s).insert(e.key@, slot_of(e)),
{
    let t = seq![e] + s;
    assert forall|a: int| 0 < a < t.len() implies #[trigger] t[a] == s[a - 1] by {}
    assert forall|a: int, b: int| 0 <= a < t.len() && 0 <= b < t.len() && a != b implies #[trigger] t[a].key@ != #[trigger] t[b].key@ by {
        if a > 0 && b > 0 {
            assert(t[a] == s[a - 1] && t[b] == s[b - 1]);
        } else if a > 0 {
            assert(t[a] == s[a - 1]);
        } else {
            assert(t[b] == s[b - 1]);
        }
    }
    assert forall|k: Seq<char>| has_key(t, k) == (has_key(s, k) || k == e.key@) by {
        if has_key(s, k) {
            let j = choose|j: int| 0 <= j < s.len() && #[trigger] s[j].key@ == k;
            assert(t[j + 1].key@ == k);
        }
        if k == e.key@ {
            assert(t[0].key@ == k);
        }
        if has_key(t, k) {
            let j = choose|j: int| 0 <= j < t.len() && #[trigger] t[j].key@ == k;
            if j > 0 {
                assert(s[j - 1].key@ == k);
            }
        }
    }
    assert forall|k: Seq<char>| #[trigger] entries_view(t).contains_key(k) implies entries_view(t)[k]
        == entries_view(s).insert(e.key@, slot_of(e))[k] by {
        let j = choose|j: int| 0 <= j < t.len() && #[trigger] t[j].key@ == k;
        lemma_key_index(t, j);
        if j > 0 {
            assert(t[j] == s[j - 1]);
            lemma_key_index(s, j - 1);
        }
    }
    assert(entries_view(t) =~= entries_view(s).insert(e.key@, slot_of(e)));
}

pub proof fn lemma_view_remove(s: Seq<Entry>, i: int)
    requires
        distinct_keys(s),
        0 <= i < s.len(),
    ensures
        distinct_keys(s.remove(i)),
        entries_view(s.remove(i)) == entries_view(s).remove(s[i].key@),
{
    let t = s.remove(i);
    let gone = s[i].key@;
    assert forall|a: int| 0 <= a < t.len() implies #[trigger] t[a] == s[if a < i { a } else { a + 1 }] by {}
    assert forall|a: int, b: int| 0 <= a < t.len() && 0 <= b < t.len() && a != b implies #[trigger] t[a].key@ != #[trigger] t[b].key@ by {
        assert(t[a] == s[if a < i { a } else { a + 1 }]);
        assert(t[b] == s[if b < i { b } else { b + 1 }]);
    }
    assert forall|k: Seq<char>| has_key(t, k) == (has_key(s, k) && k != gone) by {
        if has_key(s, k) && k != gone {
            let j = choose|j: int| 0 <= j < s.len() && #[trigger] s[j].key@ == k;
            assert(j != i);
            let a = if j < i { j } else { j - 1 };
            assert(t[a] == s[j]);
            assert(t[a].key@ == k);
        }
        if has_key(t, k) {
            let a = choose|a: int| 0 <= a < t.len() && #[trigger] t[a].key@ == k;
            let j = if a < i { a } else { a + 1 };
            assert(t[a] == s[j]);
            assert(s[j].key@ == k);
            assert(j != i);
        }
    }
    assert forall|k: Seq<char>| #[trigger] entries_view(t).contains_key(k) implies entries_view(t)[k]
        == entries_view(s).remove(gone)[k] by {
        let a = choose|a: int| 0 <= a < t.len() && #[trigger] t[a].key@ == k;
        let j = if a < i { a } else { a + 1 };
        assert(t[a] == s[j]);
        lemma_key_index(t, a);
        lemma_key_index(s, j);
    }
    assert(entries_view(t) =~= entries_view(s).remove(gone));
}

/// One shard of the store.
pub struct Shard {
    entries: Vec<Entry>,
}

impl View for Shard {
    type V = Map<Seq<char>, Slot>;

    closed spec fn view(&self) -> Map<Seq<char>, Slot> {
        entries_view(self.entries@)
    }
}

fn str_eq(a: &String, b: &String) -> (r: bool)
    ensures
        r == (a@ == b@),
{
    a.eq(b)
}

/// The reply to a command of no known name.
pub fn unknown_command_reply() -> (r: RespFrame)
    ensures
        r@ == FrameView::Error("ERR unknown command"@),
{
    RespFrame::Error(message("ERR unknown command"))
}

/// The log record of setting `key` to `value` for `time` seconds.
fn set_record(key: &String, value: &RespFrame, time: Option<u64>) -> (r: RespFrame)
    ensures
        r@ == log_frame(key@, value@, time),
{
    let mut items: Vec<RespFrame> = Vec::new();
    items.push(RespFrame::BulkString(bytes_from_vec(vec![83u8, 69u8, 84u8])));
    items.push(RespFrame::BulkString(bytes_copy_from_slice(key.as_str().as_bytes())));
    items.push(value.clone());
    match time {
        Some(t) => {
            items.push(RespFrame::BulkString(bytes_from_vec(vec![69u8, 88u8])));
            items.push(RespFrame::BulkString(bytes_from_vec(decimal_u64(t))));
        },
        None => {},
    }
    proof {
        lemma_frames_view(items@);
        let lf = log_frame(key@, value@, time);
        assert(lf matches FrameView::Array(x) && x =~= frames_view(items@));
    }
    RespFrame::Array(items)
}

impl Shard {
    /// No key occurs twice.
    #[verifier::type_invariant]
    spec fn wf(&self) -> bool {
        distinct_keys(self.entries@)
    }

    /// An empty shard.
    pub fn new() -> (r: Shard)
        ensures
            r@ == Map::<Seq<char>, Slot>::empty(),
    {
        let r = Shard { entries: Vec::new() };
        assert(r@ =~= Map::<Seq<char>, Slot>::empty());
        r
    }

    /// The number of keys held.
    pub fn len(&self) -> (r: usize)
        ensures
            r == self@.len(),
    {
        proof {
            use_type_invariant(&*self);
        }
        proof {
            self.lemma_len();
        }
        self.entries.len()
    }

    proof fn lemma_len(&self)
        requires
            self.wf(),
        ensures
            self@.dom().finite(),
            self@.len() == self.entries@.len(),
    {
        let s = self.entries@;
        let keys = Seq::new(s.len(), |i: int| s[i].key@);
        assert(keys.no_duplicates()) by {
            assert forall|a: int, b: int| 0 <= a < keys.len() && 0 <= b < keys.len() && a != b implies keys[a] != keys[b] by {
                assert(s[a].key@ != s[b].key@);
            }
        }
        assert(self@.dom() =~= keys.to_set()) by {
            assert forall|k: Seq<char>| self@.dom().contains(k) <==> keys.to_set().contains(k) by {
                if self@.dom().contains(k) {
                    let j = choose|j: int| 0 <= j < s.len() && #[trigger] s[j].key@ == k;
                    assert(keys[j] == k);
                }
                if keys.to_set().contains(k) {
                    let j = choose|j: int| 0 <= j < keys.len() && keys[j] == k;
                    assert(s[j].key@ == k);
                }
            }
        }
        keys.unique_seq_to_set();
    }

    /// Where `key` is held, if anywhere.
    fn find(&self, key: &String) -> (r: Option<usize>)
        requires
            self.wf(),
        ensures
            match r {
                Some(i) => i < self.entries@.len() && self.entries@[i as int].key@ == key@,
                None => !has_key(self.entries@, key@),
            },
    {
        let mut i: usize = 0;
        while i < self.entries.len()
            invariant
                i <= self.entries@.len(),
                forall|j: int| 0 <= j < i ==> #[trigger] self.entries@[j].key@ != key@,
            decreases self.entries@.len() - i,
        {
            if str_eq(&self.entries[i].key, key) {
                return Some(i);
            }
            i = i + 1;
        }
        None
    }

    /// Whether `key` is held, expired or not.
    pub fn contains_key(&self, key: &String) -> (r: bool)
        ensures
            r == self@.contains_key(key@),
    {
        proof {
            use_type_invariant(&*self);
        }
        match self.find(key) {
            Some(i) => {
                proof {
                    lemma_key_index(self.entries@, i as int);
                }
                true
            },
            None => false,
        }
    }

    /// Maps `key` to `value` with the given deadline, replacing what it held.
    pub fn insert(&mut self, key: String, value: RespFrame, expires_at: Option<u128>)
        ensures
            final(self)@ == old(self)@.insert(key@, Slot { value: value@, expires_at }),
    {
        proof {
            use_type_invariant(&*self);
        }
        let e = Entry { key, value, expires_at };
        match self.find(&e.key) {
            Some(i) => {
                proof {
                    lemma_view_update(self.entries@, i as int, e);
                }
                let mut entries: Vec<Entry> = Vec::new();
                std::mem::swap(&mut entries, &mut self.entries);
                entries.set(i, e);
                self.entries = entries;
            },
            None => {
                proof {
                    lemma_view_push(self.entries@, e);
                }
                let mut entries: Vec<Entry> = Vec::new();
                std::mem::swap(&mut entries, &mut self.entries);
                entries.push(e);
                self.entries = entries;
            },
        }
    }

    /// Carries out one command at `now`: the reply, and the record to append
    /// to the log where the command changes the store durably.
    pub fn apply(&mut self, cmd: Command, now: u128) -> (r: (RespFrame, Option<RespFrame>))
        requires
            now <= max_instant(),
        ensures
            final(self)@ == step(old(self)@, cmd@, now as int).store,
            r.0@ == step(old(self)@, cmd@, now as int).reply,
            option_view(r.1) == step(old(self)@, cmd@, now as int).log,
    {
        proof {
            use_type_invariant(&*self);
        }
        match cmd {
            Command::Get { key } => {
                match self.find(&key) {
                    None => {
                        proof {
                            assert(!self@.contains_key(key@));
                        }
                        (RespFrame::SimpleString(message("Null")), None)
                    },
                    Some(i) => {
                        proof {
                            lemma_key_index(self.entries@, i as int);
                        }
                        let is_expired = match self.entries[i].expires_at {
                            Some(d) => now > d,
                            None => false,
                        };
                        if is_expired {
                            proof {
                                lemma_view_remove(self.entries@, i as int);
                            }
                            let mut entries: Vec<Entry> = Vec::new();
                            std::mem::swap(&mut entries, &mut self.entries);
                            entries.remove(i);
                            self.entries = entries;
                            (RespFrame::SimpleString(message("Null")), None)
                        } else {
                            (self.entries[i].value.clone(), None)
                        }
                    },
                }
            },
            Command::SetKey { key, value, time } => {
                let record = set_record(&key, &value, time);
                let expires_at = match time {
                    Some(t) => Some(now + (t as u128) * 1_000_000_000u128),
                    None => None,
                };
                self.insert(key, value, expires_at);
                (RespFrame::SimpleString(message("OK")), Some(record))
            },
            Command::Del { key } => {
                let removed = self.remove(&key);
                (RespFrame::Integer(if removed { 1 } else { 0 }), None)
            },
            Command::Exist { key } => {
                let found = self.contains_key(&key);
                (RespFrame::Integer(if found { 1 } else { 0 }), None)
            },
            Command::Unknown => (unknown_command_reply(), None),
        }
    }

    /// Answers a `GET` or an `EXIST` without changing the shard: the reply,
    /// and whether the key was found expired, in which case carrying out the
    /// command also removes it. `None` for the other commands.
    pub fn query(&self, cmd: &Command, now: u128) -> (r: Option<(RespFrame, bool)>)
        ensures
            match r {
                Some((reply, drop)) => {
                    &&& (cmd@ is Get || cmd@ is Exist)
                    &&& reply@ == step(self@, cmd@, now as int).reply
                    &&& drop == (step(self@, cmd@, now as int).store != self@)
                    &&& drop ==> step(self@, cmd@, now as int).store == self@.remove(command_key_of(cmd@))
                },
                None => !(cmd@ is Get || cmd@ is Exist),
            },
    {
        proof {
            use_type_invariant(&*self);
        }
        match cmd {
            Command::Get { key } => match self.find(key) {
                None => Some((RespFrame::SimpleString(message("Null")), false)),
                Some(i) => {
                    proof {
                        lemma_key_index(self.entries@, i as int);
                    }
                    let is_expired = match self.entries[i].expires_at {
                        Some(d) => now > d,
                        None => false,
                    };
                    if is_expired {
                        assert(!self@.remove(key@).contains_key(key@));
                        Some((RespFrame::SimpleString(message("Null")), true))
                    } else {
                        Some((self.entries[i].value.clone(), false))
                    }
                },
            },
            Command::Exist { key } => {
                let found = self.contains_key(key);
                Some((RespFrame::Integer(if found { 1 } else { 0 }), false))
            },
            _ => None,
        }
    }

    /// Drops every key whose deadline lies before `now`.
    pub fn purge_expired(&mut self, now: u128)
        ensures
            final(self)@ == unexpired(old(self)@, now as int),
    {
        proof {
            use_type_invariant(&*self);
        }
        let ghost s = self.entries@;
        let mut rest: Vec<Entry> = Vec::new();
        std::mem::swap(&mut rest, &mut self.entries);
        let mut kept: Vec<Entry> = Vec::new();
        assert(s.skip(s.len() as int) =~= Seq::<Entry>::empty());
        assert(entries_view(kept@) =~= unexpired(entries_view(s.skip(s.len() as int)), now as int));
        while rest.len() > 0
            invariant
                distinct_keys(s),
                rest@ == s.take(rest@.len() as int),
                rest@.len() <= s.len(),
                distinct_keys(kept@),
                entries_view(kept@) == unexpired(entries_view(s.skip(rest@.len() as int)), now as int),
            decreases rest@.len(),
        {
            let r = rest.len();
            let e = rest.pop().unwrap();
            proof {
                let tail = s.skip(r as int);
                let tail2 = s.skip(r - 1);
                assert(tail2 =~= seq![e] + tail);
                assert(rest@ =~= s.take(r - 1));
                assert(distinct_keys(tail)) by {
                    assert forall|a: int, b: int| 0 <= a < tail.len() && 0 <= b < tail.len() && a != b implies #[trigger] tail[a].key@ != #[trigger] tail[b].key@ by {
                        assert(tail[a] == s[r + a]);
                        assert(tail[b] == s[r + b]);
                    }
                }
                assert(!has_key(tail, e.key@)) by {
                    if has_key(tail, e.key@) {
                        let j = choose|j: int| 0 <= j < tail.len() && #[trigger] tail[j].key@ == e.key@;
                        assert(tail[j] == s[r + j]);
                        assert(s[r - 1] == e);
                    }
                }
                lemma_view_prepend(tail, e);
            }
            let is_expired = match e.expires_at {
                Some(d) => now > d,
                None => false,
            };
            if !is_expired {
                proof {
                    assert(!has_key(kept@, e.key@)) by {
                        if has_key(kept@, e.key@) {
                            let j = choose|j: int| 0 <= j < kept@.len() && #[trigger] kept@[j].key@ == e.key@;
                            lemma_key_index(kept@, j);
                        }
                    }
                    lemma_view_push(kept@, e);
                }
                kept.push(e);
                proof {
                    assert(entries_view(kept@) =~= unexpired(entries_view(s.skip(r - 1)), now as int));
                }
            } else {
                proof {
                    assert(entries_view(kept@) =~= unexpired(entries_view(s.skip(r - 1)), now as int));
                }
            }
        }
        assert(s.skip(0) =~= s);
        self.entries = kept;
    }

    /// The records that rebuild the keys a compaction at `now` keeps: one
    /// `SET` per key, with the whole seconds it has left.
    pub fn rewrite_frames(&self, now: u128) -> (r: Vec<RespFrame>)
        ensures
            rewrites(self@, now as int, frames_view(r@)),
    {
        proof {
            use_type_invariant(&*self);
        }
        let ghost s = self.entries@;
        let ghost m = self@;
        let mut out: Vec<RespFrame> = Vec::new();
        let ghost mut ks: Seq<Seq<char>> = Seq::empty();
        let mut i: usize = 0;
        proof {
            lemma_frames_view(out@);
        }
        while i < self.entries.len()
            invariant
                s == self.entries@,
                m == entries_view(s),
                distinct_keys(s),
                i <= s.len(),
                ks.no_duplicates(),
                forall|k: Seq<char>| ks.contains(k) <==> exists|j: int| 0 <= j < i && #[trigger] s[j].key@ == k && kept_by_rewrite(slot_of(s[j]), now as int),
                frames_view(out@) == ks.map_values(|k: Seq<char>| rewrite_frame(m, k, now as int)),
            decreases s.len() - i,
        {
            let e = &self.entries[i];
            proof {
                lemma_key_index(s, i as int);
            }
            let keep = match e.expires_at {
                Some(d) => d > now,
                None => true,
            };
            if keep {
                let time = match e.expires_at {
                    Some(d) => {
                        let secs = (d - now) / 1_000_000_000u128;
                        Some(if secs > u64::MAX as u128 { u64::MAX } else { secs as u64 })
                    },
                    None => None,
                };
                let record = set_record(&e.key, &e.value, time);
                let ghost old_ks = ks;
                let ghost old_out = out@;
                out.push(record);
                proof {
                    assert(!old_ks.contains(e.key@)) by {
                        if old_ks.contains(e.key@) {
                            let j = choose|j: int| 0 <= j < i && #[trigger] s[j].key@ == e.key@ && kept_by_rewrite(slot_of(s[j]), now as int);
                            assert(s[j].key@ == s[i as int].key@);
                        }
                    }
                    ks = ks.push(e.key@);
                    assert(out@.drop_last() =~= old_out);
                    assert(frames_view(out@) =~= ks.map_values(|k: Seq<char>| rewrite_frame(m, k, now as int)));
                    assert forall|k: Seq<char>| ks.contains(k) <==> exists|j: int| 0 <= j < i + 1 && #[trigger] s[j].key@ == k && kept_by_rewrite(slot_of(s[j]), now as int) by {
                        if ks.contains(k) && k != e.key@ {
                            assert(old_ks.contains(k));
                        }
                        if k == e.key@ {
                            assert(ks[ks.len() - 1] == k);
                        }
                        if exists|j: int| 0 <= j < i + 1 && #[trigger] s[j].key@ == k && kept_by_rewrite(slot_of(s[j]), now as int) {
                            let j = choose|j: int| 0 <= j < i + 1 && #[trigger] s[j].key@ == k && kept_by_rewrite(slot_of(s[j]), now as int);
                            if j < i {
                                assert(old_ks.contains(k));
                                let x = choose|x: int| 0 <= x < old_ks.len() && old_ks[x] == k;
                                assert(ks[x] == k);
                            } else {
                                assert(ks[ks.len() - 1] == k);
                            }
                        }
                    }
                }
            } else {
                proof {
                    assert forall|k: Seq<char>| ks.contains(k) <==> exists|j: int| 0 <= j < i + 1 && #[trigger] s[j].key@ == k && kept_by_rewrite(slot_of(s[j]), now as int) by {
                        if exists|j: int| 0 <= j < i + 1 && #[trigger] s[j].key@ == k && kept_by_rewrite(slot_of(s[j]), now as int) {
                            let j = choose|j: int| 0 <= j < i + 1 && #[trigger] s[j].key@ == k && kept_by_rewrite(slot_of(s[j]), now as int);
                            assert(j != i);
                        }
                    }
                }
            }
            i = i + 1;
        }
        proof {
            assert(ks.to_set() =~= rewrite_keys(m, now as int)) by {
                assert forall|k: Seq<char>| ks.to_set().contains(k) <==> rewrite_keys(m, now as int).contains(k) by {
                    if ks.contains(k) {
                        let j = choose|j: int| 0 <= j < i && #[trigger] s[j].key@ == k && kept_by_rewrite(slot_of(s[j]), now as int);
                        lemma_key_index(s, j);
                    }
                    if rewrite_keys(m, now as int).contains(k) {
                        let j = choose|j: int| 0 <= j < s.len() && #[trigger] s[j].key@ == k;
                        lemma_key_index(s, j);
                        assert(exists|j: int| 0 <= j < i && #[trigger] s[j].key@ == k && kept_by_rewrite(slot_of(s[j]), now as int));
                    }
                }
            }
        }
        out
    }

    /// Removes `key`; says whether it was held.
    pub fn remove(&mut self, key: &String) -> (r: bool)
        ensures
            r == old(self)@.contains_key(key@),
            final(self)@ == old(self)@.remove(key@),
    {
        proof {
            use_type_invariant(&*self);
        }
        match self.find(key) {
            Some(i) => {
                proof {
                    lemma_view_remove(self.entries@, i as int);
                    lemma_key_index(self.entries@, i as int);
                }
                let mut entries: Vec<Entry> = Vec::new();
                std::mem::swap(&mut entries, &mut self.entries);
                entries.remove(i);
                self.entries = entries;
                true
            },
            None => {
                assert(self@ =~= self@.remove(key@));
                false
            },
        }
    }
}

} // verus!
