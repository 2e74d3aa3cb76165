//! The store as a whole: a fixed number of shards, each key living in the
//! shard that its hash picks, and the replay of an append-only file.

use vstd::prelude::*;
use std::hash::Hasher;
use std::collections::hash_map::DefaultHasher;
use vstd::std_specs::hash::DefaultHasherAdditionalSpecFns;
use vstd::utf8::encode_utf8;
use bytes::BytesMut;
use crate::buffers::buf_contents;
use crate::frame::{RespFrame, RespCodec, RespError, Decoded, decode_spec};
use crate::cmd::{Command, CommandView, command_spec};
use crate::store::{Shard, Slot, step, deadline, max_instant, option_view, unknown_command_reply};

verus! {

/// How many shards the store has.
pub const NUM_SHARDS: usize = 64;

/// How many shards one round of the sweeper visits.
pub const SWEEP_BATCH: usize = 16;

/// The shards that one round of the sweeper visits, starting at `cursor`,
/// and the cursor of the next round: `SWEEP_BATCH` shards in turn, wrapping
/// round after the last shard.
pub fn sweep_round(cursor: usize) -> (r: (Vec<usize>, usize))
    requires
        cursor + SWEEP_BATCH <= usize::MAX,
    ensures
        r.0@.len() == SWEEP_BATCH,
        forall|j: int| 0 <= j < SWEEP_BATCH ==> #[trigger] r.0@[j] == (cursor + j) % (NUM_SHARDS as int),
        r.1 == cursor + SWEEP_BATCH,
{
    let mut targets: Vec<usize> = Vec::new();
    let mut current: usize = cursor;
    while current < cursor + SWEEP_BATCH
        invariant
            cursor <= current <= cursor + SWEEP_BATCH,
            cursor + SWEEP_BATCH <= usize::MAX,
            targets@.len() == current - cursor,
            forall|j: int| 0 <= j < current - cursor ==> #[trigger] targets@[j] == (cursor + j) % (NUM_SHARDS as int),
        decreases cursor + SWEEP_BATCH - current,
    {
        targets.push(current % NUM_SHARDS);
        current = current + 1;
    }
    (targets, current)
}

/// The `width` lowest bytes of `n`, least significant first.
pub open spec fn le_bytes(n: nat, width: nat) -> Seq<u8>
    decreases width,
{
    if width == 0 {
        Seq::empty()
    } else {
        seq![(n % 256) as u8] + le_bytes(n / 256, (width - 1) as nat)
    }
}

/// The number of bytes of a `usize`.
pub open spec fn usize_width() -> nat {
    (usize::BITS / 8) as nat
}

/// The `width` lowest bytes of `n`, most significant first.
pub open spec fn be_bytes(n: nat, width: nat) -> Seq<u8> {
    le_bytes(n, width).reverse()
}

/// The `width` lowest bytes of `n`, least significant first where `little`
/// holds, most significant first otherwise.
pub open spec fn ordered_bytes(n: nat, width: nat, little: bool) -> Seq<u8> {
    if little {
        le_bytes(n, width)
    } else {
        be_bytes(n, width)
    }
}

proof fn lemma_le_bytes_len(n: nat, width: nat)
    ensures
        le_bytes(n, width).len() == width,
    decreases width,
{
    if width > 0 {
        lemma_le_bytes_len(n / 256, (width - 1) as nat);
    }
}

/// `usize::to_ne_bytes`: the bytes of `n` in the target's byte order, which
/// is least significant first or most significant first.
#[verifier::external_body]
fn usize_ne_bytes(n: usize) -> (r: Vec<u8>)
    ensures
        r@ == le_bytes(n as nat, usize_width()) || r@ == be_bytes(n as nat, usize_width()),
{
    n.to_ne_bytes().to_vec()
}

/// Whether the target writes integers least significant byte first, read
/// off the native bytes of the number one.
pub fn target_is_little_endian() -> (r: bool) {
    let b = usize_ne_bytes(1);
    proof {
        lemma_le_bytes_len(1, usize_width());
    }
    b[0] == 1u8
}

/// The bytes of a `usize`, least significant first.
fn usize_le_bytes(n: usize) -> (r: Vec<u8>)
    ensures
        r@ == le_bytes(n as nat, usize_width()),
{
    let width: u32 = usize::BITS / 8;
    let mut v: Vec<u8> = Vec::new();
    let mut x: usize = n;
    let mut k: u32 = 0;
    while k < width
        invariant
            k <= width,
            width == usize::BITS / 8,
            le_bytes(n as nat, usize_width()) == v@ + le_bytes(x as nat, (width - k) as nat),
        decreases width - k,
    {
        let ghost before = v@;
        let ghost rest = le_bytes((x / 256) as nat, (width - k - 1) as nat);
        assert(le_bytes(x as nat, (width - k) as nat) == seq![(x % 256) as u8] + rest);
        v.push((x % 256) as u8);
        assert(before + (seq![(x % 256) as u8] + rest) =~= v@ + rest);
        x = x / 256;
        k = k + 1;
    }
    assert(v@ + le_bytes(x as nat, 0) =~= v@);
    v
}

/// The bytes of a `usize` in the byte order `little` picks.
fn usize_ordered_bytes(n: usize, little: bool) -> (r: Vec<u8>)
    ensures
        r@ == ordered_bytes(n as nat, usize_width(), little),
{
    let v = usize_le_bytes(n);
    if little {
        return v;
    }
    let mut r: Vec<u8> = Vec::new();
    let mut i: usize = v.len();
    while i > 0
        invariant
            i <= v@.len(),
            r@.len() == v@.len() - i,
            forall|j: int| 0 <= j < r@.len() ==> #[trigger] r@[j] == v@[v@.len() - 1 - j],
        decreases i,
    {
        i = i - 1;
        r.push(v[i]);
    }
    assert(r@ =~= v@.reverse());
    r
}

/// The hash of a key as a byte slice hashes: `DefaultHasher::finish` after
/// the length of its UTF-8 bytes (as a `usize`, in the byte order `little`
/// picks) and then those bytes were written into a fresh `DefaultHasher`.
pub open spec fn default_hash(key: Seq<char>, little: bool) -> u64 {
    DefaultHasher::spec_finish(seq![ordered_bytes(encode_utf8(key).len(), usize_width(), little), encode_utf8(key)])
}

fn hash_key(key: &String, little: bool) -> (r: u64)
    ensures
        r == default_hash(key@, little),
{
    let bytes = key.as_str().as_bytes();
    let mut hasher = DefaultHasher::new();
    let prefix = usize_ordered_bytes(bytes.len(), little);
    hasher.write(prefix.as_slice());
    hasher.write(bytes);
    assert(hasher@ =~= seq![ordered_bytes(encode_utf8(key@).len(), usize_width(), little), encode_utf8(key@)]);
    hasher.finish()
}

/// The shard that holds a key, its length hashed in the byte order `little`
/// picks.
pub open spec fn shard_of(key: Seq<char>, little: bool) -> int {
    (default_hash(key, little) % 64) as int
}

/// The shard that holds `key`, its length hashed in the byte order `little`
/// picks (the target's own order is `target_is_little_endian()`).
pub fn shard_index(key: &String, little: bool) -> (r: usize)
    ensures
        r == shard_of(key@, little),
        r < NUM_SHARDS,
{
    let hash_value = hash_key(key, little);
    let r = (hash_value as usize) % NUM_SHARDS;
    assert((hash_value as usize) % 64 == (hash_value % 64) as usize) by (bit_vector);
    r
}

/// The key a command is about, if any.
pub open spec fn command_key(c: CommandView) -> Option<Seq<char>> {
    match c {
        CommandView::Get { key } => Some(key),
        CommandView::SetKey { key, .. } => Some(key),
        CommandView::Del { key } => Some(key),
        CommandView::Exist { key } => Some(key),
        CommandView::Unknown => None,
    }
}

/// The shard that a command is carried out in: that of its key; `None` for a
/// command of no known name, which touches no shard.
pub fn route(cmd: &Command, little: bool) -> (r: Option<usize>)
    ensures
        match command_key(cmd@) {
            Some(k) => r == Some(shard_of(k, little) as usize) && shard_of(k, little) < 64,
            None => r is None,
        },
{
    match cmd {
        Command::Get { key } => Some(shard_index(key, little)),
        Command::SetKey { key, .. } => Some(shard_index(key, little)),
        Command::Del { key } => Some(shard_index(key, little)),
        Command::Exist { key } => Some(shard_index(key, little)),
        Command::Unknown => None,
    }
}

/// A command touches no key but its own: the stores agree on every other key
/// before and after.
pub proof fn lemma_step_local(m: Map<Seq<char>, Slot>, c: CommandView, now: int, x: Seq<char>)
    requires
        command_key(c) != Some(x),
    ensures
        step(m, c, now).store.contains_key(x) == m.contains_key(x),
        m.contains_key(x) ==> step(m, c, now).store[x] == m[x],
{
}

/// The outcome of a command depends only on what its own key holds.
pub proof fn lemma_step_same_key(m1: Map<Seq<char>, Slot>, m2: Map<Seq<char>, Slot>, c: CommandView, now: int, k: Seq<char>)
    requires
        command_key(c) == Some(k),
        m1.contains_key(k) == m2.contains_key(k),
        m1.contains_key(k) ==> m1[k] == m2[k],
    ensures
        step(m1, c, now).reply == step(m2, c, now).reply,
        step(m1, c, now).log == step(m2, c, now).log,
        step(m1, c, now).store.contains_key(k) == step(m2, c, now).store.contains_key(k),
        step(m1, c, now).store.contains_key(k) ==> step(m1, c, now).store[k] == step(m2, c, now).store[k],
{
}

/// Puts `sh` at `idx` in `shards` and hands back the shard that was there.
fn exchange_shard(shards: &mut Vec<Shard>, idx: usize, sh: Shard) -> (prev: Shard)
    requires
        idx < old(shards)@.len(),
    ensures
        prev == old(shards)@[idx as int],
        final(shards)@ == old(shards)@.update(idx as int, sh),
    no_unwind
{
    let mut sh = sh;
    std::mem::swap(&mut sh, &mut shards[idx]);
    sh
}

/// The whole store: every shard, each key in the shard its hash picks.
pub struct ShardedDb {
    shards: Vec<Shard>,
    little_endian: bool,
}

pub open spec fn shards_view(shards: Seq<Shard>, little: bool) -> Map<Seq<char>, Slot> {
    Map::new(|k: Seq<char>| shards[shard_of(k, little)]@.contains_key(k), |k: Seq<char>| shards[shard_of(k, little)]@[k])
}

pub open spec fn shards_wf(shards: Seq<Shard>, little: bool) -> bool {
    &&& shards.len() == 64
    &&& forall|i: int, k: Seq<char>| 0 <= i < 64 && #[trigger] shards[i]@.contains_key(k) ==> shard_of(k, little) == i
}

impl View for ShardedDb {
    type V = Map<Seq<char>, Slot>;

    closed spec fn view(&self) -> Map<Seq<char>, Slot> {
        shards_view(self.shards@, self.little_endian)
    }
}

impl Default for ShardedDb {
    fn default() -> (r: ShardedDb)
        ensures
            r@ == Map::<Seq<char>, Slot>::empty(),
    {
        ShardedDb::new()
    }
}

/// Where a replay stopped.
pub enum ReplayEnd {
    /// The rest of the buffer is an incomplete frame; more bytes may follow.
    NeedMore,
    /// A frame breaks the protocol.
    Invalid(RespError),
    /// A bulk string announces a length that overflows `usize`.
    Oversized,
}

pub enum ReplayEndView {
    NeedMore,
    Invalid(Seq<char>),
    /// An error other than a protocol error, which replay never meets.
    OtherError,
    Oversized,
}

/// What replaying one command does: a `SET` sets the key, with its deadline
/// counted from `now`; anything else is ignored.
#[verifier::opaque]
pub open spec fn replay_command(m: Map<Seq<char>, Slot>, c: Result<CommandView, Seq<char>>, now: int) -> Map<Seq<char>, Slot> {
    match c {
        Ok(CommandView::SetKey { key, value, time }) => m.insert(key, Slot { value, expires_at: deadline(now, time) }),
        _ => m,
    }
}

/// Replaying the frames at the front of `s` on `m`: the store, the number of
/// bytes consumed, and where it stopped.
pub open spec fn replay_spec(s: Seq<u8>, m: Map<Seq<char>, Slot>, now: int) -> (Map<Seq<char>, Slot>, int, ReplayEndView)
    decreases s.len(),
{
    match decode_spec(s) {
        Decoded::Incomplete => (m, 0, ReplayEndView::NeedMore),
        Decoded::Invalid(msg) => (m, 0, ReplayEndView::Invalid(msg)),
        Decoded::LengthOverflow => (m, 0, ReplayEndView::Oversized),
        Decoded::Complete(f, n) => if 0 < n <= s.len() {
            let r = replay_spec(s.skip(n), replay_command(m, command_spec(f), now), now);
            (r.0, n + r.1, r.2)
        } else {
            (m, 0, ReplayEndView::NeedMore)
        },
    }
}

pub open spec fn end_view(e: ReplayEnd) -> ReplayEndView {
    match e {
        ReplayEnd::NeedMore => ReplayEndView::NeedMore,
        ReplayEnd::Invalid(RespError::InvalidProtocol(m)) => ReplayEndView::Invalid(m@),
        ReplayEnd::Invalid(_) => ReplayEndView::OtherError,
        ReplayEnd::Oversized => ReplayEndView::Oversized,
    }
}

impl ShardedDb {
    /// The shards are in place and every key is in its shard.
    #[verifier::type_invariant]
    spec fn wf(&self) -> bool {
        shards_wf(self.shards@, self.little_endian)
    }

    /// Whether the keys' lengths are hashed least significant byte first:
    /// the target's own byte order, read when the store was made.
    pub closed spec fn hashes_little_endian(&self) -> bool {
        self.little_endian
    }

    /// The byte order in which the keys' lengths are hashed.
    pub fn little_endian(&self) -> (r: bool)
        ensures
            r == self.hashes_little_endian(),
    {
        self.little_endian
    }

    /// An empty store of `NUM_SHARDS` shards.
    pub fn new() -> (r: ShardedDb)
        ensures
            r@ == Map::<Seq<char>, Slot>::empty(),
    {
        let mut shards: Vec<Shard> = Vec::with_capacity(NUM_SHARDS);
        let mut i: usize = 0;
        while i < NUM_SHARDS
            invariant
                i <= 64,
                shards@.len() == i,
                forall|j: int| 0 <= j < i ==> (#[trigger] shards@[j])@ == Map::<Seq<char>, Slot>::empty(),
            decreases 64 - i,
        {
            shards.push(Shard::new());
            i = i + 1;
        }
        let r = ShardedDb { shards, little_endian: target_is_little_endian() };
        assert(r@ =~= Map::<Seq<char>, Slot>::empty());
        r
    }

    /// The shard that holds `key`.
    pub fn get_shard_index(&self, key: &String) -> (r: usize)
        ensures
            r == shard_of(key@, self.hashes_little_endian()),
            r < NUM_SHARDS,
    {
        shard_index(key, self.little_endian)
    }

    /// Hands the shards over, each key in the shard `shard_index` picks for it.
    pub fn into_shards(self) -> (r: Vec<Shard>)
        ensures
            shards_wf(r@, self.hashes_little_endian()),
            shards_view(r@, self.hashes_little_endian()) == self@,
    {
        proof {
            use_type_invariant(&self);
        }
        self.shards
    }

    /// Replacing the shard of `k` by one that agrees with it on every other
    /// key changes the store at `k` alone.
    proof fn lemma_update_shard(old_shards: Seq<Shard>, new_shards: Seq<Shard>, i: int, k: Seq<char>, m2: Map<Seq<char>, Slot>, little: bool)
        requires
            shards_wf(old_shards, little),
            0 <= i < 64,
            shard_of(k, little) == i,
            new_shards == old_shards.update(i, new_shards[i]),
            new_shards[i]@ == m2,
            forall|x: Seq<char>| x != k ==> m2.contains_key(x) == old_shards[i]@.contains_key(x),
            forall|x: Seq<char>| x != k && m2.contains_key(x) ==> m2[x] == old_shards[i]@[x],
        ensures
            shards_wf(new_shards, little),
            forall|x: Seq<char>| x != k ==> #[trigger] shards_view(new_shards, little).contains_key(x) == shards_view(old_shards, little).contains_key(x),
            forall|x: Seq<char>| x != k && shards_view(old_shards, little).contains_key(x) ==> #[trigger] shards_view(new_shards, little)[x] == shards_view(old_shards, little)[x],
            shards_view(new_shards, little).contains_key(k) == m2.contains_key(k),
            m2.contains_key(k) ==> shards_view(new_shards, little)[k] == m2[k],
    {
        assert forall|j: int, x: Seq<char>| 0 <= j < 64 && #[trigger] new_shards[j]@.contains_key(x) implies shard_of(x, little) == j by {
            if j == i && x != k {
                assert(old_shards[i]@.contains_key(x));
            }
        }
    }

    /// Takes the shard at `idx` out, leaving an empty one in its place.
    fn take_shard(&mut self, idx: usize) -> (sh: Shard)
        requires
            idx < NUM_SHARDS,
        ensures
            sh == old(self).shards@[idx as int],
            shards_wf(old(self).shards@, old(self).little_endian),
            final(self).little_endian == old(self).little_endian,
            final(self).shards@ == old(self).shards@.update(idx as int, final(self).shards@[idx as int]),
            final(self).shards@[idx as int]@ == Map::<Seq<char>, Slot>::empty(),
    {
        proof {
            use_type_invariant(&*self);
        }
        let sh = Shard::new();
        proof {
            let emptied = self.shards@.update(idx as int, sh);
            assert forall|i: int, k: Seq<char>| 0 <= i < 64 && #[trigger] emptied[i]@.contains_key(k) implies shard_of(k, self.little_endian) == i by {
                assert(i != idx);
                assert(emptied[i] == self.shards@[i]);
            }
        }
        exchange_shard(&mut self.shards, idx, sh)
    }

    /// Puts `sh` in place of the shard at `idx`.
    fn put_shard(&mut self, idx: usize, sh: Shard)
        requires
            idx < NUM_SHARDS,
            shards_wf(old(self).shards@.update(idx as int, sh), old(self).little_endian),
        ensures
            final(self).shards@ == old(self).shards@.update(idx as int, sh),
            final(self).little_endian == old(self).little_endian,
    {
        proof {
            use_type_invariant(&*self);
        }
        let _ = exchange_shard(&mut self.shards, idx, sh);
    }

    /// Maps `key` to `value` with the given deadline, in the shard of `key`.
    pub fn insert(&mut self, key: String, value: RespFrame, expires_at: Option<u128>)
        ensures
            final(self)@ == old(self)@.insert(key@, Slot { value: value@, expires_at }),
            final(self).hashes_little_endian() == old(self).hashes_little_endian(),
    {
        let idx = shard_index(&key, self.little_endian);
        let ghost k = key@;
        let ghost slot = Slot { value: value@, expires_at };
        let ghost m = self@;
        let ghost old_shards = self.shards@;
        let mut sh = self.take_shard(idx);
        sh.insert(key, value, expires_at);
        proof {
            let new_shards = old_shards.update(idx as int, sh);
            Self::lemma_update_shard(old_shards, new_shards, idx as int, k, sh@, self.little_endian);
            assert(self.shards@.update(idx as int, sh) =~= new_shards);
        }
        self.put_shard(idx, sh);
        proof {
            assert(self@ =~= m.insert(k, slot));
        }
    }

    /// Replays the frames at the front of `buf` at `now`: each `SET` sets its
    /// key, other commands are skipped. Stops at the first frame that is
    /// incomplete, breaks the protocol, or announces an oversized bulk string;
    /// the frames replayed are taken off `buf`, the one it stopped at is not.
    pub fn replay(&mut self, buf: &mut BytesMut, now: u128) -> (r: ReplayEnd)
        requires
            now <= max_instant(),
        ensures
            final(self).hashes_little_endian() == old(self).hashes_little_endian(),
            ({
                let want = replay_spec(buf_contents(*old(buf)), old(self)@, now as int);
                &&& final(self)@ == want.0
                &&& buf_contents(*final(buf)) == buf_contents(*old(buf)).skip(want.1)
                &&& end_view(r) == want.2
            }),
    {
        let ghost s0 = buf_contents(*buf);
        let ghost m0 = self@;
        let ghost mut consumed: int = 0;
        let mut codec = RespCodec;
        loop
            invariant
                now <= max_instant(),
                self.little_endian == old(self).little_endian,
                s0 == buf_contents(*old(buf)),
                m0 == old(self)@,
                0 <= consumed <= s0.len(),
                buf_contents(*buf) == s0.skip(consumed),
                ({
                    let want = replay_spec(s0, m0, now as int);
                    let here = replay_spec(buf_contents(*buf), self@, now as int);
                    &&& want.0 == here.0
                    &&& want.1 == consumed + here.1
                    &&& want.2 == here.2
                }),
            decreases buf_contents(*buf).len(),
        {
            let ghost before = buf_contents(*buf);
            let ghost m_before = self@;
            match codec.decode_checked(buf) {
                None => {
                    assert(replay_spec(before, m_before, now as int) == (m_before, 0int, ReplayEndView::Oversized));
                    return ReplayEnd::Oversized;
                },
                Some(Ok(None)) => {
                    assert(decode_spec(before) is Incomplete);
                    assert(replay_spec(before, m_before, now as int) == (m_before, 0int, ReplayEndView::NeedMore));
                    assert(buf_contents(*buf) == before);
                    return ReplayEnd::NeedMore;
                },
                Some(Err(e)) => {
                    return ReplayEnd::Invalid(e);
                },
                Some(Ok(Some(frame))) => {
                    let ghost n = match decode_spec(before) {
                        Decoded::Complete(_, n) => n,
                        _ => 0,
                    };
                    let ghost fv = frame@;
                    let parsed = Command::from_frame(frame);
                    match parsed {
                        Ok(Command::SetKey { key, value, time }) => {
                            let expires_at = match time {
                                Some(t) => Some(now + (t as u128) * 1_000_000_000u128),
                                None => None,
                            };
                            self.insert(key, value, expires_at);
                        },
                        _ => {},
                    }
                    proof {
                        reveal(replay_command);
                        assert(self@ == replay_command(m_before, command_spec(fv), now as int));
                        assert(before.skip(n) =~= s0.skip(consumed + n));
                        consumed = consumed + n;
                    }
                },
            }
        }
    }

    /// Carries out one command at `now`, in the shard of its key.
    pub fn apply(&mut self, cmd: Command, now: u128) -> (r: (RespFrame, Option<RespFrame>))
        requires
            now <= max_instant(),
        ensures
            final(self).hashes_little_endian() == old(self).hashes_little_endian(),
            final(self)@ == step(old(self)@, cmd@, now as int).store,
            r.0@ == step(old(self)@, cmd@, now as int).reply,
            option_view(r.1) == step(old(self)@, cmd@, now as int).log,
    {
        let idx = match &cmd {
            Command::Get { key } => shard_index(key, self.little_endian),
            Command::SetKey { key, .. } => shard_index(key, self.little_endian),
            Command::Del { key } => shard_index(key, self.little_endian),
            Command::Exist { key } => shard_index(key, self.little_endian),
            Command::Unknown => {
                return (unknown_command_reply(), None);
            },
        };
        let ghost k = command_key(cmd@)->Some_0;
        let ghost c = cmd@;
        let ghost m = self@;
        let ghost old_shards = self.shards@;
        let ghost sm = self.shards@[idx as int]@;
        proof {
            use_type_invariant(&*self);
        }
        assert(m.contains_key(k) == sm.contains_key(k));
        let mut sh = self.take_shard(idx);
        let r = sh.apply(cmd, now);
        proof {
            let m2 = sh@;
            let new_shards = old_shards.update(idx as int, sh);
            assert forall|x: Seq<char>| x != k implies m2.contains_key(x) == sm.contains_key(x) by {
                lemma_step_local(sm, c, now as int, x);
            }
            assert forall|x: Seq<char>| x != k && m2.contains_key(x) implies m2[x] == sm[x] by {
                lemma_step_local(sm, c, now as int, x);
            }
            Self::lemma_update_shard(old_shards, new_shards, idx as int, k, m2, self.little_endian);
            assert(self.shards@.update(idx as int, sh) =~= new_shards);
        }
        self.put_shard(idx, sh);
        proof {
            lemma_step_same_key(sm, m, c, now as int, k);
            let want = step(m, c, now as int).store;
            assert forall|x: Seq<char>| #[trigger] self@.contains_key(x) == want.contains_key(x) by {
                if x != k {
                    lemma_step_local(m, c, now as int, x);
                }
            }
            assert forall|x: Seq<char>| self@.contains_key(x) implies #[trigger] self@[x] == want[x] by {
                if x != k {
                    lemma_step_local(m, c, now as int, x);
                }
            }
            assert(self@ =~= want);
        }
        r
    }
}

} // verus!
