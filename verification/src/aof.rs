//! The decisions of the append-only-file writer: what to write, flush and
//! sync for each message and timer tick, and what to keep aside while a
//! compaction rewrites the file.

use vstd::prelude::*;
use bytes::Bytes;
use crate::buffers::{bytes_contents};

verus! {

/// When the file is synced to disk.
#[derive(Debug, Clone, Copy)]
pub enum PersistenceMode {
    /// After every write.
    Always,
    /// Once a second.
    EverySec,
}

/// What the store sends to the writer.
#[derive(Debug)]
pub enum DbMessage {
    /// A record to append.
    WriteBytes(Bytes),
    /// The compacted file is ready: put it in place of the current one.
    ExecuteAtomicSwap,
}

/// What wakes the writer up.
#[derive(Debug)]
pub enum AofEvent {
    Message(DbMessage),
    /// The once-a-second timer.
    FlushTick,
    /// The compaction timer.
    RewriteTick,
}

/// What the writer is to do, in order.
#[derive(Debug)]
pub enum AofAction {
    /// Append the bytes to the file.
    Write(Bytes),
    /// Flush the file's buffer to the operating system.
    Flush,
    /// Sync the file to the disk.
    Sync,
    /// Append these records, written while the compaction ran, to the
    /// compacted file, sync it and put it in place of the current file.
    SwapIn(Vec<Bytes>),
    /// Start writing a compacted file from the store.
    StartCompaction,
}

pub enum MessageView {
    WriteBytes(Seq<u8>),
    ExecuteAtomicSwap,
}

pub enum EventView {
    Message(MessageView),
    FlushTick,
    RewriteTick,
}

pub enum ActionView {
    Write(Seq<u8>),
    Flush,
    Sync,
    SwapIn(Seq<Seq<u8>>),
    StartCompaction,
}

pub open spec fn event_view(e: AofEvent) -> EventView {
    match e {
        AofEvent::Message(DbMessage::WriteBytes(b)) => EventView::Message(MessageView::WriteBytes(bytes_contents(b))),
        AofEvent::Message(DbMessage::ExecuteAtomicSwap) => EventView::Message(MessageView::ExecuteAtomicSwap),
        AofEvent::FlushTick => EventView::FlushTick,
        AofEvent::RewriteTick => EventView::RewriteTick,
    }
}

pub open spec fn bytes_seq_view(v: Seq<Bytes>) -> Seq<Seq<u8>> {
    v.map_values(|b: Bytes| bytes_contents(b))
}

pub open spec fn action_view(a: AofAction) -> ActionView {
    match a {
        AofAction::Write(b) => ActionView::Write(bytes_contents(b)),
        AofAction::Flush => ActionView::Flush,
        AofAction::Sync => ActionView::Sync,
        AofAction::SwapIn(v) => ActionView::SwapIn(bytes_seq_view(v@)),
        AofAction::StartCompaction => ActionView::StartCompaction,
    }
}

pub open spec fn actions_view(v: Seq<AofAction>) -> Seq<ActionView> {
    v.map_values(|a: AofAction| action_view(a))
}

/// The writer's state: whether a compaction runs, and the records written
/// since it started.
pub struct AofState {
    pub mode: PersistenceMode,
    pub rewriting: bool,
    pub pending: Seq<Seq<u8>>,
}

/// What the writer does on an event, and its state after: `queue_empty` says
/// whether no further message waits in the channel.
pub open spec fn aof_step(st: AofState, e: EventView, queue_empty: bool) -> (AofState, Seq<ActionView>) {
    let mode = st.mode;
    match e {
        EventView::Message(MessageView::WriteBytes(b)) => {
            let st2 = if st.rewriting { AofState { mode, rewriting: true, pending: st.pending.push(b) } } else { st };
            let a1 = seq![ActionView::Write(b)];
            let a2 = if queue_empty { a1.push(ActionView::Flush) } else { a1 };
            let a3 = match mode {
                PersistenceMode::Always => a2.push(ActionView::Flush).push(ActionView::Sync),
                PersistenceMode::EverySec => a2,
            };
            (st2, a3)
        },
        EventView::Message(MessageView::ExecuteAtomicSwap) => (
            AofState { mode, rewriting: false, pending: Seq::empty() },
            seq![ActionView::Flush, ActionView::SwapIn(st.pending)],
        ),
        EventView::FlushTick => (st, match mode {
            PersistenceMode::EverySec => seq![ActionView::Flush, ActionView::Sync],
            PersistenceMode::Always => Seq::empty(),
        }),
        EventView::RewriteTick => (AofState { mode, rewriting: true, pending: st.pending }, seq![ActionView::StartCompaction]),
    }
}

/// The writer of the append-only file.
pub struct AofWorker {
    mode: PersistenceMode,
    is_rewriting: bool,
    rewrite_buffer: Vec<Bytes>,
}

impl View for AofWorker {
    type V = AofState;

    closed spec fn view(&self) -> AofState {
        AofState { mode: self.mode, rewriting: self.is_rewriting, pending: bytes_seq_view(self.rewrite_buffer@) }
    }
}

impl AofWorker {
    /// A writer with no compaction running.
    pub fn new(mode: PersistenceMode) -> (r: AofWorker)
        ensures
            r@ == (AofState { mode, rewriting: false, pending: Seq::empty() }),
    {
        let r = AofWorker { mode, is_rewriting: false, rewrite_buffer: Vec::new() };
        assert(bytes_seq_view(r.rewrite_buffer@) =~= Seq::<Seq<u8>>::empty());
        r
    }

    /// When the file is synced.
    pub fn mode(&self) -> (r: PersistenceMode)
        ensures
            r == self@.mode,
    {
        self.mode
    }

    /// Whether a compaction runs.
    pub fn is_rewriting(&self) -> (r: bool)
        ensures
            r == self@.rewriting,
    {
        self.is_rewriting
    }

    /// Decides what to do on `event`.
    pub fn handle(&mut self, event: AofEvent, queue_empty: bool) -> (r: Vec<AofAction>)
        ensures
            (final(self)@, actions_view(r@)) == aof_step(old(self)@, event_view(event), queue_empty),
    {
        let ghost st = self@;
        let mut actions: Vec<AofAction> = Vec::new();
        match event {
            AofEvent::Message(DbMessage::WriteBytes(payload)) => {
                if self.is_rewriting {
                    let ghost before = self.rewrite_buffer@;
                    self.rewrite_buffer.push(payload.clone());
                    assert(bytes_seq_view(self.rewrite_buffer@) =~= bytes_seq_view(before).push(bytes_contents(payload)));
                }
                actions.push(AofAction::Write(payload));
                if queue_empty {
                    actions.push(AofAction::Flush);
                }
                match self.mode {
                    PersistenceMode::Always => {
                        actions.push(AofAction::Flush);
                        actions.push(AofAction::Sync);
                    },
                    PersistenceMode::EverySec => {},
                }
            },
            AofEvent::Message(DbMessage::ExecuteAtomicSwap) => {
                let mut pending: Vec<Bytes> = Vec::new();
                std::mem::swap(&mut pending, &mut self.rewrite_buffer);
                actions.push(AofAction::Flush);
                actions.push(AofAction::SwapIn(pending));
                self.is_rewriting = false;
                assert(bytes_seq_view(self.rewrite_buffer@) =~= Seq::<Seq<u8>>::empty());
            },
            AofEvent::FlushTick => {
                match self.mode {
                    PersistenceMode::EverySec => {
                        actions.push(AofAction::Flush);
                        actions.push(AofAction::Sync);
                    },
                    PersistenceMode::Always => {},
                }
            },
            AofEvent::RewriteTick => {
                self.is_rewriting = true;
                actions.push(AofAction::StartCompaction);
            },
        }
        let ghost want = aof_step(st, event_view(event), queue_empty);
        assert(actions_view(actions@) =~= want.1);
        actions
    }
}


/// The writer's state after a run of events, each with whether the queue
/// was empty after it, and the actions it took, in order.
pub open spec fn aof_run(st: AofState, events: Seq<EventView>, queue_empty: bool) -> (AofState, Seq<ActionView>)
    decreases events.len(),
{
    if events.len() == 0 {
        (st, Seq::empty())
    } else {
        let first = aof_step(st, events[0], queue_empty);
        let rest = aof_run(first.0, events.drop_first(), queue_empty);
        (rest.0, first.1 + rest.1)
    }
}

pub open spec fn writes(ws: Seq<Seq<u8>>) -> Seq<EventView> {
    ws.map_values(|w: Seq<u8>| EventView::Message(MessageView::WriteBytes(w)))
}

proof fn lemma_writes_while_rewriting(st: AofState, ws: Seq<Seq<u8>>, queue_empty: bool)
    requires
        st.rewriting,
    ensures
        aof_run(st, writes(ws), queue_empty).0 == (AofState { mode: st.mode, rewriting: true, pending: st.pending + ws }),
    decreases ws.len(),
{
    if ws.len() == 0 {
        assert(st.pending + ws =~= st.pending);
    } else {
        let st1 = AofState { mode: st.mode, rewriting: true, pending: st.pending.push(ws[0]) };
        assert(writes(ws).drop_first() =~= writes(ws.drop_first()));
        lemma_writes_while_rewriting(st1, ws.drop_first(), queue_empty);
        assert(st1.pending + ws.drop_first() =~= st.pending + ws);
    }
}

/// Nothing written during a compaction is lost: from a writer with no
/// compaction running and nothing set aside, the compaction timer, then any
/// run of writes, then the swap, hands the swap exactly those writes, in
/// order, and leaves the writer with no compaction running and nothing set
/// aside.
pub proof fn lemma_compaction_keeps_writes(st: AofState, ws: Seq<Seq<u8>>, queue_empty: bool)
    requires
        !st.rewriting,
        st.pending.len() == 0,
    ensures
        ({
            let events = seq![EventView::RewriteTick] + writes(ws) + seq![EventView::Message(MessageView::ExecuteAtomicSwap)];
            let r = aof_run(st, events, queue_empty);
            &&& r.1.last() == ActionView::SwapIn(ws)
            &&& r.0 == AofState { mode: st.mode, rewriting: false, pending: Seq::empty() }
        }),
{
    let events = seq![EventView::RewriteTick] + writes(ws) + seq![EventView::Message(MessageView::ExecuteAtomicSwap)];
    let st1 = AofState { mode: st.mode, rewriting: true, pending: st.pending };
    lemma_writes_while_rewriting(st1, ws, queue_empty);
    lemma_run_append(st1, writes(ws), seq![EventView::Message(MessageView::ExecuteAtomicSwap)], queue_empty);
    assert(events.drop_first() =~= writes(ws) + seq![EventView::Message(MessageView::ExecuteAtomicSwap)]);
    assert(st.pending + ws =~= ws);
    let mid = aof_run(st1, writes(ws), queue_empty).0;
    assert(mid.pending == ws);
    let last = seq![EventView::Message(MessageView::ExecuteAtomicSwap)];
    assert(last.drop_first() =~= Seq::<EventView>::empty());
    let after = AofState { mode: st.mode, rewriting: false, pending: Seq::empty() };
    assert(aof_step(mid, last[0], queue_empty) == (after, seq![ActionView::Flush, ActionView::SwapIn(ws)]));
    assert(aof_run(after, Seq::<EventView>::empty(), queue_empty) == (after, Seq::<ActionView>::empty()));
    assert(aof_run(mid, last, queue_empty).1 =~= seq![ActionView::Flush, ActionView::SwapIn(ws)]);
    assert(aof_run(mid, last, queue_empty).0 == after);
    assert(events[0] == EventView::RewriteTick);
    assert(aof_step(st, events[0], queue_empty).0 == st1);
    let r = aof_run(st, events, queue_empty);
    let ra = aof_run(st1, writes(ws), queue_empty);
    assert(r.1 == seq![ActionView::StartCompaction] + (ra.1 + seq![ActionView::Flush, ActionView::SwapIn(ws)]));
}

proof fn lemma_run_append(st: AofState, a: Seq<EventView>, b: Seq<EventView>, queue_empty: bool)
    ensures
        aof_run(st, a + b, queue_empty) == ({
            let ra = aof_run(st, a, queue_empty);
            let rb = aof_run(ra.0, b, queue_empty);
            (rb.0, ra.1 + rb.1)
        }),
    decreases a.len(),
{
    if a.len() == 0 {
        assert(a + b =~= b);
        assert(Seq::<ActionView>::empty() + aof_run(st, b, queue_empty).1 =~= aof_run(st, b, queue_empty).1);
    } else {
        let first = aof_step(st, a[0], queue_empty);
        assert((a + b).drop_first() =~= a.drop_first() + b);
        lemma_run_append(first.0, a.drop_first(), b, queue_empty);
        let ra = aof_run(first.0, a.drop_first(), queue_empty);
        let rb = aof_run(ra.0, b, queue_empty);
        assert(first.1 + (ra.1 + rb.1) =~= (first.1 + ra.1) + rb.1);
    }
}

/// In `Always` mode every write is flushed and synced before the writer
/// handles anything else.
pub proof fn lemma_always_syncs_writes(st: AofState, w: Seq<u8>, queue_empty: bool)
    requires
        st.mode == PersistenceMode::Always,
    ensures
        ({
            let acts = aof_step(st, EventView::Message(MessageView::WriteBytes(w)), queue_empty).1;
            &&& acts[0] == ActionView::Write(w)
            &&& acts.last() == ActionView::Sync
            &&& acts[acts.len() - 2] == ActionView::Flush
        }),
{
}

/// The once-a-second tick changes no state; in `EverySec` mode it flushes
/// and then syncs the file, whether or not more records wait in the queue,
/// and in `Always` mode (where every write is already synced) it does
/// nothing.
pub proof fn lemma_flush_tick(st: AofState, queue_empty: bool)
    ensures
        aof_step(st, EventView::FlushTick, queue_empty).0 == st,
        st.mode == PersistenceMode::EverySec ==> aof_step(st, EventView::FlushTick, queue_empty).1 == seq![ActionView::Flush, ActionView::Sync],
        st.mode == PersistenceMode::Always ==> aof_step(st, EventView::FlushTick, queue_empty).1 == Seq::<ActionView>::empty(),
        aof_step(st, EventView::FlushTick, queue_empty) == aof_step(st, EventView::FlushTick, !queue_empty),
{
}

/// In `EverySec` mode, a run of ticks with nothing else in between flushes
/// and syncs once per tick, in order, whatever the queue holds.
pub proof fn lemma_everysec_ticks(st: AofState, n: nat, queue_empty: bool)
    requires
        st.mode == PersistenceMode::EverySec,
    ensures
        aof_run(st, Seq::new(n, |i: int| EventView::FlushTick), queue_empty)
            == (st, Seq::new(2 * n, |i: int| if i % 2 == 0 { ActionView::Flush } else { ActionView::Sync })),
    decreases n,
{
    let events = Seq::new(n, |i: int| EventView::FlushTick);
    if n > 0 {
        lemma_everysec_ticks(st, (n - 1) as nat, queue_empty);
        assert(events.drop_first() =~= Seq::new((n - 1) as nat, |i: int| EventView::FlushTick));
        let rest = Seq::new(2 * (n - 1) as nat, |i: int| if i % 2 == 0 { ActionView::Flush } else { ActionView::Sync });
        let all = Seq::new(2 * n, |i: int| if i % 2 == 0 { ActionView::Flush } else { ActionView::Sync });
        assert(seq![ActionView::Flush, ActionView::Sync] + rest =~= all) by {
            assert forall|i: int| 0 <= i < all.len() implies (seq![ActionView::Flush, ActionView::Sync] + rest)[i] == all[i] by {
                if i >= 2 {
                    assert((i - 2) % 2 == i % 2);
                }
            }
        }
    } else {
        assert(events =~= Seq::<EventView>::empty());
        assert(Seq::new(0nat, |i: int| if i % 2 == 0 { ActionView::Flush } else { ActionView::Sync }) =~= Seq::<ActionView>::empty());
    }
}

/// A write is written before anything else; it is flushed when no other
/// record waits; in `Always` mode it is then flushed and synced, and in
/// `EverySec` mode it is never synced on its own (the tick syncs it). While a
/// compaction runs it is also set aside, after what was set aside before.
pub proof fn lemma_write_actions(st: AofState, b: Seq<u8>, queue_empty: bool)
    ensures
        ({
            let r = aof_step(st, EventView::Message(MessageView::WriteBytes(b)), queue_empty);
            &&& r.1[0] == ActionView::Write(b)
            &&& (queue_empty ==> r.1[1] == ActionView::Flush)
            &&& (st.mode == PersistenceMode::EverySec ==> !r.1.contains(ActionView::Sync))
            &&& (st.mode == PersistenceMode::Always ==> r.1.last() == ActionView::Sync)
            &&& r.0.mode == st.mode
            &&& r.0.rewriting == st.rewriting
            &&& r.0.pending == (if st.rewriting { st.pending.push(b) } else { st.pending })
        }),
{
    let r = aof_step(st, EventView::Message(MessageView::WriteBytes(b)), queue_empty);
    if st.mode == PersistenceMode::EverySec {
        assert forall|i: int| 0 <= i < r.1.len() implies r.1[i] != ActionView::Sync by {}
    }
}

} // verus!
