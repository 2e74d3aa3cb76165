use bytes::Bytes;
use resp_store::aof::{AofAction, AofEvent, AofWorker, DbMessage, PersistenceMode};

fn names(actions: &[AofAction]) -> Vec<String> {
    actions
        .iter()
        .map(|a| match a {
            AofAction::Write(b) => format!("write {}", String::from_utf8_lossy(b)),
            AofAction::Flush => "flush".to_string(),
            AofAction::Sync => "sync".to_string(),
            AofAction::SwapIn(v) => format!("swap {}", v.len()),
            AofAction::StartCompaction => "compact".to_string(),
        })
        .collect()
}

fn write(s: &str) -> AofEvent {
    AofEvent::Message(DbMessage::WriteBytes(Bytes::from(s.to_string())))
}

#[test]
fn every_sec_writes_and_flushes_when_idle() {
    let mut w = AofWorker::new(PersistenceMode::EverySec);
    assert_eq!(names(&w.handle(write("a"), false)), vec!["write a"]);
    assert_eq!(names(&w.handle(write("b"), true)), vec!["write b", "flush"]);
    assert_eq!(names(&w.handle(AofEvent::FlushTick, true)), vec!["flush", "sync"]);
}

#[test]
fn always_syncs_after_every_write() {
    let mut w = AofWorker::new(PersistenceMode::Always);
    assert!(matches!(w.mode(), PersistenceMode::Always));
    assert_eq!(names(&w.handle(write("a"), false)), vec!["write a", "flush", "sync"]);
    assert_eq!(names(&w.handle(write("b"), true)), vec!["write b", "flush", "flush", "sync"]);
    assert!(w.handle(AofEvent::FlushTick, true).is_empty());
}

#[test]
fn writes_during_a_compaction_are_kept_for_the_swap() {
    let mut w = AofWorker::new(PersistenceMode::EverySec);
    assert_eq!(names(&w.handle(write("before"), false)), vec!["write before"]);
    assert_eq!(names(&w.handle(AofEvent::RewriteTick, true)), vec!["compact"]);
    assert!(w.is_rewriting());
    w.handle(write("x"), false);
    w.handle(write("y"), false);
    let actions = w.handle(AofEvent::Message(DbMessage::ExecuteAtomicSwap), true);
    assert_eq!(names(&actions), vec!["flush", "swap 2"]);
    match &actions[1] {
        AofAction::SwapIn(v) => {
            assert_eq!(&v[0][..], b"x");
            assert_eq!(&v[1][..], b"y");
        },
        _ => panic!(),
    }
    assert!(!w.is_rewriting());
    let again = w.handle(AofEvent::Message(DbMessage::ExecuteAtomicSwap), true);
    assert_eq!(names(&again), vec!["flush", "swap 0"]);
}
