use bytes::{Bytes, BytesMut};
use resp_store::cmd::Command;
use resp_store::db::{route, shard_index, sweep_round, target_is_little_endian, ReplayEnd, ShardedDb, NUM_SHARDS, SWEEP_BATCH};
use resp_store::frame::{RespCodec, RespFrame};
use resp_store::store::Shard;

const SEC: u128 = 1_000_000_000;

fn bulk(s: &str) -> RespFrame {
    RespFrame::BulkString(Bytes::from(s.to_string()))
}

fn set(key: &str, value: &str, time: Option<u64>) -> Command {
    Command::SetKey { key: key.to_string(), value: bulk(value), time }
}

fn get(key: &str) -> Command {
    Command::Get { key: key.to_string() }
}

fn null() -> RespFrame {
    RespFrame::SimpleString("Null".to_string())
}

#[test]
fn get_after_set_returns_the_value() {
    let mut s = Shard::new();
    let (reply, log) = s.apply(set("k", "v", None), 0);
    assert_eq!(reply, RespFrame::SimpleString("OK".to_string()));
    assert_eq!(log, Some(RespFrame::Array(vec![bulk("SET"), bulk("k"), bulk("v")])));
    assert_eq!(s.apply(get("k"), 5).0, bulk("v"));
    assert_eq!(s.len(), 1);
}

#[test]
fn get_of_a_missing_key_is_null() {
    let mut s = Shard::new();
    assert_eq!(s.apply(get("nope"), 0), (null(), None));
}

#[test]
fn set_logs_its_expiry() {
    let mut s = Shard::new();
    let (_, log) = s.apply(set("k", "v", Some(60)), 0);
    assert_eq!(log, Some(RespFrame::Array(vec![bulk("SET"), bulk("k"), bulk("v"), bulk("EX"), bulk("60")])));
}

#[test]
fn expired_keys_are_never_returned() {
    let mut s = Shard::new();
    s.apply(set("k", "v", Some(1)), 10);
    assert_eq!(s.apply(get("k"), 10 + SEC).0, bulk("v"));
    assert!(s.contains_key(&"k".to_string()));
    assert_eq!(s.apply(get("k"), 10 + SEC + 1).0, null());
    assert!(!s.contains_key(&"k".to_string()));
}

#[test]
fn set_overwrites_and_clears_expiry() {
    let mut s = Shard::new();
    s.apply(set("k", "a", Some(1)), 0);
    s.apply(set("k", "b", None), 0);
    assert_eq!(s.apply(get("k"), 100 * SEC).0, bulk("b"));
    assert_eq!(s.len(), 1);
}

#[test]
fn del_counts_removals() {
    let mut s = Shard::new();
    s.apply(set("k", "v", None), 0);
    assert_eq!(s.apply(Command::Del { key: "k".to_string() }, 0).0, RespFrame::Integer(1));
    assert_eq!(s.apply(Command::Del { key: "k".to_string() }, 0).0, RespFrame::Integer(0));
    assert_eq!(s.apply(get("k"), 0).0, null());
}

#[test]
fn exist_answers_one_or_zero_and_ignores_expiry() {
    let mut s = Shard::new();
    s.apply(set("k", "v", Some(1)), 0);
    assert_eq!(s.apply(Command::Exist { key: "k".to_string() }, 0).0, RespFrame::Integer(1));
    assert_eq!(s.apply(Command::Exist { key: "k".to_string() }, 5 * SEC).0, RespFrame::Integer(1));
    assert_eq!(s.apply(Command::Exist { key: "x".to_string() }, 0).0, RespFrame::Integer(0));
}

#[test]
fn unknown_commands_get_an_error() {
    let mut s = Shard::new();
    assert_eq!(s.apply(Command::Unknown, 0), (RespFrame::Error("ERR unknown command".to_string()), None));
}

#[test]
fn purge_drops_only_expired_keys() {
    let mut s = Shard::new();
    s.apply(set("a", "1", Some(1)), 0);
    s.apply(set("b", "2", Some(10)), 0);
    s.apply(set("c", "3", None), 0);
    s.purge_expired(SEC);
    assert_eq!(s.len(), 3);
    s.purge_expired(SEC + 1);
    assert_eq!(s.len(), 2);
    assert!(!s.contains_key(&"a".to_string()));
    assert_eq!(s.apply(get("b"), SEC + 1).0, bulk("2"));
    assert_eq!(s.apply(get("c"), SEC + 1).0, bulk("3"));
}

#[test]
fn insert_and_remove() {
    let mut s = Shard::new();
    s.insert("k".to_string(), bulk("v"), None);
    assert!(s.contains_key(&"k".to_string()));
    assert!(s.remove(&"k".to_string()));
    assert!(!s.remove(&"k".to_string()));
    assert_eq!(s.len(), 0);
}

#[test]
fn rewrite_frames_keep_live_keys_with_seconds_left() {
    let mut s = Shard::new();
    s.apply(set("gone", "x", Some(1)), 0);
    s.apply(set("soon", "y", Some(10)), 0);
    s.apply(set("forever", "z", None), 0);
    let mut frames = s.rewrite_frames(SEC + 500_000_000);
    frames.sort_by_key(|f| format!("{:?}", f));
    let mut want = vec![
        RespFrame::Array(vec![bulk("SET"), bulk("soon"), bulk("y"), bulk("EX"), bulk("8")]),
        RespFrame::Array(vec![bulk("SET"), bulk("forever"), bulk("z")]),
    ];
    want.sort_by_key(|f| format!("{:?}", f));
    assert_eq!(frames, want);
    // a key whose deadline is exactly now is not rewritten
    assert_eq!(s.rewrite_frames(10 * SEC).len(), 1);
}

#[test]
fn shard_index_is_stable_and_in_range() {
    let db = ShardedDb::new();
    for k in ["user:100", "user:101", "", "\u{1F600}"] {
        let key = k.to_string();
        let i = db.get_shard_index(&key);
        assert!(i < NUM_SHARDS);
        assert_eq!(i, shard_index(&key, db.little_endian()));
        assert_eq!(i, db.get_shard_index(&key));
    }
}

#[test]
fn sharded_db_behaves_as_one_store() {
    let mut db = ShardedDb::default();
    for i in 0..200 {
        db.apply(set(&format!("user:{}", i), &format!("v{}", i), None), 0);
    }
    for i in 0..200 {
        assert_eq!(db.apply(get(&format!("user:{}", i)), 0).0, bulk(&format!("v{}", i)));
    }
    assert_eq!(db.apply(Command::Del { key: "user:7".to_string() }, 0).0, RespFrame::Integer(1));
    assert_eq!(db.apply(get("user:7"), 0).0, null());
    assert_eq!(db.apply(Command::Unknown, 0).0, RespFrame::Error("ERR unknown command".to_string()));
    let little = db.little_endian();
    let shards = db.into_shards();
    assert_eq!(shards.len(), NUM_SHARDS);
    let total: usize = shards.iter().map(|s| s.len()).sum();
    assert_eq!(total, 199);
    for (i, s) in shards.iter().enumerate() {
        for k in 0..200 {
            let key = format!("user:{}", k);
            if s.contains_key(&key) {
                assert_eq!(shard_index(&key, little), i);
            }
        }
    }
}

#[test]
fn replaying_the_log_rebuilds_the_store() {
    let mut db = ShardedDb::new();
    let mut log = BytesMut::new();
    let mut codec = RespCodec;
    let cmds = vec![set("a", "1", None), set("b", "2", Some(30)), set("a", "3", None), get("a")];
    for c in cmds {
        let (_, record) = db.apply(c, 7);
        if let Some(f) = record {
            codec.encode(f, &mut log).unwrap();
        }
    }
    let mut restored = ShardedDb::new();
    let mut buf = log.clone();
    assert!(matches!(restored.replay(&mut buf, 7), ReplayEnd::NeedMore));
    assert!(buf.is_empty());
    assert_eq!(restored.apply(get("a"), 7).0, bulk("3"));
    assert_eq!(restored.apply(get("b"), 7 + 30 * SEC).0, bulk("2"));
    assert_eq!(restored.apply(get("b"), 7 + 30 * SEC + 1).0, null());
}

#[test]
fn replay_stops_at_a_cut_frame_and_keeps_it() {
    let mut db = ShardedDb::new();
    let mut buf = BytesMut::from(&b"*3\r\n$3\r\nSET\r\n$1\r\nk\r\n$1\r\nv\r\n*3\r\n$3\r\nSET\r\n$1\r\nj"[..]);
    assert!(matches!(db.replay(&mut buf, 0), ReplayEnd::NeedMore));
    assert_eq!(&buf[..], b"*3\r\n$3\r\nSET\r\n$1\r\nj");
    assert_eq!(db.apply(get("k"), 0).0, bulk("v"));
    assert_eq!(db.apply(get("j"), 0).0, null());
}

#[test]
fn replay_skips_other_commands_and_stops_at_bad_frames() {
    let mut db = ShardedDb::new();
    let mut buf = BytesMut::from(&b"*2\r\n$3\r\nDEL\r\n$1\r\nk\r\n:5\r\n?"[..]);
    match db.replay(&mut buf, 0) {
        ReplayEnd::Invalid(e) => assert_eq!(e.describe(), "Invalid Protocol: Invalid Protocol"),
        _ => panic!("expected a protocol error"),
    }
    assert_eq!(&buf[..], b"?");
    let text = format!("*1\r\n${}\r\n", usize::MAX);
    let mut buf = BytesMut::from(text.as_bytes());
    assert!(matches!(db.replay(&mut buf, 0), ReplayEnd::Oversized));
}

#[test]
fn compaction_then_replay_keeps_live_keys() {
    let mut shard = Shard::new();
    shard.apply(set("gone", "x", Some(1)), 0);
    shard.apply(set("soon", "y", Some(10)), 0);
    shard.apply(set("forever", "z", None), 0);
    let mut file = BytesMut::new();
    let mut codec = RespCodec;
    for f in shard.rewrite_frames(2 * SEC) {
        codec.encode(f, &mut file).unwrap();
    }
    let mut db = ShardedDb::new();
    assert!(matches!(db.replay(&mut file, 100 * SEC), ReplayEnd::NeedMore));
    assert_eq!(db.apply(get("gone"), 100 * SEC).0, null());
    assert_eq!(db.apply(get("forever"), 100 * SEC).0, bulk("z"));
    assert_eq!(db.apply(get("soon"), 108 * SEC).0, bulk("y"));
    assert_eq!(db.apply(get("soon"), 108 * SEC + 1).0, null());
}

#[test]
fn query_answers_reads_without_changing_the_shard() {
    let mut s = Shard::new();
    s.apply(set("k", "v", Some(1)), 0);
    assert_eq!(s.query(&get("k"), SEC), Some((bulk("v"), false)));
    assert_eq!(s.query(&get("k"), SEC + 1), Some((null(), true)));
    assert!(s.contains_key(&"k".to_string()));
    assert_eq!(s.query(&get("x"), 0), Some((null(), false)));
    assert_eq!(s.query(&Command::Exist { key: "k".to_string() }, 5 * SEC), Some((RespFrame::Integer(1), false)));
    assert_eq!(s.query(&set("k", "w", None), 0), None);
    assert_eq!(s.query(&Command::Unknown, 0), None);
}

#[test]
fn routes_follow_the_key() {
    for little in [true, false] {
        assert_eq!(route(&get("user:1"), little), Some(shard_index(&"user:1".to_string(), little)));
        assert_eq!(route(&set("user:1", "v", None), little), Some(shard_index(&"user:1".to_string(), little)));
        assert_eq!(route(&Command::Unknown, little), None);
    }
    assert_eq!(resp_store::store::unknown_command_reply(), RespFrame::Error("ERR unknown command".to_string()));
}

fn hashed_as_bytes(key: &str) -> usize {
    let mut hasher = std::collections::hash_map::DefaultHasher::new();
    std::hash::Hash::hash(&Bytes::from(key.to_string()), &mut hasher);
    (std::hash::Hasher::finish(&hasher) % NUM_SHARDS as u64) as usize
}

#[test]
fn shard_index_hashes_the_key_as_a_byte_string() {
    for key in ["", "a", "k", "user:1", "user:2", "a much longer key than eight bytes", "ключ"] {
        let native = target_is_little_endian();
        assert_eq!(shard_index(&key.to_string(), native), hashed_as_bytes(key), "key {:?}", key);
        assert_eq!(ShardedDb::new().get_shard_index(&key.to_string()), hashed_as_bytes(key));
    }
}

#[test]
fn the_byte_order_is_the_targets() {
    let native_little = 1usize.to_ne_bytes()[0] == 1;
    assert_eq!(target_is_little_endian(), native_little);
    assert_eq!(ShardedDb::new().little_endian(), native_little);
}

#[test]
fn the_other_byte_order_hashes_the_length_reversed() {
    let key = "user:1";
    let little = shard_index(&key.to_string(), true);
    let big = shard_index(&key.to_string(), false);
    let mut hasher = std::collections::hash_map::DefaultHasher::new();
    std::hash::Hasher::write(&mut hasher, &key.len().to_be_bytes());
    std::hash::Hasher::write(&mut hasher, key.as_bytes());
    assert_eq!(big, (std::hash::Hasher::finish(&hasher) % NUM_SHARDS as u64) as usize);
    let mut hasher = std::collections::hash_map::DefaultHasher::new();
    std::hash::Hasher::write(&mut hasher, &key.len().to_le_bytes());
    std::hash::Hasher::write(&mut hasher, key.as_bytes());
    assert_eq!(little, (std::hash::Hasher::finish(&hasher) % NUM_SHARDS as u64) as usize);
}

#[test]
fn sweep_rounds_visit_sixteen_shards_in_turn() {
    assert_eq!(SWEEP_BATCH, 16);
    let (first, next) = sweep_round(0);
    assert_eq!(first, (0..16).collect::<Vec<usize>>());
    assert_eq!(next, 16);
    let (wrap, next) = sweep_round(56);
    assert_eq!(wrap, vec![56, 57, 58, 59, 60, 61, 62, 63, 0, 1, 2, 3, 4, 5, 6, 7]);
    assert_eq!(next, 72);
    let mut cursor = 0;
    let mut seen = vec![0; NUM_SHARDS];
    for _ in 0..4 {
        let (targets, next) = sweep_round(cursor);
        for t in targets {
            seen[t] += 1;
        }
        cursor = next;
    }
    assert!(seen.iter().all(|&n| n == 1));
}

#[test]
fn replay_does_not_depend_on_how_the_file_is_read() {
    let mut db = ShardedDb::new();
    let mut log = BytesMut::new();
    let mut codec = RespCodec;
    let cmds = vec![
        set("a", "1", None),
        set("b", "2", Some(30)),
        set("a", "3", None),
        set("c", "a value with spaces", Some(5)),
        set("b", "4", None),
    ];
    for c in cmds {
        let (_, record) = db.apply(c, 7);
        if let Some(f) = record {
            codec.encode(f, &mut log).unwrap();
        }
    }
    let whole = log.to_vec();
    for size in 1..=whole.len() {
        let mut restored = ShardedDb::new();
        let mut buf = BytesMut::new();
        for chunk in whole.chunks(size) {
            buf.extend_from_slice(chunk);
            assert!(matches!(restored.replay(&mut buf, 7), ReplayEnd::NeedMore));
        }
        assert!(buf.is_empty(), "chunks of {}", size);
        assert_eq!(restored.apply(get("a"), 7).0, bulk("3"));
        assert_eq!(restored.apply(get("b"), 7 + 100 * SEC).0, bulk("4"));
        assert_eq!(restored.apply(get("c"), 7 + 5 * SEC).0, bulk("a value with spaces"));
        assert_eq!(restored.apply(get("c"), 7 + 5 * SEC + 1).0, null());
    }
}

#[test]
fn replay_reads_a_file_that_stops_at_a_bad_frame_alike_in_any_chunks() {
    let mut log = BytesMut::new();
    let mut codec = RespCodec;
    codec.encode(RespFrame::Array(vec![bulk("SET"), bulk("a"), bulk("1")]), &mut log).unwrap();
    codec.encode(RespFrame::Array(vec![bulk("SET"), bulk("b"), bulk("2")]), &mut log).unwrap();
    log.extend_from_slice(b"?bad\r\n");
    codec.encode(RespFrame::Array(vec![bulk("SET"), bulk("c"), bulk("3")]), &mut log).unwrap();
    let whole = log.to_vec();
    let mut at_once = ShardedDb::new();
    let mut all = BytesMut::from(&whole[..]);
    assert!(matches!(at_once.replay(&mut all, 0), ReplayEnd::Invalid(_)));
    for size in 1..=whole.len() {
        let mut db = ShardedDb::new();
        let mut buf = BytesMut::new();
        let mut last_invalid = false;
        for chunk in whole.chunks(size) {
            buf.extend_from_slice(chunk);
            last_invalid = matches!(db.replay(&mut buf, 0), ReplayEnd::Invalid(_));
        }
        assert!(last_invalid, "chunks of {}", size);
        assert_eq!(&buf[..], &all[..]);
        assert_eq!(db.apply(get("a"), 0).0, bulk("1"));
        assert_eq!(db.apply(get("b"), 0).0, bulk("2"));
        assert_eq!(db.apply(get("c"), 0).0, null());
    }
}
