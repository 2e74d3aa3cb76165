# resp_store

An in-memory datastore that speaks RESP (the REdis Serialization Protocol),
with its logic verified by Verus.

- `src/` is the verified library:
  - `buffers.rs` declares the `Bytes`/`BytesMut` buffers of the `bytes` crate
    and the small trusted wrappers through which the library uses them;
  - `text.rs` holds decimal numbers (writing and reading them) and the lossy
    UTF-8 reading of bytes;
  - `frame.rs` holds the frames, their wire encoding and the two-pass decoder
    (`RespCodec`), with `codec_laws.rs` proving that encoded frames decode to
    themselves and that any cut of an encoded frame makes the decoder wait;
  - `cmd.rs` reads `GET`, `SET [EX]`, `DEL` and `EXIST` commands from frames;
  - `store.rs` is one shard: keys with values and deadlines, the commands,
    the sweep of expired keys and the records of a compaction;
    `store_laws.rs` states what holds across commands;
  - `db.rs` is the sharded store (64 shards, keys routed by a hash of the
    key's bytes after its length in the target's byte order), the shards a
    round of the sweeper visits, and the
    replay of an append-only file; `log_laws.rs` proves that replaying the
    log of `SET`s, or a compacted file, rebuilds the store;
  - `aof.rs` is the decision table of the append-only-file writer;
  - `stream_laws.rs` proves that how a byte stream is split into reads
    changes nothing: feeding the chunks one by one to the decoder gives the
    frames and the leftover bytes of decoding the whole stream at once, and
    replaying a file read in chunks reaches the same store, also when it
    stops at a bad frame.
- `app/` is the server: the TCP listener, the tokio tasks (writer, sweeper,
  connections), the locks around the shards and the file I/O.
- `tests/` runs the library on concrete inputs.

Time is counted in nanoseconds since the server started; the server passes
the current time to the library.

## Why a shard keeps its entries in a `Vec`

A shard holds its keys in a `Vec` of entries whose type invariant says that
no key occurs twice, and looks a key up by a scan. vstd does specify
`std::collections::HashMap`, but its contracts hold only under
`obeys_key_model::<K>()`, which vstd grants for integer and `bool` keys (and
boxes of them), not for `String`: with `String` keys a verified caller could
prove nothing about what a lookup returns, and supplying the missing fact
would take an unproved assumption. Keying the map by an integer hash of the
key instead would merge distinct keys whose hashes collide. The `Vec` keeps
the same observable behaviour (a key maps to at most one value; insertion
replaces; removal deletes) with every step proved.
