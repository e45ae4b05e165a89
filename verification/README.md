# kvs

A log-structured key/value store with a command line, a server and a client.

Every write is a record appended to the active log file (`<n>.log` in the
store's directory); an in-memory index maps each live key to the log,
position and size of its latest record. Logs are rotated past 1 MiB, and
compacted once more than 4 MiB of their bytes are dead. On open, the logs are
read back in order to rebuild the index.

## Layout

- `src/` is the library, verified with Verus:
  - `record.rs`: the record format (what `postcard` writes) and the calls
    into `postcard`;
  - `kv.rs`: the index (`KvIndex`), its writes, rotation and compaction
    plans, recovery on open (`Recovery`), and the laws that tie them
    together: a value written is read back; every write, rotation and
    compaction states how the logs change, and reopening the logs rebuilds
    the same index, also where a log ended early on open, while no string
    longer than the 1024-byte replay buffer was written and nothing was
    appended after a log's unreadable tail; the dead bytes counted are the
    bytes of the logs' records that no live record takes up; overwrites
    keep the logs bounded;
  - `log_files.rs`: which directory entries are logs, and their order;
  - `engines/`: the storage interface with its contract, the choice of
    engine, and the engine backed by `sled`;
  - `proto.rs`: the messages between client and server;
  - `error.rs`, `lib.rs`: the error types.
- `app/` is the programs: the file-backed store that moves the bytes the
  index asks for, the `kvs` command line, the server and the client.
- `tests/` drives the library, with the logs held in memory.
