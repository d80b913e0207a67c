# event_streaming

A small Kafka-like event streaming broker and its command-line tool, written
in Verus. The library under `src/` holds the broker's logic with its
contracts and proofs; `app/` is the program around it (argument handling,
the real filesystem, the TCP listener).

## Library modules

- `model`: topics, partitions, offsets, records and the errors.
- `record_codec`: the on-disk frame of a record; encode and decode are
  proved inverse.
- `segment`, `partition_log`, `storage`: segment files, the log of a
  partition and the local storage engine (append, read, rotate, recover).
- `topic_store`, `topic_manager`: topic metadata files and the known topics.
- `partition_manager`: the partitions of the known topics over a storage
  engine.
- `offsets`, `consumer_group`: committed offsets files, group membership and
  round-robin assignment.
- `runtime`: the handling of each kind of broker request.
- `configuration`: the TOML subset of the configuration files, broker and
  network settings, frame lengths.
- `cli`, `workspace`: command-line parsing, the commands and workspace
  initialisation.
- `filesystem`: the filesystem interface and an in-memory filesystem.
- `text`, `bytes`, `paths`, `kv_text`, `order`: text, byte and path helpers.

Laws of the library are public proof functions whose names begin with
`law_`.

## What the proofs assume

The storage engine, the topic store and the offset store work through the
`FileSystem` trait of `filesystem`. Its contracts describe a filesystem as a
map of files and a set of directories; `MemoryFileSystem` implements them
and is verified against them. The filesystem that `app/` hands the library
(`LocalFileSystem`, over the real disk) is not verified: every contract of
the trait — that a write stores the bytes given, that a listing names each
child of a directory once, that a read gives back what is stored — is
assumed to hold of the disk. What the library proves of its logs, topics
and offsets holds of the disk only as far as that assumption does.

The clock is read through std's `SystemTime` with nothing assumed of it:
`LocalStorageEngine::append_at` is the verified append for a given time.

Read-back of produced records is proved for partitions that the storage
engine tracks: the partition's state agrees with its segment files. A fresh
engine tracks nothing and knows nothing; flushing a partition with nothing
stored, recovering a partition stored as the engine writes it, reading, and
appending (while the state leaves room for another segment and another
record) establish or keep that tracking, and `BrokerRuntime::tracking`
carries it across requests.
