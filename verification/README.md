# pebbledb

A small persistent key-value store with a log-structured merge tree: a write-ahead log, a memtable,
sorted table files in levels, bloom filters, and compaction. The engine is verified with Verus.

## Layout

- `src/` is the verified library. It decides what is to be done to the files of a database
  directory; it does not touch the file system itself.
- `app/` is ordinary Rust around it: the command line, the file system, locks for threads, the
  clock of the cache, and a harness for crash tests.
- `tests/` runs the library on directories held in memory.

## How the engine works with files

`PebbleDB::open` takes a `Directory`, the files by name, and leaves in it what opening did to them.
Every later call adds the file operations that it needs to a journal, oldest first. Whoever drives
the engine takes them with `take_ops` and carries them out before telling anyone that the call
succeeded, also where the call returned an error: the operations up to the error are the ones that
were due.

## What is proved

- Formats: what is encoded is decoded again, for records, log entries, table files, bloom filters,
  file names and the marker of a pending merge. A changed byte of a record in the log is noticed,
  and a log that is cut off anywhere gives its complete records.
- Reading: the newest record of a key decides; bloom filters do not change what is found; a scan is
  exactly the keys that have a value, in order; a range is the part of it that its bounds admit.
- The handle: a key keeps its value through any number of calls that do not write it, whether they
  succeed or fail, and a write that fails has happened or has not.
- Merging: compaction keeps every value, keeps the tables of a level apart, comes to an end, and
  leaves every level within its budget. What is merged does not depend on the order in which the
  files are listed, and the records of an output take no more than its target, unless it is a single
  record.
- Durability: wherever the process ends during a write, a flush, a merge or an opening, opening the
  directory again finds every acknowledged write, and nothing that was deleted comes back.
  A directory that was opened can be opened again, with the same outcome and nothing to do.
- Determinism: the same call on the same state does the same, faults and all.
- The cache: what is stored is found until it expires, and clearing it leaves other keys alone.

The laws are the public proof functions whose names begin with `law_`.

## What is trusted

Three functions of the standard library whose behaviour is stated and not proved:
`String::push`, `String::from_utf8` and `Arc::clone`.

Durability is about the end of the process, not about the loss of power: table files are renamed
into place without being forced to the device.
