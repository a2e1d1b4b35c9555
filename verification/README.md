# bonsaigrid

The logic of an in-memory data grid, written in Rust and proved with Verus. The library computes;
files, sockets, clocks and floating-point arithmetic are its callers' business.

## Modules

| Module | What it holds |
|--------|---------------|
| `protocol` | frames, messages, fragments and fixed-size fields of the client protocol |
| `codecs` | requests and responses: members, partitions, CP objects, executors |
| `raft` | the consensus core, its durable log, the replicated state machines, and the proof that a group agrees |
| `persistence` | log records, segments, snapshots, the plan of a recovery, and what replay gives |
| `jet` | stream processors: windows and what they put out, joins, line sources and sinks |
| `query` | field values, predicates, indexes, JSON values, SQL, and aggregation over several members |
| `member` | messages between members, backups, and the connections of the mesh |
| `bench` | what a load driver says and expects |

Shared by these: `bytes`, `wire`, `text`, `number`, `order`, `checksum`, `table` and `model`.

## How to read a contract

Each data type has a view, a mathematical value that contracts speak of. A function's `ensures`
says what it returns as a spec function of the views of its arguments. Facts that relate several
functions are public proof functions named `law_..`; their doc comments say them in words.

A double is kept as its bits together with its text. The library orders doubles and compares them
with integers exactly, and leaves adding and dividing to the caller: an aggregate hands out the
numbers that go into it.

What the proofs take on trust stands behind five small functions: a CRC-32 checksum, the check and
the lossy reading of UTF-8, and reading and writing a JSON object.

## Around the library

`app/` holds a load driver, and modules that put the library to work: the member mesh on io_uring,
logs and snapshots on disk, file and socket connectors, and query results as text. `tests/` runs
the library from outside.
