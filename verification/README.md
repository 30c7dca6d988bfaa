# imcache

A Redis-compatible in-memory cache whose logic is a verified library: Verus
proves the contracts of the functions under `src/`, from those that are believed
of other crates and of the standard library. The server around it (sockets, files,
timers, command line) is ordinary Rust under `app/`.

## Modules of the library

| Module | What it holds |
|---|---|
| `resp` | RESP2 requests and replies on the wire |
| `decimal` | decimal integers, as the protocol and the commands use them |
| `commands` | the commands, and how a request is read as one |
| `execute` | what each command does to the keyspace, and what it replies |
| `store`, `shard`, `value`, `bytemap` | the keyspace: sixteen shards with expiry and approximated-LRU eviction |
| `collections`, `score` | lists, hashes, sets and sorted sets as values |
| `persistence::aof`, `persistence::snapshot` | the log of write commands, and snapshots |
| `cluster`, `config` | hash slots, their owners, and the operator's node list |
| `server`, `subscriber`, `replica` | what connections do with what comes in |
| `pubsub`, `replication`, `broadcast` | channels to subscribers and replicas |
| `laws` | what holds across commands, time, restarts and replicas |
| `buf` | what is relied on of the `bytes` crate |

## Reading the contracts

Each exec type has a view, a mathematical value that the contracts speak of:
`Store` a `StoreView`, `Command` a `CommandView`, `Reply` a `ReplyView`. The
central definitions are

- `resp::parse_spec`: what the front of a receive buffer holds,
- `commands::meaning`: which command a request is, or the complaint about it,
- `execute::outcome`: how a command may change the store, and what it replies,
- `laws::effect`: what a command does to the part of the keyspace that clients
  can see,
- `server::action_for`: what a connection does with a command,
- `server::serves`: what serving a request does, replies and records.

Whatever depends on the clock exists twice: `f_at` takes the time as an argument
and has an exact contract, and `f` reads the system clock and says that there was
some time at which it did what `f_at` does.

Where the behaviour of another crate is relied on, the item says so in its doc
comment: `bytes` in `buf`, `tokio` in `broadcast`, `bincode` in
`persistence::snapshot`, and the clock, random numbers and lossy UTF-8 decoding
of `std` and `rand` next to their uses.

## The server

`app/` keeps one `Store` behind a lock, appends the write commands to
`appendonly.aof`, writes snapshots to `dump.rdb`, and replays both on startup. A
line of the log, and of the stream to replicas, is the request as it came behind
the word `AT` and the time of its execution in milliseconds; it is taken over as
of that time. The server
offers strings and counters, lists, hashes, sets, sorted sets, expiry, publish/subscribe,
replication (`--replicaof`) and static clustering (`--cluster-nodes` with
`--cluster-self-index`).
