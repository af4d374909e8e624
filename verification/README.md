# linexus-logger

The operational log service of the Linexus ecosystem: an immutable audit trail
for journal lines and task events, plus an append-only ledger and its decay
sweeper. The library is written and proved in Verus; the program around it is
ordinary Rust.

A segment is never rewritten. Append is the only mutation, and retention
deletes whole expired segments; the segment that is being written is never
touched. Queries run against a bounded in-memory index that is rebuilt from the
segments when the log is opened, so a restart loses nothing. A line that was
torn by a crash or by a full disk is skipped on replay. It takes no other entry
with it: the next record starts on a line of its own. After a write that failed
the log looks at the file before it writes again, so that what never reached
the disk counts for nothing.

## Layout

- `src/` is the verified library. It decides and computes.
  - `oplog`: the log: appending, rotation, queries, replay, retention.
  - `durability`, `retention`, `runs`: what the log promises of its segments
    taken together, and in every state that it can reach.
  - `segments`, `lines`: file names, and the line format of a segment.
  - `http`: who may call the log, and what a request is answered.
  - `audit`, `api`: operational events in a database, and their requests.
  - `event_table`: what the database of events promises.
  - `segmented_log`, `decay`: the ledger and its sweeper.
  - `config`, `decimal`, `text`, `timestamp`, `headers`, `ids`, `json`: settings,
    numbers, text, time, and what is taken from other crates.
- `app/` is the service: files, network, database and JSON.
- `tests/` runs the library, with a disk in memory and a real SQLite database.

## HTTP surface

| Route | Purpose |
| --- | --- |
| `GET /healthz` | liveness and counters |
| `POST /logs` | ingest one entry or a batch: `{message, level?, source?, agent_id?, task_id?, timestamp?, metadata?}` |
| `GET /logs?agent_id=&task_id=&level=&limit=` | most recent first, `limit` clamped to 1 to 1000 |

## Environment

| Variable | Default | Purpose |
| --- | --- | --- |
| `LOGGER_BIND` | `0.0.0.0:5151` | listen address |
| `LOGGER_DATA_DIR` | `./logger-data` | segment directory |
| `LOGGER_SEGMENT_ENTRIES` | `10000` | entries per segment before rotation |
| `LOGGER_INDEX_ENTRIES` | `50000` | in-memory query window |
| `LOGGER_RETENTION_DAYS` | `30` | drop whole segments older than this |
| `LINEXUS_SERVICE_TOKEN` | *(unset = open)* | shared bearer token |
