# collector

The host-local half of a process monitor. `src/` is a Verus library that
holds the monitor's decisions, each with a contract that Verus proves:

- `processes`: process samples become summaries (instance id, command line,
  start time, note) and details (capability flags); the listing is ordered by
  CPU usage, highest first, ties kept in sampling order.
- `notes`: operator notes per process instance; blank notes clear, notes of
  vanished instances are dropped.
- `managed`: launched commands, their registry by run id, exit statuses and
  log file names.
- `logs`: numbering of captured lines, the bounded in-memory tail, the
  framing of stored records and the paging of stored records.
- `ordering`: the stable descending sort both listings use.
- `text`, `errors`: decimal rendering, whitespace trimming, joining; the
  refusals with their HTTP status codes.

Collections: the run registry is a `std::collections::HashMap` keyed by the
run id's 128 bits, with vstd's specification. The notes are kept in a `Vec`
of records, viewed as a map from instance id to record, because the original
key is a `String` instance id and vstd's map specification proves nothing
about `String` keys; a later record for an id hides an earlier one, and
writing a note first drops the instance's earlier record.

`app/` is the HTTP service (axum, tokio, sysinfo) around the library: it
reads the process table, spawns commands, reads and writes log files and
converts the library's values to and from JSON.
