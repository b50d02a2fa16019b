# timelake

The rules of a time-series database node, written in Verus: how lines are
parsed, rows buffered and flushed, files cataloged and pruned, labels enforced,
credentials checked, settings layered, changes authorized and recorded.

- `src/` is the library. Every function states what it returns, and Verus proves
  it. Properties that span functions stand beside them as proof functions.
- `tests/` runs the library on concrete values.
- `app/` is the node around it: files, the object store, HTTP, Flight SQL and
  the query engine. It reads, asks the library, and does what it says.

| Module | What it decides |
|---|---|
| `ingest`, `prometheus`, `flight::doput` | rows from line protocol, remote write and Arrow batches |
| `buffer`, `buffer::flush` | one table's rows in memory, and how they become files |
| `catalog` | which files and deletions there are, and how a commit is won |
| `query` | who sees which rows, what a scan reads, what a query may do |
| `lastvalue` | the latest reading of each hot series |
| `auth`, `headers` | credentials, sessions, tokens and what they allow |
| `config`, `cluster`, `discovery` | settings and their layers, nodes and their roles |
| `api`, `flight` | what a request is answered |
| `audit` | the trail of changes and how tampering shows |

Outside crates are called through small functions marked
`#[verifier::external_body]`; the comment above each says what is claimed of the
call.
