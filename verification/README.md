# pggraph

Durable graph projections over PostgreSQL tables, and the planner and executor of a
graph query subset that reads them. The library is written in Verus: every public
function of `src/` has a contract, and the verifier proves the code against the
contracts. What it takes on trust are the contracts of a few calls into std and other
crates, each behind an item that says so.

## Layout

- `src/projection/` holds the durable side.
  - `segment` is the delta segment file format: what is encoded decodes to itself, and
    what decodes has one encoding.
  - `normalize` turns committed mutations into one row per edge and node.
  - `neighbors` and `layered` read neighbors through base artifact, base chunks,
    durable segments, committed overlays and the running transaction (`tx_delta`).
  - `manifest`, `ingest`, `compact`, `sources`, `chunk`, `gc`, `recovery` and `status`
    decide what a generation references, what is published next and what may be
    deleted.
  - `replay` and `says` state how segments add up; `preservation` proves that reads
    survive compaction, into a segment and into base chunks, and says where a read in
    both directions need not. `readers` extends this to reads that are limited to a
    tenant or go through committed overlays and a transaction, and `compaction_laws`
    to what generations read from their files. `lineage` states what holds of all
    generations that ingestion and compaction publish, one after the other.
  - `ingest_laws` states what a published segment says of the rows behind it, and
    `artifact_laws` what publications and garbage collection leave in a directory.
- `src/query/` holds the query side.
  - `catalog_snapshot`, `scope`, `predicates`, `semantics`, `joins` and `wildcard`
    bind statements against a catalog; `sqlpgq_adapter` binds SQL/PGQ reads.
  - `logical_plan`, `physical_plan`, `lower` and `explain` are the plans.
  - `engine`, `steps`, `expand`, `rows`, `execute`, `execute_join` and
    `execute_wildcard` run plans over the topology stores.
  - `json`, `json_order`, `hydrate`, `evaluate`, `slots`, `filter`, `aggregate` and
    `value` project rows to results.
  - `binding_laws`, `walks`, `results`, `join_laws`, `wildcard_laws`, `value_laws` and
    `json_laws` state what holds of all queries.
- `app/` is ordinary Rust around the library: files, JSON manifests, clocks, locks,
  the transaction state of a backend, and statements that the database runs.
- `tests/` runs the library, with artifact directories held in memory.

## What is taken on trust

CRC32 checksums come from `crc32fast`; the text of quoted JSON strings and the
conversion of integers to floating point come from `serde_json`; white space is
trimmed by the standard library, which also tells how much memory texts, vectors,
maps and sets have reserved. Sums and means of aggregates are floating point and are
computed by the caller, from inputs that the library names. Nothing else is assumed.
