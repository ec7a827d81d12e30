# Shardscape

Self-hosted S3 storage over several sites, with global deduplication. Every site keeps its own
metadata and serves reads and writes on its own; sites converge by exchanging a log of facts.

`src/` is the library. All of it is verified with Verus: what a request answers, what it changes
in the metadata, how bodies are cut into blocks, how facts merge, what garbage collection may
delete, and how the nodes of a cluster talk to each other. `app/` is the program around it: the
command line, sockets, the database file, the block files. `tests/` runs the library.

## Layout of `src/`

| Subject | Modules |
| --- | --- |
| S3 requests | `s3`, `storage`, `parts`, `upload`, `ranges`, `grouping`, `paging` |
| Metadata | `store`, `rows`, `table`, `order`, `listing`, `multipart`, `blockmeta` |
| Convergence | `lww`, `facts`, `peers`, `catchup`, `clock` |
| Blocks between sites | `replication`, `drain`, `fetching`, `gc`, `maintenance`, `readback` |
| Blocks | `chunking`, `digest`, `hashing`, `buffers` |
| Cluster traffic | `handshake`, `noise_transport`, `internal`, `web` |
| Access | `db`, `presets` |
| A site | `config`, `site`, `disk`, `rounding` |
| Helpers | `codec`, `text`, `seqs` |

## What is proved

Contracts speak of `StoreView`, the tables of a site as mathematical maps. The public proof
functions state what holds across requests, among them:

- a body that was put is what a read gives back, whole or in ranges (`readback`);
- the pages of a listing together hold each key and each common prefix once (`paging`);
- sites that have applied the same facts agree, whatever the order, where no two of them contend
  at the same instant (`facts`, `catchup`);
- a block that a live object names is never collected (`gc`);
- a block that another site holds and this one lacks stays queued until it is stored here (`fetching`);
- frames sealed under a secret read as the same bytes to whoever holds it (`noise_transport`).

## What is trusted

Calls into other crates stand in small functions whose contracts are believed: hashing
(`digest`), byte buffers (`buffers`), text encodings (`codec`), content-defined cuts (`chunking`),
upload ids (`multipart`), the Noise session (`handshake`, `noise_transport`), random numbers
(`site`, `peers`), the system time (`clock`) and lossy UTF-8 (`web`).
