# shuffle

The Slice of a shuffle: it reads the journals of a task's bindings, sequences the
documents of their producers, appends them to the logs of shards, and reports progress
as checkpoints from which a later session restarts.

A restarted read begins at the furthest position which its checkpoint justifies. A
producer whose open transaction begins before that is *gapped*: its documents are
withheld until a newer one triggers a targeted backfill of the range that was skipped,
or until the transaction is rolled back.

`src/` is the verified state machine:

| Module | |
|---|---|
| `uuid`, `sequence`, `producer`, `producer_map` | the producer protocol, and per-producer state |
| `frontier`, `order`, `keyed`, `reduction` | mergeable checkpoints, and the laws of their reduction |
| `checkpoint` | restart resolution, and the classification of gaps |
| `read`, `heap`, `request` | journal reads, the order in which they drain, and read requests |
| `topology`, `flush`, `actor` | configuration, flush cycles, and the state of a Slice |
| `reading`, `drain`, `gap`, `append`, `session` | the events which step it |
| `laws` | what holds of recovery, backfills, sequencing and flushes as a whole |
| `epochs` | truncation epochs of materialized bindings |

`app/` is the event loop around it: channels, journal clients, timers and metrics.
