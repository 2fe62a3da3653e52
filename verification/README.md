# udp_ring_queue

Moves fixed-size log records from one process to another over UDP in
batched frames, while bounding the memory of both sides. Every record put
into a batch is in exactly one frame, in order, and decoding the frames gives
the batch back; the network itself may still drop or reorder datagrams, and
full backlogs evict their oldest records on purpose.

- `src/` is the verified library:
  - `types.rs`: the `LogItem` trait and the `UnifiedIp` record with its
    84-byte little-endian wire form (encoding and decoding are inverse).
  - `frame.rs`: the datagram frame (type byte, `u32` count, payload), frame
    sizing constants and hints, and decoding of received datagrams.
  - `encoder.rs`: packing records into frames that each fit one datagram;
    the frames of a batch decode back to exactly the batch.
  - `ring.rs`: a fixed-capacity ring that keeps the newest items.
  - `stream.rs`: per-stream backlogs that always accept records and evict the
    oldest when full, export batches that are put back on failure, and
    counters that stay balanced with the backlog.
  - `pool.rs`: a shared stock of datagram buffers over `crossbeam_queue`.
- `app/` runs the sender and the receiver: sockets, batched syscalls,
  threads, locks and the async export loop.
- `tests/` exercise the library on concrete values.
