# remote_ram

A remote memory-pool service: a server keeps fixed-size, zero-initialised
pools of bytes under random ids and answers a line-oriented protocol
(`ALLOCATE`, `WRITE`, `WRITE_BIN`, `READ`, `READ_BIN`, `DELETE`, `INFO`,
`LIST`, `STATUS`, `PING`); a client builds those requests and reads the
answers.

Requests may be pipelined: the server cuts its buffered input at line feeds
and answers each complete request in order with one line, keeping an
unfinished tail for the next read. A binary write is the header
`WRITE_BIN <pool_id> <offset> <count>`, a line feed and `count` raw bytes;
a read is answered by `OK <count>`, a line feed and the bytes read.

Layout:

- `src/` — the verified library (Verus).
  - `text.rs`: Unicode white space, word splitting, trimming, decimal and
    hexadecimal numerals, reading unsigned numbers.
  - `encoding.rs`: bytes ⇄ characters ⇄ `String`.
  - `pool.rs`: one pool and its byte-level operations.
  - `table.rs`: the pool table, a `dashmap::DashMap` behind specified wrappers.
  - `bridge.rs`: the store — allocation, writes, reads, status.
  - `protocol.rs`: framing the byte stream into requests, decoding and
    serving them.
  - `client.rs`: request texts and the reading of answers.
  - `laws.rs`: properties across operations (read-after-write, fresh pools
    read as zero, refusals change nothing, client/server round trips).
  - `stream_laws.rs`: framing and pipelining (one answer per request line),
    binary writes and reads seen end to end, deletion.
  - `answer_lines.rs`: every answer is one line; only a read's answer is
    followed by data.
- `tests/` — tests of the library.
- `app/` — the programs: the TCP server loop (tokio), the TCP client, and
  the global allocator over libc.
