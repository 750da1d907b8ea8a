# protocol

A TCP message protocol: each message is prefixed with its CRC-32,
optionally zlib-compressed (kept only when smaller), and cut into fragments
of at most 16 367 bytes, each behind a 17-byte big-endian header that
starts with a per-process random magic number. The receiver collects
fragments per message id, reassembles, decompresses, checks the CRC, and
bounds its memory by timeouts and limits on pending and delivered messages.

- `src/` is the verified library (Verus): header coding (`header`), CRC and
  zlib calls (`checksum`, `compress`), sealing and CRC checking
  (`message`), fragmentation (`fragment`), per-message reassembly
  (`assembler`), the endpoint state machine (`state`, `eviction`),
  configuration (`config`), the magic number (`random`) and the
  properties proved across them (`laws`).
- `app/` is the program around it: the tokio stream, timeouts, TCP
  keep-alive, the process-wide magic number and clock, and logging.
- `tests/` exercises the library on concrete values.
