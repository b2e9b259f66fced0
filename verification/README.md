# dlr

Append-log replication: the coding, log and receiver logic, verified with Verus.

| Path | Contents |
| --- | --- |
| `src/gf256.rs`, `src/linalg.rs` | The field of 256 elements and linear algebra over it |
| `src/lcg.rs` | The coefficient stream |
| `src/rlnc.rs`, `src/rlnc/` | Random linear network coding: encoder, decoder, sparse decoding, and what holds of them |
| `src/fountain.rs` | The peeling decoder |
| `src/bytes.rs`, `src/text.rs` | Little-endian numbers, ids, and the text of a divergence |
| `src/store.rs` | The content-addressed store with its session logs and rolling roots |
| `src/wal.rs` | The write-ahead log: record format, replay, and what replay gives back |
| `src/frame.rs`, `src/unpack.rs` | Frames, and the way from compressed bytes to blocks |
| `src/receiver.rs`, `src/receiver/` | Append, resync, bulk, reading, and what holds across frames |
| `app/` | Locks, files and printable errors around the library |
| `tests/` | Tests |

Hashing a root, decompression, the canonical block format and the fountain decoder are
functions that the library is given; what is proved holds for any.
