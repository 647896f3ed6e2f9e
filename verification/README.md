# rtdp_core

A verified library for RTDP/1, a binary frame protocol for low-latency,
loss-aware data transport with bounded replay. The library is written in
Verus: the verifier proves the contract of every function in `src/`, except
the small wrappers around outside code in `src/wire.rs` (`byteorder`),
`src/checksum.rs` (`crc32c`) and `src/clock.rs` (`std::time`), whose
contracts are trusted: each states only what that code's documentation and
source show.

## Layout

- `src/wire.rs`: big-endian field access (through `byteorder`).
- `src/checksum.rs`: CRC-32C (through `crc32c`).
- `src/clock.rs`: monotonic time (through `std::time`).
- `src/error.rs`: the error-code registry and the library's error type.
- `src/hex.rs`: hexadecimal text, as the conformance vectors write frames.
- `src/protocol/`: the fixed header, TLV header extensions, frames.
- `src/serialization.rs`: the frame codec and its round-trip laws.
- `src/buffers.rs`: the publisher's retention ring.
- `src/sequence/`: sequence tracking and duplicate suppression.
- `src/recovery.rs`: replay requests, retries and reordering on the
  subscriber side, and the replay payload formats.
- `src/delivery.rs`: the four delivery modes.
- `src/transport.rs`: the decisions of the UDP transport: publishing,
  answering replay requests, handling each received datagram.
- `src/cabi.rs`: the records and status codes of the C interface.
- `app/`: the `rtdp` command-line tool, the UDP sockets and threads, the
  C entry points, the conformance runner and the latency benchmark.
- `tests/`: tests of the library.
