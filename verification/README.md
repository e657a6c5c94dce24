# conduit-core

Binary IPC for Tauri v2 over the `conduit://` custom protocol: a framed
binary codec, in-process channel buffers, and the decisions of the protocol
handler, written in Verus with their contracts proved.

## Layout

- `src/` — the verified library.
  - `wire.rs`, `codec.rs` — little-endian integers, the 11-byte frame header,
    `frame_pack` / `frame_unpack`, and the `Encode` / `Decode` traits with
    their impls for integers, `bool`, `Vec<T>`, `String` and `Bytes`. Every
    impl is proved to read back what it writes.
  - `drain.rs` — the drain format `[u32 count]([u32 len][bytes])*` (no
    bytes at all for an empty buffer) and its parser.
  - `ringbuf.rs` — the lossy `RingBuffer`: a byte budget, oldest frames
    evicted, as few as needed.
  - `queue.rs` — the reliable `Queue`: a byte budget (or none), frames
    refused with `ChannelFull` rather than dropped.
  - `channel.rs` — `ChannelBuffer`, either of the two behind one interface,
    with the same drain format.
  - `error.rs` — the error type and its messages.
  - `protocol.rs` — hex, constant-time invoke-key validation,
    percent-decoding, name sanitising, status codes.
  - `route.rs` — splitting a request URL and deciding between invoking a
    command, draining a channel and answering with an error.
  - `plugin.rs` — the bootstrap reply and the registry of named channels.
  - `std_specs.rs` — declarations of outside items the library uses.
- `app/` — plain Rust around the library: lock helpers, the command router
  with user handlers, and the Tauri plugin glue (HTTP responses, events,
  the async runtime).
- `tests/` — tests of the library.

The buffers take `&mut self`; the plugin shares them behind a `Mutex`.
