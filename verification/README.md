# quickshare_core

The core of QuickShare, a LAN file-sharing tool, written in Verus: the
library's behaviour is stated in `requires`/`ensures` contracts and proved.

## Layout

- `src/` — the verified library
  - `bundle.rs` — the bundle format (several files in one blob) and its round trip
  - `compress.rs`, `crypto.rs` — LZ4 compression, key derivation and AES-256-GCM
    sealing, through small trusted wrappers around `lz4_flex`, `sha2`, `argon2`,
    `aes-gcm`, `blake3` and `rand`
  - `transfer/` — chunking, the 56-byte chunk header, the length prefix of
    handshake messages, the sender and receiver state machines of single-file and
    batch transfers, and breakpoint-resume bookkeeping
  - `pipeline.rs` — what a sender puts on the wire (bundle, compress, encrypt,
    hash) and how a receiver restores it, with the end-to-end round trips
  - `digest.rs` — the whole-file BLAKE3 digest of a received file, in hex
  - `state.rs` — the desktop node's bookkeeping: transfers, history, settings,
    discovery replies
  - `cancel.rs` — the cancel flags of running transfers, by transfer id
  - `net.rs`, `text.rs` — LAN addresses: reading the output of `ip` and
    `ipconfig`, choosing the address to announce, broadcast targets
  - `args.rs` — the terminal client's command line
  - `transport/config.rs` — the set-once transport configuration
- `tests/` — tests of the library, run against the real outside crates
- `app/` — the program around the library: sockets, files, the clock, serde
  copies of the wire types, the terminal client (`main.rs`) and the desktop
  node's event loop (`node.rs`)
