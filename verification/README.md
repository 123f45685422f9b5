# ws_tool

A WebSocket (RFC 6455) library whose protocol logic is written and proved
in Verus.

## Layout

- `src/` — the verified library.
  - `frame.rs`: opcodes, frame headers (built and read byte for byte),
    owned and borrowed frames, payloads made of several slices.
  - `codec/mod.rs`: masking (and the law that masking twice undoes it).
  - `codec/frame.rs`: the read state (buffer, header parsing, frame checks,
    merging of fragments, one read step at a time) and the write state
    (cutting a payload into frames, masking each with its own key); the
    law that reading what was sent gives the message back.
  - `codec/deflate.rs`, `codec/deflate_stream.rs`: permessage-deflate
    parameters (parsing and writing the extension header) and the
    decisions around the compressor and decompressor.
  - `protocol.rs`, `lib.rs`: the opening handshake (request text, key and
    accept key, request and response checks, the server's answer) and the
    client builder.
  - `message.rs`, `errors.rs`, `connector.rs`, `proxy.rs`, `strings.rs`,
    `buffer.rs`: messages, errors, uri scheme and host, proxy schemes,
    string helpers and the `bytes::BytesMut` buffer as the proofs see it.
- `app/` — plain Rust around the library: sockets, blocking and async
  codecs that run the library's read and write steps over a stream, the
  handshake over a socket, and the zlib streams (raw-pointer calls into
  libz-sys).
- `tests/` — tests of the library on concrete values.

Calls into outside crates (`bytes`, `rand`, `sha1`, `base64`, `simdutf8`,
`httparse`, `http`) go through small trusted wrappers whose contracts are
written next to them.
