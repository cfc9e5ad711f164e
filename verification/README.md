# openplay

The protocol core of an AirPlay 2 audio sender, verified with Verus.

- `src/` is the library, every function of it checked against its contract:
  - `discovery`: mDNS PTR queries, response parsing (with name compression)
    and the joining of PTR/SRV/TXT/A/AAAA records into receivers;
  - `pairing`: TLV8 framing (with fragmentation) and the SRP-6a client state
    of transient HomeKit pair-setup;
  - `rtsp`: requests, headers and the response codec, including framing of
    pipelined messages;
  - `info`: the `GET /info` receiver description;
  - `cli`: the command line of the bundled binary;
  - `keymap`, `text`, `octets`: sorted string-keyed maps, text and byte
    helpers the rest is built on.
- `app/` is the binary: sockets, timers and printing around the library.
- `tests/` runs the library with the real outside crates linked.

Calls into `srp`, `sha2`, `rand` and `plist` go through small trusted
wrappers whose contracts state what those crates do; everything around them
is proved.
