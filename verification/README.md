# utp

The Micro Transport Protocol (uTP, BEP 29) in Rust, with its logic proved by Verus.

- `src/` is the verified library: the packet formats and their codecs, the bit-level helpers,
  and the decisions of a connection (what to send on each packet, timeout or buffer of data),
  each with a contract and with laws such as "decoding an encoded packet gives it back".
- `app/` holds what the verifier does not read: the UDP sockets, the streams, the read timeouts
  and the floating-point averages of the congestion control. It drives the library.
- `tests/` runs the library on concrete values.
