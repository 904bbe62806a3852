# udptoxy

A UDP proxy that makes a network worse on purpose. It forwards datagrams in both
directions between an inbound port and an outbound address, and adds latency and
jitter, loses packets, and limits the rate. The settings are changed while it runs,
in a terminal interface.

    udptoxy --in 9000 --out 9001

A port alone means `0.0.0.0` for `--in` and `127.0.0.1` for `--out`. Addresses are
IPv4 only.

- `src/` is the library: everything that is decided or computed, verified with Verus.
- `app/` is the program around it: command line, sockets, clock and terminal. The
  program also sends random datagrams to a port, under the name `udp_blaster`.
- `tests/` runs the library on concrete values.

What the proofs rest on beside Verus and its library: two calls into `rand`, stated
in `src/random.rs`. Whether a packet is lost is drawn in `app/`, with the probability
that `src/loss.rs` computes.
