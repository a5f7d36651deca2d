# rust-mtcp

A bandwidth-aggregating TCP tunnel. It stripes a single logical byte stream
across several parallel TCP connections, so throughput scales with the number of
connections when one of them alone is rate-limited.

- `src/` is the verified library: wire format (`protocol`, `bytes`), choice of
  the connection for each frame (`uplink`, `dispatcher`), reordering
  (`downlink`), client bundles (`client`), server sessions (`server`), and the
  words of errors (`text`). The laws over whole runs stand in `sequencing`
  (what a dispatcher sends), `delivery` (what a reassembler writes) and `tunnel`
  (both ends together).
- `app/` is the program: sockets, tasks, and the command line. It performs what
  the library decides and reports back.
- `tests/` runs the library, from single frames to a striped payload.

The one function of the library that is taken on trust draws the random session
id.
