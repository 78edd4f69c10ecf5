# memory_network

An in-memory simulation of a network, for tests of what runs on top of one. The behaviour of the
library in `src/` is stated in contracts and proved with Verus.

- `network`: a group of nodes (`MasterMap`) and the handles to them (`MemoryNetwork`).
- `node`: the queues of one node and its background work.
- `channel`, `registry`, `codec`: bounded queues with the line behind them, the register of nodes
  and the wire format, on top of `flume`, `dashmap` and `bincode`.
- `reliability`: models that lose messages or hold them back.
- `line`, `model`: the mathematical values that the contracts speak of.
- `node_laws`, `group_laws`, `news_laws`: what holds of the network as a whole, such as that a
  node without a reliability model hands out what was sent to it, in order, every message once.
  They hold for every way of reading bytes as messages.

Nothing in `src/` blocks: what has no room stands in line under a ticket, and where there is
nothing yet the answer says so. `app/` is the asynchronous front, which waits and tries again,
and which carries messages of any type that `serde` can serialize.
