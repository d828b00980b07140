# dope

Building blocks of a thread-per-core network runtime, verified with Verus:
connectors, listeners, datagram sockets, file operations and timers.

A *manifold* is a unit of work that shares one driver with others. The library
holds the manifolds' state and decides what is to be done next; it does no input or
output. The driver is handed a task or a step, carries it out and hands back what
came of it. What only the driver knows (whether a socket can take a write, whether
a receive is armed, what an application's callback answered) it hands over as plain
values.

- `src/token.rs`, `src/time.rs`, `src/park.rs`: how operations, instants and
  parked tasks are named.
- `src/collections/`: collections of the `o3` crate behind contracts, and
  verified containers on top of them.
- `src/manifold/timer/`: timers with a fixed or a growing number of slots.
- `src/manifold/file/`: opening, reading, splicing and asking about files.
- `src/manifold/connector/`: outgoing connections. `source/` decides what is
  dialed and when it is tried again, `engine/` is the state machine, `session.rs`
  cuts received bytes into messages, `port.rs` hands values to connections.
- `src/manifold/listener/`: incoming connections.
- `src/manifold/datagram/`: datagram sockets.
- `app/`: the driver's side, in ordinary Rust: clocks, thread-local counters,
  and the loops that carry out tasks.

Each type has an abstract value (its view) and a well-formedness predicate.
Contracts say what an operation turns the view into. Functions named `law_` state
what holds across operations.
