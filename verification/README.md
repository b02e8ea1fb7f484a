# lithium

A client/server entity synchronisation engine for small networked games,
with its core verified by Verus.

The server owns the entities of a game. Every tick it applies the inputs
its clients sent for their entities and sends each client a snapshot of the
entities it may see; clients predict their own entity from their inputs and
take the server's states as they arrive.

## Layout

- `src/` — the verified library.
  - `manager.rs`: the entity manager (creation and destruction with pooled
    ids, snapshots to and from the wire, client inputs, the entity event
    queue), with the laws that a client mirrors the server's entities.
  - `entity.rs`: one entity's state, state buffer and input buffer, and the
    `EntityState` trait a game implements.
  - `snapshot.rs`, `input.rs`, `config.rs`, `network.rs`: wire formats.
  - `idpool.rs`, `tick.rs`, `timer.rs`, `event.rs`, `delay.rs`, `frame.rs`,
    `keyboard.rs`, `particles.rs`: id pool, tick arithmetic, timers, event
    queues, state delay line, tick pacing, keyboard state and particle slots.
- `tests/` — tests of the library.
- `app/` — the networking over cobalt, event encoding with bincode, and the
  game-facing client and server loops, which are not verified.
