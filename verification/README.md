# cdda

A small multiplayer roguelike: a server that runs a grid of generated sub-worlds and a
client that predicts its own moves. The game logic is a Verus library whose functions
carry contracts that Verus proves; networking, persistence and the Godot node are thin
Rust around it.

Layout:

- `src/` — the verified library.
  - `types`, `messages`, `tile`, `map`, `entity`, `item`, `crafting`, `messagelog` — the
    data of a sub-world and of the wire protocol.
  - `fov` (shadowcasting), `pathfinding` (A*), `ai`, `combat`, `worldgen` — the rules.
  - `sub_world` — one sub-world: joining, leaving, player actions, monster turns, the
    world state each player is sent; it returns the messages and events to deliver.
  - `world_manager`, `net` — routing players between sub-worlds, login, frames.
  - `input_queue`, `prediction`, `state`, `session` — the client side.
- `tests/` — tests of the library.
- `app/` — the server program (QUIC with quinn, tokio tasks, saves with rmp-serde), the
  client connection and the Godot node; `app/wire.rs` holds the serde forms of the
  protocol types.
