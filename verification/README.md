# voxelland

The game logic of a multiplayer voxel world, written in Verus and proved
against its contracts.

## Layout

- `src/` — the verified library.
  - `blockinfo`, `tools`, `planetinfo`, `recipes`, `specialblocks` — what blocks,
    tools, planets and recipes are, and the flag bits packed into block values.
  - `inventory`, `game` — inventories, crafting, slot clicks, damage, controls
    and the escape menu.
  - `chunk`, `streaming`, `terrain` — chunk coordinates, block storage (on a
    concurrent map), rebuild planning, which chunks to load as the player moves,
    terrain block choice and model stamping.
  - `light` — coloured light spreading from a source and its exact removal.
  - `placement` — placing and breaking blocks, doors included.
  - `collisioncage` — the boxes checked around a moving body.
  - `protocol`, `server_types` — message kinds and the decisions the server
    and the client make on each message, the join handshake included.
  - `savefile` — reading the numbers in a saved world's seed and planet files.
- `tests/` — tests of the library on concrete values.
- `app/` — ordinary Rust around the library: the network wire format and the
  connection loops, floating-point terrain noise, and the world state that
  ties storage, light and chunk streaming together.
