# snake_game

A multiplayer snake game whose rules, rooms and room manager are written in Verus and proved
against their contracts.

- `src/types.rs`: the values shared with clients (directions, cells, snakes, food, states, messages).
- `src/rules.rs`: the board and the movement rules as mathematics, with the lemmas about them.
- `src/room.rs`: a room of players and the course of its game; every operation keeps the room sound.
- `src/manager.rs`: the rooms of the server, seating players and ticking every game.
- `src/ranking.rs`: rankings by score; `src/palette.rs`, `src/controls.rs`: client-side helpers.
- `src/laws.rs`: properties that hold across operations.
- `src/rng.rs`: the only source of chance, a draw from `rand`.
- `app/`: the WebSocket server (axum, tokio) and the Yew client, around the library.
