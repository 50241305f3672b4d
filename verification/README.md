# online_squares

The protocol and bookkeeping of a small online arena game, verified with Verus.

- `src/text.rs` — character-sequence primitives (search, split, trim, decimal
  parsing) stated over `Seq<char>`, and the few std calls they rest on.
- `src/lobby.rs` — the server's player slots: joining, leaving, storing each
  player's report and building what every other player is sent.
- `src/report.rs` — the report a client writes about its own player.
- `src/roster.rs` — reading the roster a client receives into player records.
- `src/bullets.rs` — dropping exactly the bullets marked for removal.
- `src/chat.rs` — the client's chat log, message de-duplication, and the chat box.
- `src/laws.rs` — properties across operations (a leave undoes a join, a report
  is stored as written, the chat log stays bounded, splitting loses nothing, ...).
- `app/` — the two programs (`server` and the tetra game client): sockets,
  threads, drawing and the `f32` positions.
