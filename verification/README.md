# poker

A Texas hold'em table for an IRC bot, written in Verus.

- `src/cards.rs` — cards, the fresh 52-card deck and its shuffle (through `rand`).
- `src/hand.rs` — hand values: the rank of five cards, the order on ranks,
  the combinations of five among seven and the best of them.
- `src/game.rs` — the table: joining, starting a round, betting, moving
  through the streets and the showdown, each stated as a function from the
  table and the request to the new table and the reply.
- `src/command.rs` — reading chat messages (`!join`, `!start`, `!bet <n>`,
  `!call`, `!check`, `!fold`, `!next`) and dispatching them.
- `src/laws.rs` — properties across operations: chips are conserved by
  betting, no card is lost, the turn rests with a player still in, the
  stages follow each other, the showdown winner holds the best hand.
- `app/main.rs` — the IRC client that feeds the table (not verified).
- `tests/` — concrete scenarios.
