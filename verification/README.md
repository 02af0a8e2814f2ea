# order_engine

A spot-exchange matching engine whose logic is verified with Verus, and the
services around it.

- `src/` — the verified library: the engine state and its keyed lookups
  (`memory`), commands (`commands`: credit, create with price-time matching,
  cancel, apply/commit/revert), book and arithmetic helpers (`helper`),
  read-only queries (`queries`), the events published after a command
  (`events`), snapshots and the decisions of durable replay
  (`memory::snapshot`, `memory::replay`), market listing checks (`listing`),
  the demo bot's decisions (`bot`), the laws relating them (`laws` and the
  `law_*` proof functions), the invariants that keep balances non-negative
  (`solvency`), and the trusted calls into chrono, uuid, rand
  and std (`external`).
- `tests/` — the engine's scenarios and checks of each module on concrete
  values.
- `app/` — the unverified shell: Redis stream consumers, Postgres access,
  JSON shapes of the library's values, and the demo bot's HTTP client.
  `main` runs the engine, or the bot when its first argument is `demo-bot`.
