# lld_rust

A set of small low-level-design components, written in Verus: each one is
executable Rust whose behaviour is stated in `requires` / `ensures` contracts
over mathematical models (`Seq`, `Map`, `Multiset`, integers) and proved.

## Layout

- `src/` — the verified library.
  - `dlist` — a doubly linked list kept in an arena (constant-time unlink,
    link at head, tail access); the caches are built on it.
  - `lru_cache`, `lru_ttl_cache`, `lfu_cache` — least-recently-used,
    expiring and least-frequently-used caches.
  - `merkle_tree` — a SHA-256 Merkle tree with inclusion proofs.
  - `min_stack`, `linked_list`, `ordered_sequence`, `leaderboard`,
    `rate_limiter` — small data structures and services.
  - `delivery_cost`, `delivery_settlement` — driver delivery costs and
    settlement up to a time.
  - `parking` — a parking lot with pluggable slot allocation.
  - `flipfit` — a gym-slot booking service.
  - `text`, `clock` — decimal/hex rendering, and the monotonic clock.
- `tests/` — tests of the library on concrete values.
- `app/` — a small program that runs a demo of each component; it holds
  what the library does not (printing, threads, the pricing of a stay).

Each module states its laws as public proof functions next to the
operations they speak of, e.g. `lru_cache::lemma_read_after_put`.
