# crds_gossip_push

The push overlay of a gossip network: which values a node pushes to which peers, what it
does with the values that are pushed to it, and which of its peers it tells to stop. The
library is written and verified in Verus.

- `src/crds_gossip_push.rs` is the overlay. Each of its parts has a module of its own.
- `src/laws_of_push.rs`, `src/laws_of_ingress.rs` and `src/laws_of_active_set.rs` state
  and prove what holds of the parts together: a prune is heeded, every value is considered
  once, pruning leaves the stake that it has to, a refresh fills the active set.
- `src/random.rs`, `src/active_set.rs` and `src/push_times.rs` hold what is taken on trust
  of the crates `rand`, `rand_chacha`, `indexmap` and `lru`, and `src/crds_value.rs` what
  is taken on trust of `Arc::clone` of std.
- `tests/` runs the library, with those crates.
- `app/` ties the library to the clock, to the wire format, and to the floating-point
  weights by which nodes are drawn.
