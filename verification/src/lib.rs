//! The push overlay of a gossip network, which spreads recent values across it.
//!
//! Values are pushed eagerly, as in Plumtree: a node pushes each value to a few of its
//! active peers, and a peer that gets the values of an origin from enough others prunes
//! that origin. Unlike there, nothing limits the hops of a value: it carries the
//! wallclock of its origin, and is dropped silently where that is outside of the window
//! of the local one. What a peer pruned is held in a Bloom filter.
//!
//! [`crds_gossip_push`] is the overlay. What it does with the values that come in is in
//! [`received_cache`], [`crds`] and [`prune`]; how it chooses its active peers, in
//! [`push_options`], [`weighted_shuffle`] and [`rotation`]; and which values it pushes to
//! them, in [`pending`] and [`messages`]. The modules named after laws state and prove what
//! holds of these together, by what goes in and what comes out.
//!
//! Chance, the map of the active peers and the cache of push times come from the crates
//! `rand`, `rand_chacha`, `indexmap` and `lru`; what is taken of them on trust is stated in
//! [`random`], [`active_set`] and [`push_times`]. Of std, [`crds_value`] takes on trust that
//! a cloned `Arc` points to the same bytes.

pub mod active_set;
pub mod bloom;
pub mod crds;
pub mod crds_gossip_error;
pub mod crds_gossip_push;
pub mod crds_value;
pub mod double;
pub mod keyed;
pub mod laws_of_active_set;
pub mod laws_of_filters;
pub mod laws_of_ingress;
pub mod laws_of_messages;
pub mod laws_of_order;
pub mod laws_of_overlay;
pub mod laws_of_pruning;
pub mod laws_of_push;
pub mod laws_of_refresh;
pub mod laws_of_threshold;
pub mod laws_of_values;
pub mod messages;
pub mod pending;
pub mod prune;
pub mod pubkey;
pub mod pubkey_map;
pub mod push_options;
pub mod push_times;
pub mod random;
pub mod received_cache;
pub mod rotation;
pub mod weighted_shuffle;
