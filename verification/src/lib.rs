//! A lightweight publish/subscribe core: registries that map events to the
//! registrants subscribed to them, and the decision logic of a periodic
//! event watcher.
//!
//! - [`registry`] is the in-memory registry: the subscription relation, a
//!   sorted deduplicated event pool, and an eagerly invalidated lookup
//!   cache, all with proved invariants.
//! - [`persist`] is the contract-compatible persisted registry, whose
//!   operations read and write an external key-value store.
//! - [`keys`] builds the store's namespaced key strings.
//! - [`watcher`] is the scheduler loop's state machine: what ticks and
//!   cancellations do, and how many task invocations a run performs.

pub mod keys;
pub mod persist;
pub mod registry;
pub mod watcher;
