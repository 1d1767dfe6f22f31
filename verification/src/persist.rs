//! The persisted registry: an event watcher handle whose subscription
//! operations read and write an external key-value store. The store is
//! shared mutable state across processes, so no operation's result can be
//! pinned to a local model; what is verified here is the key construction,
//! the per-event write sequence, and the fail-fast error propagation. The
//! store calls themselves stand behind trusted wrappers.

use vstd::prelude::*;
use crate::keys::{event_pool_key, subscribe_registry_key};
use redis::Commands;

verus! {

#[verifier::external_type_specification]
#[verifier::external_body]
pub struct ExClient(redis::Client);

#[verifier::external_type_specification]
#[verifier::external_body]
pub struct ExConnection(redis::Connection);

#[verifier::external_type_specification]
#[verifier::external_body]
pub struct ExRedisError(redis::RedisError);

/// Relies on redis::Client::get_connection: opens a synchronous connection
/// to the store; failure surfaces as the store's own error value.
#[verifier::external_body]
fn connect(client: &redis::Client) -> (r: Result<redis::Connection, redis::RedisError>) {
    client.get_connection()
}

/// Relies on redis::Client::clone: the client is a handle around connection
/// parameters and clones cheaply.
#[verifier::external_body]
fn clone_client(client: &redis::Client) -> (r: redis::Client) {
    client.clone()
}

/// Relies on redis::Commands::rpush (the RPUSH command): appends `val` at
/// the tail of the list stored at `key`; the numeric reply is discarded.
#[verifier::external_body]
fn store_rpush(conn: &mut redis::Connection, key: &str, val: &str) -> (r: Result<
    (),
    redis::RedisError,
>) {
    conn.rpush::<&str, &str, ()>(key, val)
}

/// Relies on redis::Commands::sadd (the SADD command): adds `member`,
/// rendered in decimal, to the set stored at `key`; the reply is discarded.
#[verifier::external_body]
fn store_sadd(conn: &mut redis::Connection, key: &str, member: u64) -> (r: Result<
    (),
    redis::RedisError,
>) {
    conn.sadd::<&str, u64, ()>(key, member)
}

/// Relies on redis::Commands::smembers (the SMEMBERS command): returns the
/// members of the set stored at `key`, parsed as integers, in no guaranteed
/// order.
#[verifier::external_body]
fn store_smembers(conn: &mut redis::Connection, key: &str) -> (r: Result<
    Vec<u64>,
    redis::RedisError,
>) {
    conn.smembers::<&str, Vec<u64>>(key)
}

/// Relies on redis::Commands::lrange (the LRANGE command): returns the
/// elements of the list stored at `key` from `start` to `stop` inclusive,
/// negative indices counting from the end.
#[verifier::external_body]
fn store_lrange(conn: &mut redis::Connection, key: &str, start: isize, stop: isize) -> (r: Result<
    Vec<String>,
    redis::RedisError,
>) {
    conn.lrange::<&str, Vec<String>>(key, start, stop)
}

/// Relies on RedisError's Display implementation for a readable description
/// of the failure.
#[verifier::external_body]
fn describe_error(e: &redis::RedisError) -> (r: String) {
    format!("{}", e)
}

/// A failed store operation, carrying a human-readable description.
#[derive(Debug)]
pub struct StoreError {
    pub detail: String,
}

impl StoreError {
    /// The description of the failure.
    pub fn message(&self) -> (r: &String)
        ensures
            r@ == self.detail@,
    {
        &self.detail
    }
}

fn to_store_error(e: redis::RedisError) -> StoreError {
    StoreError { detail: describe_error(&e) }
}

/// User-defined typed state carried by a watcher.
#[derive(Clone, Copy, Debug)]
pub struct State<S>(pub S);

/// A watcher handle for one named registry: the registry name, the heartbeat
/// interval of its scheduler loop, the store client, and optional shared
/// user state. The handle is immutable after construction; clones share the
/// underlying client.
pub struct EventWatcher<S> {
    name: String,
    heartbeat_interval: u64,
    client: redis::Client,
    state: Option<State<S>>,
}

impl<S> EventWatcher<S> {
    /// The registry name this watcher serves.
    pub closed spec fn spec_name(self) -> Seq<char> {
        self.name@
    }

    /// The heartbeat interval, in time-units.
    pub closed spec fn spec_interval(self) -> u64 {
        self.heartbeat_interval
    }

    /// Whether the watcher carries user state.
    pub closed spec fn has_state(self) -> bool {
        self.state is Some
    }

    /// A watcher for the registry `name` with the default heartbeat interval
    /// of 60 time-units and no user state.
    pub fn new(name: String, client: redis::Client) -> (r: Self)
        ensures
            r.spec_name() == name@,
            r.spec_interval() == 60,
            !r.has_state(),
    {
        EventWatcher { name, heartbeat_interval: 60, client, state: None }
    }

    /// The same watcher with its heartbeat interval replaced.
    pub fn with_heartbeat_interval(self, interval: u64) -> (r: Self)
        ensures
            r.spec_name() == self.spec_name(),
            r.spec_interval() == interval,
            r.has_state() == self.has_state(),
    {
        EventWatcher {
            name: self.name,
            heartbeat_interval: interval,
            client: self.client,
            state: self.state,
        }
    }

    /// The same watcher carrying `state` as its shared user payload.
    pub fn with_state(self, state: S) -> (r: Self)
        ensures
            r.spec_name() == self.spec_name(),
            r.spec_interval() == self.spec_interval(),
            r.has_state(),
    {
        EventWatcher {
            name: self.name,
            heartbeat_interval: self.heartbeat_interval,
            client: self.client,
            state: Some(State(state)),
        }
    }

    /// The registry name this watcher serves.
    pub fn name(&self) -> (r: &String)
        ensures
            r@ == self.spec_name(),
    {
        &self.name
    }

    /// The heartbeat interval, in time-units.
    pub fn heartbeat_interval(&self) -> (r: u64)
        ensures
            r == self.spec_interval(),
    {
        self.heartbeat_interval
    }

    /// The shared user state, if any.
    pub fn state(&self) -> (r: &Option<State<S>>)
        ensures
            (*r) is Some <==> self.has_state(),
    {
        &self.state
    }

    /// Record `registrant` as a subscriber of each event of `events`: for
    /// each event, append the registrant to the list at the event's
    /// subscribe-registry key, then add the event to the registry's pool
    /// set. Events are written one at a time, in order; the first store
    /// failure is returned at once and later events are not attempted. An
    /// empty batch touches the store not at all and always succeeds.
    pub fn subscribe_event(&self, registrant: &String, events: &Vec<u64>) -> (r: Result<
        (),
        StoreError,
    >)
        ensures
            events@.len() == 0 ==> r is Ok,
    {
        if events.len() == 0 {
            return Ok(());
        }
        let mut conn = match connect(&self.client) {
            Ok(c) => c,
            Err(e) => {
                return Err(to_store_error(e));
            },
        };
        let pool_k = event_pool_key(self.name.as_str());
        let mut i: usize = 0;
        while i < events.len()
            invariant
                i <= events@.len(),
            decreases events@.len() - i,
        {
            let key = subscribe_registry_key(self.name.as_str(), events[i]);
            match store_rpush(&mut conn, key.as_str(), registrant.as_str()) {
                Ok(()) => {},
                Err(e) => {
                    return Err(to_store_error(e));
                },
            }
            match store_sadd(&mut conn, pool_k.as_str(), events[i]) {
                Ok(()) => {},
                Err(e) => {
                    return Err(to_store_error(e));
                },
            }
            i += 1;
        }
        Ok(())
    }

    /// Bulk-apply `subscribe_event` to every pair of the relation. The first
    /// failure is returned at once: running with a partially applied
    /// subscription set would silently drop notifications, so the caller is
    /// expected to treat an error here as fatal at startup.
    pub fn setup_subscribe_registry(self, relation: &Vec<(String, Vec<u64>)>) -> (r: Result<
        Self,
        StoreError,
    >)
        ensures
            relation@.len() == 0 ==> r is Ok,
            r matches Ok(w) ==> w.spec_name() == self.spec_name() && w.spec_interval()
                == self.spec_interval() && w.has_state() == self.has_state(),
    {
        let mut i: usize = 0;
        while i < relation.len()
            invariant
                i <= relation@.len(),
            decreases relation@.len() - i,
        {
            match self.subscribe_event(&relation[i].0, &relation[i].1) {
                Ok(()) => {},
                Err(e) => {
                    return Err(e);
                },
            }
            i += 1;
        }
        Ok(self)
    }

    /// Read the full event set recorded for this registry name. The store is
    /// shared across processes, so the members and their order are whatever
    /// the store currently holds.
    pub fn event_pool(&self) -> (r: Result<Vec<u64>, StoreError>) {
        let mut conn = match connect(&self.client) {
            Ok(c) => c,
            Err(e) => {
                return Err(to_store_error(e));
            },
        };
        let key = event_pool_key(self.name.as_str());
        match store_smembers(&mut conn, key.as_str()) {
            Ok(v) => Ok(v),
            Err(e) => Err(to_store_error(e)),
        }
    }

    /// Read the full registrant list recorded for `event` under this
    /// registry name, in insertion order; an event never subscribed to
    /// yields the empty list, not an error.
    pub fn get_subscribers(&self, event: u64) -> (r: Result<Vec<String>, StoreError>) {
        let mut conn = match connect(&self.client) {
            Ok(c) => c,
            Err(e) => {
                return Err(to_store_error(e));
            },
        };
        let key = subscribe_registry_key(self.name.as_str(), event);
        match store_lrange(&mut conn, key.as_str(), 0, -1) {
            Ok(v) => Ok(v),
            Err(e) => Err(to_store_error(e)),
        }
    }
}

impl<S: Clone> Clone for EventWatcher<S> {
    /// Cloning duplicates the handle, never the underlying client or state:
    /// the name, the interval, and the presence of user state are preserved.
    fn clone(&self) -> (r: Self)
        ensures
            r.spec_name() == self.spec_name(),
            r.spec_interval() == self.spec_interval(),
            r.has_state() == self.has_state(),
    {
        EventWatcher {
            name: self.name.clone(),
            heartbeat_interval: self.heartbeat_interval,
            client: clone_client(&self.client),
            state: match &self.state {
                Some(st) => Some(State(st.0.clone())),
                None => None,
            },
        }
    }
}

} // verus!
