//! A multi-tenant synchronization engine for operationally linked business
//! entities (users, sawmills, contracts, storage locations, shipments, notes,
//! photos).
//!
//! The crate models the server side of a websocket replication protocol:
//! a per-tenant row store with last-writer-wins merge and soft-delete
//! tombstones, watermark-based delta replay, a per-connection protocol state
//! machine, and tenant-scoped broadcast fan-out. Transport, persistence and
//! JSON framing live outside; the engine works on plain values and returns
//! the frames to send.

#![verifier::loop_isolation(false)]

use vstd::prelude::*;

pub mod auth;
pub mod clients;
pub mod config;
pub mod ext;
pub mod junction;
pub mod laws;
pub mod messages;
pub mod models;
pub mod protocol;
pub mod record;
pub mod registry;
pub mod router;
pub mod store;
pub mod strutil;
pub mod sync;
pub mod table;
pub mod tables;

verus! {

/// Upper bound on the number of records in one delta replay page.
pub const PAGE_SIZE: usize = 100;

} // verus!
