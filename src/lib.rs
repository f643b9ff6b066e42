//! Core state of the Messaging Layer Security group-keying protocol.
//!
//! - `proposal`, `bundle`, `store`: proposals, the bundle a commit is built
//!   from (one ordered bucket per kind), and proposals kept by reference.
//! - `rules`, `filter`: the validity rules a bundle must meet before it is
//!   committed, and application-defined filters.
//! - `tree`, `node`, `applier`: the ratchet tree as an array of slots and
//!   the application of a bundle's membership changes to it.
//! - `epoch`, `ratchet`, `keys`: the per-epoch state machine, generation
//!   tracking for out-of-order messages, and the epoch key schedule.
//! - `codec`, `wire`, `extension`: the wire encoding and extensions.
//! - `cipher_suite`, `psk`, `client`, `storage`: cipher suites, pre-shared
//!   keys, the observing client and stored group state.

pub mod applier;
pub mod bundle;
pub mod cipher_suite;
pub mod client;
pub mod codec;
pub mod epoch;
pub mod extension;
pub mod filter;
pub mod keys;
pub mod node;
pub mod proposal;
pub mod psk;
pub mod ratchet;
pub mod rules;
pub mod storage;
pub mod store;
pub mod tree;
pub mod wire;

pub use cipher_suite::CipherSuite;
