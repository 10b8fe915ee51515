//! Quantum-inspired consensus for a network of virtual nodes.
//!
//! - `bits`: which bit of a basis index belongs to a qubit, and partner indices.
//! - `register`, `engine`, `algorithms`: an exact state-vector register for
//!   H, X, Y, Z and CNOT, a front end over it, and algorithms run on it.
//! - `keyed`, `changes`: small maps kept as sorted lists; the changed
//!   amplitudes of a delta, merged and written into a state.
//! - `recovery`, `batch`: checkpoints and delta history for recovering past
//!   states; batching of deltas before they are sent.
//! - `dispatch`: where a transaction lands, from its SHA-256 digest.
//! - `network`: the node graph and the wave that decides agreement.
//! - `wire`: the byte layout of a state sent over the network.
//! - `events`: message priorities and the queue that orders them.
//! - `gates`: names and kinds of gates, operators and events.

pub mod bits;
pub mod keyed;
pub mod changes;
pub mod register;
pub mod engine;
pub mod network;
pub mod recovery;
pub mod dispatch;
pub mod batch;
pub mod gates;
pub mod algorithms;
pub mod wire;
pub mod events;
