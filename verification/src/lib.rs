//! The block-building core of the Flashpoint network.
//!
//! Traders submit intents, which name a profit and the resources that they
//! need.  A block takes intents that share no resource, in the order of
//! arrival or of profit; what it earns beyond the order of arrival is its
//! surplus, and a fee on the surplus is shared among the traders.  Beside the
//! mempool stands an auction of free-form orders and a queue of proofs.
//!
//! Every function states what it returns over the models of its module, and
//! `laws` holds what follows for the library as a whole.

pub mod auction;
pub mod auth;
pub mod block;
pub mod double;
pub mod engine;
pub mod events;
pub mod intent;
pub mod laws;
pub mod mempool;
pub mod order;
mod random;
pub mod rejection;
pub mod rounding;
pub mod seed;
pub mod select;
pub mod settings;
pub mod shim;
pub mod sorting;
pub mod text;
pub mod zk;
