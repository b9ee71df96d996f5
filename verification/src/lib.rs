//! A sparse view of the chain: the checkpoints and transactions a wallet cares about, ordered by
//! where they sit in the chain.
//!
//! [`SparseChain`](sparse_chain::SparseChain) holds them. An update is another such chain:
//! [`determine_changeset`](sparse_chain::SparseChain::determine_changeset) says what it changes, as
//! a [`ChangeSet`](change_set::ChangeSet), and
//! [`apply_changeset`](sparse_chain::SparseChain::apply_changeset) makes the changes. The contracts
//! speak of the mathematical chains of [`model`], and [`laws`] states what holds of them as a whole.
//! [`operations`] and [`queries`] state what each call does, in terms of heights, hashes, ids and
//! indices.

pub mod chain_data;
pub mod chain_index;
pub mod change_set;
pub mod error;
pub mod hash_types;
pub mod heights;
pub mod laws;
pub mod model;
pub mod operations;
pub mod order;
pub mod ordered_set;
pub mod queries;
pub mod sparse_chain;
pub mod transaction;
pub mod tx_graph;
pub mod txid_map;

pub use chain_data::BlockId;
pub use chain_data::ConfirmationTime;
pub use chain_data::FullTxOut;
pub use chain_data::TxHeight;
pub use hash_types::BlockHash;
pub use hash_types::Txid;
pub use ordered_set::Bound;
pub use transaction::OutPoint;
pub use transaction::TxOut;
pub use tx_graph::TxGraph;
pub use txid_map::TxidMap;
