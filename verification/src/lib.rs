//! A reorg-aware index of "bag"-bearing outputs on a Bitcoin-like chain.
//!
//! The tracker follows the canonical chain through a [`bitcoin_client::BitcoinClient`],
//! recognises mint-shaped outputs that embed a 32-byte bag identifier, and keeps a
//! persistent map from bags to their on-chain confirmation in a [`storage::BidStorage`].
//! When the chain reorganises, confirmations recorded in orphaned blocks are demoted
//! back to unconfirmed and the new canonical suffix is scanned again.

pub mod bag_id;
pub mod bag_storage;
pub mod bitcoin_client;
pub mod index;
pub mod record;
pub mod storage;
pub mod test_utils;

pub use bag_id::BagId;
