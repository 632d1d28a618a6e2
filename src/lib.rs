//! A reward ledger for staked NFTs: per-position scores with a ranked
//! leaderboard, a registry of staked positions, reward and donation crediting,
//! and a cross-farm bonus curve gated by a per-account cooldown.

pub mod error;
pub mod event;
mod keyed;
pub mod memeseason;
pub mod ledger;
pub mod ranking;
pub mod registry;
pub mod rewarder;
pub mod wide;
