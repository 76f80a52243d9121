//! Verified core of a recurring-payment (subscription) contract, its
//! simplified single-subscription sibling, and the owner index kept next to
//! a sequential NFT collection.
//!
//! The contracts' storage is modelled as plain values; host calls (auth,
//! storage TTL, token transfers, events, code upgrades) are performed by the
//! embedding application, which hands the outcomes of token calls back to the
//! verified functions.

pub mod ttl;
pub mod types;
pub mod paging;
pub mod table;
pub mod contract;
pub mod consistency;
pub mod laws;
pub mod example;
pub mod nft;
