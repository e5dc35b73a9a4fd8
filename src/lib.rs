//! A command-result cache: fingerprints a command and its input tree, addresses
//! archived outputs on disk, tracks them in an inventory and evicts the least
//! recently used ones to stay within a byte budget.

pub mod address;
pub mod config;
pub mod fingerprint;
pub mod inventory;
pub mod session;
