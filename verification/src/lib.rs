//! A per-project command alias store.
//!
//! A [`vault::Vault`] maps alias names to shell command strings for one
//! working directory. The vault is persisted as a line-oriented text file
//! whose name is derived from the working directory path, so that distinct
//! directories keep independent stores.

pub mod codec;
pub mod escape;
pub mod store_name;
pub mod vault;
