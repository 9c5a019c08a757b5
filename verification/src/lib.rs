//! An in-memory key-value store speaking the RESP wire protocol.
//!
//! The crate is split into a wire codec ([`protocol`]), a storage engine
//! ([`storage`]), and a command layer ([`command`] with one module per
//! command family). Keys and values are byte strings throughout, as the
//! wire protocol is binary-safe.

pub mod bytestr;
pub mod command;
pub mod handle_hash;
pub mod handle_list;
pub mod handle_set;
pub mod handle_string;
pub mod handle_sys;
pub mod laws;
pub mod protocol;
pub mod storage;
