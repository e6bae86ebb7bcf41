//! An indexed registry of non-fungible token ownership records.
//!
//! The registry pairs a primary store of token records with an index by
//! owner, a counter of live tokens and a table of operator grants. Every
//! operation carries a contract over a mathematical model of the registry.

pub mod approval;
pub mod counter;
pub mod error;
pub mod expiration;
pub mod order;
pub mod registry;
