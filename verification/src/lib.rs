//! A ledger for unique, non-fungible digital assets ("kitties").
//!
//! The library mints assets, tracks ownership, allows price-setting and paid
//! transfer, and deterministically derives new assets by combining the genetic
//! payload of two existing ones.  Its centrepiece is the enumerable ownership
//! registry: cross-referenced index structures that enumerate all assets and
//! all assets per owner, kept mutually consistent by every operation on every
//! success and failure path.

pub mod balances;
pub mod genetics;
pub mod registry;
pub mod types;
