//! Core of a storage-network operator: world geometry, an item model with
//! stackability hashing and recursive container decoding, an inventory store
//! with a deduplicating listing aggregator, and a hold matcher that grants
//! exclusive claims on storage slots.

pub mod catalog;
pub mod data;
pub mod decode;
pub mod geometry;
pub mod holds;
pub mod inventories;
pub mod item;
pub mod listing;
pub mod names;
