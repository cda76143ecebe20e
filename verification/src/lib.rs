//! Bigtable storage backend for ExtendDB: key encodings, cell encodings, row
//! filters, request plans, transaction decisions and catalog rules, each with
//! a contract that is proved.

pub mod admin;
pub mod backups;
pub mod bigtable;
pub mod bootstrapper;
pub mod bytes;
pub mod catalog;
pub mod catalog_store;
pub mod cell;
pub mod config;
pub mod debug;
pub mod dev_auth;
pub mod effects;
pub mod engine;
pub mod error;
pub mod filter;
pub mod gsi;
pub mod gsi_worker;
pub mod hash;
pub mod item_ops;
pub mod json;
pub mod keys;
pub mod lifecycle;
pub mod listings;
pub mod lists;
pub mod local_indexes;
pub mod metadata;
pub mod number;
pub mod operations;
pub mod plans;
pub mod queries;
pub mod query_scan;
pub mod random;
pub mod records;
pub mod row_key;
pub mod runtime_hooks;
pub mod shadows;
pub mod sorted;
pub mod sorting;
pub mod stored;
pub mod stream_engine;
pub mod streams;
pub mod sweeper;
pub mod table;
pub mod tables;
pub mod text;
pub mod transact;
pub mod transact_write;
pub mod transactions;
pub mod ttl_key;
pub mod ttl_worker;
pub mod txn;
pub mod upkeep;
pub mod value;
pub mod writes;

use vstd::prelude::*;

verus! {

/// Backend identifier registered with ExtendDB.
pub const BACKEND_NAME: &'static str = "bigtable";

} // verus!
