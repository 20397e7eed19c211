//! The log-structured core of a disk cache: the byte format of cache entries
//! and region footers, the index over them, the insert and lookup protocols,
//! and the recovery of the index from the regions of a device.
//!
//! Everything here works on plain values and byte slices. Device access,
//! region allocation and task scheduling belong to the caller, which performs
//! the actions that the step functions ask for and hands the outcome back.

pub mod admission;
pub mod bits;
pub mod buf;
pub mod checksum;
pub mod code;
pub mod config;
pub mod device_recovery;
pub mod entry;
pub mod error;
pub mod footer;
pub mod indices;
pub mod recovery;
pub mod region_iter;
pub mod region_log;
pub mod store;
