//! The tenant layer of a branchable, log-structured page store.
//!
//! A tenant owns a family of timelines that form a lineage tree. This crate
//! holds the tenant's map of timelines, its lifecycle state machine, the
//! crash-safe creation protocol built on uninit marks, branching, garbage
//! collection planning, deletion and the loading of a persisted lineage, with
//! the on-disk directory of the tenant modelled as data.

pub mod codec;
pub mod config;
pub mod error;
pub mod id;
pub mod key;
pub mod laws;
pub mod lineage;
pub mod lsn;
pub mod metadata;
pub mod state;
pub mod storage;
pub mod tenant;
pub mod timeline;
