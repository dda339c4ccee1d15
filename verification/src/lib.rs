//! The storage core of a disaggregated page server.
//!
//! A repository per tenant owns a set of timelines. Each timeline keeps
//! every historical page version in a versioned store keyed by
//! `(entity, block, LSN)`, serves point-in-time page reads by walking a
//! delta chain back to a base image and replaying it, materializes long
//! chains into fresh images, and supports copy-on-write branching: a
//! child timeline starts empty and reads below its branch point fall
//! through to the parent. Around the core sit the durable metadata
//! record with its checksum, the WAL-receiver bookkeeping and
//! decisions, the safekeeper-side replica accounting, and the proxy's
//! authentication decisions.
//!
//! Every operation carries a contract over the mathematical view of
//! the store, and the laws the repository obeys — what a read returns
//! after a write, what a drop hides, what a branch inherits, what a
//! checkpoint may never change — are stated and proved in
//! [`laws`], [`metadata`] and on the operations themselves.

pub mod error;
pub mod laws;
pub mod lsn;
pub mod metadata;
pub mod page_versions;
pub mod proxy;
pub mod redo;
pub mod relish;
pub mod repository;
pub mod safekeeper;
pub mod store;
pub mod timeline;
pub mod vfile;
pub mod walreceiver;
