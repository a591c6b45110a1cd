//! A verified mirror of a social graph built from AT-Protocol repositories.
//!
//! The crate decodes content-addressed repository archives (CAR files of
//! DAG-CBOR blocks arranged as a Merkle Search Tree), applies follow
//! create/delete events from a change stream, and maintains durable
//! follow/identity indices together with a crawl work queue.

pub mod apply;
pub mod blockstore;
pub mod bytes;
pub mod car;
pub mod cbor;
pub mod cid;
pub mod crawl;
pub mod firehose;
pub mod follows;
pub mod keys;
pub mod kv;
pub mod mst;
pub mod plc;
pub mod plcdir;
pub mod text;
