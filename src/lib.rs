//! Verified core of an archival engine for signed commit frames: the CBOR and
//! CAR frame parser, commit canonicalization, the identity cache, the sharded
//! clustered archive with its tombstones, deduplication and endpoint backoff.
pub mod archive;
pub mod cache;
pub mod canonical;
pub mod car;
pub mod cbor;
pub mod cluster;
pub mod codec;
pub mod commit;
pub mod dedup;
pub mod frame;
pub mod ledger;
pub mod merkle;
pub mod monitor;
pub mod relay;
pub mod resolver;
pub mod segment;
pub mod signature;
pub mod tombstone;
pub mod worker;
pub mod writer;

