//! A toy distributed file store: a coordinator tracks where file chunks live
//! across a fleet of storage workers, plans replicated chunk placement for
//! uploads, and reconciles its metadata against on-disk snapshots; workers
//! hold raw chunk bytes and report liveness to the coordinator.

use vstd::prelude::*;

pub mod auth;
mod chunks;
pub mod client;
mod config;
mod liveness;
mod meta;
mod persist;
mod placement;
mod removal;
mod store;

pub use chunks::{
    b64_decode_of, b64_of, chunk_round_trip, delete_chunk, get_chunk, store_chunk, ChunkError,
    ChunkMsg, ChunkStore,
};
pub use config::Config;
pub use liveness::{heartbeat_upsert, is_live, live_pred, seq_contains_view, LivenessTracker};
pub use meta::{hosts_view, metas_view, names_view, Host, HostSpec, MetaSpec, MetaStore, Status};
pub use placement::{chunk_count, plan_ensures, plan_upload, planned_chunks, upload, PlanError};
pub use persist::{
    compact, compaction_idempotent, find_key, last_with_key, last_write_wins,
    lemma_compact_of_compacted, lemma_compact_unique, lemma_find_key, lemma_find_key_unique,
    lemma_last_with_key_bounds, lift, load_snapshot, records_view, sample_snapshot, spec_compact,
    tombstone_exclusion, unique_keys, upsert,
};
pub use removal::{
    chunk_fan_out, deletes_view, fan_out, last_hash_with_hosts, plan_remove, RemoteDelete,
    RemoteDeleteSpec, RemoveOutcome,
};
pub use store::{
    contains_string, dedup_first, file_names, lemma_dedup_first_distinct,
    lemma_dedup_first_membership, lemma_filter_step, name_differs, name_matches, MetadataStore,
};

verus! {

/// Size in bytes of one file chunk, for planning purposes.
pub const FILE_CHUNK_SIZE: u64 = 512;

/// Maximum heartbeat age, in minutes, for a worker to count as live.
pub const TIMEOUT_IN_MINUTES: i64 = 5;

/// Number of distinct hosts that must hold each chunk of a placed file.
pub const REPLICATION_FACTOR: usize = 3;

} // verus!
