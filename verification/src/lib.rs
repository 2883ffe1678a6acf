//! Content-based comparison of two collections of file trees.
//!
//! Every file found under a "left" or a "right" root is fingerprinted with
//! SHA-256; the fingerprints are gathered per side and reconciled into three
//! groups: content found only on the left, only on the right, or on both.
//!
//! The crate holds the decisions and the data structures: the task queue with
//! its capability-counted completion signal, the expansion of one directory
//! listing into tasks and results, the streaming hash engine, the per-side
//! buckets and their reconciliation. Reading directories and files, running
//! worker threads and printing are left to the caller.

pub mod bucket;
pub mod collect;
pub mod counting;
pub mod digest;
pub mod expand;
pub mod fingerprint;
pub mod location;
pub mod membership;
pub mod queue;
pub mod reconcile;
pub mod result;
pub mod roots;
pub mod run;

pub use bucket::add_to_result_hash_map;
pub use bucket::HashBucket;
pub use collect::collect_results;
pub use collect::ResultCollector;
pub use digest::digest_hex;
pub use digest::digest_of;
pub use digest::HashEngine;
pub use digest::MAX_CONTENT;
pub use digest::Sha256Sum;
pub use expand::DirEntryProbe;
pub use expand::EntryKind;
pub use expand::handle_dir_work;
pub use expand::listing_is_supported;
pub use fingerprint::fingerprint_one_file;
pub use location::PathLocation;
pub use location::Side;
pub use queue::Next;
pub use queue::TaskQueue;
pub use queue::Work;
pub use queue::worker_count;
pub use reconcile::Locations;
pub use reconcile::split_into_locations;
pub use result::Diagnostic;
pub use result::Failure;
pub use result::FailureKind;
pub use result::WorkResult;
pub use roots::enqueue_initial_work_for_side;
pub use roots::enqueue_initial_work_from_args;
pub use roots::Root;
pub use roots::seeded_queue;
