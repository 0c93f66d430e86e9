//! A Bitcask-style persistent key-value store, verified with Verus.
//!
//! Mutations are appended to numbered log files as self-delimiting binary
//! records; an in-memory index maps each live key to the byte location of
//! its most recent value.  Opening a store replays the logs to rebuild the
//! index, and a compaction pass copies the live records into a fresh log
//! and discards the stale generations.
//!
//! The log files are modelled in memory as byte vectors; reading and
//! writing the real files of the data directory is left to the embedding
//! program, which feeds the directory contents to [`KvStore::open`] and
//! mirrors every change of [`KvStore::files`] back to disk.

mod codec;
mod error;
mod genlist;
mod index;
mod replay;
mod store;

pub use codec::Command;
pub use codec::CommandView;
pub use codec::decode_command;
pub use codec::decode_command_at;
pub use codec::encode_command;
pub use codec::encoded;
pub use codec::command_wf;
pub use codec::lemma_encode_then_decode;
pub use codec::stream_records;
pub use error::KvsError;
pub use genlist::load_path;
pub use genlist::log_file_name;
pub use genlist::log_path;
pub use genlist::parse_gen;
pub use genlist::sort_gen_list;
pub use store::COMPACTION_THRESHOLD;
pub use store::KvStore;
pub use store::LogFile;
