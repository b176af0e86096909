//! A notes vault kept as plain files, mirrored by an in-memory index: the
//! rules for what each write may change, and the index's bookkeeping.

pub mod deletions;
pub mod digest;
pub mod enhanced;
pub mod error;
pub mod files;
pub mod index;
pub mod journal;
pub mod keyed;
pub mod language;
pub mod layout;
pub mod meta;
pub mod order;
pub mod paths;
pub mod people;
pub mod rebuild;
pub mod record;
pub mod recording;
pub mod stats;
pub mod storage;
pub mod strings;
pub mod summary;
pub mod sync;
pub mod tags;
pub mod tasks;
pub mod transcript;
pub mod whisper;
