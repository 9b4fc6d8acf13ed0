//! A persistent key-value store: a write-ahead log, a memtable, and sorted table files in levels
//! that are merged as they fill.
//!
//! The engine in [`db`] works on a directory held in memory and hands out the operations to be
//! carried out on the files. What the files mean is said in [`table`], [`wal`] and [`names`]; what
//! the operations do to them in [`engine`] and [`recovery`]; and that nothing is lost wherever the
//! process ends in [`durability`], [`crash`] and [`safety`]. What the parts promise is said in
//! [`steady`] of the handle, in [`duty`], [`budget`] and [`effects`] of flushes and merges, in [`expiry`]
//! of the cache, in [`manual`] of the commands and in [`forms`] of the files.
pub mod bloom;
pub mod budget;
pub mod bytes;
pub mod cache;
pub mod checksum;
pub mod cli;
pub mod compaction;
pub mod crash;
pub mod db;
pub mod disjoint;
pub mod disk;
pub mod durability;
pub mod duty;
pub mod effects;
pub mod engine;
pub mod error;
pub mod expiry;
pub mod fault;
pub mod forms;
pub mod iter;
pub mod keymap;
pub mod keys;
pub mod levels;
pub mod manual;
pub mod merge;
pub mod metrics;
pub mod names;
pub mod picking;
pub mod progress;
pub mod records;
pub mod recovery;
pub mod replay;
pub mod rows;
pub mod safety;
pub mod sstable;
pub mod steady;
pub mod table;
pub mod text;
pub mod wal;
pub mod workload;
