//! Verified core of a copy-on-write B-tree storage engine.

pub mod accounting;
pub mod bucket;
pub mod bset;
pub mod bset_walk;
pub mod btree_id;
pub mod bytes;
pub mod cache;
pub mod cache_fill;
pub mod cache_limits;
pub mod cache_ops;
pub mod cache_use;
pub mod contents;
pub mod delete;
pub mod entries;
pub mod evicted;
pub mod extent_io;
pub mod gc;
pub mod gc_alloc_info;
pub mod gc_check;
pub mod gc_mark;
pub mod gc_sweep;
pub mod insert;
pub mod interior;
pub mod interior_updates;
pub mod iter;
pub mod iter_update;
pub mod key;
pub mod key_cache;
pub mod listing;
pub mod lookup;
pub mod meminfo;
pub mod mend;
pub mod merge;
pub mod merge_shape;
pub mod node;
pub mod node_buffer;
pub mod node_cache;
pub mod node_flags;
pub mod node_io;
pub mod node_write;
pub mod packed;
pub mod path;
pub mod report;
pub mod runs;
pub mod shape;
pub mod snapshot;
pub mod sort_iter;
pub mod sound;
pub mod split;
pub mod text;
pub mod topology;
pub mod transaction;
pub mod tree;
pub mod update;
pub mod visible;
pub mod volume;
pub mod writer;
