//! A staging cache for blocks that arrive in any order: blocks wait in a
//! fork tree until it is deep enough, then the root is promoted and the
//! losing forks are dropped.

pub mod block_id;
pub mod block_cache;
pub mod blk_file;

pub use block_id::{BlockId, BlockInfo};
pub use block_cache::BlockCache;
pub use blk_file::{next_record, BlockRecord, RecordError};
