//! The configuration of a store.

use crate::sstable::options::CompressType;
use vstd::prelude::*;

verus! {

/// What a store is opened with.
#[derive(Debug, Clone)]
pub struct Options {
    /// The directory of the store's files.
    pub work_dir: String,
    /// The number of levels.
    pub max_level: usize,
    /// A data block is closed once its estimated size exceeds this.
    pub block_size: usize,
    /// Every so many entries of a block the key is stored in full.
    pub block_restart_interval: usize,
    /// How blocks are stored.
    pub compression: CompressType,
    /// How many decoded blocks the cache keeps.
    pub block_cache_capacity: usize,
    /// The charge at which a memtable is full.
    pub memtable_max_size: usize,
    /// The height of the memtable's skip list.
    pub memtable_max_height: usize,
    /// The number of level-0 tables at which level 0 asks for compaction.
    pub l0_compaction_trigger: usize,
}

impl Default for Options {
    fn default() -> (o: Options)
        ensures
            o.work_dir@ == Seq::<char>::empty(),
            o.max_level == 7,
            o.block_size == 4096,
            o.block_restart_interval == 16,
            o.compression == CompressType::Uncompressed,
            o.block_cache_capacity == 8388608,
            o.memtable_max_size == 4194304,
            o.memtable_max_height == 12,
            o.l0_compaction_trigger == 4,
    {
        Options {
            work_dir: String::new(),
            max_level: 7,
            block_size: 4096,
            block_restart_interval: 16,
            compression: CompressType::Uncompressed,
            block_cache_capacity: 8388608,
            memtable_max_size: 4194304,
            memtable_max_height: 12,
            l0_compaction_trigger: 4,
        }
    }
}

impl Options {
    /// The options of the store's tables.
    pub open spec fn table_opt(&self) -> crate::sstable::options::Options {
        crate::sstable::options::Options {
            block_size: self.block_size,
            block_restart_interval: self.block_restart_interval,
            compress_type: self.compression,
            block_cache_capacity: self.block_cache_capacity,
        }
    }

    /// The options of the store's tables.
    pub fn get_table_opt(&self) -> (t: crate::sstable::options::Options)
        ensures
            t == self.table_opt(),
    {
        crate::sstable::options::Options {
            block_size: self.block_size,
            block_restart_interval: self.block_restart_interval,
            compress_type: self.compression,
            block_cache_capacity: self.block_cache_capacity,
        }
    }

    /// The options of the store's tables.
    pub fn to_table_opt(&self) -> (t: crate::sstable::options::Options)
        ensures
            t == self.table_opt(),
    {
        self.get_table_opt()
    }

    /// A copy of the options.
    pub fn duplicate(&self) -> (o: Options)
        ensures
            o == *self,
    {
        Options {
            work_dir: self.work_dir.clone(),
            max_level: self.max_level,
            block_size: self.block_size,
            block_restart_interval: self.block_restart_interval,
            compression: self.compression,
            block_cache_capacity: self.block_cache_capacity,
            memtable_max_size: self.memtable_max_size,
            memtable_max_height: self.memtable_max_height,
            l0_compaction_trigger: self.l0_compaction_trigger,
        }
    }
}

} // verus!
