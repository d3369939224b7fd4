use vstd::prelude::*;

verus! {

/// Configuration the engine is opened with.
#[derive(Clone, Debug)]
pub struct Options {
    /// Directory the data files live in; only its non-emptiness matters to the
    /// core, the file system work around it is the caller's.
    pub dir_path: String,
    /// Rollover threshold in bytes; must be positive.
    pub data_file_size: u64,
    /// Whether every append is followed by a sync of the active file.
    pub sync_writes: bool,
    /// Which key directory implementation backs the engine.
    pub index_type: IndexType,
}

#[derive(Clone, Copy, Debug, PartialEq, Eq, Structural)]
pub enum IndexType {
    BTree,
    SkipList,
}

impl Default for Options {
    fn default() -> (r: Self)
        ensures
            r.dir_path@.len() > 0,
            r.data_file_size == 256 * 1024 * 1024,
            !r.sync_writes,
            r.index_type == IndexType::BTree,
    {
        proof {
            reveal_strlit("/tmp/bitcask");
        }
        Options {
            dir_path: "/tmp/bitcask".to_owned(),
            data_file_size: 256 * 1024 * 1024,
            sync_writes: false,
            index_type: IndexType::BTree,
        }
    }
}

/// Configuration of one key directory iterator.
#[derive(Clone, Debug)]
pub struct IteratorOptions {
    /// Only keys beginning with this byte prefix are emitted; empty means all.
    pub prefix: Vec<u8>,
    /// Iterate in reverse lexicographic order.
    pub reverse: bool,
}

impl Default for IteratorOptions {
    fn default() -> (r: Self)
        ensures
            r.prefix@.len() == 0,
            !r.reverse,
    {
        IteratorOptions { prefix: Vec::new(), reverse: false }
    }
}

/// Configuration of one write batch.
#[derive(Clone, Debug)]
pub struct WriteBatchOptions {
    /// Upper bound on the number of staged entries a commit accepts.
    pub max_batch_num: usize,
    /// Whether the active file is synced at the end of a commit.
    pub sync_writes: bool,
}

impl Default for WriteBatchOptions {
    fn default() -> (r: Self)
        ensures
            r.max_batch_num == 10000,
            r.sync_writes,
    {
        WriteBatchOptions { max_batch_num: 10000, sync_writes: true }
    }
}

} // verus!
