use vstd::prelude::*;

verus! {

/// Selector for the index variant the engine builds at open time. The
/// ordered in-memory map is the default; the enum is the extension
/// point for further variants such as an on-disk B+ tree.
#[derive(Clone, Copy, Debug, PartialEq, Eq, Structural)]
pub enum IndexType {
    BTree,
}

/// Configuration of the storage engine.
pub struct Options {
    /// Directory holding the data files. Must be non-empty.
    pub dir_path: String,
    /// Target maximum bytes per data file. Must be greater than zero.
    pub data_file_size: u64,
    /// Force durability after every append.
    pub sync_writes: bool,
    /// Which index variant to build.
    pub index_type: IndexType,
}

/// Options of an index iterator.
pub struct IteratorOptions {
    /// Traverse in descending key order instead of ascending.
    pub reverse: bool,
    /// Yield only keys that begin with these bytes; empty means all.
    pub prefix: Vec<u8>,
}

impl Default for IteratorOptions {
    /// Ascending traversal over all keys.
    fn default() -> (r: Self)
        ensures
            r.reverse == false,
            r.prefix@ == Seq::<u8>::empty(),
    {
        let r = IteratorOptions { reverse: false, prefix: Vec::new() };
        assert(r.prefix@ =~= Seq::<u8>::empty());
        r
    }
}

} // verus!
