use vstd::prelude::*;

verus! {

/// Identifier of a block: the 32 bytes of its hash.
#[derive(Clone, Copy, Debug, PartialEq, Eq, Hash)]
pub struct BlockId {
    pub bytes: [u8; 32],
}

impl BlockId {
    /// Compares two identifiers byte by byte.
    pub fn same(&self, other: &BlockId) -> (r: bool)
        ensures
            r == (*self == *other),
    {
        let mut i: usize = 0;
        while i < 32
            invariant
                0 <= i <= 32,
                forall|k: int| 0 <= k < i ==> self.bytes@[k] == other.bytes@[k],
            decreases 32 - i,
        {
            if self.bytes[i] != other.bytes[i] {
                return false;
            }
            i += 1;
        }
        proof {
            assert(self.bytes =~= other.bytes);
        }
        true
    }
}

/// What the cache needs to know of a block: its own hash and its parent's.
#[derive(Clone, Copy, Debug, PartialEq, Eq)]
pub struct BlockInfo {
    pub hash: BlockId,
    pub prev_hash: BlockId,
}

impl BlockInfo {
    pub fn new(hash: &BlockId, prev_hash: &BlockId) -> (r: BlockInfo)
        ensures
            r.hash == *hash,
            r.prev_hash == *prev_hash,
    {
        BlockInfo { hash: *hash, prev_hash: *prev_hash }
    }
}

} // verus!
