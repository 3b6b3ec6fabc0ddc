use vstd::prelude::*;

use crate::block_id::{BlockId, BlockInfo};

verus! {

#[verifier::external_type_specification]
#[verifier::external_body]
pub struct ExBlock(bitcoin::Block);

/// The descriptor of a block: its hash and its header's parent hash.
pub uninterp spec fn info_of(b: bitcoin::Block) -> BlockInfo;

/// The block that `consensus_decode` reads from the start of `b`, if any.
pub uninterp spec fn decoded_block(b: Seq<u8>) -> Option<bitcoin::Block>;

/// Relies on bitcoin's `Block::block_hash` for the block's own hash, on the
/// header's `prev_blockhash` field for its parent, and on
/// `Hash::to_byte_array` to read each hash as its 32 bytes: all of them
/// depend on the block alone.
#[verifier::external_body]
fn describe_block(block: &bitcoin::Block) -> (r: BlockInfo)
    ensures
        r == info_of(*block),
{
    BlockInfo {
        hash: BlockId { bytes: bitcoin::hashes::Hash::to_byte_array(block.block_hash()) },
        prev_hash: BlockId { bytes: bitcoin::hashes::Hash::to_byte_array(block.header.prev_blockhash) },
    }
}

/// Relies on bitcoin's `Decodable::consensus_decode` for `Block`: the block
/// encoded at the start of `bytes`, if they hold one; it reads nothing but
/// `bytes`.
#[verifier::external_body]
fn decode_block(bytes: &[u8]) -> (r: Option<bitcoin::Block>)
    ensures
        r == decoded_block(bytes@),
{
    let mut reader: &[u8] = bytes;
    <bitcoin::Block as bitcoin::consensus::Decodable>::consensus_decode(&mut reader).ok()
}

/// A block that the cache has accepted and not yet released or purged.
struct PendingBlock {
    id: BlockId,
    block: bitcoin::Block,
}

#[derive(Clone, Copy)]
struct TreeNode {
    block_info: BlockInfo,
    parent: Option<BlockId>,
    // The level at the time the node was staged: the first root has level 1,
    // a child one more than its parent. It is never lowered: a node's depth
    // below the current root is `orig_level - root_removed_cnt`.
    orig_level: u32,
}

/// The fork tree of the blocks whose ancestry is known.
struct StagedBlocks {
    tree_root: Option<BlockId>,
    nodes: Vec<TreeNode>,
    // the greatest depth of a node below the current root (root alone: 1)
    tree_depth: u32,
    // how many roots have been promoted so far
    root_removed_cnt: u32,
}

/// Holds blocks until they are deep enough in the chain to be released.
///
/// Every accepted block sits in the pending store. Its descriptor is either
/// staged in the fork tree, or parked out of order until its parent is staged.
/// Once the tree is deep enough its root is released, and every fork that
/// leaves the root beside the deepest one is purged.
///
/// The stores are vectors searched linearly, and a promotion rescans the tree
/// for orphaned nodes: each call costs time in the number of blocks held
/// (quadratic for the purge), which stays small for the few hundred blocks
/// that a confirmation depth keeps, but is not constant.
pub struct BlockCache {
    pending_full_blocks: Vec<PendingBlock>,
    // parked descriptors, in arrival order; those that wait on one parent are
    // the ones whose `prev_hash` is that parent
    out_of_order_blocks: Vec<BlockInfo>,
    staged_blocks: StagedBlocks,
}

spec fn node_has(n: Seq<TreeNode>, id: BlockId) -> bool {
    exists|i: int| 0 <= i < n.len() && (#[trigger] n[i]).block_info.hash == id
}

spec fn pending_has(p: Seq<PendingBlock>, id: BlockId) -> bool {
    exists|i: int| 0 <= i < p.len() && (#[trigger] p[i]).id == id
}

spec fn parked_has(q: Seq<BlockInfo>, id: BlockId) -> bool {
    exists|k: int| 0 <= k < q.len() && (#[trigger] q[k]).hash == id
}

spec fn parents_of(q: Seq<BlockInfo>) -> Seq<BlockId> {
    q.map_values(|d: BlockInfo| d.prev_hash)
}

spec fn nodes_unique(n: Seq<TreeNode>) -> bool {
    forall|i: int, j: int|
        0 <= i < n.len() && 0 <= j < n.len() && i != j ==> (#[trigger] n[i]).block_info.hash
            != (#[trigger] n[j]).block_info.hash
}

/// Node `i` has its parent in the tree, one level above it.
spec fn parent_linked(n: Seq<TreeNode>, i: int) -> bool {
    exists|j: int|
        0 <= j < n.len() && (#[trigger] n[j]).block_info.hash == n[i].parent->Some_0
            && n[j].orig_level + 1 == n[i].orig_level
}

/// Wherever a node's parent is in the tree, it is one level above the node.
spec fn levels_follow_parents(n: Seq<TreeNode>) -> bool {
    forall|i: int, j: int|
        0 <= i < n.len() && 0 <= j < n.len() && (#[trigger] n[i]).parent == Some(
            (#[trigger] n[j]).block_info.hash,
        ) ==> n[j].orig_level + 1 == n[i].orig_level
}

/// A node is an orphan when its parent is gone, or when it has no parent
/// and is not the root.
spec fn is_orphan(n: Seq<TreeNode>, root: Option<BlockId>, i: int) -> bool {
    match n[i].parent {
        None => root != Some(n[i].block_info.hash),
        Some(p) => !node_has(n, p),
    }
}

/// Link `m` of a path down the tree: `chain[m]` is staged at level `l0 + m`,
/// and is a child of `chain[m - 1]`.
spec fn chain_at(n: Seq<TreeNode>, chain: Seq<BlockId>, l0: int, m: int) -> bool {
    exists|i: int|
        0 <= i < n.len() && (#[trigger] n[i]).block_info.hash == chain[m] && n[i].orig_level == l0
            + m && (m > 0 ==> n[i].parent == Some(chain[m - 1]))
}

/// `chain` is a path down the tree that starts at level `l0`.
spec fn chain_ok(n: Seq<TreeNode>, chain: Seq<BlockId>, l0: int) -> bool {
    &&& chain.len() >= 1
    &&& forall|m: int| 0 <= m < chain.len() ==> #[trigger] chain_at(n, chain, l0, m)
}

impl StagedBlocks {
    spec fn top_level(self) -> int {
        self.root_removed_cnt + self.tree_depth
    }

    /// All of `wf` but that parents are present.
    spec fn wf_shape(self) -> bool {
        let n = self.nodes@;
        let base = self.root_removed_cnt as int;
        &&& nodes_unique(n)
        &&& (self.tree_root is None <==> n.len() == 0)
        &&& (n.len() == 0 ==> self.tree_depth == 0)
        &&& (self.tree_root is Some ==> node_has(n, self.tree_root->Some_0))
        &&& forall|i: int| 0 <= i < n.len() ==> base < (#[trigger] n[i]).orig_level <= self.top_level()
        &&& (n.len() > 0 ==> exists|i: int|
            0 <= i < n.len() && (#[trigger] n[i]).orig_level == self.top_level())
        &&& forall|i: int|
            0 <= i < n.len() ==> ((#[trigger] n[i]).parent is None <==> self.tree_root == Some(
                n[i].block_info.hash,
            ))
        &&& forall|i: int|
            0 <= i < n.len() && (#[trigger] n[i]).parent is None ==> n[i].orig_level == base + 1
        &&& forall|i: int|
            0 <= i < n.len() && (#[trigger] n[i]).parent is Some ==> n[i].parent->Some_0
                == n[i].block_info.prev_hash
    }

    /// Tree connectivity, level monotonicity and depth correctness.
    spec fn wf(self) -> bool {
        let n = self.nodes@;
        &&& self.wf_shape()
        &&& forall|i: int|
            0 <= i < n.len() && (#[trigger] n[i]).parent is Some ==> parent_linked(n, i)
    }


    fn new() -> (r: StagedBlocks)
        ensures
            r.wf(),
            r.nodes@.len() == 0,
            r.tree_depth == 0,
            r.root_removed_cnt == 0,
    {
        StagedBlocks { tree_root: None, nodes: Vec::new(), tree_depth: 0, root_removed_cnt: 0 }
    }

    fn find(&self, id: &BlockId) -> (r: Option<usize>)
        ensures
            match r {
                Some(i) => i < self.nodes@.len() && self.nodes@[i as int].block_info.hash == *id,
                None => !node_has(self.nodes@, *id),
            },
    {
        let mut i: usize = 0;
        while i < self.nodes.len()
            invariant
                0 <= i <= self.nodes@.len(),
                forall|k: int| 0 <= k < i ==> (#[trigger] self.nodes@[k]).block_info.hash != *id,
            decreases self.nodes@.len() - i,
        {
            if self.nodes[i].block_info.hash.same(id) {
                return Some(i);
            }
            i += 1;
        }
        None
    }

    // A new node is made for `block_info`. In an empty tree it becomes the
    // root; otherwise it becomes a child of the node whose hash is its
    // `prev_hash`, and the depth grows when the new node is the deepest.
    fn add_block_info(&mut self, block_info: &BlockInfo)
        requires
            old(self).wf(),
            !node_has(old(self).nodes@, block_info.hash),
            old(self).tree_root is None || node_has(old(self).nodes@, block_info.prev_hash),
            old(self).top_level() < u32::MAX,
        ensures
            final(self).wf(),
            final(self).root_removed_cnt == old(self).root_removed_cnt,
            final(self).nodes@.len() == old(self).nodes@.len() + 1,
            forall|i: int|
                0 <= i < old(self).nodes@.len() ==> final(self).nodes@[i] == old(self).nodes@[i],
            final(self).nodes@.last().block_info == *block_info,
            old(self).tree_root is None ==> final(self).tree_root == Some(block_info.hash),
            old(self).tree_root is Some ==> final(self).tree_root == old(self).tree_root,
            final(self).top_level() <= old(self).top_level() + 1,
    {
        let ghost n0 = self.nodes@;
        if self.tree_root.is_none() {
            let node = TreeNode {
                block_info: *block_info,
                parent: None,
                orig_level: self.root_removed_cnt + 1,
            };
            self.nodes.push(node);
            self.tree_root = Some(block_info.hash);
            self.tree_depth = 1;
            proof {
                let n = self.nodes@;
                assert(n.len() == 1);
                assert(n[0] == node);
                assert(node_has(n, block_info.hash));
            }
        } else {
            let j = self.find(&block_info.prev_hash).unwrap();
            let level = self.nodes[j].orig_level + 1;
            let node = TreeNode {
                block_info: *block_info,
                parent: Some(block_info.prev_hash),
                orig_level: level,
            };
            self.nodes.push(node);
            if self.tree_depth < level - self.root_removed_cnt {
                self.tree_depth = level - self.root_removed_cnt;
            }
            proof {
                let n = self.nodes@;
                let last = n.len() - 1;
                assert(n[last] == node);
                assert(forall|i: int| 0 <= i < last ==> n[i] == n0[i]);
                assert(n[j as int] == n0[j as int]);
                assert(parent_linked(n, last));
                assert forall|i: int| 0 <= i < n.len() && (#[trigger] n[i]).parent is Some implies parent_linked(n, i) by {
                    if i < last {
                        assert(n[i] == n0[i]);
                        assert(parent_linked(n0, i));
                        let p = n0[i].parent->Some_0;
                        let k = choose|k: int| 0 <= k < n0.len() && (#[trigger] n0[k]).block_info.hash == p && n0[k].orig_level + 1 == n0[i].orig_level;
                        assert(n[k] == n0[k]);
                    }
                }
                assert(node_has(n, self.tree_root->Some_0)) by {
                    let r = self.tree_root->Some_0;
                    let k = choose|k: int| 0 <= k < n0.len() && (#[trigger] n0[k]).block_info.hash == r;
                    assert(n[k] == n0[k]);
                }
                if n0.len() > 0 {
                    let k = choose|k: int| 0 <= k < n0.len() && (#[trigger] n0[k]).orig_level == old(self).top_level();
                    if level - self.root_removed_cnt <= old(self).tree_depth {
                        assert(n[k] == n0[k]);
                    } else {
                        assert(n[last].orig_level == self.top_level());
                    }
                }
            }
        }
    }
}


impl BlockCache {
    /// The invariants, except that parked descriptors whose parent is staged
    /// may wait on a parent listed in `draining`.
    spec fn wf_except(self, draining: Seq<BlockId>) -> bool {
        &&& self.staged_blocks.wf()
        &&& self.stores_ok(draining)
    }

    /// The invariants that relate the pending store, the holding area and
    /// the tree.
    spec fn stores_ok(self, draining: Seq<BlockId>) -> bool {
        let p = self.pending_full_blocks@;
        let q = self.out_of_order_blocks@;
        let n = self.staged_blocks.nodes@;
        // payload closure: pending is the disjoint union of tree and holding
        &&& forall|a: int, b: int|
            0 <= a < p.len() && 0 <= b < p.len() && a != b ==> (#[trigger] p[a]).id != (#[trigger] p[b]).id
        &&& forall|a: int, b: int|
            0 <= a < q.len() && 0 <= b < q.len() && a != b ==> (#[trigger] q[a]).hash != (#[trigger] q[b]).hash
        &&& forall|i: int, k: int|
            0 <= i < n.len() && 0 <= k < q.len() ==> (#[trigger] n[i]).block_info.hash != (#[trigger] q[k]).hash
        &&& forall|i: int| 0 <= i < n.len() ==> pending_has(p, (#[trigger] n[i]).block_info.hash)
        &&& forall|k: int| 0 <= k < q.len() ==> pending_has(p, (#[trigger] q[k]).hash)
        &&& forall|a: int|
            0 <= a < p.len() ==> node_has(n, (#[trigger] p[a]).id) || parked_has(q, p[a].id)
        &&& p.len() == n.len() + q.len()
        // holding is orphan-free: no parked descriptor waits on a staged parent
        &&& forall|k: int|
            0 <= k < q.len() && node_has(n, (#[trigger] q[k]).prev_hash) ==> draining.contains(q[k].prev_hash)
    }

    /// The invariants of the cache: every accepted block is pending and
    /// is either staged or parked, never both; the tree is connected, its
    /// levels grow by one from parent to child, and its depth is the greatest
    /// depth of a node; no parked descriptor waits on a staged parent.
    pub closed spec fn wf(self) -> bool {
        self.wf_except(Seq::empty())
    }

    /// The `u32` levels can still be handed out to every parked descriptor
    /// and to one more block.
    pub closed spec fn has_level_headroom(self) -> bool {
        self.staged_blocks.top_level() + self.out_of_order_blocks@.len() + 1 < u32::MAX
    }

    pub closed spec fn is_pending(self, id: BlockId) -> bool {
        pending_has(self.pending_full_blocks@, id)
    }

    /// The payload held for `id` (meaningful where `is_pending(id)`).
    pub closed spec fn payload(self, id: BlockId) -> bitcoin::Block {
        let p = self.pending_full_blocks@;
        p[choose|a: int| 0 <= a < p.len() && (#[trigger] p[a]).id == id].block
    }

    pub closed spec fn is_staged(self, id: BlockId) -> bool {
        node_has(self.staged_blocks.nodes@, id)
    }

    /// `id` is parked, waiting on `parent`.
    pub closed spec fn is_parked_under(self, id: BlockId, parent: BlockId) -> bool {
        let q = self.out_of_order_blocks@;
        exists|k: int| 0 <= k < q.len() && (#[trigger] q[k]).hash == id && q[k].prev_hash == parent
    }

    pub closed spec fn is_parked(self, id: BlockId) -> bool {
        parked_has(self.out_of_order_blocks@, id)
    }

    /// The staged node of `id` (meaningful where `is_staged(id)`).
    spec fn node(self, id: BlockId) -> TreeNode {
        let n = self.staged_blocks.nodes@;
        n[choose|i: int| 0 <= i < n.len() && (#[trigger] n[i]).block_info.hash == id]
    }

    /// The descriptor of a staged block.
    pub closed spec fn staged_info(self, id: BlockId) -> BlockInfo {
        self.node(id).block_info
    }

    pub closed spec fn level(self, id: BlockId) -> int {
        self.node(id).orig_level as int
    }

    pub closed spec fn parent(self, id: BlockId) -> Option<BlockId> {
        self.node(id).parent
    }

    pub closed spec fn root(self) -> Option<BlockId> {
        self.staged_blocks.tree_root
    }

    pub closed spec fn depth(self) -> int {
        self.staged_blocks.tree_depth as int
    }

    pub closed spec fn removed(self) -> int {
        self.staged_blocks.root_removed_cnt as int
    }

    pub closed spec fn spec_pending_cnt(self) -> int {
        self.pending_full_blocks@.len() as int
    }

    pub closed spec fn spec_staged_cnt(self) -> int {
        self.staged_blocks.nodes@.len() as int
    }

    /// The parked descriptors, in arrival order.
    pub closed spec fn holding(self) -> Seq<BlockInfo> {
        self.out_of_order_blocks@
    }

    /// The parents that parked descriptors wait on.
    pub closed spec fn awaited_parents(self) -> Set<BlockId> {
        parents_of(self.out_of_order_blocks@).to_set()
    }

    /// The number of parked descriptors.
    pub closed spec fn spec_parked_cnt(self) -> int {
        self.out_of_order_blocks@.len() as int
    }

    proof fn lemma_node_at(self, i: int)
        requires
            self.staged_blocks.wf(),
            0 <= i < self.staged_blocks.nodes@.len(),
        ensures
            self.is_staged(self.staged_blocks.nodes@[i].block_info.hash),
            self.node(self.staged_blocks.nodes@[i].block_info.hash) == self.staged_blocks.nodes@[i],
    {
        let n = self.staged_blocks.nodes@;
        assert(node_has(n, n[i].block_info.hash));
    }

    proof fn lemma_pending_at(self, a: int)
        requires
            forall|x: int, y: int|
                0 <= x < self.pending_full_blocks@.len() && 0 <= y < self.pending_full_blocks@.len() && x != y
                    ==> (#[trigger] self.pending_full_blocks@[x]).id != (#[trigger] self.pending_full_blocks@[y]).id,
            0 <= a < self.pending_full_blocks@.len(),
        ensures
            self.is_pending(self.pending_full_blocks@[a].id),
            self.payload(self.pending_full_blocks@[a].id) == self.pending_full_blocks@[a].block,
    {
        let p = self.pending_full_blocks@;
        assert(pending_has(p, p[a].id));
    }

    pub fn new() -> (r: BlockCache)
        ensures
            r.wf(),
            r.spec_pending_cnt() == 0,
            r.spec_staged_cnt() == 0,
            r.spec_parked_cnt() == 0,
            r.root() is None,
            r.depth() == 0,
            r.removed() == 0,
            forall|id: BlockId| !r.is_pending(id) && !r.is_staged(id) && !r.is_parked(id),
    {
        BlockCache {
            pending_full_blocks: Vec::new(),
            out_of_order_blocks: Vec::new(),
            staged_blocks: StagedBlocks::new(),
        }
    }

    pub fn pending_cnt(&self) -> (r: usize)
        ensures
            r == self.spec_pending_cnt(),
    {
        self.pending_full_blocks.len()
    }

    pub fn staged_cnt(&self) -> (r: usize)
        ensures
            r == self.spec_staged_cnt(),
    {
        self.staged_blocks.nodes.len()
    }

    /// The number of parked descriptors (not of the parents they wait on).
    pub fn parked_cnt(&self) -> (r: usize)
        ensures
            r == self.spec_parked_cnt(),
    {
        self.out_of_order_blocks.len()
    }

    fn find_pending(&self, id: &BlockId) -> (r: Option<usize>)
        ensures
            match r {
                Some(a) => a < self.pending_full_blocks@.len() && self.pending_full_blocks@[a as int].id == *id,
                None => !self.is_pending(*id),
            },
    {
        let mut a: usize = 0;
        while a < self.pending_full_blocks.len()
            invariant
                0 <= a <= self.pending_full_blocks@.len(),
                forall|k: int| 0 <= k < a ==> (#[trigger] self.pending_full_blocks@[k]).id != *id,
            decreases self.pending_full_blocks@.len() - a,
        {
            if self.pending_full_blocks[a].id.same(id) {
                return Some(a);
            }
            a += 1;
        }
        None
    }

    /// The first parked descriptor that waits on `parent`.
    fn find_parked_child(&self, parent: &BlockId) -> (r: Option<usize>)
        ensures
            match r {
                Some(k) => k < self.out_of_order_blocks@.len() && self.out_of_order_blocks@[k as int].prev_hash == *parent,
                None => forall|k: int| 0 <= k < self.out_of_order_blocks@.len() ==> (#[trigger] self.out_of_order_blocks@[k]).prev_hash != *parent,
            },
    {
        let mut k: usize = 0;
        while k < self.out_of_order_blocks.len()
            invariant
                0 <= k <= self.out_of_order_blocks@.len(),
                forall|j: int| 0 <= j < k ==> (#[trigger] self.out_of_order_blocks@[j]).prev_hash != *parent,
            decreases self.out_of_order_blocks@.len() - k,
        {
            if self.out_of_order_blocks[k].prev_hash.same(parent) {
                return Some(k);
            }
            k += 1;
        }
        None
    }

    // Stages, depth first, every parked descriptor that descends from the
    // newly staged `hash`: each drained descriptor is staged, then what waits
    // on it is drained before its next sibling.
    #[verifier::rlimit(60)]
    fn move_out_of_order_blocks_to_staged(&mut self, hash: &BlockId)
        requires
            old(self).wf_except(seq![*hash]),
            node_has(old(self).staged_blocks.nodes@, *hash),
            old(self).staged_blocks.top_level() + old(self).out_of_order_blocks@.len() < u32::MAX,
        ensures
            final(self).wf(),
            final(self).staged_blocks.top_level() + final(self).out_of_order_blocks@.len()
                <= old(self).staged_blocks.top_level() + old(self).out_of_order_blocks@.len(),
            final(self).pending_full_blocks@ == old(self).pending_full_blocks@,
            final(self).staged_blocks.root_removed_cnt == old(self).staged_blocks.root_removed_cnt,
            final(self).staged_blocks.tree_root == old(self).staged_blocks.tree_root,
            final(self).staged_blocks.nodes@.len() >= old(self).staged_blocks.nodes@.len(),
            forall|i: int|
                0 <= i < old(self).staged_blocks.nodes@.len() ==> final(self).staged_blocks.nodes@[i]
                    == old(self).staged_blocks.nodes@[i],
            forall|k: int|
                0 <= k < final(self).out_of_order_blocks@.len() ==> old(self).out_of_order_blocks@.contains(
                    #[trigger] final(self).out_of_order_blocks@[k],
                ),
            forall|i: int|
                old(self).staged_blocks.nodes@.len() <= i < final(self).staged_blocks.nodes@.len()
                    ==> old(self).out_of_order_blocks@.contains(
                    (#[trigger] final(self).staged_blocks.nodes@[i]).block_info,
                ),
    {
        let ghost n0 = self.staged_blocks.nodes@;
        let ghost q0 = self.out_of_order_blocks@;
        let ghost bound = self.staged_blocks.top_level() + q0.len();
        assert(bound < u32::MAX);
        let mut stack: Vec<BlockId> = Vec::new();
        stack.push(*hash);
        assert(stack@ =~= seq![*hash]);
        while stack.len() > 0
            invariant
                self.wf_except(stack@),
                forall|s: int| 0 <= s < stack@.len() ==> node_has(self.staged_blocks.nodes@, #[trigger] stack@[s]),
                self.staged_blocks.tree_root is Some,
                self.staged_blocks.top_level() + self.out_of_order_blocks@.len() <= bound,
                bound < u32::MAX,
                self.pending_full_blocks@ == old(self).pending_full_blocks@,
                self.staged_blocks.root_removed_cnt == old(self).staged_blocks.root_removed_cnt,
                self.staged_blocks.tree_root == old(self).staged_blocks.tree_root,
                self.staged_blocks.nodes@.len() >= n0.len(),
                forall|i: int| 0 <= i < n0.len() ==> self.staged_blocks.nodes@[i] == n0[i],
                forall|k: int|
                    0 <= k < self.out_of_order_blocks@.len() ==> q0.contains(#[trigger] self.out_of_order_blocks@[k]),
                forall|i: int|
                    n0.len() <= i < self.staged_blocks.nodes@.len() ==> q0.contains(
                        (#[trigger] self.staged_blocks.nodes@[i]).block_info,
                    ),
            decreases self.out_of_order_blocks@.len(), stack@.len(),
        {
            let ghost st = stack@;
            let x = stack.pop().unwrap();
            assert(st == stack@.push(x));
            match self.find_parked_child(&x) {
                Some(k) => {
                    let ghost q = self.out_of_order_blocks@;
                    let ghost n = self.staged_blocks.nodes@;
                    let ghost p = self.pending_full_blocks@;
                    let info = self.out_of_order_blocks.remove(k);
                    assert(q[k as int] == info);
                    assert(st.contains(x));
                    assert(node_has(n, x));
                    assert(!node_has(n, info.hash)) by {
                        if node_has(n, info.hash) {
                            let i = choose|i: int| 0 <= i < n.len() && (#[trigger] n[i]).block_info.hash == info.hash;
                            assert(n[i].block_info.hash != q[k as int].hash);
                        }
                    }
                    assert(self.staged_blocks.top_level() + q.len() < u32::MAX);
                    self.staged_blocks.add_block_info(&info);
                    stack.push(x);
                    stack.push(info.hash);
                    proof {
                        let q2 = self.out_of_order_blocks@;
                        let n2 = self.staged_blocks.nodes@;
                        let last = n2.len() - 1;
                        assert(q2 == q.remove(k as int));
                        assert(forall|i: int| 0 <= i < n.len() ==> n2[i] == n[i]);
                        assert(n2[last].block_info == info);
                        assert forall|i: int| 0 <= i < n2.len() implies pending_has(p, (#[trigger] n2[i]).block_info.hash) by {
                            if i < n.len() {
                                assert(n2[i] == n[i]);
                            } else {
                                assert(pending_has(p, q[k as int].hash));
                            }
                        }
                        assert forall|a: int| 0 <= a < p.len() implies node_has(n2, (#[trigger] p[a]).id) || parked_has(q2, p[a].id) by {
                            if node_has(n, p[a].id) {
                                let i = choose|i: int| 0 <= i < n.len() && (#[trigger] n[i]).block_info.hash == p[a].id;
                                assert(n2[i] == n[i]);
                            } else {
                                let j = choose|j: int| 0 <= j < q.len() && (#[trigger] q[j]).hash == p[a].id;
                                if j == k {
                                    assert(n2[last].block_info.hash == p[a].id);
                                } else if j < k {
                                    assert(q2[j] == q[j]);
                                } else {
                                    assert(q2[j - 1] == q[j]);
                                }
                            }
                        }
                        assert forall|i: int, j: int| 0 <= i < n2.len() && 0 <= j < q2.len() implies (#[trigger] n2[i]).block_info.hash != (#[trigger] q2[j]).hash by {
                            let jj = if j < k { j } else { j + 1 };
                            assert(q2[j] == q[jj]);
                            if i < n.len() {
                                assert(n2[i] == n[i]);
                            } else {
                                assert(jj != k);
                            }
                        }
                        assert forall|j: int| 0 <= j < q2.len() && node_has(n2, (#[trigger] q2[j]).prev_hash) implies stack@.contains(q2[j].prev_hash) by {
                            let jj = if j < k { j } else { j + 1 };
                            assert(q2[j] == q[jj]);
                            let i = choose|i: int| 0 <= i < n2.len() && (#[trigger] n2[i]).block_info.hash == q2[j].prev_hash;
                            if i < n.len() {
                                assert(n2[i] == n[i]);
                                assert(node_has(n, q[jj].prev_hash));
                                assert(st.contains(q[jj].prev_hash));
                                let s = choose|s: int| 0 <= s < st.len() && st[s] == q[jj].prev_hash;
                                assert(stack@[s] == st[s]);
                            } else {
                                assert(stack@[stack@.len() - 1] == info.hash);
                            }
                        }
                        assert forall|s: int| 0 <= s < stack@.len() implies node_has(n2, #[trigger] stack@[s]) by {
                            if s < st.len() {
                                assert(stack@[s] == st[s]);
                                let i = choose|i: int| 0 <= i < n.len() && (#[trigger] n[i]).block_info.hash == st[s];
                                assert(n2[i] == n[i]);
                            } else {
                                assert(n2[last].block_info.hash == info.hash);
                            }
                        }
                        assert forall|j: int| 0 <= j < q2.len() implies q0.contains(#[trigger] q2[j]) by {
                            let jj = if j < k { j } else { j + 1 };
                            assert(q2[j] == q[jj]);
                        }
                        assert(q0.contains(q[k as int]));
                    }
                },
                None => {
                    proof {
                        let q = self.out_of_order_blocks@;
                        assert forall|j: int| 0 <= j < q.len() && node_has(self.staged_blocks.nodes@, (#[trigger] q[j]).prev_hash) implies stack@.contains(q[j].prev_hash) by {
                            assert(st.contains(q[j].prev_hash));
                            let s = choose|s: int| 0 <= s < st.len() && st[s] == q[j].prev_hash;
                            assert(s != st.len() - 1);
                            assert(stack@[s] == st[s]);
                        }
                        assert forall|s: int| 0 <= s < stack@.len() implies node_has(self.staged_blocks.nodes@, #[trigger] stack@[s]) by {
                            assert(stack@[s] == st[s]);
                        }
                    }
                },
            }
        }
        assert(stack@ =~= Seq::<BlockId>::empty());
    }
}

impl BlockCache {
    /// What accepting `block`, described by `info`, does to the cache `pre`,
    /// leaving it as `post`. A block whose hash is already pending is
    /// ignored. Otherwise its payload joins the pending store, and it is
    /// staged when the tree is empty or its parent is staged (and then every
    /// parked block that descends from it is staged too), else it is parked
    /// under its parent.
    pub open spec fn accepted(pre: BlockCache, post: BlockCache, info: BlockInfo, block: bitcoin::Block) -> bool {
        &&& (pre.is_pending(info.hash) ==> post == pre)
        &&& (!pre.is_pending(info.hash) ==> {
            &&& forall|id: BlockId|
                post.is_pending(id) <==> (pre.is_pending(id) || id == info.hash)
            &&& post.payload(info.hash) == block
            &&& forall|id: BlockId|
                pre.is_pending(id) ==> post.payload(id) == pre.payload(id)
            &&& post.spec_pending_cnt() == pre.spec_pending_cnt() + 1
            &&& post.root() is Some
            &&& post.removed() == pre.removed()
            &&& (pre.root() is None ==> {
                &&& post.root() == Some(info.hash)
                &&& post.level(info.hash) == pre.removed() + 1
            })
            &&& (pre.root() is None || pre.is_staged(info.prev_hash)
                ==> post.is_staged(info.hash))
            &&& (!(pre.root() is None || pre.is_staged(info.prev_hash)) ==> {
                &&& post.is_parked_under(info.hash, info.prev_hash)
                &&& post.holding() == pre.holding().push(info)
                &&& forall|id: BlockId| post.is_staged(id) == pre.is_staged(id)
            })
            &&& (pre.root() is Some ==> post.root() == pre.root())
            &&& forall|id: BlockId|
                pre.is_staged(id) ==> {
                    &&& post.is_staged(id)
                    &&& post.staged_info(id) == pre.staged_info(id)
                    &&& post.level(id) == pre.level(id)
                    &&& post.parent(id) == pre.parent(id)
                }
            &&& forall|id: BlockId, par: BlockId|
                post.is_parked_under(id, par) ==> pre.is_parked_under(id, par) || (
                id == info.hash && par == info.prev_hash)
            // a block parked under a parent that is gone stays parked
            &&& forall|id: BlockId, par: BlockId|
                pre.is_parked_under(id, par) && !pre.is_pending(par) && par
                    != info.hash ==> post.is_parked_under(id, par)
            // each newly staged block keeps its own descriptor: it is the
            // new block, or one that was parked under its parent
            &&& forall|id: BlockId|
                post.is_staged(id) && !pre.is_staged(id) ==> {
                    &&& post.staged_info(id).hash == id
                    &&& (id == info.hash ==> post.staged_info(id) == info)
                    &&& (id != info.hash ==> pre.is_parked_under(id, post.staged_info(id).prev_hash))
                }
        })
    }

    proof fn lemma_not_pending(self, id: BlockId)
        requires
            self.wf(),
            !self.is_pending(id),
        ensures
            !node_has(self.staged_blocks.nodes@, id),
            !parked_has(self.out_of_order_blocks@, id),
    {
        let n = self.staged_blocks.nodes@;
        let q = self.out_of_order_blocks@;
        if node_has(n, id) {
            let i = choose|i: int| 0 <= i < n.len() && (#[trigger] n[i]).block_info.hash == id;
            assert(pending_has(self.pending_full_blocks@, n[i].block_info.hash));
        }
        if parked_has(q, id) {
            let k = choose|k: int| 0 <= k < q.len() && (#[trigger] q[k]).hash == id;
            assert(pending_has(self.pending_full_blocks@, q[k].hash));
        }
    }

    /// Accepts `block`, described by `block_info`: see `accepted`.
    #[verifier::rlimit(60)]
    pub fn add_block_impl(&mut self, block_info: &BlockInfo, block: bitcoin::Block)
        requires
            old(self).wf(),
            old(self).has_level_headroom(),
        ensures
            final(self).wf(),
            Self::accepted(*old(self), *final(self), *block_info, block),
    {
        if self.find_pending(&block_info.hash).is_some() {
            return;
        }
        proof {
            old(self).lemma_not_pending(block_info.hash);
        }
        let ghost p0 = self.pending_full_blocks@;
        let ghost n0 = self.staged_blocks.nodes@;
        let ghost q0 = self.out_of_order_blocks@;
        let h = block_info.hash;
        let to_tree = self.staged_blocks.tree_root.is_none() || self.staged_blocks.find(
            &block_info.prev_hash,
        ).is_some();
        self.pending_full_blocks.push(PendingBlock { id: h, block });
        let ghost p = self.pending_full_blocks@;
        assert(p.last().id == h && p.last().block == block);
        assert(forall|a: int| 0 <= a < p0.len() ==> p[a] == p0[a]);
        if to_tree {
            self.staged_blocks.add_block_info(block_info);
            proof {
                let n = self.staged_blocks.nodes@;
                let q = self.out_of_order_blocks@;
                let last = n.len() - 1;
                assert(forall|i: int| 0 <= i < n0.len() ==> n[i] == n0[i]);
                assert(n[last].block_info.hash == h);
                assert forall|a: int, b: int| 0 <= a < p.len() && 0 <= b < p.len() && a != b implies (#[trigger] p[a]).id != (#[trigger] p[b]).id by {
                    if a == p.len() - 1 {
                        assert(!pending_has(p0, h));
                        assert(p[b] == p0[b]);
                    } else if b == p.len() - 1 {
                        assert(!pending_has(p0, h));
                        assert(p[a] == p0[a]);
                    } else {
                        assert(p[a] == p0[a] && p[b] == p0[b]);
                    }
                }
                assert forall|i: int, k: int| 0 <= i < n.len() && 0 <= k < q.len() implies (#[trigger] n[i]).block_info.hash != (#[trigger] q[k]).hash by {
                    if i < n0.len() {
                        assert(n[i] == n0[i]);
                    } else {
                        assert(!parked_has(q0, h));
                    }
                }
                assert forall|i: int| 0 <= i < n.len() implies pending_has(p, (#[trigger] n[i]).block_info.hash) by {
                    if i < n0.len() {
                        assert(n[i] == n0[i]);
                        assert(pending_has(p0, n0[i].block_info.hash));
                        let a = choose|a: int| 0 <= a < p0.len() && (#[trigger] p0[a]).id == n0[i].block_info.hash;
                        assert(p[a] == p0[a]);
                    } else {
                        assert(p[p.len() - 1].id == h);
                    }
                }
                assert forall|k: int| 0 <= k < q.len() implies pending_has(p, (#[trigger] q[k]).hash) by {
                    assert(pending_has(p0, q0[k].hash));
                    let a = choose|a: int| 0 <= a < p0.len() && (#[trigger] p0[a]).id == q0[k].hash;
                    assert(p[a] == p0[a]);
                }
                assert forall|a: int| 0 <= a < p.len() implies node_has(n, (#[trigger] p[a]).id) || parked_has(q, p[a].id) by {
                    if a < p0.len() {
                        assert(p[a] == p0[a]);
                        if node_has(n0, p0[a].id) {
                            let i = choose|i: int| 0 <= i < n0.len() && (#[trigger] n0[i]).block_info.hash == p0[a].id;
                            assert(n[i] == n0[i]);
                        }
                    } else {
                        assert(n[last].block_info.hash == p[a].id);
                    }
                }
                assert forall|k: int| 0 <= k < q.len() && node_has(n, (#[trigger] q[k]).prev_hash) implies seq![h].contains(q[k].prev_hash) by {
                    let i = choose|i: int| 0 <= i < n.len() && (#[trigger] n[i]).block_info.hash == q[k].prev_hash;
                    if i < n0.len() {
                        assert(n[i] == n0[i]);
                        assert(node_has(n0, q0[k].prev_hash));
                        assert(Seq::<BlockId>::empty().contains(q0[k].prev_hash));
                    } else {
                        assert(seq![h][0] == h);
                    }
                }
                assert(node_has(n, h));
            }
            let ghost n_mid = self.staged_blocks.nodes@;
            assert(self.out_of_order_blocks@ == q0);
            self.move_out_of_order_blocks_to_staged(&h);
            proof {
                let n = self.staged_blocks.nodes@;
                assert forall|i: int| 0 <= i < n.len() implies (i < n0.len() && #[trigger] n[i] == n0[i])
                    || n[i].block_info == *block_info || q0.contains(n[i].block_info) by {
                    if i < n_mid.len() {
                        assert(n[i] == n_mid[i]);
                    }
                }
            }
        } else {
            self.out_of_order_blocks.push(*block_info);
            proof {
                let n = self.staged_blocks.nodes@;
                let q = self.out_of_order_blocks@;
                let lq = q.len() - 1;
                assert(q[lq] == *block_info);
                assert(forall|k: int| 0 <= k < q0.len() ==> q[k] == q0[k]);
                assert(!node_has(n, block_info.prev_hash));
                assert forall|a: int, b: int| 0 <= a < p.len() && 0 <= b < p.len() && a != b implies (#[trigger] p[a]).id != (#[trigger] p[b]).id by {
                    if a == p.len() - 1 {
                        assert(!pending_has(p0, h));
                        assert(p[b] == p0[b]);
                    } else if b == p.len() - 1 {
                        assert(!pending_has(p0, h));
                        assert(p[a] == p0[a]);
                    } else {
                        assert(p[a] == p0[a] && p[b] == p0[b]);
                    }
                }
                assert forall|a: int, b: int| 0 <= a < q.len() && 0 <= b < q.len() && a != b implies (#[trigger] q[a]).hash != (#[trigger] q[b]).hash by {
                    if a == lq {
                        assert(q[b] == q0[b]);
                    } else if b == lq {
                        assert(q[a] == q0[a]);
                    } else {
                        assert(q[a] == q0[a] && q[b] == q0[b]);
                    }
                }
                assert forall|i: int, k: int| 0 <= i < n.len() && 0 <= k < q.len() implies (#[trigger] n[i]).block_info.hash != (#[trigger] q[k]).hash by {
                    if k < q0.len() {
                        assert(q[k] == q0[k]);
                    }
                }
                assert forall|i: int| 0 <= i < n.len() implies pending_has(p, (#[trigger] n[i]).block_info.hash) by {
                    assert(pending_has(p0, n0[i].block_info.hash));
                    let a = choose|a: int| 0 <= a < p0.len() && (#[trigger] p0[a]).id == n0[i].block_info.hash;
                    assert(p[a] == p0[a]);
                }
                assert forall|k: int| 0 <= k < q.len() implies pending_has(p, (#[trigger] q[k]).hash) by {
                    if k < q0.len() {
                        assert(q[k] == q0[k]);
                        assert(pending_has(p0, q0[k].hash));
                        let a = choose|a: int| 0 <= a < p0.len() && (#[trigger] p0[a]).id == q0[k].hash;
                        assert(p[a] == p0[a]);
                    } else {
                        assert(p[p.len() - 1].id == h);
                    }
                }
                assert forall|a: int| 0 <= a < p.len() implies node_has(n, (#[trigger] p[a]).id) || parked_has(q, p[a].id) by {
                    if a < p0.len() {
                        assert(p[a] == p0[a]);
                        if parked_has(q0, p0[a].id) {
                            let k = choose|k: int| 0 <= k < q0.len() && (#[trigger] q0[k]).hash == p0[a].id;
                            assert(q[k] == q0[k]);
                        }
                    } else {
                        assert(q[lq].hash == p[a].id);
                    }
                }
                assert forall|k: int| 0 <= k < q.len() && node_has(n, (#[trigger] q[k]).prev_hash) implies Seq::<BlockId>::empty().contains(q[k].prev_hash) by {
                    if k < q0.len() {
                        assert(q[k] == q0[k]);
                    }
                }
            }
        }
        proof {
            let fin = *self;
            let n = self.staged_blocks.nodes@;
            let q = self.out_of_order_blocks@;
            assert(self.pending_full_blocks@ == p);
            assert forall|id: BlockId| fin.is_pending(id) <==> (old(self).is_pending(id) || id == h) by {
                if fin.is_pending(id) && id != h {
                    let a = choose|a: int| 0 <= a < p.len() && (#[trigger] p[a]).id == id;
                    assert(p[a] == p0[a]);
                }
                if old(self).is_pending(id) {
                    let a = choose|a: int| 0 <= a < p0.len() && (#[trigger] p0[a]).id == id;
                    assert(p[a] == p0[a]);
                }
                if id == h {
                    assert(p[p.len() - 1].id == h);
                }
            }
            fin.lemma_pending_at(p.len() - 1);
            assert forall|id: BlockId| old(self).is_pending(id) implies fin.payload(id) == old(self).payload(id) by {
                let a = choose|a: int| 0 <= a < p0.len() && (#[trigger] p0[a]).id == id;
                old(self).lemma_pending_at(a);
                assert(p[a] == p0[a]);
                fin.lemma_pending_at(a);
            }
            assert forall|id: BlockId| old(self).is_staged(id) implies {
                &&& fin.is_staged(id)
                &&& fin.staged_info(id) == old(self).staged_info(id)
                &&& fin.level(id) == old(self).level(id)
                &&& fin.parent(id) == old(self).parent(id)
            } by {
                let i = choose|i: int| 0 <= i < n0.len() && (#[trigger] n0[i]).block_info.hash == id;
                old(self).lemma_node_at(i);
                assert(n[i] == n0[i]);
                fin.lemma_node_at(i);
            }
            if old(self).root() is None {
                assert(n0.len() == 0);
                assert(n[0].block_info.hash == h);
                fin.lemma_node_at(0);
            }
            if to_tree {
                assert(n[n0.len() as int].block_info.hash == h);
                assert(node_has(n, h));
            } else {
                assert(q[q.len() - 1] == *block_info);
                assert forall|id: BlockId| fin.is_staged(id) == old(self).is_staged(id) by {
                    assert(n == n0);
                }
            }
            assert(forall|i: int| 0 <= i < n.len() ==> (i < n0.len() && #[trigger] n[i] == n0[i])
                || n[i].block_info == *block_info || q0.contains(n[i].block_info));
            assert(forall|k: int| 0 <= k < q.len() ==> q0.contains(#[trigger] q[k]) || q[k] == *block_info);
            assert(fin.staged_blocks.tree_root == if old(self).staged_blocks.tree_root is Some {
                old(self).staged_blocks.tree_root } else { Some(h) });
            assert forall|id: BlockId, par: BlockId| old(self).is_parked_under(id, par) && !old(self).is_pending(par)
                && par != h implies fin.is_parked_under(id, par) by {
                let k0 = choose|k: int| 0 <= k < q0.len() && (#[trigger] q0[k]).hash == id && q0[k].prev_hash == par;
                Self::lemma_cache_invariants(*old(self));
                Self::lemma_cache_invariants(fin);
                assert(old(self).is_parked(id));
                assert(old(self).is_pending(id));
                assert(fin.is_pending(id));
                if fin.is_staged(id) {
                    let i = choose|i: int| 0 <= i < n.len() && (#[trigger] n[i]).block_info.hash == id;
                    fin.lemma_node_at(i);
                    assert(!old(self).is_staged(id));
                    if i < n0.len() && n[i] == n0[i] {
                        assert(node_has(n0, id));
                    } else if n[i].block_info == *block_info {
                        assert(id == h);
                    } else {
                        let j = choose|j: int| 0 <= j < q0.len() && q0[j] == n[i].block_info;
                        assert(q0[j].hash == id);
                        assert(j == k0);
                        if fin.parent(id) is None {
                            assert(fin.root() == Some(id));
                            if old(self).staged_blocks.tree_root is Some {
                                assert(old(self).is_staged(id));
                            }
                        } else {
                            assert(fin.is_staged(par));
                            assert(fin.is_pending(par));
                        }
                    }
                }
                assert(fin.is_parked(id));
                let k = choose|k: int| 0 <= k < q.len() && (#[trigger] q[k]).hash == id;
                if q[k] == *block_info {
                    assert(id == h);
                } else {
                    let j = choose|j: int| 0 <= j < q0.len() && q0[j] == q[k];
                    assert(q0[j].hash == id);
                    assert(j == k0);
                }
            }
            assert forall|id: BlockId| fin.is_staged(id) && !old(self).is_staged(id) implies {
                &&& fin.staged_info(id).hash == id
                &&& (id == h ==> fin.staged_info(id) == *block_info)
                &&& (id != h ==> old(self).is_parked_under(id, fin.staged_info(id).prev_hash))
            } by {
                let i = choose|i: int| 0 <= i < n.len() && (#[trigger] n[i]).block_info.hash == id;
                fin.lemma_node_at(i);
                if i < n0.len() && n[i] == n0[i] {
                    assert(node_has(n0, id));
                } else if n[i].block_info == *block_info {
                } else {
                    let j = choose|j: int| 0 <= j < q0.len() && q0[j] == n[i].block_info;
                    assert(q0[j].hash == id);
                    assert(parked_has(q0, id));
                }
            }
            assert forall|id: BlockId, par: BlockId| fin.is_parked_under(id, par) implies old(self).is_parked_under(id, par) || (id == h && par == block_info.prev_hash) by {
                let k = choose|k: int| 0 <= k < q.len() && (#[trigger] q[k]).hash == id && q[k].prev_hash == par;
                if to_tree {
                    assert(q0.contains(q[k]));
                    let j = choose|j: int| 0 <= j < q0.len() && q0[j] == q[k];
                    assert(q0[j].hash == id);
                } else if k < q0.len() {
                    assert(q[k] == q0[k]);
                }
            }
        }
    }

    /// Decodes a block from `bytes` and accepts it as `add_block` does.
    /// Returns false, and leaves the cache as it was, when `bytes` do not
    /// start with a block.
    pub fn add_encoded_block(&mut self, bytes: &[u8]) -> (r: bool)
        requires
            old(self).wf(),
            old(self).has_level_headroom(),
        ensures
            final(self).wf(),
            r == decoded_block(bytes@) is Some,
            !r ==> *final(self) == *old(self),
            r ==> ({
                let block = decoded_block(bytes@)->Some_0;
                Self::accepted(*old(self), *final(self), info_of(block), block)
            }),
    {
        match decode_block(bytes) {
            Some(block) => {
                self.add_block(block);
                true
            },
            None => false,
        }
    }

    /// Accepts a block: reads its hash and its parent's, then proceeds as
    /// `add_block_impl`.
    pub fn add_block(&mut self, block: bitcoin::Block)
        requires
            old(self).wf(),
            old(self).has_level_headroom(),
        ensures
            final(self).wf(),
            Self::accepted(*old(self), *final(self), info_of(block), block),
    {
        let block_info = describe_block(&block);
        self.add_block_impl(&block_info, block);
    }
}

impl StagedBlocks {
    proof fn lemma_levels_follow(self)
        requires
            self.wf(),
        ensures
            levels_follow_parents(self.nodes@),
    {
        let n = self.nodes@;
        assert forall|i: int, j: int| 0 <= i < n.len() && 0 <= j < n.len() && (#[trigger] n[i]).parent == Some(
            (#[trigger] n[j]).block_info.hash) implies n[j].orig_level + 1 == n[i].orig_level by {
            assert(parent_linked(n, i));
            let k = choose|k: int| 0 <= k < n.len() && (#[trigger] n[k]).block_info.hash == n[i].parent->Some_0
                && n[k].orig_level + 1 == n[i].orig_level;
            assert(k == j);
        }
    }

    /// Only the root stands at the top level of the tree.
    proof fn lemma_first_level_is_root(self, i: int)
        requires
            self.wf(),
            0 <= i < self.nodes@.len(),
            self.nodes@[i].orig_level == self.root_removed_cnt + 1,
        ensures
            self.nodes@[i].parent is None,
            self.tree_root == Some(self.nodes@[i].block_info.hash),
    {
        let n = self.nodes@;
        if n[i].parent is Some {
            assert(parent_linked(n, i));
            let k = choose|k: int| 0 <= k < n.len() && (#[trigger] n[k]).block_info.hash == n[i].parent->Some_0
                && n[k].orig_level + 1 == n[i].orig_level;
            assert(n[k].orig_level > self.root_removed_cnt);
        }
    }

    /// With no orphans left, a tree of the right shape is well formed.
    proof fn lemma_no_orphans(self)
        requires
            self.wf_shape(),
            levels_follow_parents(self.nodes@),
            forall|i: int| 0 <= i < self.nodes@.len() ==> !is_orphan(self.nodes@, self.tree_root, i),
        ensures
            self.wf(),
    {
        let n = self.nodes@;
        assert forall|i: int| 0 <= i < n.len() && (#[trigger] n[i]).parent is Some implies parent_linked(n, i) by {
            assert(!is_orphan(n, self.tree_root, i));
            let j = choose|j: int| 0 <= j < n.len() && (#[trigger] n[j]).block_info.hash == n[i].parent->Some_0;
            assert(n[i].parent == Some(n[j].block_info.hash));
        }
    }

    /// The first node at the greatest depth.
    fn deepest_node(&self) -> (r: usize)
        requires
            self.wf(),
            self.nodes@.len() > 0,
        ensures
            r < self.nodes@.len(),
            self.nodes@[r as int].orig_level == self.top_level(),
            forall|i: int| 0 <= i < r ==> (#[trigger] self.nodes@[i]).orig_level != self.top_level(),
    {
        let n = Ghost(self.nodes@);
        let top = self.root_removed_cnt + self.tree_depth;
        let mut i: usize = 0;
        while i < self.nodes.len()
            invariant
                0 <= i <= self.nodes@.len(),
                top == self.top_level(),
                forall|k: int| 0 <= k < i ==> (#[trigger] self.nodes@[k]).orig_level != self.top_level(),
            decreases self.nodes@.len() - i,
        {
            if self.nodes[i].orig_level == top {
                return i;
            }
            i += 1;
        }
        proof {
            let k = choose|k: int| 0 <= k < n@.len() && (#[trigger] n@[k]).orig_level == self.top_level();
            assert(self.nodes@[k].orig_level != self.top_level());
        }
        0
    }

    /// Walks up from node `d` to its ancestor that is a child of the root,
    /// and returns that ancestor with the path from it down to `d`.
    fn child_of_root_above(&self, d: usize) -> (r: (usize, Ghost<Seq<BlockId>>))
        requires
            self.wf(),
            d < self.nodes@.len(),
            self.nodes@[d as int].orig_level >= self.root_removed_cnt + 2,
        ensures
            r.0 < self.nodes@.len(),
            self.nodes@[r.0 as int].orig_level == self.root_removed_cnt + 2,
            self.nodes@[r.0 as int].parent == self.tree_root,
            chain_ok(self.nodes@, r.1@, self.root_removed_cnt + 2),
            r.1@[0] == self.nodes@[r.0 as int].block_info.hash,
            r.1@.last() == self.nodes@[d as int].block_info.hash,
    {
        let ghost n = self.nodes@;
        let mut c: usize = d;
        let ghost mut chain: Seq<BlockId> = seq![n[d as int].block_info.hash];
        assert(chain_at(n, chain, n[d as int].orig_level as int, 0));
        while self.nodes[c].orig_level > self.root_removed_cnt + 2
            invariant
                self.wf(),
                n == self.nodes@,
                c < n.len(),
                n[c as int].orig_level >= self.root_removed_cnt + 2,
                chain_ok(n, chain, n[c as int].orig_level as int),
                chain[0] == n[c as int].block_info.hash,
                chain.last() == n[d as int].block_info.hash,
            decreases n[c as int].orig_level,
        {
            assert(parent_linked(n, c as int));
            let j = self.find(&self.nodes[c].parent.unwrap()).unwrap();
            proof {
                let k = choose|k: int| 0 <= k < n.len() && (#[trigger] n[k]).block_info.hash == n[c as int].parent->Some_0
                    && n[k].orig_level + 1 == n[c as int].orig_level;
                assert(k == j as int);
                let l0 = n[j as int].orig_level as int;
                let new_chain = seq![n[j as int].block_info.hash] + chain;
                assert forall|m: int| 0 <= m < new_chain.len() implies #[trigger] chain_at(n, new_chain, l0, m) by {
                    if m == 0 {
                        assert(new_chain[0] == n[j as int].block_info.hash);
                    } else {
                        assert(new_chain[m] == chain[m - 1]);
                        assert(chain_at(n, chain, l0 + 1, m - 1));
                        let i = choose|i: int| 0 <= i < n.len() && (#[trigger] n[i]).block_info.hash == chain[m - 1]
                            && n[i].orig_level == l0 + 1 + (m - 1) && (m - 1 > 0 ==> n[i].parent == Some(chain[m - 2]));
                        if m == 1 {
                            assert(i == c as int);
                        } else {
                            assert(new_chain[m - 1] == chain[m - 2]);
                        }
                    }
                }
                chain = new_chain;
            }
            c = j;
        }
        proof {
            assert(n[c as int].parent is Some) by {
                if n[c as int].parent is None {
                    assert(n[c as int].orig_level == self.root_removed_cnt + 1);
                }
            }
            assert(parent_linked(n, c as int));
            let k = choose|k: int| 0 <= k < n.len() && (#[trigger] n[k]).block_info.hash == n[c as int].parent->Some_0
                && n[k].orig_level + 1 == n[c as int].orig_level;
            self.lemma_first_level_is_root(k);
        }
        (c, Ghost(chain))
    }
}

impl StagedBlocks {
    // When the tree is deep enough its root is removed and the tree shifts up
    // one level. The root's child whose subtree is the deepest becomes the new
    // root: among several, the one above the first deepest node in staging
    // order. Its former siblings are left orphaned, to be purged by the
    // caller. Returns the descriptor of the removed root, and the path from
    // the new root down to a deepest node.
    #[verifier::rlimit(100)]
    fn remove_block_info_if_ready(&mut self, depth_threshold: u32) -> (r: (
        Option<BlockInfo>,
        Ghost<Seq<BlockId>>,
    ))
        requires
            old(self).wf(),
        ensures
            (r.0 is None) <==> (old(self).tree_depth < depth_threshold || old(self).tree_depth == 0),
            r.0 is None ==> *final(self) == *old(self),
            r.0 is Some ==> {
                let n0 = old(self).nodes@;
                let n = final(self).nodes@;
                let info = r.0->Some_0;
                &&& old(self).tree_root == Some(info.hash)
                &&& node_has(n0, info.hash)
                &&& !node_has(n, info.hash)
                &&& forall|j: int| 0 <= j < n0.len() && (#[trigger] n0[j]).block_info.hash == info.hash ==> n0[j].block_info == info
                &&& final(self).wf_shape()
                &&& levels_follow_parents(n)
                &&& final(self).root_removed_cnt == old(self).root_removed_cnt + 1
                &&& final(self).tree_depth == old(self).tree_depth - 1
                &&& n.len() == n0.len() - 1
                &&& forall|j: int| 0 <= j < n0.len() && (#[trigger] n0[j]).block_info.hash != info.hash
                    ==> node_has(n, n0[j].block_info.hash)
                &&& forall|i: int| 0 <= i < n.len() ==> exists|j: int| 0 <= j < n0.len()
                    && (#[trigger] n0[j]).block_info == (#[trigger] n[i]).block_info
                    && n0[j].orig_level == n[i].orig_level
                    && (n0[j].parent == n[i].parent || final(self).tree_root == Some(n[i].block_info.hash))
                &&& (final(self).tree_root is Some ==> {
                    &&& chain_ok(n, r.1@, final(self).root_removed_cnt + 1)
                    &&& r.1@[0] == final(self).tree_root->Some_0
                    &&& chain_at(n, r.1@, final(self).root_removed_cnt + 1, r.1@.len() - 1)
                    &&& r.1@.len() == final(self).tree_depth
                    &&& exists|j: int| 0 <= j < n0.len() && (#[trigger] n0[j]).block_info.hash
                        == final(self).tree_root->Some_0 && n0[j].parent == old(self).tree_root
                    &&& chain_ok(n0, r.1@, old(self).root_removed_cnt + 2)
                    &&& exists|d: int| 0 <= d < n0.len() && (#[trigger] n0[d]).block_info.hash == r.1@.last()
                        && n0[d].orig_level == old(self).top_level()
                        && forall|i: int| 0 <= i < d ==> (#[trigger] n0[i]).orig_level != old(self).top_level()
                })
            },
    {
        if self.tree_depth < depth_threshold || self.tree_depth == 0 {
            return (None, Ghost(Seq::empty()));
        }
        let ghost n0 = self.nodes@;
        let ghost base = self.root_removed_cnt as int;
        let root_hash = self.tree_root.unwrap();
        let ri = self.find(&root_hash).unwrap();
        let mut winner: Option<usize> = None;
        let ghost mut chain: Seq<BlockId> = Seq::empty();
        let ghost mut d_ghost: int = 0;
        proof {
            self.lemma_levels_follow();
        }
        if self.tree_depth > 1 {
            let d = self.deepest_node();
            let (w, ch) = self.child_of_root_above(d);
            winner = Some(w);
            proof {
                chain = ch@;
                d_ghost = d as int;
            }
        } else {
            proof {
                assert forall|i: int| 0 <= i < n0.len() implies (#[trigger] n0[i]).block_info.hash == root_hash by {
                    self.lemma_first_level_is_root(i);
                }
                assert(n0.len() == 1) by {
                    if n0.len() > 1 {
                        let other = if ri == 0 { 1int } else { 0int };
                        assert(n0[other].block_info.hash == root_hash);
                        assert(n0[ri as int].block_info.hash == root_hash);
                    }
                }
            }
        }
        let winner_hash: Option<BlockId> = match winner {
            Some(w) => Some(self.nodes[w].block_info.hash),
            None => None,
        };
        let root_node = self.nodes.remove(ri);
        let ghost n1 = self.nodes@;
        let ghost mut wi_g: int = 0;
        assert(forall|i: int| 0 <= i < n1.len() ==> n1[i] == n0[if i < ri { i } else { i + 1 }]);
        match winner_hash {
            Some(wh) => {
                proof {
                    let w = winner->Some_0 as int;
                    assert(n0[ri as int].parent is None);
                    assert(w != ri);
                    let wi = if w < ri { w } else { w - 1 };
                    assert(n1[wi] == n0[w]);
                    assert(node_has(n1, wh));
                }
                let wi = self.find(&wh).unwrap();
                let mut node = self.nodes[wi];
                node.parent = None;
                self.nodes.set(wi, node);
                proof {
                    wi_g = wi as int;
                }
            },
            None => {},
        }
        self.tree_root = winner_hash;
        self.tree_depth = self.tree_depth - 1;
        self.root_removed_cnt = self.root_removed_cnt + 1;
        proof {
            let n = self.nodes@;
            assert(n1 == n0.remove(ri as int));
            if winner is Some {
                let w = winner->Some_0 as int;
                let wh = n0[w].block_info.hash;
                assert(n[wi_g].block_info.hash == wh);
                assert(node_has(n, wh));
                assert forall|i: int| 0 <= i < n.len() && (#[trigger] n[i]).block_info.hash == wh implies n[i].parent is None by {
                    if i != wi_g {
                        let i0 = if i < ri { i } else { i + 1 };
                        let w0 = if wi_g < ri { wi_g } else { wi_g + 1 };
                        assert(n1[i] == n0[i0]);
                        assert(n1[wi_g] == n0[w0]);
                    }
                }
            }
            lemma_promoted(*old(self), *self, ri as int, root_node, winner, chain, d_ghost);
        }
        (Some(root_node.block_info), Ghost(chain))
    }
}

impl StagedBlocks {
    fn find_orphan(&self) -> (r: Option<usize>)
        ensures
            match r {
                Some(i) => i < self.nodes@.len() && is_orphan(self.nodes@, self.tree_root, i as int),
                None => forall|i: int| 0 <= i < self.nodes@.len() ==> !is_orphan(self.nodes@, self.tree_root, i),
            },
    {
        let mut i: usize = 0;
        while i < self.nodes.len()
            invariant
                0 <= i <= self.nodes@.len(),
                forall|k: int| 0 <= k < i ==> !is_orphan(self.nodes@, self.tree_root, k),
            decreases self.nodes@.len() - i,
        {
            let orphan = match self.nodes[i].parent {
                None => match self.tree_root {
                    Some(rh) => !rh.same(&self.nodes[i].block_info.hash),
                    None => true,
                },
                Some(p) => self.find(&p).is_none(),
            };
            if orphan {
                return Some(i);
            }
            i += 1;
        }
        None
    }
}

impl BlockCache {
    // Purges the losing forks left orphaned by a promotion: every node whose
    // parent is gone leaves the tree, and its payload leaves the pending
    // store, until no orphan is left.
    #[verifier::rlimit(80)]
    fn purge_losing_blocks(&mut self, chain: Ghost<Seq<BlockId>>)
        requires
            old(self).staged_blocks.wf_shape(),
            levels_follow_parents(old(self).staged_blocks.nodes@),
            old(self).stores_ok(Seq::empty()),
            old(self).staged_blocks.tree_root is Some ==> {
                &&& chain_ok(old(self).staged_blocks.nodes@, chain@, old(self).staged_blocks.root_removed_cnt + 1)
                &&& chain@[0] == old(self).staged_blocks.tree_root->Some_0
                &&& chain@.len() == old(self).staged_blocks.tree_depth
            },
        ensures
            final(self).wf(),
            final(self).out_of_order_blocks@ == old(self).out_of_order_blocks@,
            final(self).staged_blocks.tree_root == old(self).staged_blocks.tree_root,
            final(self).staged_blocks.tree_depth == old(self).staged_blocks.tree_depth,
            final(self).staged_blocks.root_removed_cnt == old(self).staged_blocks.root_removed_cnt,
            forall|i: int| 0 <= i < final(self).staged_blocks.nodes@.len() ==> old(self).staged_blocks.nodes@.contains(
                #[trigger] final(self).staged_blocks.nodes@[i]),
            forall|a: int| 0 <= a < final(self).pending_full_blocks@.len() ==> old(self).pending_full_blocks@.contains(
                #[trigger] final(self).pending_full_blocks@[a]),
            old(self).spec_pending_cnt() - final(self).spec_pending_cnt() == old(self).spec_staged_cnt() - final(self).spec_staged_cnt(),
            // only orphans are purged
            forall|j: int|
                0 <= j < old(self).staged_blocks.nodes@.len() && !node_has(final(self).staged_blocks.nodes@, (#[trigger] old(self).staged_blocks.nodes@[j]).block_info.hash)
                    ==> old(self).staged_blocks.nodes@[j].parent is Some && !node_has(final(self).staged_blocks.nodes@, old(self).staged_blocks.nodes@[j].parent->Some_0),
    {
        let ghost n0 = self.staged_blocks.nodes@;
        let ghost p0 = self.pending_full_blocks@;
        let ghost chain = chain@;
        let mut next = self.staged_blocks.find_orphan();
        while next.is_some()
            invariant
                self.staged_blocks.wf_shape(),
                levels_follow_parents(self.staged_blocks.nodes@),
                self.stores_ok(Seq::empty()),
                self.staged_blocks.tree_root is Some ==> {
                    &&& chain_ok(self.staged_blocks.nodes@, chain, self.staged_blocks.root_removed_cnt + 1)
                    &&& chain[0] == self.staged_blocks.tree_root->Some_0
                    &&& chain.len() == self.staged_blocks.tree_depth
                },
                self.out_of_order_blocks@ == old(self).out_of_order_blocks@,
                self.staged_blocks.tree_root == old(self).staged_blocks.tree_root,
                self.staged_blocks.tree_depth == old(self).staged_blocks.tree_depth,
                self.staged_blocks.root_removed_cnt == old(self).staged_blocks.root_removed_cnt,
                forall|i: int| 0 <= i < self.staged_blocks.nodes@.len() ==> n0.contains(#[trigger] self.staged_blocks.nodes@[i]),
                forall|a: int| 0 <= a < self.pending_full_blocks@.len() ==> p0.contains(#[trigger] self.pending_full_blocks@[a]),
                p0.len() - self.pending_full_blocks@.len() == n0.len() - self.staged_blocks.nodes@.len(),
                nodes_unique(n0),
                forall|j: int|
                    0 <= j < n0.len() && !node_has(self.staged_blocks.nodes@, (#[trigger] n0[j]).block_info.hash)
                        ==> n0[j].parent is Some && !node_has(self.staged_blocks.nodes@, n0[j].parent->Some_0),
                match next {
                    Some(i) => i < self.staged_blocks.nodes@.len() && is_orphan(self.staged_blocks.nodes@, self.staged_blocks.tree_root, i as int),
                    None => forall|i: int| 0 <= i < self.staged_blocks.nodes@.len() ==> !is_orphan(self.staged_blocks.nodes@, self.staged_blocks.tree_root, i),
                },
            decreases self.staged_blocks.nodes@.len(),
        {
            let r = next.unwrap();
            let ghost n = self.staged_blocks.nodes@;
            let ghost p = self.pending_full_blocks@;
            let ghost q = self.out_of_order_blocks@;
            let ghost root = self.staged_blocks.tree_root;
            let h = self.staged_blocks.nodes[r].block_info.hash;
            assert(pending_has(p, n[r as int].block_info.hash));
            let removed = self.staged_blocks.nodes.remove(r);
            let a = self.find_pending(&h).unwrap();
            self.pending_full_blocks.remove(a);
            proof {
                let n2 = self.staged_blocks.nodes@;
                let p2 = self.pending_full_blocks@;
                let ri = r as int;
                assert(n2 == n.remove(ri));
                assert(p2 == p.remove(a as int));
                assert(forall|i: int| 0 <= i < n2.len() ==> n2[i] == n[if i < ri { i } else { i + 1 }]);
                assert(forall|b: int| 0 <= b < p2.len() ==> p2[b] == p[if b < a { b } else { b + 1 }]);
                // no node that stays is an orphan-to-be: the root and the path stay
                if root is Some {
                    let rh = root->Some_0;
                    assert(node_has(n, rh));
                    let k = choose|k: int| 0 <= k < n.len() && (#[trigger] n[k]).block_info.hash == rh;
                    assert(!is_orphan(n, root, k));
                    assert(k != ri);
                    let k2 = if k < ri { k } else { k - 1 };
                    assert(n2[k2] == n[k]);
                    assert(node_has(n2, rh));
                    let l0 = self.staged_blocks.root_removed_cnt + 1;
                    assert forall|m: int| 0 <= m < chain.len() implies #[trigger] chain_at(n2, chain, l0, m) by {
                        assert(chain_at(n, chain, l0, m));
                        let k = choose|k: int| 0 <= k < n.len() && (#[trigger] n[k]).block_info.hash == chain[m]
                            && n[k].orig_level == l0 + m && (m > 0 ==> n[k].parent == Some(chain[m - 1]));
                        if m > 0 {
                            assert(chain_at(n, chain, l0, m - 1));
                            let j = choose|j: int| 0 <= j < n.len() && (#[trigger] n[j]).block_info.hash == chain[m - 1]
                                && n[j].orig_level == l0 + m - 1 && (m - 1 > 0 ==> n[j].parent == Some(chain[m - 2]));
                            assert(node_has(n, chain[m - 1]));
                        }
                        assert(!is_orphan(n, root, k));
                        assert(k != ri);
                        let k2 = if k < ri { k } else { k - 1 };
                        assert(n2[k2] == n[k]);
                    }
                    let last = chain.len() - 1;
                    assert(chain_at(n2, chain, l0, last));
                    let k = choose|k: int| 0 <= k < n2.len() && (#[trigger] n2[k]).block_info.hash == chain[last]
                        && n2[k].orig_level == l0 + last && (last > 0 ==> n2[k].parent == Some(chain[last - 1]));
                    assert(n2[k].orig_level == self.staged_blocks.top_level());
                } else {
                    assert(n.len() == 0);
                }
                assert(nodes_unique(n2));
                assert(levels_follow_parents(n2)) by {
                    assert forall|i: int, j: int| 0 <= i < n2.len() && 0 <= j < n2.len() && (#[trigger] n2[i]).parent == Some(
                        (#[trigger] n2[j]).block_info.hash) implies n2[j].orig_level + 1 == n2[i].orig_level by {
                        let i0 = if i < ri { i } else { i + 1 };
                        let j0 = if j < ri { j } else { j + 1 };
                        assert(n2[i] == n[i0] && n2[j] == n[j0]);
                    }
                }
                assert(self.staged_blocks.wf_shape());
                // the stores
                assert forall|x: int, y: int| 0 <= x < p2.len() && 0 <= y < p2.len() && x != y implies (#[trigger] p2[x]).id != (#[trigger] p2[y]).id by {
                    let x0 = if x < a { x } else { x + 1 };
                    let y0 = if y < a { y } else { y + 1 };
                    assert(p2[x] == p[x0] && p2[y] == p[y0]);
                }
                assert forall|i: int, k: int| 0 <= i < n2.len() && 0 <= k < q.len() implies (#[trigger] n2[i]).block_info.hash != (#[trigger] q[k]).hash by {
                    let i0 = if i < ri { i } else { i + 1 };
                    assert(n2[i] == n[i0]);
                }
                assert forall|i: int| 0 <= i < n2.len() implies pending_has(p2, (#[trigger] n2[i]).block_info.hash) by {
                    let i0 = if i < ri { i } else { i + 1 };
                    assert(n2[i] == n[i0]);
                    assert(pending_has(p, n[i0].block_info.hash));
                    let b = choose|b: int| 0 <= b < p.len() && (#[trigger] p[b]).id == n[i0].block_info.hash;
                    assert(n[i0].block_info.hash != h);
                    assert(b != a);
                    let b2 = if b < a { b } else { b - 1 };
                    assert(p2[b2] == p[b]);
                }
                assert forall|k: int| 0 <= k < q.len() implies pending_has(p2, (#[trigger] q[k]).hash) by {
                    assert(pending_has(p, q[k].hash));
                    let b = choose|b: int| 0 <= b < p.len() && (#[trigger] p[b]).id == q[k].hash;
                    assert(n[ri].block_info.hash != q[k].hash);
                    assert(b != a);
                    let b2 = if b < a { b } else { b - 1 };
                    assert(p2[b2] == p[b]);
                }
                assert forall|b: int| 0 <= b < p2.len() implies node_has(n2, (#[trigger] p2[b]).id) || parked_has(q, p2[b].id) by {
                    let b0 = if b < a { b } else { b + 1 };
                    assert(p2[b] == p[b0]);
                    assert(b0 != a as int);
                    assert(p[b0].id != h);
                    if node_has(n, p[b0].id) {
                        let i = choose|i: int| 0 <= i < n.len() && (#[trigger] n[i]).block_info.hash == p[b0].id;
                        assert(i != ri);
                        let i2 = if i < ri { i } else { i - 1 };
                        assert(n2[i2] == n[i]);
                    }
                }
                assert forall|k: int| 0 <= k < q.len() && node_has(n2, (#[trigger] q[k]).prev_hash) implies Seq::<BlockId>::empty().contains(q[k].prev_hash) by {
                    let i = choose|i: int| 0 <= i < n2.len() && (#[trigger] n2[i]).block_info.hash == q[k].prev_hash;
                    let i0 = if i < ri { i } else { i + 1 };
                    assert(n2[i] == n[i0]);
                    assert(node_has(n, q[k].prev_hash));
                }
                assert forall|j: int| 0 <= j < n0.len() && !node_has(n2, (#[trigger] n0[j]).block_info.hash)
                    implies n0[j].parent is Some && !node_has(n2, n0[j].parent->Some_0) by {
                    if node_has(n, n0[j].block_info.hash) {
                        let i = choose|i: int| 0 <= i < n.len() && (#[trigger] n[i]).block_info.hash == n0[j].block_info.hash;
                        if i != ri {
                            let i2 = if i < ri { i } else { i - 1 };
                            assert(n2[i2] == n[i]);
                        }
                        assert(n0.contains(n[ri]));
                        let jj = choose|jj: int| 0 <= jj < n0.len() && n0[jj] == n[ri];
                        assert(jj == j);
                        assert(n[ri].parent is Some);
                    }
                    if node_has(n2, n0[j].parent->Some_0) {
                        let i = choose|i: int| 0 <= i < n2.len() && (#[trigger] n2[i]).block_info.hash == n0[j].parent->Some_0;
                        let i0 = if i < ri { i } else { i + 1 };
                        assert(n2[i] == n[i0]);
                    }
                }
                assert forall|i: int| 0 <= i < n2.len() implies n0.contains(#[trigger] n2[i]) by {
                    let i0 = if i < ri { i } else { i + 1 };
                    assert(n2[i] == n[i0]);
                    assert(n0.contains(n[i0]));
                }
                assert forall|b: int| 0 <= b < p2.len() implies p0.contains(#[trigger] p2[b]) by {
                    let b0 = if b < a { b } else { b + 1 };
                    assert(p2[b] == p[b0]);
                    assert(p0.contains(p[b0]));
                }
            }
            next = self.staged_blocks.find_orphan();
        }
        proof {
            self.staged_blocks.lemma_no_orphans();
        }
    }
}

impl BlockCache {
    /// `id` is the first staged block, in staging order, at the greatest
    /// depth of the tree.
    pub closed spec fn is_first_deepest(self, id: BlockId) -> bool {
        let n = self.staged_blocks.nodes@;
        exists|d: int|
            0 <= d < n.len() && (#[trigger] n[d]).block_info.hash == id && n[d].orig_level
                == self.staged_blocks.top_level() && forall|i: int|
                0 <= i < d ==> (#[trigger] n[i]).orig_level != self.staged_blocks.top_level()
    }

    proof fn lemma_path_down(c: BlockCache, chain: Seq<BlockId>)
        requires
            c.wf(),
            chain_ok(c.staged_blocks.nodes@, chain, c.staged_blocks.root_removed_cnt + 2),
            exists|d: int| 0 <= d < c.staged_blocks.nodes@.len() && (#[trigger] c.staged_blocks.nodes@[d]).block_info.hash == chain.last()
                && c.staged_blocks.nodes@[d].orig_level == c.staged_blocks.top_level()
                && forall|i: int| 0 <= i < d ==> (#[trigger] c.staged_blocks.nodes@[i]).orig_level != c.staged_blocks.top_level(),
        ensures
            c.is_first_deepest(chain.last()),
            forall|m: int|
                0 < m < chain.len() ==> #[trigger] c.is_staged(chain[m]) && c.parent(chain[m])
                    == Some(chain[m - 1]),
    {
        let n = c.staged_blocks.nodes@;
        assert forall|m: int| 0 < m < chain.len() implies #[trigger] c.is_staged(chain[m]) && c.parent(chain[m])
            == Some(chain[m - 1]) by {
            assert(chain_at(n, chain, c.staged_blocks.root_removed_cnt + 2, m));
            let i = choose|i: int| 0 <= i < n.len() && (#[trigger] n[i]).block_info.hash == chain[m]
                && n[i].orig_level == c.staged_blocks.root_removed_cnt + 2 + m && (m > 0 ==> n[i].parent == Some(chain[m - 1]));
            c.lemma_node_at(i);
        }
    }

    /// What promoting the root of `pre` leaves, as `post`: the root is gone
    /// from the tree and from the pending store, and the tree shifts up one
    /// level. The new root is the child of the old root above the first
    /// deepest block (so its subtree is the deepest; among equally deep ones,
    /// the one that reached that depth first). A block stays exactly when its
    /// parent stays; whatever else leaves the tree leaves the pending store.
    pub open spec fn promoted(pre: BlockCache, post: BlockCache) -> bool {
        let rh = pre.root()->Some_0;
        &&& pre.root() is Some
        &&& !post.is_pending(rh)
        &&& post.removed() == pre.removed() + 1
        &&& post.depth() == pre.depth() - 1
        &&& (post.root() is None) == (pre.depth() == 1)
        &&& (post.root() is Some ==> pre.parent(post.root()->Some_0) == Some(rh))
        &&& (post.root() is Some ==> post.staged_info(post.root()->Some_0).prev_hash == rh)
        &&& (post.root() is Some ==> exists|path: Seq<BlockId>| {
            &&& path.len() >= 1
            &&& path[0] == post.root()->Some_0
            &&& pre.is_first_deepest(path.last())
            &&& forall|m: int|
                0 < m < path.len() ==> #[trigger] pre.is_staged(path[m]) && pre.parent(path[m])
                    == Some(path[m - 1])
        })
        &&& forall|id: BlockId|
            post.is_pending(id) ==> pre.is_pending(id) && post.payload(id) == pre.payload(id)
        &&& forall|id: BlockId|
            post.is_staged(id) ==> {
                &&& pre.is_staged(id)
                &&& post.staged_info(id) == pre.staged_info(id)
                &&& post.level(id) == pre.level(id)
                &&& (post.root() != Some(id) ==> post.parent(id) == pre.parent(id))
            }
        &&& post.holding() == pre.holding()
        &&& forall|id: BlockId, par: BlockId| post.is_parked_under(id, par) == pre.is_parked_under(id, par)
        &&& pre.spec_pending_cnt() - post.spec_pending_cnt() == pre.spec_staged_cnt() - post.spec_staged_cnt()
        &&& forall|id: BlockId|
            pre.is_staged(id) && pre.parent(id) is Some && post.is_staged(pre.parent(id)->Some_0)
                ==> post.is_staged(id)
    }

    /// Promotes the root when the tree is at least `depth_threshold` deep,
    /// and returns its descriptor and its payload.
    ///
    /// The root's child with the deepest subtree becomes the new root (among
    /// several, the one above the first deepest block to have been staged),
    /// and every other fork that leaves the root is purged from the tree and
    /// from the pending store. Each purged or promoted block leaves both.
    #[verifier::rlimit(100)]
    pub fn remove_block_if_ready_impl(&mut self, depth_threshold: u32) -> (r: (
        Option<BlockInfo>,
        Option<bitcoin::Block>,
    ))
        requires
            old(self).wf(),
        ensures
            final(self).wf(),
            (r.0 is Some) == (r.1 is Some),
            (r.0 is None) <==> (old(self).depth() < depth_threshold || old(self).depth() == 0),
            r.0 is None ==> *final(self) == *old(self),
            r.0 is Some ==> {
                let rh = old(self).root()->Some_0;
                &&& Self::promoted(*old(self), *final(self))
                &&& r.0->Some_0 == old(self).staged_info(rh)
                &&& r.1->Some_0 == old(self).payload(rh)
            },
    {
        let ghost n0 = self.staged_blocks.nodes@;
        let ghost p0 = self.pending_full_blocks@;
        let (info_opt, chain) = self.staged_blocks.remove_block_info_if_ready(depth_threshold);
        match info_opt {
            None => (None, None),
            Some(info) => {
                let ghost n1 = self.staged_blocks.nodes@;
                let ghost q = self.out_of_order_blocks@;
                proof {
                    let j = choose|j: int| 0 <= j < n0.len() && (#[trigger] n0[j]).block_info.hash == info.hash;
                    assert(pending_has(p0, n0[j].block_info.hash));
                }
                let a = self.find_pending(&info.hash).unwrap();
                let promoted = self.pending_full_blocks.remove(a);
                proof {
                    let p1 = self.pending_full_blocks@;
                    let h = info.hash;
                    assert(p1 == p0.remove(a as int));
                    assert(forall|b: int| 0 <= b < p1.len() ==> p1[b] == p0[if b < a { b } else { b + 1 }]);
                    assert forall|x: int, y: int| 0 <= x < p1.len() && 0 <= y < p1.len() && x != y implies (#[trigger] p1[x]).id != (#[trigger] p1[y]).id by {
                        let x0 = if x < a { x } else { x + 1 };
                        let y0 = if y < a { y } else { y + 1 };
                        assert(p1[x] == p0[x0] && p1[y] == p0[y0]);
                    }
                    assert forall|i: int, k: int| 0 <= i < n1.len() && 0 <= k < q.len() implies (#[trigger] n1[i]).block_info.hash != (#[trigger] q[k]).hash by {
                        let j = choose|j: int| 0 <= j < n0.len() && (#[trigger] n0[j]).block_info == n1[i].block_info
                            && n0[j].orig_level == n1[i].orig_level && (n0[j].parent == n1[i].parent || self.staged_blocks.tree_root == Some(n1[i].block_info.hash));
                        assert(n0[j].block_info.hash != q[k].hash);
                    }
                    assert forall|i: int| 0 <= i < n1.len() implies pending_has(p1, (#[trigger] n1[i]).block_info.hash) by {
                        let j = choose|j: int| 0 <= j < n0.len() && (#[trigger] n0[j]).block_info == n1[i].block_info
                            && n0[j].orig_level == n1[i].orig_level && (n0[j].parent == n1[i].parent || self.staged_blocks.tree_root == Some(n1[i].block_info.hash));
                        assert(pending_has(p0, n0[j].block_info.hash));
                        let b = choose|b: int| 0 <= b < p0.len() && (#[trigger] p0[b]).id == n0[j].block_info.hash;
                        assert(node_has(n1, n1[i].block_info.hash));
                        assert(n1[i].block_info.hash != h);
                        assert(b != a);
                        let b2 = if b < a { b } else { b - 1 };
                        assert(p1[b2] == p0[b]);
                    }
                    assert(node_has(n0, h));
                    assert forall|k: int| 0 <= k < q.len() implies pending_has(p1, (#[trigger] q[k]).hash) by {
                        assert(pending_has(p0, q[k].hash));
                        let b = choose|b: int| 0 <= b < p0.len() && (#[trigger] p0[b]).id == q[k].hash;
                        let j = choose|j: int| 0 <= j < n0.len() && (#[trigger] n0[j]).block_info.hash == h;
                        assert(n0[j].block_info.hash != q[k].hash);
                        assert(b != a);
                        let b2 = if b < a { b } else { b - 1 };
                        assert(p1[b2] == p0[b]);
                    }
                    assert forall|b: int| 0 <= b < p1.len() implies node_has(n1, (#[trigger] p1[b]).id) || parked_has(q, p1[b].id) by {
                        let b0 = if b < a { b } else { b + 1 };
                        assert(p1[b] == p0[b0]);
                        assert(p0[b0].id != h);
                        if node_has(n0, p0[b0].id) {
                            let i = choose|i: int| 0 <= i < n0.len() && (#[trigger] n0[i]).block_info.hash == p0[b0].id;
                        }
                    }
                    assert forall|k: int| 0 <= k < q.len() && node_has(n1, (#[trigger] q[k]).prev_hash) implies Seq::<BlockId>::empty().contains(q[k].prev_hash) by {
                        let i = choose|i: int| 0 <= i < n1.len() && (#[trigger] n1[i]).block_info.hash == q[k].prev_hash;
                        let j = choose|j: int| 0 <= j < n0.len() && (#[trigger] n0[j]).block_info == n1[i].block_info
                            && n0[j].orig_level == n1[i].orig_level && (n0[j].parent == n1[i].parent || self.staged_blocks.tree_root == Some(n1[i].block_info.hash));
                        assert(node_has(n0, q[k].prev_hash));
                    }
                    assert(self.stores_ok(Seq::empty()));
                }
                self.purge_losing_blocks(chain);
                proof {
                    let fin = *self;
                    let n = self.staged_blocks.nodes@;
                    let p = self.pending_full_blocks@;
                    let h = info.hash;
                    let jr = choose|j: int| 0 <= j < n0.len() && (#[trigger] n0[j]).block_info.hash == h;
                    old(self).lemma_node_at(jr);
                    old(self).lemma_pending_at(a as int);
                    assert(!fin.is_pending(h)) by {
                        if fin.is_pending(h) {
                            let b = choose|b: int| 0 <= b < p.len() && (#[trigger] p[b]).id == h;
                            assert(self.pending_full_blocks@.contains(p[b]));
                            let c = choose|c: int| 0 <= c < p0.len() - 1 && p0.remove(a as int)[c] == p[b];
                            let c0 = if c < a { c } else { c + 1 };
                            assert(p0.remove(a as int)[c] == p0[c0]);
                        }
                    }
                    assert forall|id: BlockId| fin.is_pending(id) implies old(self).is_pending(id) && fin.payload(id) == old(self).payload(id) by {
                        let b = choose|b: int| 0 <= b < p.len() && (#[trigger] p[b]).id == id;
                        fin.lemma_pending_at(b);
                        let c = choose|c: int| 0 <= c < p0.len() - 1 && p0.remove(a as int)[c] == p[b];
                        let c0 = if c < a { c } else { c + 1 };
                        assert(p0.remove(a as int)[c] == p0[c0]);
                        old(self).lemma_pending_at(c0);
                    }
                    assert forall|id: BlockId| fin.is_staged(id) implies {
                        &&& old(self).is_staged(id)
                        &&& fin.staged_info(id) == old(self).staged_info(id)
                        &&& fin.level(id) == old(self).level(id)
                        &&& (fin.root() != Some(id) ==> fin.parent(id) == old(self).parent(id))
                    } by {
                        let i = choose|i: int| 0 <= i < n.len() && (#[trigger] n[i]).block_info.hash == id;
                        fin.lemma_node_at(i);
                        assert(n1.contains(n[i]));
                        let i1 = choose|i1: int| 0 <= i1 < n1.len() && n1[i1] == n[i];
                        let j = choose|j: int| 0 <= j < n0.len() && (#[trigger] n0[j]).block_info == n1[i1].block_info
                            && n0[j].orig_level == n1[i1].orig_level && (n0[j].parent == n1[i1].parent || fin.staged_blocks.tree_root == Some(n1[i1].block_info.hash));
                        old(self).lemma_node_at(j);
                    }
                    assert forall|id: BlockId| old(self).is_staged(id) && old(self).parent(id) is Some && fin.is_staged(
                        old(self).parent(id)->Some_0) implies fin.is_staged(id) by {
                        let i0 = choose|i: int| 0 <= i < n0.len() && (#[trigger] n0[i]).block_info.hash == id;
                        old(self).lemma_node_at(i0);
                        assert(n0[i0].parent is Some);
                        assert(old(self).staged_blocks.tree_root != Some(id));
                        assert(node_has(n1, id));
                        let i1 = choose|i: int| 0 <= i < n1.len() && (#[trigger] n1[i]).block_info.hash == id;
                        let j = choose|j: int| 0 <= j < n0.len() && (#[trigger] n0[j]).block_info == n1[i1].block_info
                            && n0[j].orig_level == n1[i1].orig_level && (n0[j].parent == n1[i1].parent || fin.staged_blocks.tree_root == Some(n1[i1].block_info.hash));
                        assert(j == i0);
                        if !fin.is_staged(id) {
                            if fin.staged_blocks.tree_root == Some(id) {
                                Self::lemma_cache_invariants(fin);
                            }
                            assert(n1[i1].parent == n0[i0].parent);
                        }
                    }
                    if fin.root() is Some {
                        Self::lemma_path_down(*old(self), chain@);
                        let nr = fin.root()->Some_0;
                        let j = choose|j: int| 0 <= j < n0.len() && (#[trigger] n0[j]).block_info.hash == nr && n0[j].parent == old(self).staged_blocks.tree_root;
                        old(self).lemma_node_at(j);
                        Self::lemma_cache_invariants(*old(self));
                        assert(fin.is_staged(nr));
                        assert(fin.depth() > 0) by {
                            let k = choose|k: int| 0 <= k < n.len() && (#[trigger] n[k]).orig_level == fin.staged_blocks.top_level();
                        }
                    }
                }
                (Some(info), Some(promoted.block))
            },
        }
    }

    /// Promotes the root when the tree is at least `depth_threshold` deep,
    /// and returns its payload, as `remove_block_if_ready_impl` does.
    pub fn remove_block_if_ready(&mut self, depth_threshold: u32) -> (r: Option<bitcoin::Block>)
        requires
            old(self).wf(),
        ensures
            final(self).wf(),
            (r is None) <==> (old(self).depth() < depth_threshold || old(self).depth() == 0),
            r is None ==> *final(self) == *old(self),
            r is Some ==> {
                &&& Self::promoted(*old(self), *final(self))
                &&& r->Some_0 == old(self).payload(old(self).root()->Some_0)
            },
    {
        let (_, block_opt) = self.remove_block_if_ready_impl(depth_threshold);
        block_opt
    }
}

/// What the tree looks like once its root `n0[ri]` is removed and the child
/// `winner` above the deepest node `d` has become the root.
#[verifier::rlimit(100)]
proof fn lemma_promoted(
    o: StagedBlocks,
    f: StagedBlocks,
    ri: int,
    root_node: TreeNode,
    winner: Option<usize>,
    chain: Seq<BlockId>,
    d: int,
)
    requires
        o.wf(),
        levels_follow_parents(o.nodes@),
        o.tree_depth >= 1,
        0 <= ri < o.nodes@.len(),
        root_node == o.nodes@[ri],
        o.tree_root == Some(root_node.block_info.hash),
        winner is None ==> o.nodes@.len() == 1 && o.tree_depth == 1,
        winner is Some ==> {
            let w = winner->Some_0 as int;
            let n0 = o.nodes@;
            &&& o.tree_depth > 1
            &&& 0 <= w < n0.len()
            &&& n0[w].orig_level == o.root_removed_cnt + 2
            &&& n0[w].parent == o.tree_root
            &&& chain_ok(n0, chain, o.root_removed_cnt + 2)
            &&& chain[0] == n0[w].block_info.hash
            &&& 0 <= d < n0.len()
            &&& chain.last() == n0[d].block_info.hash
            &&& n0[d].orig_level == o.top_level()
        },
        f.nodes@.len() == o.nodes@.len() - 1,
        forall|i: int| 0 <= i < f.nodes@.len() ==> {
            let n1i = o.nodes@.remove(ri)[i];
            &&& (#[trigger] f.nodes@[i]).block_info == n1i.block_info
            &&& f.nodes@[i].orig_level == n1i.orig_level
            &&& (f.nodes@[i].parent == n1i.parent || (winner is Some && n1i.block_info.hash
                == o.nodes@[winner->Some_0 as int].block_info.hash && f.nodes@[i].parent is None))
        },
        winner is Some ==> f.tree_root == Some(o.nodes@[winner->Some_0 as int].block_info.hash),
        winner is Some ==> node_has(f.nodes@, o.nodes@[winner->Some_0 as int].block_info.hash),
        winner is Some ==> forall|i: int| 0 <= i < f.nodes@.len() && (#[trigger] f.nodes@[i]).block_info.hash
            == o.nodes@[winner->Some_0 as int].block_info.hash ==> f.nodes@[i].parent is None,
        winner is None ==> f.tree_root is None,
        f.tree_depth == o.tree_depth - 1,
        f.root_removed_cnt == o.root_removed_cnt + 1,
    ensures
        ({
            let n0 = o.nodes@;
            let n = f.nodes@;
            let rh = root_node.block_info.hash;
            &&& !node_has(n, rh)
            &&& forall|j: int| 0 <= j < n0.len() && (#[trigger] n0[j]).block_info.hash == rh ==> n0[j].block_info == root_node.block_info
            &&& f.wf_shape()
            &&& levels_follow_parents(n)
            &&& forall|j: int| 0 <= j < n0.len() && (#[trigger] n0[j]).block_info.hash != rh
                ==> node_has(n, n0[j].block_info.hash)
            &&& forall|i: int| 0 <= i < n.len() ==> exists|j: int| 0 <= j < n0.len()
                && (#[trigger] n0[j]).block_info == (#[trigger] n[i]).block_info
                && n0[j].orig_level == n[i].orig_level
                && (n0[j].parent == n[i].parent || f.tree_root == Some(n[i].block_info.hash))
            &&& (f.tree_root is Some ==> {
                &&& chain_ok(n, chain, f.root_removed_cnt + 1)
                &&& chain[0] == f.tree_root->Some_0
                &&& chain_at(n, chain, f.root_removed_cnt + 1, chain.len() - 1)
                &&& chain.len() == f.tree_depth
                &&& exists|j: int| 0 <= j < n0.len() && (#[trigger] n0[j]).block_info.hash
                    == f.tree_root->Some_0 && n0[j].parent == o.tree_root
            })
        }),
{
    let n0 = o.nodes@;
    let n1 = n0.remove(ri);
    let base = o.root_removed_cnt as int;
    let root_hash = root_node.block_info.hash;
    let winner_hash = match winner { Some(w) => Some(n0[w as int].block_info.hash), None => None };
    assert(forall|i: int| 0 <= i < n1.len() ==> n1[i] == n0[if i < ri { i } else { i + 1 }]);
            let n = f.nodes@;
            assert(n.len() == n1.len());
            assert(n0[ri as int] == root_node);
            assert(root_node.block_info.hash == root_hash);
            assert(!node_has(n, root_hash)) by {
                if node_has(n, root_hash) {
                    let i = choose|i: int| 0 <= i < n.len() && (#[trigger] n[i]).block_info.hash == root_hash;
                    assert(n[i].block_info == n1[i].block_info);
                }
            }
            assert forall|j: int| 0 <= j < n0.len() && (#[trigger] n0[j]).block_info.hash != root_hash
                implies node_has(n, n0[j].block_info.hash) by {
                assert(j != ri as int);
                let i = if j < ri { j } else { j - 1 };
                assert(n1[i] == n0[j]);
                assert(n[i].block_info == n1[i].block_info);
            }
            // each remaining node, with where it was before
            assert forall|i: int| 0 <= i < n.len() implies exists|j: int| 0 <= j < n0.len()
                && (#[trigger] n0[j]).block_info == (#[trigger] n[i]).block_info
                && n0[j].orig_level == n[i].orig_level
                && (n0[j].parent == n[i].parent || f.tree_root == Some(n[i].block_info.hash)) by {
                let j = if i < ri { i } else { i + 1 };
                assert(n1[i] == n0[j]);
            }
            assert(nodes_unique(n)) by {
                assert forall|a: int, b: int| 0 <= a < n.len() && 0 <= b < n.len() && a != b implies
                    (#[trigger] n[a]).block_info.hash != (#[trigger] n[b]).block_info.hash by {
                    assert(n[a].block_info == n1[a].block_info && n[b].block_info == n1[b].block_info);
                }
            }
            assert(levels_follow_parents(n)) by {
                assert forall|i: int, j: int| 0 <= i < n.len() && 0 <= j < n.len() && (#[trigger] n[i]).parent == Some(
                    (#[trigger] n[j]).block_info.hash) implies n[j].orig_level + 1 == n[i].orig_level by {
                    assert(n[j].block_info == n1[j].block_info && n[j].orig_level == n1[j].orig_level);
                    assert(n[i].parent == n1[i].parent);
                }
            }
            match winner_hash {
                Some(wh) => {
                    let w = winner->Some_0 as int;
                    assert(n0[w].block_info.hash == wh);
                    assert(w != ri);
                    let wi = if w < ri { w } else { w - 1 };
                    assert(n1[wi] == n0[w]);
                    assert(n[wi].block_info.hash == wh);
                    assert(n[wi].parent is None);
                    assert(node_has(n, wh));
                    // every remaining node but the new root had a parent
                    assert forall|i: int| 0 <= i < n.len() implies ((#[trigger] n[i]).parent is None <==> f.tree_root == Some(n[i].block_info.hash)) by {
                        if i != wi {
                            assert(n[i] == n1[i]);
                            let j = if i < ri { i } else { i + 1 };
                            assert(n1[i] == n0[j]);
                            assert(j != ri as int);
                        }
                    }
                    assert forall|i: int| 0 <= i < n.len() implies f.root_removed_cnt < (#[trigger] n[i]).orig_level <= f.top_level() by {
                        let j = if i < ri { i } else { i + 1 };
                        assert(n1[i] == n0[j]);
                        assert(n[i].orig_level == n0[j].orig_level);
                        if n0[j].orig_level == base + 1 {
                            o.lemma_first_level_is_root(j);
                        }
                    }
                    assert forall|i: int| 0 <= i < n.len() && (#[trigger] n[i]).parent is None implies n[i].orig_level == f.root_removed_cnt + 1 by {
                        assert(i == wi) by {
                            if i != wi {
                                assert(n[i] == n1[i]);
                                let j = if i < ri { i } else { i + 1 };
                                assert(n1[i] == n0[j]);
                            }
                        }
                    }
                    assert forall|i: int| 0 <= i < n.len() && (#[trigger] n[i]).parent is Some implies n[i].parent->Some_0 == n[i].block_info.prev_hash by {
                        assert(n[i] == n1[i]);
                        let j = if i < ri { i } else { i + 1 };
                        assert(n1[i] == n0[j]);
                    }
                    // the path from the new root down to a deepest node stays
                    let l0 = f.root_removed_cnt + 1;
                    assert forall|m: int| 0 <= m < chain.len() implies #[trigger] chain_at(n, chain, l0, m) by {
                        assert(chain_at(n0, chain, l0, m));
                        let k = choose|k: int| 0 <= k < n0.len() && (#[trigger] n0[k]).block_info.hash == chain[m]
                            && n0[k].orig_level == l0 + m && (m > 0 ==> n0[k].parent == Some(chain[m - 1]));
                        assert(k != ri as int);
                        let i = if k < ri { k } else { k - 1 };
                        assert(n1[i] == n0[k]);
                        if m > 0 {
                            assert(i != wi);
                            assert(n[i] == n1[i]);
                        }
                    }
                    assert(chain_at(n, chain, l0, chain.len() - 1));
                    let last = chain.len() - 1;
                    let k = choose|k: int| 0 <= k < n.len() && (#[trigger] n[k]).block_info.hash == chain[last]
                        && n[k].orig_level == l0 + last && (last > 0 ==> n[k].parent == Some(chain[last - 1]));
                    assert(n[k].orig_level == f.top_level());
                    assert(chain.len() == f.tree_depth);
                }
                None => {
                    assert(n.len() == 0);
                }
            }
        }

impl BlockCache {
    /// The number of distinct parents that parked descriptors wait on.
    pub fn out_of_order_cnt(&self) -> (r: usize)
        ensures
            r == self.awaited_parents().len(),
    {
        let ghost q = self.out_of_order_blocks@;
        let mut cnt: usize = 0;
        let mut k: usize = 0;
        assert(parents_of(q.subrange(0, 0)).to_set() =~= Set::<BlockId>::empty());
        while k < self.out_of_order_blocks.len()
            invariant
                q == self.out_of_order_blocks@,
                0 <= k <= q.len(),
                cnt <= k,
                cnt == parents_of(q.subrange(0, k as int)).to_set().len(),
            decreases q.len() - k,
        {
            let prev = self.out_of_order_blocks[k].prev_hash;
            let mut seen = false;
            let mut j: usize = 0;
            while j < k
                invariant
                    q == self.out_of_order_blocks@,
                    0 <= j <= k < q.len(),
                    prev == q[k as int].prev_hash,
                    seen == exists|x: int| 0 <= x < j && (#[trigger] q[x]).prev_hash == prev,
                decreases k - j,
            {
                if self.out_of_order_blocks[j].prev_hash.same(&prev) {
                    seen = true;
                }
                j += 1;
            }
            proof {
                let s0 = parents_of(q.subrange(0, k as int));
                let s1 = parents_of(q.subrange(0, k + 1));
                assert forall|x: int| 0 <= x < s1.len() implies s1[x] == s0.push(prev)[x] by {
                    if x < k {
                        assert(s0[x] == q[x].prev_hash);
                    }
                }
                assert(s1 =~= s0.push(prev));
                s0.lemma_push_to_set_commute(prev);
                vstd::seq_lib::seq_to_set_is_finite(s0);
                assert(s0.to_set().contains(prev) == seen) by {
                    if seen {
                        let x = choose|x: int| 0 <= x < k && (#[trigger] q[x]).prev_hash == prev;
                        assert(s0[x] == q.subrange(0, k as int)[x].prev_hash);
                        assert(s0[x] == prev);
                    }
                    if s0.to_set().contains(prev) {
                        let x = choose|x: int| 0 <= x < s0.len() && s0[x] == prev;
                        assert(s0[x] == q.subrange(0, k as int)[x].prev_hash);
                        assert(q[x].prev_hash == prev);
                    }
                }
            }
            if !seen {
                cnt += 1;
            }
            k += 1;
        }
        proof {
            assert(q.subrange(0, q.len() as int) =~= q);
        }
        cnt
    }

    /// The greatest depth of a staged block below the root (0 when the tree
    /// is empty).
    pub fn tree_depth(&self) -> (r: u32)
        ensures
            r == self.depth(),
    {
        self.staged_blocks.tree_depth
    }

    /// How many roots have been promoted.
    pub fn root_removed_cnt(&self) -> (r: u32)
        ensures
            r == self.removed(),
    {
        self.staged_blocks.root_removed_cnt
    }

    pub fn tree_root(&self) -> (r: Option<BlockId>)
        ensures
            r == self.root(),
    {
        self.staged_blocks.tree_root
    }

    /// Whether `add_block` may be called: the levels of every parked block and
    /// of one more block still fit in a `u32`.
    pub fn level_headroom_ok(&self) -> (r: bool)
        ensures
            r == self.has_level_headroom(),
    {
        let top = self.staged_blocks.root_removed_cnt as u64 + self.staged_blocks.tree_depth as u64;
        let parked = self.out_of_order_blocks.len();
        if parked >= u32::MAX as usize {
            return false;
        }
        top + parked as u64 + 1 < u32::MAX as u64
    }

    /// The level at which `id` was staged, if it is staged.
    pub fn node_orig_level(&self, id: &BlockId) -> (r: Option<u32>)
        requires
            self.wf(),
        ensures
            match r {
                Some(l) => self.is_staged(*id) && l == self.level(*id),
                None => !self.is_staged(*id),
            },
    {
        match self.staged_blocks.find(id) {
            Some(i) => {
                proof {
                    self.lemma_node_at(i as int);
                }
                Some(self.staged_blocks.nodes[i].orig_level)
            },
            None => None,
        }
    }

    /// The parent of `id` in the tree: none for the root or for a block that
    /// is not staged.
    pub fn node_parent(&self, id: &BlockId) -> (r: Option<BlockId>)
        requires
            self.wf(),
        ensures
            self.is_staged(*id) ==> r == self.parent(*id),
            !self.is_staged(*id) ==> r is None,
    {
        match self.staged_blocks.find(id) {
            Some(i) => {
                proof {
                    self.lemma_node_at(i as int);
                }
                self.staged_blocks.nodes[i].parent
            },
            None => None,
        }
    }

    /// The children of `id` in the tree, in staging order.
    pub fn node_children(&self, id: &BlockId) -> (r: Vec<BlockId>)
        requires
            self.wf(),
        ensures
            forall|c: BlockId| r@.contains(c) <==> (self.is_staged(c) && self.parent(c) == Some(*id)),
    {
        let ghost n = self.staged_blocks.nodes@;
        let mut out: Vec<BlockId> = Vec::new();
        let mut i: usize = 0;
        while i < self.staged_blocks.nodes.len()
            invariant
                self.wf(),
                n == self.staged_blocks.nodes@,
                0 <= i <= n.len(),
                forall|c: BlockId| out@.contains(c) <==> exists|k: int| 0 <= k < i && (#[trigger] n[k]).block_info.hash == c
                    && n[k].parent == Some(*id),
            decreases n.len() - i,
        {
            let is_child = match self.staged_blocks.nodes[i].parent {
                Some(p) => p.same(id),
                None => false,
            };
            let ghost before = out@;
            if is_child {
                out.push(self.staged_blocks.nodes[i].block_info.hash);
            }
            proof {
                assert forall|c: BlockId| out@.contains(c) <==> exists|k: int| 0 <= k < i + 1 && (#[trigger] n[k]).block_info.hash == c
                    && n[k].parent == Some(*id) by {
                    if is_child && c == n[i as int].block_info.hash {
                        assert(out@[out@.len() - 1] == c);
                    }
                    if out@.contains(c) && !before.contains(c) {
                        let x = choose|x: int| 0 <= x < out@.len() && out@[x] == c;
                        if x < before.len() {
                            assert(before[x] == c);
                        }
                    }
                    if before.contains(c) {
                        let x = choose|x: int| 0 <= x < before.len() && before[x] == c;
                        assert(out@[x] == c);
                    }
                }
            }
            i += 1;
        }
        proof {
            assert forall|c: BlockId| out@.contains(c) <==> (self.is_staged(c) && self.parent(c) == Some(*id)) by {
                if out@.contains(c) {
                    let k = choose|k: int| 0 <= k < n.len() && (#[trigger] n[k]).block_info.hash == c && n[k].parent == Some(*id);
                    self.lemma_node_at(k);
                }
                if self.is_staged(c) && self.parent(c) == Some(*id) {
                    let k = choose|k: int| 0 <= k < n.len() && (#[trigger] n[k]).block_info.hash == c;
                    self.lemma_node_at(k);
                }
            }
        }
        out
    }
}

impl BlockCache {
    /// The cache's invariants, read over its public views: every pending
    /// block is staged or parked and never both; the root alone has no
    /// parent, every other staged block has a staged parent one level above
    /// it; no parked block waits on a staged parent.
    pub proof fn lemma_cache_invariants(c: BlockCache)
        requires
            c.wf(),
        ensures
            forall|id: BlockId| c.is_pending(id) <==> (c.is_staged(id) || c.is_parked(id)),
            forall|id: BlockId| !(c.is_staged(id) && c.is_parked(id)),
            c.root() is Some ==> c.is_staged(c.root()->Some_0),
            forall|id: BlockId| #[trigger] c.is_staged(id) ==> (c.parent(id) is None <==> c.root() == Some(id)),
            forall|id: BlockId|
                #[trigger] c.is_staged(id) && c.parent(id) is Some ==> {
                    let par = c.parent(id)->Some_0;
                    &&& c.is_staged(par)
                    &&& c.level(id) == c.level(par) + 1
                    &&& par == c.staged_info(id).prev_hash
                },
            forall|id: BlockId, par: BlockId| #[trigger] c.is_parked_under(id, par) ==> !c.is_staged(par),
            forall|id: BlockId| #[trigger] c.is_staged(id) ==> c.staged_info(id).hash == id,
            forall|id: BlockId| #[trigger] c.is_parked(id) <==> exists|par: BlockId| c.is_parked_under(id, par),
            forall|id: BlockId, p1: BlockId, p2: BlockId|
                c.is_parked_under(id, p1) && c.is_parked_under(id, p2) ==> p1 == p2,
            c.awaited_parents() == Set::new(|par: BlockId| exists|id: BlockId| c.is_parked_under(id, par)),
            c.spec_pending_cnt() == Set::new(|id: BlockId| c.is_pending(id)).len(),
            c.spec_staged_cnt() == Set::new(|id: BlockId| c.is_staged(id)).len(),
            c.spec_parked_cnt() == Set::new(|id: BlockId| c.is_parked(id)).len(),
    {
        Self::lemma_counts(c);
        let n = c.staged_blocks.nodes@;
        let q = c.out_of_order_blocks@;
        let p = c.pending_full_blocks@;
        assert forall|id: BlockId| c.is_pending(id) <==> (c.is_staged(id) || c.is_parked(id)) by {
            if c.is_pending(id) {
                let a = choose|a: int| 0 <= a < p.len() && (#[trigger] p[a]).id == id;
            }
            if c.is_staged(id) {
                let i = choose|i: int| 0 <= i < n.len() && (#[trigger] n[i]).block_info.hash == id;
            }
            if c.is_parked(id) {
                let k = choose|k: int| 0 <= k < q.len() && (#[trigger] q[k]).hash == id;
            }
        }
        assert forall|id: BlockId| !(c.is_staged(id) && c.is_parked(id)) by {
            if c.is_staged(id) && c.is_parked(id) {
                let i = choose|i: int| 0 <= i < n.len() && (#[trigger] n[i]).block_info.hash == id;
                let k = choose|k: int| 0 <= k < q.len() && (#[trigger] q[k]).hash == id;
            }
        }
        assert forall|id: BlockId| #[trigger] c.is_staged(id) implies (c.parent(id) is None <==> c.root() == Some(id)) by {
            let i = choose|i: int| 0 <= i < n.len() && (#[trigger] n[i]).block_info.hash == id;
            c.lemma_node_at(i);
        }
        assert forall|id: BlockId| #[trigger] c.is_staged(id) && c.parent(id) is Some implies {
            let par = c.parent(id)->Some_0;
            &&& c.is_staged(par)
            &&& c.level(id) == c.level(par) + 1
            &&& par == c.staged_info(id).prev_hash
        } by {
            let i = choose|i: int| 0 <= i < n.len() && (#[trigger] n[i]).block_info.hash == id;
            c.lemma_node_at(i);
            assert(parent_linked(n, i));
            let j = choose|j: int| 0 <= j < n.len() && (#[trigger] n[j]).block_info.hash == n[i].parent->Some_0
                && n[j].orig_level + 1 == n[i].orig_level;
            c.lemma_node_at(j);
        }
        assert forall|id: BlockId, par: BlockId| #[trigger] c.is_parked_under(id, par) implies !c.is_staged(par) by {
            let k = choose|k: int| 0 <= k < q.len() && (#[trigger] q[k]).hash == id && q[k].prev_hash == par;
            assert(!Seq::<BlockId>::empty().contains(par));
        }
        assert forall|id: BlockId| #[trigger] c.is_staged(id) implies c.staged_info(id).hash == id by {
            let i = choose|i: int| 0 <= i < n.len() && (#[trigger] n[i]).block_info.hash == id;
            c.lemma_node_at(i);
        }
        assert forall|id: BlockId| #[trigger] c.is_parked(id) <==> exists|par: BlockId| c.is_parked_under(id, par) by {
            if c.is_parked(id) {
                let k = choose|k: int| 0 <= k < q.len() && (#[trigger] q[k]).hash == id;
                assert(c.is_parked_under(id, q[k].prev_hash));
            }
            if exists|par: BlockId| c.is_parked_under(id, par) {
                let par = choose|par: BlockId| c.is_parked_under(id, par);
                let k = choose|k: int| 0 <= k < q.len() && (#[trigger] q[k]).hash == id && q[k].prev_hash == par;
            }
        }
        assert forall|id: BlockId, p1: BlockId, p2: BlockId|
            c.is_parked_under(id, p1) && c.is_parked_under(id, p2) implies p1 == p2 by {
            let k1 = choose|k: int| 0 <= k < q.len() && (#[trigger] q[k]).hash == id && q[k].prev_hash == p1;
            let k2 = choose|k: int| 0 <= k < q.len() && (#[trigger] q[k]).hash == id && q[k].prev_hash == p2;
        }
        assert(c.awaited_parents() =~= Set::new(|par: BlockId| exists|id: BlockId| c.is_parked_under(id, par))) by {
            assert forall|par: BlockId| c.awaited_parents().contains(par) <==> exists|id: BlockId| c.is_parked_under(id, par) by {
                let s = parents_of(q);
                if c.awaited_parents().contains(par) {
                    let k = choose|k: int| 0 <= k < s.len() && s[k] == par;
                    assert(c.is_parked_under(q[k].hash, par));
                }
                if exists|id: BlockId| c.is_parked_under(id, par) {
                    let id = choose|id: BlockId| c.is_parked_under(id, par);
                    let k = choose|k: int| 0 <= k < q.len() && (#[trigger] q[k]).hash == id && q[k].prev_hash == par;
                    assert(s[k] == par);
                    assert(s.contains(par));
                }
            }
        }
    }

    /// Once every parked block's parent has arrived, and parent links never
    /// loop (`rank` drops from child to parent), nothing is left parked: the
    /// staged blocks are exactly the accepted ones, the root has no parent,
    /// and every other block is staged under its own `prev_hash`.
    pub proof fn lemma_linked_blocks_are_all_staged(c: BlockCache, rank: spec_fn(BlockId) -> nat)
        requires
            c.wf(),
            forall|id: BlockId, par: BlockId|
                #[trigger] c.is_parked_under(id, par) ==> c.is_pending(par) && rank(par) < rank(id),
        ensures
            c.spec_parked_cnt() == 0,
            forall|id: BlockId| c.is_pending(id) <==> #[trigger] c.is_staged(id),
            forall|id: BlockId|
                #[trigger] c.is_staged(id) ==> (c.parent(id) is None <==> c.root() == Some(id)),
            forall|id: BlockId|
                #[trigger] c.is_staged(id) && c.parent(id) is Some ==> c.parent(id)->Some_0
                    == c.staged_info(id).prev_hash,
    {
        Self::lemma_cache_invariants(c);
        assert forall|id: BlockId| c.is_pending(id) <==> #[trigger] c.is_staged(id) by {
            Self::lemma_never_parked(c, rank, id);
        }
        let q = c.out_of_order_blocks@;
        if q.len() > 0 {
            Self::lemma_never_parked(c, rank, q[0].hash);
            assert(parked_has(q, q[0].hash));
        }
    }

    proof fn lemma_never_parked(c: BlockCache, rank: spec_fn(BlockId) -> nat, id: BlockId)
        requires
            c.wf(),
            forall|id: BlockId, par: BlockId|
                #[trigger] c.is_parked_under(id, par) ==> c.is_pending(par) && rank(par) < rank(id),
        ensures
            !c.is_parked(id),
        decreases rank(id),
    {
        if c.is_parked(id) {
            Self::lemma_cache_invariants(c);
            let q = c.out_of_order_blocks@;
            let k = choose|k: int| 0 <= k < q.len() && (#[trigger] q[k]).hash == id;
            let par = q[k].prev_hash;
            assert(c.is_parked_under(id, par));
            Self::lemma_never_parked(c, rank, par);
        }
    }

    proof fn lemma_counts(c: BlockCache)
        requires
            c.wf(),
        ensures
            c.spec_pending_cnt() == Set::new(|id: BlockId| c.is_pending(id)).len(),
            c.spec_staged_cnt() == Set::new(|id: BlockId| c.is_staged(id)).len(),
            c.spec_parked_cnt() == Set::new(|id: BlockId| c.is_parked(id)).len(),
    {
        let n = c.staged_blocks.nodes@;
        let q = c.out_of_order_blocks@;
        let p = c.pending_full_blocks@;
        let ns = n.map_values(|x: TreeNode| x.block_info.hash);
        let qs = q.map_values(|x: BlockInfo| x.hash);
        let ps = p.map_values(|x: PendingBlock| x.id);
        assert(ns.no_duplicates()) by {
            assert forall|i: int, j: int| 0 <= i < ns.len() && 0 <= j < ns.len() && i != j implies ns[i] != ns[j] by {
                assert(ns[i] == n[i].block_info.hash && ns[j] == n[j].block_info.hash);
            }
        }
        assert(qs.no_duplicates()) by {
            assert forall|i: int, j: int| 0 <= i < qs.len() && 0 <= j < qs.len() && i != j implies qs[i] != qs[j] by {
                assert(qs[i] == q[i].hash && qs[j] == q[j].hash);
            }
        }
        assert(ps.no_duplicates()) by {
            assert forall|i: int, j: int| 0 <= i < ps.len() && 0 <= j < ps.len() && i != j implies ps[i] != ps[j] by {
                assert(ps[i] == p[i].id && ps[j] == p[j].id);
            }
        }
        ns.unique_seq_to_set();
        qs.unique_seq_to_set();
        ps.unique_seq_to_set();
        assert(ns.to_set() =~= Set::new(|id: BlockId| c.is_staged(id))) by {
            assert forall|id: BlockId| ns.to_set().contains(id) <==> c.is_staged(id) by {
                if ns.to_set().contains(id) {
                    let i = choose|i: int| 0 <= i < ns.len() && ns[i] == id;
                    assert(n[i].block_info.hash == id);
                }
                if c.is_staged(id) {
                    let i = choose|i: int| 0 <= i < n.len() && (#[trigger] n[i]).block_info.hash == id;
                    assert(ns[i] == id);
                }
            }
        }
        assert(qs.to_set() =~= Set::new(|id: BlockId| c.is_parked(id))) by {
            assert forall|id: BlockId| qs.to_set().contains(id) <==> c.is_parked(id) by {
                if qs.to_set().contains(id) {
                    let i = choose|i: int| 0 <= i < qs.len() && qs[i] == id;
                    assert(q[i].hash == id);
                }
                if c.is_parked(id) {
                    let i = choose|i: int| 0 <= i < q.len() && (#[trigger] q[i]).hash == id;
                    assert(qs[i] == id);
                }
            }
        }
        assert(ps.to_set() =~= Set::new(|id: BlockId| c.is_pending(id))) by {
            assert forall|id: BlockId| ps.to_set().contains(id) <==> c.is_pending(id) by {
                if ps.to_set().contains(id) {
                    let i = choose|i: int| 0 <= i < ps.len() && ps[i] == id;
                    assert(p[i].id == id);
                }
                if c.is_pending(id) {
                    let i = choose|i: int| 0 <= i < p.len() && (#[trigger] p[i]).id == id;
                    assert(ps[i] == id);
                }
            }
        }
    }

    /// Every pending block is either staged or parked: the pending count is
    /// the staged count plus the number of parked descriptors.
    pub proof fn lemma_pending_is_staged_plus_parked(c: BlockCache)
        requires
            c.wf(),
        ensures
            c.spec_pending_cnt() == c.spec_staged_cnt() + c.spec_parked_cnt(),
    {
    }

    /// The tree depth is the greatest depth below the root, recomputed over
    /// the staged blocks: each staged block lies between depth 1 (the root)
    /// and the tree depth, some block lies at the tree depth, and an empty
    /// tree has depth 0.
    pub proof fn lemma_depth_is_deepest(c: BlockCache)
        requires
            c.wf(),
        ensures
            c.root() is None <==> c.spec_staged_cnt() == 0,
            c.root() is None ==> c.depth() == 0,
            forall|id: BlockId| #[trigger] c.is_staged(id) ==> 1 <= c.level(id) - c.removed() <= c.depth(),
            c.root() is Some ==> exists|id: BlockId| #[trigger] c.is_staged(id) && c.level(id) - c.removed() == c.depth(),
            c.root() is Some ==> c.level(c.root()->Some_0) - c.removed() == 1,
    {
        let n = c.staged_blocks.nodes@;
        assert forall|id: BlockId| #[trigger] c.is_staged(id) implies 1 <= c.level(id) - c.removed() <= c.depth() by {
            let i = choose|i: int| 0 <= i < n.len() && (#[trigger] n[i]).block_info.hash == id;
            c.lemma_node_at(i);
        }
        if c.root() is Some {
            let i = choose|i: int| 0 <= i < n.len() && (#[trigger] n[i]).orig_level == c.staged_blocks.top_level();
            c.lemma_node_at(i);
            let r = c.root()->Some_0;
            let j = choose|j: int| 0 <= j < n.len() && (#[trigger] n[j]).block_info.hash == r;
            c.lemma_node_at(j);
        }
    }

    /// Promotion happens exactly when the tree depth reaches the threshold
    /// and the tree is not empty: so an empty tree promotes nothing, a
    /// non-empty tree always promotes at threshold 0, and nothing is promoted
    /// at a threshold above the tree depth.
    pub proof fn lemma_when_promotion_happens(c: BlockCache, depth_threshold: u32)
        requires
            c.wf(),
        ensures
            c.root() is None ==> (c.depth() < depth_threshold || c.depth() == 0),
            c.root() is Some && depth_threshold == 0 ==> !(c.depth() < depth_threshold || c.depth() == 0),
            depth_threshold > c.depth() ==> (c.depth() < depth_threshold || c.depth() == 0),
    {
        Self::lemma_depth_is_deepest(c);
    }
}

} // verus!
