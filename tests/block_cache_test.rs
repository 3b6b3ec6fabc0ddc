use std::str::FromStr;

use bitcoin::BlockHash;
use block_cache::{BlockCache, BlockId, BlockInfo};

const BLOCK_HEX: &str = "0200000035ab154183570282ce9afc0b494c9fc6a3cfea05aa8c1add2ecc56490000000038ba3d78e4500a5a7570dbe61960398add4410d278b21cd9708e6d9743f374d544fc055227f1001c29c1ea3b0101000000010000000000000000000000000000000000000000000000000000000000000000ffffffff3703a08601000427f1001c046a510100522cfabe6d6d0000000000000000000068692066726f6d20706f6f6c7365727665726aac1eeeed88ffffffff0100f2052a010000001976a914912e2b234f941f30b18afbb4fa46171214bf66c888ac00000000";

fn dummy_block() -> bitcoin::Block {
    bitcoin::consensus::encode::deserialize(&hex::decode(BLOCK_HEX).unwrap()).unwrap()
}

fn id_of(hash: &BlockHash) -> BlockId {
    BlockId { bytes: bitcoin::hashes::Hash::to_byte_array(*hash) }
}

fn create_block_hash(hash: &str) -> BlockId {
    id_of(&BlockHash::from_str(&hash.repeat(64)).unwrap())
}

fn create_block_info(hash: &str, prev_hash: &str) -> BlockInfo {
    BlockInfo::new(&create_block_hash(hash), &create_block_hash(prev_hash))
}

fn add(cache: &mut BlockCache, info: &BlockInfo, block: &bitcoin::Block) {
    assert!(cache.level_headroom_ok());
    cache.add_block_impl(info, block.clone());
}

// The fork tree of the examples:
//         0
//        / \
//       1   2
//       |  / \
//       3 4   5
//       | |   |
//       6 7   8
//       |  \
//       9   A
//           |
//           B
//           |
//           C
fn fork_tree_blocks() -> Vec<BlockInfo> {
    vec![
        create_block_info("0", "0"),
        create_block_info("8", "5"),
        create_block_info("4", "2"),
        create_block_info("5", "2"),
        create_block_info("1", "0"),
        create_block_info("2", "0"),
        create_block_info("A", "7"),
        create_block_info("7", "4"),
        create_block_info("9", "6"),
        create_block_info("3", "1"),
        create_block_info("6", "3"),
        create_block_info("B", "A"),
        create_block_info("C", "B"),
    ]
}

const TAGS: [&str; 13] = ["0", "1", "2", "3", "4", "5", "6", "7", "8", "9", "A", "B", "C"];

fn fork_tree_cache() -> BlockCache {
    let mut cache = BlockCache::new();
    let block = dummy_block();
    for info in &fork_tree_blocks() {
        add(&mut cache, info, &block);
    }
    cache
}

fn recomputed_depth(cache: &BlockCache) -> u32 {
    let mut max_level = 0;
    for tag in TAGS {
        if let Some(level) = cache.node_orig_level(&create_block_hash(tag)) {
            max_level = max_level.max(level);
        }
    }
    if max_level == 0 {
        0
    } else {
        max_level - cache.root_removed_cnt()
    }
}

#[test]
fn test() {
    let mut block_cache = BlockCache::new();
    let blocks = fork_tree_blocks();
    let dummy_block = dummy_block();

    for block_info in &blocks {
        add(&mut block_cache, block_info, &dummy_block);
    }
    assert_eq!(block_cache.tree_depth(), 7);
    assert_eq!(block_cache.staged_cnt(), 13);
    assert_eq!(block_cache.out_of_order_cnt(), 0);

    let expected_roots = vec!["0", "2", "4"];
    for expected_root in expected_roots {
        let (block_info_opt, _block_opt) = block_cache.remove_block_if_ready_impl(4);
        let block_info = block_info_opt.expect("root removal expected");
        assert_eq!(
            &block_info.hash,
            &create_block_hash(expected_root),
            "expected root: {}, but got: {:?}",
            expected_root,
            block_info.hash
        );
    }
    assert_eq!(block_cache.tree_depth(), 4);
    assert_eq!(block_cache.root_removed_cnt(), 3);
    let root_hash = block_cache.tree_root().expect("root hash expected");
    assert_eq!(
        root_hash,
        create_block_hash("7"),
        "expected root: 7, but got: {:?}",
        root_hash
    );
    let a = create_block_hash("A");
    assert_eq!(block_cache.node_orig_level(&a).expect("node expected"), 5);
    assert_eq!(block_cache.node_parent(&a).expect("parent expected"), create_block_hash("7"));
    assert_eq!(block_cache.node_children(&a), vec![create_block_hash("B")]);
}

#[test]
fn out_of_order_ingest_stages_every_block() {
    let cache = fork_tree_cache();
    assert_eq!(cache.staged_cnt(), 13);
    assert_eq!(cache.pending_cnt(), 13);
    assert_eq!(cache.out_of_order_cnt(), 0);
    assert_eq!(cache.parked_cnt(), 0);
    assert_eq!(cache.tree_depth(), 7);
    assert_eq!(cache.tree_root(), Some(create_block_hash("0")));
    assert_eq!(cache.node_parent(&create_block_hash("0")), None);
    assert_eq!(cache.node_orig_level(&create_block_hash("C")), Some(7));
    let mut children = cache.node_children(&create_block_hash("2"));
    children.sort_by(|x, y| x.bytes.cmp(&y.bytes));
    assert_eq!(children, vec![create_block_hash("4"), create_block_hash("5")]);
}

#[test]
fn promotion_purges_losing_forks() {
    let mut cache = fork_tree_cache();
    for expected in ["0", "2", "4"] {
        let (info, block) = cache.remove_block_if_ready_impl(4);
        assert_eq!(info.expect("promotion expected").hash, create_block_hash(expected));
        assert!(block.is_some());
    }
    assert_eq!(cache.tree_depth(), 4);
    assert_eq!(cache.root_removed_cnt(), 3);
    assert_eq!(cache.tree_root(), Some(create_block_hash("7")));
    assert_eq!(cache.node_parent(&create_block_hash("7")), None);
    for purged in ["1", "3", "6", "9", "5", "8", "0", "2", "4"] {
        assert_eq!(cache.node_orig_level(&create_block_hash(purged)), None);
    }
    for kept in ["7", "A", "B", "C"] {
        assert!(cache.node_orig_level(&create_block_hash(kept)).is_some());
    }
    assert_eq!(cache.staged_cnt(), 4);
    assert_eq!(cache.pending_cnt(), 4);
    // added = pending + promoted + purged
    assert_eq!(13, cache.pending_cnt() + 3 + 6);
    // the depth is not yet enough for a fourth promotion at threshold 5
    let (info, block) = cache.remove_block_if_ready_impl(5);
    assert!(info.is_none() && block.is_none());
}

#[test]
fn linear_chain_promotes_in_parent_order() {
    let tags = ["1", "2", "3", "4", "5"];
    let mut cache = BlockCache::new();
    let block = dummy_block();
    for i in (0..tags.len()).rev() {
        let prev = if i == 0 { "0" } else { tags[i - 1] };
        add(&mut cache, &create_block_info(tags[i], prev), &block);
    }
    // the last block arrived first into an empty tree and became the root;
    // its ancestors wait on parents that never get staged
    assert_eq!(cache.tree_root(), Some(create_block_hash("5")));
    assert_eq!(cache.staged_cnt(), 1);
    assert_eq!(cache.parked_cnt(), 4);

    // with the first block as root, the rest may come in reverse order
    let mut ordered = BlockCache::new();
    add(&mut ordered, &create_block_info("1", "0"), &block);
    for i in (1..tags.len()).rev() {
        add(&mut ordered, &create_block_info(tags[i], tags[i - 1]), &block);
    }
    assert_eq!(ordered.staged_cnt(), 5);
    assert_eq!(ordered.tree_depth(), 5);
    let mut returned: Vec<BlockInfo> = Vec::new();
    loop {
        let (info, _) = ordered.remove_block_if_ready_impl(2);
        match info {
            Some(info) => returned.push(info),
            None => break,
        }
    }
    assert_eq!(returned.len(), 4);
    for pair in returned.windows(2) {
        assert_eq!(pair[1].prev_hash, pair[0].hash);
    }
    assert_eq!(ordered.tree_root(), Some(create_block_hash("5")));
}

#[test]
fn linear_chain_threshold_one_drains_whole_chain() {
    let tags = ["1", "2", "3", "4", "5"];
    let mut cache = BlockCache::new();
    let block = dummy_block();
    add(&mut cache, &create_block_info("1", "0"), &block);
    for i in (1..tags.len()).rev() {
        add(&mut cache, &create_block_info(tags[i], tags[i - 1]), &block);
    }
    assert_eq!(cache.staged_cnt(), 5);
    let mut returned: Vec<BlockInfo> = Vec::new();
    while let (Some(info), _) = cache.remove_block_if_ready_impl(1) {
        returned.push(info);
    }
    let hashes: Vec<BlockId> = returned.iter().map(|i| i.hash).collect();
    let expected: Vec<BlockId> = tags.iter().map(|t| create_block_hash(t)).collect();
    assert_eq!(hashes, expected);
    assert_eq!(cache.tree_root(), None);
    assert_eq!(cache.tree_depth(), 0);
    assert_eq!(cache.pending_cnt(), 0);
}

#[test]
fn duplicate_arrival_is_ignored() {
    let mut cache = BlockCache::new();
    let block = dummy_block();
    add(&mut cache, &create_block_info("1", "0"), &block);
    add(&mut cache, &create_block_info("2", "1"), &block);
    add(&mut cache, &create_block_info("2", "1"), &block);
    assert_eq!(cache.pending_cnt(), 2);
    assert_eq!(cache.staged_cnt(), 2);
    assert_eq!(cache.tree_depth(), 2);
    let (info, _) = cache.remove_block_if_ready_impl(2);
    assert_eq!(info.unwrap().hash, create_block_hash("1"));
    assert_eq!(cache.tree_root(), Some(create_block_hash("2")));
    assert_eq!(cache.pending_cnt(), 1);
}

#[test]
fn descendant_of_missing_parent_stays_parked() {
    let mut cache = BlockCache::new();
    let block = dummy_block();
    add(&mut cache, &create_block_info("1", "0"), &block);
    add(&mut cache, &create_block_info("3", "2"), &block);
    assert_eq!(cache.out_of_order_cnt(), 1);
    assert_eq!(cache.staged_cnt(), 1);
    assert_eq!(cache.pending_cnt(), 2);
    assert_eq!(cache.tree_depth(), 1);
    for threshold in [2, 3, 100, u32::MAX] {
        assert!(cache.remove_block_if_ready(threshold).is_none());
    }
    assert_eq!(cache.pending_cnt(), 2);
}

#[test]
fn block_whose_parent_was_purged_waits_forever() {
    let mut cache = BlockCache::new();
    let block = dummy_block();
    add(&mut cache, &create_block_info("0", "F"), &block);
    add(&mut cache, &create_block_info("1", "0"), &block);
    add(&mut cache, &create_block_info("2", "0"), &block);
    add(&mut cache, &create_block_info("3", "2"), &block);
    let (info, _) = cache.remove_block_if_ready_impl(3);
    assert_eq!(info.unwrap().hash, create_block_hash("0"));
    assert_eq!(cache.node_orig_level(&create_block_hash("1")), None);
    add(&mut cache, &create_block_info("4", "1"), &block);
    assert_eq!(cache.out_of_order_cnt(), 1);
    add(&mut cache, &create_block_info("5", "3"), &block);
    add(&mut cache, &create_block_info("6", "5"), &block);
    while cache.remove_block_if_ready(1).is_some() {}
    assert_eq!(cache.out_of_order_cnt(), 1);
    assert_eq!(cache.pending_cnt(), 1);
    assert_eq!(cache.staged_cnt(), 0);
}

#[test]
fn empty_tree_promotes_nothing() {
    let mut cache = BlockCache::new();
    for threshold in [0, 1, 4, u32::MAX] {
        assert!(cache.remove_block_if_ready(threshold).is_none());
    }
    assert_eq!(cache.root_removed_cnt(), 0);
}

#[test]
fn threshold_zero_promotes_and_high_threshold_does_not() {
    let mut cache = fork_tree_cache();
    assert!(cache.remove_block_if_ready(8).is_none());
    assert_eq!(cache.staged_cnt(), 13);
    assert!(cache.remove_block_if_ready(0).is_some());
    assert_eq!(cache.tree_depth(), 6);

    let mut single = BlockCache::new();
    add(&mut single, &create_block_info("1", "0"), &dummy_block());
    assert!(single.remove_block_if_ready(0).is_some());
    assert_eq!(single.tree_root(), None);
    assert_eq!(single.tree_depth(), 0);
    assert_eq!(single.root_removed_cnt(), 1);
    // an emptied tree takes the next block as its root, one level deeper
    add(&mut single, &create_block_info("7", "3"), &dummy_block());
    assert_eq!(single.tree_root(), Some(create_block_hash("7")));
    assert_eq!(single.node_orig_level(&create_block_hash("7")), Some(2));
    assert_eq!(single.tree_depth(), 1);
}

#[test]
fn pending_is_staged_plus_parked_at_every_step() {
    let mut cache = BlockCache::new();
    let block = dummy_block();
    for info in &fork_tree_blocks() {
        add(&mut cache, info, &block);
        assert_eq!(cache.pending_cnt(), cache.staged_cnt() + cache.parked_cnt());
        assert_eq!(cache.tree_depth(), recomputed_depth(&cache));
    }
    while cache.remove_block_if_ready(2).is_some() {
        assert_eq!(cache.pending_cnt(), cache.staged_cnt() + cache.parked_cnt());
        assert_eq!(cache.tree_depth(), recomputed_depth(&cache));
    }
    assert_eq!(cache.tree_depth(), 1);
}

#[test]
fn out_of_order_count_counts_distinct_parents() {
    let mut cache = BlockCache::new();
    let block = dummy_block();
    add(&mut cache, &create_block_info("0", "0"), &block);
    add(&mut cache, &create_block_info("4", "2"), &block);
    add(&mut cache, &create_block_info("5", "2"), &block);
    add(&mut cache, &create_block_info("8", "5"), &block);
    assert_eq!(cache.parked_cnt(), 3);
    assert_eq!(cache.out_of_order_cnt(), 2);
    add(&mut cache, &create_block_info("2", "0"), &block);
    assert_eq!(cache.parked_cnt(), 0);
    assert_eq!(cache.out_of_order_cnt(), 0);
    assert_eq!(cache.node_orig_level(&create_block_hash("8")), Some(4));
}

#[test]
fn final_tree_shape_does_not_depend_on_arrival_order() {
    let block = dummy_block();
    let blocks = fork_tree_blocks();
    let mut orders: Vec<Vec<BlockInfo>> = vec![blocks.clone()];
    let mut reversed = blocks.clone();
    reversed.reverse();
    orders.push(reversed);
    let mut rotated = blocks.clone();
    rotated.rotate_left(5);
    orders.push(rotated);
    let mut shapes = Vec::new();
    for order in &orders {
        let mut cache = BlockCache::new();
        // the root arrives first so that it is the root in every order
        add(&mut cache, &blocks[0], &block);
        for info in order.iter().filter(|i| i.hash != blocks[0].hash) {
            add(&mut cache, info, &block);
        }
        let shape: Vec<(Option<BlockId>, Option<u32>)> = TAGS
            .iter()
            .map(|t| {
                let id = create_block_hash(t);
                (cache.node_parent(&id), cache.node_orig_level(&id))
            })
            .collect();
        assert_eq!(cache.staged_cnt(), 13);
        shapes.push(shape);
    }
    assert_eq!(shapes[0], shapes[1]);
    assert_eq!(shapes[0], shapes[2]);
}

#[test]
fn add_block_reads_hashes_from_the_block() {
    let block = dummy_block();
    let hash = id_of(&block.block_hash());
    let prev = id_of(&block.header.prev_blockhash);
    assert_ne!(hash, prev);
    let mut cache = BlockCache::new();
    assert!(cache.level_headroom_ok());
    cache.add_block(block.clone());
    assert_eq!(cache.tree_root(), Some(hash));
    assert_eq!(cache.pending_cnt(), 1);
    let returned = cache.remove_block_if_ready(1).expect("the root is promoted");
    assert_eq!(returned.block_hash(), block.block_hash());
}

#[test]
fn add_encoded_block_decodes_or_leaves_cache_unchanged() {
    let bytes = hex::decode(BLOCK_HEX).unwrap();
    let mut cache = BlockCache::new();
    assert!(!cache.add_encoded_block(&bytes[..40]));
    assert_eq!(cache.pending_cnt(), 0);
    assert!(cache.add_encoded_block(&bytes));
    assert_eq!(cache.tree_root(), Some(id_of(&dummy_block().block_hash())));
    assert_eq!(cache.pending_cnt(), 1);
}

#[test]
fn new_cache_is_empty() {
    let cache = BlockCache::new();
    assert_eq!(cache.pending_cnt(), 0);
    assert_eq!(cache.staged_cnt(), 0);
    assert_eq!(cache.parked_cnt(), 0);
    assert_eq!(cache.out_of_order_cnt(), 0);
    assert_eq!(cache.tree_depth(), 0);
    assert_eq!(cache.tree_root(), None);
    assert_eq!(cache.node_orig_level(&create_block_hash("0")), None);
}

#[test]
fn equal_depth_forks_promote_the_first_to_reach_it() {
    let mut cache = BlockCache::new();
    let block = dummy_block();
    add(&mut cache, &create_block_info("0", "F"), &block);
    add(&mut cache, &create_block_info("2", "0"), &block);
    add(&mut cache, &create_block_info("1", "0"), &block);
    add(&mut cache, &create_block_info("3", "1"), &block);
    add(&mut cache, &create_block_info("4", "2"), &block);
    // both forks reach depth 3; the one under 1 got there first
    let (info, _) = cache.remove_block_if_ready_impl(3);
    assert_eq!(info.unwrap().hash, create_block_hash("0"));
    assert_eq!(cache.tree_root(), Some(create_block_hash("1")));
    assert_eq!(cache.node_orig_level(&create_block_hash("2")), None);
    assert_eq!(cache.node_orig_level(&create_block_hash("4")), None);
    assert_eq!(cache.pending_cnt(), 2);
}
