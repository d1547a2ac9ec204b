use trace_core::advice::AdviceProvider;
use trace_core::errors::{AdviceSetError, ExecutionError};
use trace_core::field::{Felt, Word};
use trace_core::hasher::merge;
use trace_core::merkle::MerkleTree;

fn felt(x: u64) -> Felt {
    Felt::new(x)
}

fn leaf(x: u64) -> Word {
    [felt(x), felt(0), felt(0), felt(0)]
}

fn eight_leaves() -> Vec<Word> {
    (1..=8).map(leaf).collect()
}

/// Recomputes the root from a node and its authentication path by walking
/// the index's bit pattern, low bit first.
fn fold_path(path: &[Word], index: u64) -> Word {
    let mut acc = path[0];
    let mut idx = index;
    for sibling in path.iter().skip(1) {
        if idx % 2 == 0 {
            acc = merge(&acc, sibling);
        } else {
            acc = merge(sibling, &acc);
        }
        idx /= 2;
    }
    acc
}

#[test]
fn tree_new_accepts_only_power_of_two_leaf_counts() {
    for n in [0usize, 1, 3, 5, 6, 7, 9] {
        let leaves: Vec<Word> = (0..n as u64).map(leaf).collect();
        let err = MerkleTree::new(leaves).unwrap_err();
        assert_eq!(err, AdviceSetError::InvalidNumLeaves(n));
    }
    for (n, depth) in [(2usize, 1u32), (4, 2), (8, 3), (16, 4)] {
        let leaves: Vec<Word> = (0..n as u64).map(leaf).collect();
        let tree = MerkleTree::new(leaves).unwrap();
        assert_eq!(tree.depth(), depth);
    }
}

#[test]
fn tree_leaves_and_inner_nodes() {
    let tree = MerkleTree::new(eight_leaves()).unwrap();
    // depth 3 addresses the leaves themselves
    for i in 0..8u64 {
        assert_eq!(tree.get_node(3, i).unwrap(), leaf(i + 1));
    }
    // inner nodes are the compression of their children
    let n20 = tree.get_node(2, 0).unwrap();
    assert_eq!(n20, merge(&leaf(1), &leaf(2)));
    let n10 = tree.get_node(1, 0).unwrap();
    assert_eq!(n10, merge(&merge(&leaf(1), &leaf(2)), &merge(&leaf(3), &leaf(4))));
}

#[test]
fn tree_get_node_rejects_bad_coordinates() {
    let tree = MerkleTree::new(eight_leaves()).unwrap();
    assert_eq!(tree.get_node(0, 0).unwrap_err(), AdviceSetError::DepthTooSmall);
    assert_eq!(tree.get_node(4, 0).unwrap_err(), AdviceSetError::DepthTooBig(4));
    assert_eq!(tree.get_node(3, 8).unwrap_err(), AdviceSetError::InvalidIndex(8));
    assert_eq!(tree.get_node(2, 4).unwrap_err(), AdviceSetError::InvalidIndex(4));
}

#[test]
fn node_matches_path_walk() {
    let tree = MerkleTree::new(eight_leaves()).unwrap();
    let root = tree.root();
    for (depth, index) in [(3u32, 5u64), (3, 0), (3, 7), (2, 1), (1, 1)] {
        let node = tree.get_node(depth, index).unwrap();
        let path = tree.get_path(depth, index).unwrap();
        assert_eq!(path.len() as u32, depth + 1);
        // the path starts with the node itself
        assert_eq!(path[0], node);
        // and walking it with the index's bits reproduces the root
        assert_eq!(fold_path(&path, index), root);
    }
}

#[test]
fn update_leaf_moves_the_root() {
    let mut tree = MerkleTree::new(eight_leaves()).unwrap();
    let old_root = tree.root();
    tree.update_leaf(2, leaf(42)).unwrap();
    assert_eq!(tree.get_node(3, 2).unwrap(), leaf(42));
    assert_ne!(tree.root(), old_root);
    assert_eq!(
        tree.get_node(1, 0).unwrap(),
        merge(&merge(&leaf(1), &leaf(2)), &merge(&leaf(42), &leaf(4)))
    );
    let err = tree.update_leaf(8, leaf(1)).unwrap_err();
    assert_eq!(err, AdviceSetError::InvalidIndex(8));
}

#[test]
fn provider_serves_tree_nodes_and_paths() {
    let tree = MerkleTree::new(eight_leaves()).unwrap();
    let root_word = tree.root();
    let mut provider = AdviceProvider::new(Vec::new(), Vec::new(), vec![tree]);

    assert!(provider.has_advice_set(root_word));
    let node = provider.get_tree_node(root_word, felt(3), felt(6)).unwrap();
    assert_eq!(node, leaf(7));
    let path = provider.get_merkle_path(root_word, felt(3), felt(6)).unwrap();
    assert_eq!(path[0], node);
    assert_eq!(fold_path(&path, 6), root_word);

    let missing = leaf(1234);
    let err = provider.get_tree_node(missing, felt(3), felt(0)).unwrap_err();
    assert_eq!(err, ExecutionError::AdviceSetNotFound(missing));
    let err = provider.get_tree_node(root_word, felt(0), felt(0)).unwrap_err();
    assert_eq!(
        err,
        ExecutionError::AdviceSetLookupFailed(AdviceSetError::DepthTooSmall)
    );
    let err = provider.get_tree_node(root_word, felt(9), felt(0)).unwrap_err();
    assert_eq!(
        err,
        ExecutionError::AdviceSetLookupFailed(AdviceSetError::DepthTooBig(9))
    );
    let err = provider.get_tree_node(root_word, felt(3), felt(8)).unwrap_err();
    assert_eq!(
        err,
        ExecutionError::AdviceSetLookupFailed(AdviceSetError::InvalidIndex(8))
    );
}

#[test]
fn update_merkle_leaf_in_copy_retains_old_root() {
    let tree = MerkleTree::new(eight_leaves()).unwrap();
    let old_root = tree.root();
    let old_path = tree.get_path(3, 5).unwrap();
    let mut provider = AdviceProvider::new(Vec::new(), Vec::new(), vec![tree]);

    let path = provider.update_merkle_leaf(old_root, felt(5), leaf(77), true).unwrap();
    // the returned path describes the tree before the update
    assert_eq!(path, old_path);

    // the old root stays queryable with unchanged values
    assert!(provider.has_advice_set(old_root));
    assert_eq!(provider.get_tree_node(old_root, felt(3), felt(5)).unwrap(), leaf(6));

    // the updated tree is filed under its new root
    let mut updated_leaves = eight_leaves();
    updated_leaves[5] = leaf(77);
    let new_root = MerkleTree::new(updated_leaves).unwrap().root();
    assert!(provider.has_advice_set(new_root));
    assert_eq!(provider.get_tree_node(new_root, felt(3), felt(5)).unwrap(), leaf(77));
}

#[test]
fn update_merkle_leaf_in_place_retires_old_root() {
    let tree = MerkleTree::new(eight_leaves()).unwrap();
    let old_root = tree.root();
    let mut provider = AdviceProvider::new(Vec::new(), Vec::new(), vec![tree]);

    provider.update_merkle_leaf(old_root, felt(5), leaf(77), false).unwrap();

    // the old root is now unknown
    assert!(!provider.has_advice_set(old_root));
    let err = provider.get_tree_node(old_root, felt(3), felt(5)).unwrap_err();
    assert_eq!(err, ExecutionError::AdviceSetNotFound(old_root));

    // only the updated tree remains
    let mut updated_leaves = eight_leaves();
    updated_leaves[5] = leaf(77);
    let new_root = MerkleTree::new(updated_leaves).unwrap().root();
    assert!(provider.has_advice_set(new_root));
}

#[test]
fn update_merkle_leaf_failure_modes() {
    let tree = MerkleTree::new(eight_leaves()).unwrap();
    let root_word = tree.root();
    let mut provider = AdviceProvider::new(Vec::new(), Vec::new(), vec![tree]);

    let missing = leaf(4321);
    let err = provider.update_merkle_leaf(missing, felt(0), leaf(1), true).unwrap_err();
    assert_eq!(err, ExecutionError::AdviceSetNotFound(missing));

    let err = provider.update_merkle_leaf(root_word, felt(8), leaf(1), false).unwrap_err();
    assert_eq!(
        err,
        ExecutionError::AdviceSetLookupFailed(AdviceSetError::InvalidIndex(8))
    );
    // the failed in-place update did not disturb the set
    assert!(provider.has_advice_set(root_word));
}
