use merkle_race::curve::hash_bytes_to_point;
use merkle_race::max_leaves;
use merkle_race::merkle::{AbstractMerkle, InvalidArgument};
use merkle_race::merkle_crhf::{
    new_merkle_crhf_from_height, new_merkle_crhf_from_leaves, Blake2bHashFunc, Blake2sHashFunc,
    HasherCRHF, MerkleHashValue, Sha3HashFunc,
};
use merkle_race::merkle_pp::{
    hash_child, new_merklepp_from_height, new_merklepp_from_leaves, IncrementalHasher,
    MerkleppHashValue,
};
use merkle_race::node_index::NodeIndex;
use merkle_race::tree_hasher::TreeHasherFunc;
use merkle_race::verkle::{
    hash_to_scalar, new_verkle_from_height, new_verkle_from_leaves, VerkleComm, VerkleHasher,
};
use rand::seq::IteratorRandom;

fn updates_of(pairs: &[(usize, &str)]) -> Vec<(usize, String)> {
    pairs.iter().map(|(p, s)| (*p, s.to_string())).collect()
}

fn random_updates(max_num_leaves: usize, num_updates: usize) -> Vec<(usize, String)> {
    let mut positions = (0..max_num_leaves).choose_multiple(&mut rand::thread_rng(), num_updates);
    positions.sort();
    positions.into_iter().enumerate().map(|(i, p)| (p, format!("leaf data/{}", i))).collect()
}

fn test_with_random_updates<H>(num_leaves: usize, merkle: &mut AbstractMerkle<String, MerkleHashValue, H>)
where
    H: TreeHasherFunc<String, MerkleHashValue>,
{
    for num_updates in [1, num_leaves / 3, num_leaves / 2, num_leaves] {
        if num_updates == 0 {
            continue;
        }
        let updates = random_updates(num_leaves, num_updates);
        merkle.update_leaves(updates);
    }
}

fn root<H: Copy, P: TreeHasherFunc<String, H>>(t: &AbstractMerkle<String, H, P>) -> H {
    t.get_node_hash(&NodeIndex(0)).unwrap()
}

fn bases(arity: usize) -> Vec<[u8; 32]> {
    (0..arity).map(|i| hash_bytes_to_point(format!("base point {}", i).as_bytes())).collect()
}

fn hex32(s: &str) -> [u8; 32] {
    hex::decode(s).unwrap().try_into().unwrap()
}

#[test]
fn bvt() {
    assert_eq!(max_leaves(2, 30), 1073741824);
    assert_eq!(max_leaves(2, 60), max_leaves(4, 30));
    assert_eq!(max_leaves(4, 30), 1152921504606846976);
}

#[test]
fn max_leaves_edges() {
    assert_eq!(max_leaves(16, 0), 1);
    assert_eq!(max_leaves(3, 2), 9);
    assert_eq!(max_leaves(16, 3), 4096);
}

#[test]
fn bvt_arity_2_examples() {
    let mut merkle = new_merkle_crhf_from_leaves::<Sha3HashFunc>(2, 3);
    let updates = updates_of(&[(0, "lol"), (1, "ha"), (2, "bla")]);
    merkle.update_leaves(updates);

    let mut merkle = new_merkle_crhf_from_leaves::<Sha3HashFunc>(2, 10);
    let updates = updates_of(&[(0, "lol"), (1, "ha"), (2, "bla"), (8, "la")]);
    merkle.update_leaves(updates);
}

#[test]
fn bvt_perfect() {
    for arity in [2, 4, 8, 16] {
        for height in [1, 2, 3, 4] {
            let num_leaves = max_leaves(arity, height);
            let mut merkle = new_merkle_crhf_from_leaves::<Sha3HashFunc>(arity, num_leaves);
            test_with_random_updates(num_leaves, &mut merkle)
        }
    }
}

#[test]
fn bvt_imperfect() {
    for arity in [2, 4, 8, 16] {
        for num_leaves in 2..=256 {
            let mut merkle = new_merkle_crhf_from_leaves::<Sha3HashFunc>(arity, num_leaves);
            test_with_random_updates(num_leaves, &mut merkle);
        }
    }
}

#[test]
fn bvt_arity_16_imperfect() {
    let arity = 16;
    for num_leaves in 16..=128 {
        let mut merkle = new_merkle_crhf_from_leaves::<Sha3HashFunc>(arity, num_leaves);
        test_with_random_updates(num_leaves, &mut merkle);
    }
}

#[test]
fn bvt_arity_16_examples() {
    let mut merkle = new_merkle_crhf_from_height::<Sha3HashFunc>(16, 3);
    let updates = updates_of(&[
        (0, "lol"),
        (1, "ha"),
        (2, "bla"),
        (16, "la"),
        (19, "nah"),
        (1023, "rer"),
        (1024, "last"),
        (1026, "asdsd"),
    ]);
    merkle.update_leaves(updates);

    let mut merkle = new_merkle_crhf_from_leaves::<Sha3HashFunc>(16, 600);
    let updates = updates_of(&[
        (0, "lol"),
        (1, "ha"),
        (2, "bla"),
        (16, "la"),
        (19, "nah"),
        (523, "rer"),
        (524, "last"),
        (526, "asdsd"),
    ]);
    merkle.update_leaves(updates);
}

#[test]
fn arity_2_three_leaves_root_is_stable() {
    let run = || {
        let mut merkle = new_merkle_crhf_from_leaves::<Sha3HashFunc>(2, 3);
        merkle.update_leaves(updates_of(&[(0, "lol"), (1, "ha"), (2, "bla")]));
        root(&merkle)
    };
    let first = run();
    assert_eq!(first, run());
    assert_eq!(
        first.hash,
        hex32("a9687eca799f7cd7c3fdd02173311a263979f18db908973c04aa15fe86c1afc9")
    );
}

#[test]
fn crhf_leaf_digests_match_the_hash_functions() {
    let mut sha3 = HasherCRHF::<Sha3HashFunc>::new(2);
    let mut b2s = HasherCRHF::<Blake2sHashFunc>::new(2);
    let mut b2b = HasherCRHF::<Blake2bHashFunc>::new(2);
    assert_eq!(
        sha3.hash_leaf_data(0, "lol".to_string()).hash,
        hex32("74323fd88414c6764bab2edfe64b3fdbe58004f9c1129457603676980d806f5d")
    );
    assert_eq!(
        b2s.hash_leaf_data(0, "lol".to_string()).hash,
        hex32("2e5222c6d2865356b54462cdf2fdee267b5da22fca102ce81a0b47bcea83c24e")
    );
    assert_eq!(
        b2b.hash_leaf_data(0, "lol".to_string()).hash,
        hex32("61445562ce2fa6a205c54f7601f905f029625ba1f1fe811373084d64f1c89787")
    );
    assert_eq!(sha3.get_num_computations(), 1);
}

#[test]
fn arity_16_updates_touch_only_leaves_and_ancestors() {
    let arity = 16;
    let mut merkle = new_merkle_crhf_from_height::<Sha3HashFunc>(arity, 3);
    let positions = [0usize, 1, 2, 16, 19, 1023, 1024, 1026];
    let updates: Vec<(usize, String)> =
        positions.iter().map(|p| (*p, format!("data {}", p))).collect();
    merkle.update_leaves(updates);

    let num_internal = (4096 - 1) / (arity - 1);
    let mut touched = std::collections::HashSet::new();
    for p in positions {
        let mut i = num_internal + p;
        touched.insert(i);
        while i != 0 {
            i = (i - 1) / arity;
            touched.insert(i);
        }
    }
    let blank = MerkleHashValue::default();
    for i in 0..(num_internal + 4096) {
        let h = merkle.get_node_hash(&NodeIndex(i)).unwrap();
        assert_eq!(h != blank, touched.contains(&i), "node {}", i);
    }
    assert!(merkle.get_node_hash(&NodeIndex(num_internal + 4096)).is_none());
}

#[test]
fn same_batch_gives_same_root() {
    for num_leaves in [7usize, 10, 64, 100] {
        let updates = random_updates(num_leaves, num_leaves / 2);
        let mut a = new_merkle_crhf_from_leaves::<Blake2bHashFunc>(4, num_leaves);
        let mut b = new_merkle_crhf_from_leaves::<Blake2bHashFunc>(4, num_leaves);
        a.update_leaves(updates.clone());
        b.update_leaves(updates);
        assert_eq!(root(&a), root(&b));
    }
}

#[test]
fn preprocessed_updates_match_direct_updates() {
    let updates = updates_of(&[(0, "a"), (3, "b"), (8, "c"), (9, "d")]);
    let mut a = new_merkle_crhf_from_leaves::<Sha3HashFunc>(3, 10);
    let mut b = new_merkle_crhf_from_leaves::<Sha3HashFunc>(3, 10);
    a.update_leaves(updates.clone());
    let queue = b.preprocess_leaves(updates);
    b.update_preprocessed_leaves(queue);
    assert_eq!(root(&a), root(&b));
}

#[test]
fn irregular_layout_arity_3_ten_leaves() {
    let merkle = new_merkle_crhf_from_leaves::<Sha3HashFunc>(3, 10);
    assert_eq!(merkle.num_leaves(), 10);
    assert!(merkle.has_leaves_on_two_levels());
    // 5 internal nodes; 8 leaves on the second-to-last level, 2 on the last
    let idx: Vec<usize> = (0..10).map(|p| merkle.get_leaf_idx(p).0).collect();
    assert_eq!(idx, (5..15).collect::<Vec<usize>>());
    for p in 0..8 {
        assert!(!merkle.is_last_level_leaf(&merkle.get_leaf_idx(p)));
    }
    for p in 8..10 {
        assert!(merkle.is_last_level_leaf(&merkle.get_leaf_idx(p)));
    }
    // every leaf's parent is internal, and no parent has more than 3 children
    let mut children = [0usize; 5];
    for i in idx {
        let parent = NodeIndex(i).parent(3).0;
        assert!(parent < 5);
        children[parent] += 1;
    }
    assert!(children.iter().all(|c| *c <= 3));
    assert!(merkle.get_node_hash(&NodeIndex(15)).is_none());
}

#[test]
fn perfect_tree_has_one_leaf_level() {
    let merkle = new_merkle_crhf_from_height::<Sha3HashFunc>(4, 2);
    assert_eq!(merkle.num_leaves(), 16);
    assert!(!merkle.has_leaves_on_two_levels());
    assert_eq!(merkle.get_leaf_idx(0).0, 5);
}

#[test]
fn single_leaf_tree() {
    let mut merkle = new_merkle_crhf_from_leaves::<Sha3HashFunc>(2, 1);
    merkle.update_leaves(updates_of(&[(0, "lol")]));
    assert_eq!(
        root(&merkle).hash,
        hex32("74323fd88414c6764bab2edfe64b3fdbe58004f9c1129457603676980d806f5d")
    );
}

#[test]
fn empty_batch_changes_nothing() {
    let mut merkle = new_merkle_crhf_from_leaves::<Sha3HashFunc>(2, 5);
    merkle.update_leaves(Vec::new());
    assert_eq!(root(&merkle), MerkleHashValue::default());
}

#[test]
fn node_index_arithmetic() {
    let n = NodeIndex(7);
    assert_eq!(n.parent(3).0, 2);
    assert_eq!(n.child_offset(3), 0);
    assert_eq!(NodeIndex(2).child(3, 0).0, 7);
    assert_eq!(NodeIndex(9).child_offset(3), 2);
    assert!(NodeIndex::root_node().is_root());
    assert_eq!(NodeIndex::root_node().child_offset(3), 0);
}

#[test]
fn incremental_one_then_fifteen_equals_all_sixteen() {
    let all: Vec<(usize, String)> = (0..16).map(|i| (i, format!("v{}", i))).collect();
    let mut split = new_merklepp_from_height(16, 1, false);
    split.update_leaves(all[..1].to_vec());
    split.update_leaves(all[1..].to_vec());
    let mut whole = new_merklepp_from_height(16, 1, false);
    whole.update_leaves(all.clone());
    assert_eq!(root(&split), root(&whole));
}

#[test]
fn incremental_delta_path_equals_recompute() {
    let all: Vec<(usize, String)> = (0..16).map(|i| (i, format!("v{}", i))).collect();
    // recompute from scratch, then change 3 children through the delta path
    let mut delta = new_merklepp_from_height(16, 1, false);
    delta.update_leaves(all.clone());
    let change = updates_of(&[(2, "x"), (7, "y"), (11, "z")]);
    delta.update_leaves(change.clone());
    // the same final children, recomputed in one batch
    let mut fresh_data = all;
    for (p, d) in change {
        fresh_data[p].1 = d;
    }
    let mut recompute = new_merklepp_from_height(16, 1, false);
    recompute.update_leaves(fresh_data);
    assert_eq!(root(&delta), root(&recompute));
}

#[test]
fn incremental_irregular_tree_updates() {
    for num_leaves in [5usize, 10, 23, 40] {
        let mut a = new_merklepp_from_leaves(4, num_leaves, false);
        let mut b = new_merklepp_from_leaves(4, num_leaves, false);
        let all: Vec<(usize, String)> = (0..num_leaves).map(|i| (i, format!("v{}", i))).collect();
        a.update_leaves(all[..1].to_vec());
        a.update_leaves(all[1..].to_vec());
        b.update_leaves(all);
        assert_eq!(root(&a), root(&b));
    }
}

#[test]
fn incremental_changes_commute() {
    let mut hasher = IncrementalHasher::new(8, false);
    let parent = IncrementalHasher::empty_digest();
    let olds: Vec<MerkleppHashValue> = (0..8).map(|_| IncrementalHasher::empty_digest()).collect();
    let a = hasher.hash_leaf_data(0, "a".to_string());
    let b = hasher.hash_leaf_data(2, "b".to_string());
    let one = hasher.hash_nodes(parent, olds.clone(), &vec![(0, a), (2, b)]);
    let other = hasher.hash_nodes(parent, olds, &vec![(2, b), (0, a)]);
    assert_eq!(one, other);
    assert!(matches!(one, MerkleppHashValue::InternalThin(_)));
    assert_eq!(hasher.get_num_computations(), 8);
}

#[test]
fn hash_child_depends_on_offset_and_digest() {
    let leaf = MerkleppHashValue::Leaf([7u8; 32]);
    let other = MerkleppHashValue::Leaf([8u8; 32]);
    assert_ne!(hash_child(0, &leaf), hash_child(1, &leaf));
    assert_ne!(hash_child(0, &leaf), hash_child(0, &other));
    assert_ne!(hash_child(0, &leaf), [7u8; 32]);
}

#[test]
fn incremental_leaf_is_blake2b() {
    let mut hasher = IncrementalHasher::new(2, false);
    assert_eq!(
        hasher.hash_leaf_data(0, "lol".to_string()),
        MerkleppHashValue::Leaf(hex32(
            "61445562ce2fa6a205c54f7601f905f029625ba1f1fe811373084d64f1c89787"
        ))
    );
}

#[test]
fn verkle_empty_then_leaf_to_leaf() {
    let mut verkle = new_verkle_from_height(4, 2, bases(4)).unwrap();
    verkle.update_leaves(updates_of(&[(0, "a"), (5, "b")]));
    let first = root(&verkle);
    assert!(matches!(first, VerkleComm::Internal(_)));
    verkle.update_leaves(updates_of(&[(0, "c"), (5, "d")]));
    let second = root(&verkle);
    assert!(matches!(second, VerkleComm::Internal(_)));
    assert_ne!(first, second);
    // the same final leaves, written once
    let mut fresh = new_verkle_from_height(4, 2, bases(4)).unwrap();
    fresh.update_leaves(updates_of(&[(0, "c"), (5, "d")]));
    assert_eq!(second, root(&fresh));
}

#[test]
fn verkle_serial_and_multiscalar_agree() {
    let arity = 8;
    let all: Vec<(usize, String)> = (0..8).map(|i| (i, format!("v{}", i))).collect();
    // eight changes at once use one multi-scalar multiplication
    let mut batch = new_verkle_from_height(arity, 1, bases(arity)).unwrap();
    batch.update_leaves(all.clone());
    // four and four use serial multiplications
    let mut serial = new_verkle_from_height(arity, 1, bases(arity)).unwrap();
    serial.update_leaves(all[..4].to_vec());
    serial.update_leaves(all[4..].to_vec());
    assert_eq!(root(&batch), root(&serial));
}

#[test]
fn verkle_irregular_tree() {
    let mut verkle = new_verkle_from_leaves(3, 10, bases(3)).unwrap();
    let all: Vec<(usize, String)> = (0..10).map(|i| (i, format!("v{}", i))).collect();
    verkle.update_leaves(all.clone());
    let mut again = new_verkle_from_leaves(3, 10, bases(3)).unwrap();
    again.update_leaves(all[..5].to_vec());
    again.update_leaves(all[5..].to_vec());
    assert_eq!(root(&verkle), root(&again));
    assert_eq!(verkle.get_node_hash(&NodeIndex(14)).map(|h| matches!(h, VerkleComm::Leaf(_))), Some(true));
}

#[test]
fn verkle_changes_commute() {
    let mut hasher = VerkleHasher::new(4, bases(4)).unwrap();
    let olds = vec![VerkleComm::Empty; 4];
    let a = hasher.hash_leaf_data(0, "a".to_string());
    let b = hasher.hash_leaf_data(3, "b".to_string());
    let one = hasher.hash_nodes(VerkleComm::Empty, olds.clone(), &vec![(0, a), (3, b)]);
    let other = hasher.hash_nodes(VerkleComm::Empty, olds, &vec![(3, b), (0, a)]);
    assert_eq!(one, other);
    assert_eq!(hasher.get_num_computations(), 4);
}

#[test]
fn verkle_rejects_bad_base_points() {
    let mut wrong_count = bases(3);
    assert!(new_verkle_from_leaves(4, 10, wrong_count.clone()).is_none());
    wrong_count.push([0xffu8; 32]);
    assert!(new_verkle_from_leaves(4, 10, wrong_count).is_none());
    assert!(new_verkle_from_height(4, 2, bases(4)).is_some());
}

#[test]
fn verkle_leaf_scalar_and_point_scalar() {
    let mut hasher = VerkleHasher::new(2, bases(2)).unwrap();
    let leaf = hasher.hash_leaf_data(0, "lol".to_string());
    let other = hasher.hash_leaf_data(0, "ha".to_string());
    assert_ne!(leaf, other);
    let g = bases(1)[0];
    assert_eq!(hash_to_scalar(&g), hash_to_scalar(&g));
    assert_ne!(hash_to_scalar(&g), g);
    assert_ne!(VerkleComm::Leaf(hash_to_scalar(&g)), leaf);
}

#[test]
fn try_update_leaves_checks_the_batch() {
    let mut merkle = new_merkle_crhf_from_leaves::<Sha3HashFunc>(2, 3);
    assert_eq!(
        merkle.try_update_leaves(updates_of(&[(1, "ha"), (0, "lol")])),
        Err(InvalidArgument::UnsortedOrOutOfRange)
    );
    assert_eq!(
        merkle.try_update_leaves(updates_of(&[(0, "lol"), (0, "ha")])),
        Err(InvalidArgument::UnsortedOrOutOfRange)
    );
    assert_eq!(
        merkle.try_update_leaves(updates_of(&[(0, "lol"), (3, "ha")])),
        Err(InvalidArgument::UnsortedOrOutOfRange)
    );
    assert_eq!(root(&merkle), MerkleHashValue::default());
    assert!(merkle.updates_valid(&updates_of(&[(0, "lol"), (1, "ha"), (2, "bla")])));
    assert_eq!(merkle.try_update_leaves(updates_of(&[(0, "lol"), (1, "ha"), (2, "bla")])), Ok(()));
    assert_eq!(
        root(&merkle).hash,
        hex32("a9687eca799f7cd7c3fdd02173311a263979f18db908973c04aa15fe86c1afc9")
    );
}

#[test]
fn crhf_counts_one_hash_per_leaf_and_combined_parent() {
    let mut merkle = new_merkle_crhf_from_leaves::<Sha3HashFunc>(2, 3);
    assert_eq!(merkle.hasher.get_num_computations(), 0);
    merkle.update_leaves(updates_of(&[(0, "lol"), (1, "ha"), (2, "bla")]));
    // three leaves, then parents 1 and 2, then the root
    assert_eq!(merkle.hasher.get_num_computations(), 6);
    assert_eq!(merkle.num_leaves(), 3);
    merkle.update_leaves(updates_of(&[(2, "la")]));
    // one leaf, its parent 2 and the root
    assert_eq!(merkle.hasher.get_num_computations(), 9);
}

#[test]
fn incremental_recompute_counts_arity() {
    let mut hasher = IncrementalHasher::new(4, false);
    let parent = IncrementalHasher::empty_digest();
    let olds: Vec<MerkleppHashValue> = (0..4).map(|_| IncrementalHasher::empty_digest()).collect();
    let a = hasher.hash_leaf_data(0, "a".to_string());
    let b = hasher.hash_leaf_data(1, "b".to_string());
    let c = hasher.hash_leaf_data(3, "c".to_string());
    let _ = hasher.hash_nodes(parent, olds.clone(), &vec![(3, c), (0, a), (1, b)]);
    assert_eq!(hasher.get_num_computations(), 4);
    let _ = hasher.hash_nodes(parent, olds, &vec![(1, b)]);
    assert_eq!(hasher.get_num_computations(), 6);
}

#[test]
fn preprocess_splits_at_the_last_level() {
    // arity 3, 10 leaves: 5 internal nodes, leaves 0..7 at positions 5..12 on the second-to-last
    // level, leaves 8 and 9 at positions 13 and 14 below node 4
    let mut merkle = new_merkle_crhf_from_leaves::<Sha3HashFunc>(3, 10);
    let queue = merkle.preprocess_leaves(updates_of(&[(0, "a")]));
    let positions: Vec<usize> = queue.iter().map(|e| e.0 .0).collect();
    assert_eq!(positions, vec![5]);

    let mut merkle = new_merkle_crhf_from_leaves::<Sha3HashFunc>(3, 10);
    let queue = merkle.preprocess_leaves(updates_of(&[(0, "a"), (9, "b")]));
    let positions: Vec<usize> = queue.iter().map(|e| e.0 .0).collect();
    assert_eq!(positions, vec![4, 5]);
    merkle.update_preprocessed_leaves(queue);

    let mut direct = new_merkle_crhf_from_leaves::<Sha3HashFunc>(3, 10);
    direct.update_leaves(updates_of(&[(0, "a"), (9, "b")]));
    assert_eq!(root(&merkle), root(&direct));
}
