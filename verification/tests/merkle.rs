use merkle_commit::commit::generate_merkle_tree;
use merkle_commit::hash::leaf_hash;
use merkle_commit::hash::node_hash;
use merkle_commit::hash::LEAF_TAG;
use merkle_commit::hash::NODE_TAG;
use merkle_commit::leaf::generate_leaf_nodes;
use merkle_commit::leaf::hash_leaf;
use merkle_commit::leaf::receipt_leaf;
use merkle_commit::leaf::Receipt;
use merkle_commit::CommitError;
use merkle_commit::Commitment;
use merkle_commit::Digest;

fn ident(seed: &[u8]) -> Vec<u8> {
    solana_sdk::hash::hash(seed).to_bytes().to_vec()
}

fn leaf(seed: &[u8], status: u8) -> Digest {
    hash_leaf(&ident(seed), status)
}

#[test]
fn hash_leaf_matches_sha256() {
    let id = ident(b"a");
    let got = hash_leaf(&id, 1);
    let expected = solana_sdk::hash::hashv(&[&[LEAF_TAG], id.as_slice(), &[1u8]]).to_bytes();
    assert_eq!(got.bytes, expected);
}

#[test]
fn node_hash_matches_sha256() {
    let l = leaf(b"left", 0);
    let r = leaf(b"right", 1);
    let got = node_hash(&l, &r);
    let expected =
        solana_sdk::hash::hashv(&[&[NODE_TAG], &l.bytes, &r.bytes]).to_bytes();
    assert_eq!(got.bytes, expected);
    assert_ne!(got, node_hash(&r, &l));
}

#[test]
fn leaf_hash_field_order_is_canonical() {
    let a = b"first".to_vec();
    let b = b"second".to_vec();
    let fields = vec![a.clone(), b.clone()];
    let swapped = vec![b.clone(), a.clone()];
    let got = leaf_hash(&fields);
    let expected =
        solana_sdk::hash::hashv(&[&[LEAF_TAG], a.as_slice(), b.as_slice()]).to_bytes();
    assert_eq!(got.bytes, expected);
    assert_ne!(got, leaf_hash(&swapped));
}

#[test]
fn determinism_same_sequence_same_root() {
    let leaves: Vec<Digest> = (0u8..13).map(|k| leaf(&[k], k % 2)).collect();
    let (_, root1) = generate_merkle_tree(&leaves).unwrap();
    let (_, root2) = generate_merkle_tree(&leaves).unwrap();
    assert_eq!(root1, root2);

    let mut c = Commitment::new(13);
    for l in &leaves {
        c.append(l).unwrap();
    }
    let root3 = c.finalize().unwrap();
    assert_eq!(root1, root3);
    // Finalize does not consume the state: asking again gives the same root.
    assert_eq!(c.finalize().unwrap(), root3);
}

#[test]
fn order_sensitivity() {
    let a = leaf(b"a", 1);
    let b = leaf(b"b", 0);
    let (_, root_ab) = generate_merkle_tree(&vec![a, b]).unwrap();
    let (_, root_ba) = generate_merkle_tree(&vec![b, a]).unwrap();
    assert_ne!(root_ab, root_ba);
}

#[test]
fn domain_separation_sampled() {
    // Leaf digests and node digests over a sample of inputs never collide:
    // their preimages start with different domain tags.
    let mut leaves: Vec<Digest> = Vec::new();
    for k in 0u8..16 {
        leaves.push(leaf(&[k, k + 1], k % 2));
        leaves.push(hash_leaf(&vec![k], 1));
    }
    let mut nodes: Vec<Digest> = Vec::new();
    for i in 0..leaves.len() {
        for j in 0..4 {
            nodes.push(node_hash(&leaves[i], &leaves[(i + j) % leaves.len()]));
        }
    }
    for n in &nodes {
        for l in &leaves {
            assert_ne!(n, l);
        }
    }
}

#[test]
fn single_leaf_identity() {
    let d = leaf(b"only", 1);
    let mut c = Commitment::new(1);
    c.append(&d).unwrap();
    let root = c.finalize().unwrap();
    assert_eq!(root, d);
}

#[test]
fn power_of_two_collapse() {
    for count in [1usize, 2, 4, 8, 16, 32] {
        let leaves: Vec<Digest> = (0..count).map(|k| leaf(&[k as u8], 0)).collect();
        let mut c = Commitment::new(count as u64);
        for l in &leaves {
            c.append(l).unwrap();
        }
        let occupied = c.occupied_slots();
        assert_eq!(occupied.len(), 1);
        let root = c.finalize().unwrap();
        assert_eq!(occupied[0], root);
    }
    // A non-power-of-two count leaves more than one slot occupied.
    let leaves: Vec<Digest> = (0..3u8).map(|k| leaf(&[k], 0)).collect();
    let (c, _) = generate_merkle_tree(&leaves).unwrap();
    assert_eq!(c.occupied_slots().len(), 2);
}

#[test]
fn capacity_exceeded() {
    let a = leaf(b"a", 0);
    let b = leaf(b"b", 1);
    let c_leaf = leaf(b"c", 0);
    let mut c = Commitment::new(2);
    assert_eq!(c.capacity(), 2);
    c.append(&a).unwrap();
    c.append(&b).unwrap();
    let err = c.append(&c_leaf).unwrap_err();
    assert_eq!(err, CommitError::CapacityExceeded);
    // The failed append left the commitment untouched.
    assert_eq!(c.leaf_count(), 2);
    let root = c.finalize().unwrap();
    assert_eq!(root, node_hash(&a, &b));
}

#[test]
fn empty_commitment() {
    let c = Commitment::new(8);
    assert_eq!(c.leaf_count(), 0);
    let err = c.finalize().unwrap_err();
    assert_eq!(err, CommitError::EmptyCommitment);
    let err2 = match generate_merkle_tree(&Vec::new()) {
        Ok(_) => panic!("an empty input must not commit"),
        Err(e) => e,
    };
    assert_eq!(err2, CommitError::EmptyCommitment);
}

#[test]
fn three_leaf_scenario() {
    // Leaves built from hash("a") with status 1, hash("b") with status 0,
    // hash("c") with status 1.  With three leaves the pending slots hold the
    // pair subtree over the first two and the lone third leaf; the fold
    // starts at the lowest occupied level, so the root is
    // node_hash(leaf_c, node_hash(leaf_a, leaf_b)).
    let la = leaf(b"a", 1);
    let lb = leaf(b"b", 0);
    let lc = leaf(b"c", 1);
    let (_, root) = generate_merkle_tree(&vec![la, lb, lc]).unwrap();
    let expected = node_hash(&lc, &node_hash(&la, &lb));
    assert_eq!(root, expected);
}

#[test]
fn five_leaf_fold_order() {
    let leaves: Vec<Digest> = (0..5u8).map(|k| leaf(&[k], k % 2)).collect();
    let (_, root) = generate_merkle_tree(&leaves).unwrap();
    let n01 = node_hash(&leaves[0], &leaves[1]);
    let n23 = node_hash(&leaves[2], &leaves[3]);
    let top = node_hash(&n01, &n23);
    let expected = node_hash(&leaves[4], &top);
    assert_eq!(root, expected);
}

#[test]
fn generate_leaf_nodes_matches_hash_leaf() {
    let data: Vec<(Vec<u8>, u8)> = vec![
        (b"x".to_vec(), 0),
        (b"y".to_vec(), 1),
        (Vec::new(), 1),
        (b"a longer identifier".to_vec(), 0),
    ];
    let leaves = generate_leaf_nodes(&data);
    assert_eq!(leaves.len(), data.len());
    for (i, (id, status)) in data.iter().enumerate() {
        assert_eq!(leaves[i], hash_leaf(id, *status));
    }
}

#[test]
fn receipt_leaf_matches_hash_leaf() {
    let sig = Digest { bytes: solana_sdk::hash::hash(b"receipt").to_bytes() };
    let r = Receipt { signature: sig, status: 1 };
    let d = receipt_leaf(&r);
    assert_eq!(d, hash_leaf(&sig.bytes.to_vec(), 1));
}
