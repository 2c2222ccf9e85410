use merkle_tree::merkle::{BlockHash, BuildError, MerkleTree, Tree, BLOCK_SIZE};

/// The Tiger digest of some bytes, computed with the hash crate itself.
fn tiger_digest(bytes: &[u8]) -> Vec<u8> {
    let out = <tiger::Tiger as tiger::Digest>::digest(bytes);
    out.as_slice().to_vec()
}

/// A block zero-padded to full size.
fn padded(bytes: &[u8]) -> Vec<u8> {
    let mut block = bytes.to_vec();
    while block.len() < BLOCK_SIZE {
        block.push(0);
    }
    block
}

fn leaf_count(t: &Tree) -> usize {
    match t {
        Tree::Leaf { .. } => 1,
        Tree::Node { left, right, .. } => {
            let l = left.as_ref().map(|c| leaf_count(c)).unwrap_or(0);
            let r = right.as_ref().map(|c| leaf_count(c)).unwrap_or(0);
            l + r
        }
    }
}

#[test]
fn it_can_be_build_from_scratch() {
    let tree = MerkleTree::from_bytes(b"tototiti").unwrap();
    assert!(tree.is_consistent());
}

#[test]
fn it_can_be_expanded_in_steps() {
    let _tree = MerkleTree::new([0; 24]);
}

#[test]
fn empty_input_is_rejected() {
    let r = MerkleTree::from_bytes(b"");
    assert!(matches!(r, Err(BuildError::InputEmpty)));
}

#[test]
fn single_block_is_single_leaf() {
    let tree = MerkleTree::from_bytes(b"abc").unwrap();
    assert!(tree.is_consistent());
    match tree.root() {
        Tree::Leaf {
            data: Some(data),
            digest,
        } => {
            assert_eq!(data, &padded(b"abc"));
            assert_eq!(digest.0, tiger_digest(&padded(b"abc")));
        }
        _ => panic!("expected a single leaf"),
    }
    assert_eq!(leaf_count(tree.root()), 1);
    assert_eq!(tree.root_digest().0, tiger_digest(&padded(b"abc")));
}

#[test]
fn builds_are_deterministic() {
    let input = vec![42u8; 5000];
    let t1 = MerkleTree::from_bytes(&input).unwrap();
    let t2 = MerkleTree::from_bytes(&input).unwrap();
    assert_eq!(t1.root_digest(), t2.root_digest());
}

#[test]
fn multi_block_build_is_consistent() {
    let mut input = Vec::new();
    for i in 0..3000usize {
        input.push((i % 251) as u8);
    }
    let tree = MerkleTree::from_bytes(&input).unwrap();
    assert!(tree.is_consistent());
}

#[test]
fn odd_block_count_tie_break() {
    // Exactly two full blocks and one extra byte: three leaves, and the
    // root digest is Agg(Agg(h1, h2), Agg(h3, empty)).
    let mut input = vec![7u8; 2 * BLOCK_SIZE];
    input.push(9);
    let tree = MerkleTree::from_bytes(&input).unwrap();
    assert!(tree.is_consistent());
    assert_eq!(leaf_count(tree.root()), 3);

    let h1 = tiger_digest(&input[..BLOCK_SIZE]);
    let h2 = tiger_digest(&input[BLOCK_SIZE..2 * BLOCK_SIZE]);
    let h3 = tiger_digest(&padded(&[9]));
    let p12 = tiger_digest(&[h1.clone(), h2.clone()].concat());
    // The missing sibling contributes an empty byte sequence.
    let p3 = tiger_digest(&[h3.clone(), Vec::new()].concat());
    let root = tiger_digest(&[p12.clone(), p3.clone()].concat());
    assert_eq!(tree.root_digest().0, root);

    match tree.root() {
        Tree::Node {
            left: Some(l),
            right: Some(r),
            digest,
        } => {
            assert_eq!(digest.0, root);
            match (l.as_ref(), r.as_ref()) {
                (
                    Tree::Node {
                        left: Some(l1),
                        right: Some(l2),
                        digest: d12,
                    },
                    Tree::Node {
                        left: Some(l3),
                        right: None,
                        digest: d3,
                    },
                ) => {
                    assert_eq!(d12.0, p12);
                    assert_eq!(d3.0, p3);
                    assert_eq!(l1.digest().0, h1);
                    assert_eq!(l2.digest().0, h2);
                    assert_eq!(l3.digest().0, h3);
                }
                _ => panic!("expected (two-child node, one-child node)"),
            }
        }
        _ => panic!("expected a two-child root"),
    }
}

fn two_leaf_tree(root_digest: Vec<u8>) -> Tree {
    let l1 = Tree::Leaf {
        data: Some(b"toto".to_vec()),
        digest: BlockHash(tiger_digest(b"toto")),
    };
    let l2 = Tree::Leaf {
        data: Some(b"titi".to_vec()),
        digest: BlockHash(tiger_digest(b"titi")),
    };
    Tree::Node {
        left: Some(Box::new(l1)),
        right: Some(Box::new(l2)),
        digest: BlockHash(root_digest),
    }
}

#[test]
fn two_leaf_scenario() {
    // Leaves "toto" and "titi": root = Agg(H("toto"), H("titi")).
    let root = tiger_digest(&[tiger_digest(b"toto"), tiger_digest(b"titi")].concat());
    let tree = two_leaf_tree(root.clone());
    assert!(tree.is_consistent());

    // Flipping one byte of the stored root digest breaks consistency.
    let mut flipped = root;
    flipped[0] ^= 1;
    let bad = two_leaf_tree(flipped);
    assert!(!bad.is_consistent());
}

#[test]
fn mutated_leaf_content_is_detected() {
    let root = tiger_digest(&[tiger_digest(b"toto"), tiger_digest(b"titi")].concat());
    let l1 = Tree::Leaf {
        // One content byte changed, stored digests all kept.
        data: Some(b"tote".to_vec()),
        digest: BlockHash(tiger_digest(b"toto")),
    };
    let l2 = Tree::Leaf {
        data: Some(b"titi".to_vec()),
        digest: BlockHash(tiger_digest(b"titi")),
    };
    let tree = Tree::Node {
        left: Some(Box::new(l1)),
        right: Some(Box::new(l2)),
        digest: BlockHash(root),
    };
    assert!(!tree.is_consistent());
}

#[test]
fn mutated_leaf_digest_is_detected() {
    let root = tiger_digest(&[tiger_digest(b"toto"), tiger_digest(b"titi")].concat());
    let mut d1 = tiger_digest(b"toto");
    d1[5] ^= 0x80;
    let l1 = Tree::Leaf {
        data: Some(b"toto".to_vec()),
        digest: BlockHash(d1),
    };
    let l2 = Tree::Leaf {
        data: Some(b"titi".to_vec()),
        digest: BlockHash(tiger_digest(b"titi")),
    };
    let tree = Tree::Node {
        left: Some(Box::new(l1)),
        right: Some(Box::new(l2)),
        digest: BlockHash(root),
    };
    assert!(!tree.is_consistent());
}

#[test]
fn cleared_leaf_content_is_detected() {
    let root = tiger_digest(&[tiger_digest(b"toto"), tiger_digest(b"titi")].concat());
    let l1 = Tree::Leaf {
        // Content cleared, digest retained.
        data: None,
        digest: BlockHash(tiger_digest(b"toto")),
    };
    let l2 = Tree::Leaf {
        data: Some(b"titi".to_vec()),
        digest: BlockHash(tiger_digest(b"titi")),
    };
    let tree = Tree::Node {
        left: Some(Box::new(l1)),
        right: Some(Box::new(l2)),
        digest: BlockHash(root),
    };
    assert!(!tree.is_consistent());
}

#[test]
fn known_root_digest_alone() {
    let tree = MerkleTree::new([5; 24]);
    assert_eq!(tree.root_digest().0, vec![5u8; 24]);
    // A bare expected root has no children to recompute from.
    assert!(!tree.is_consistent());
}

#[test]
fn hashed_matches_the_hash_crate() {
    assert_eq!(BlockHash::hashed(b"toto").0, tiger_digest(b"toto"));
    assert_eq!(BlockHash::hashed(b"toto").0.len(), 24);
    assert_ne!(BlockHash::hashed(b"toto").0, b"toto".to_vec());
}
