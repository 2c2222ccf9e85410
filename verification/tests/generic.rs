use merkle_tree::hash_tree::{leaf, node, HashTree};
use merkle_tree::merkle::{BlockHash, TigerAggregator};

/// The Tiger digest of some bytes, computed with the hash crate itself.
fn tiger_digest(bytes: &[u8]) -> Vec<u8> {
    let out = <tiger::Tiger as tiger::Digest>::digest(bytes);
    out.as_slice().to_vec()
}

fn aggregate(digests: &[&[u8]]) -> Vec<u8> {
    tiger_digest(&digests.concat())
}

#[test]
fn generic_leaf_is_trusted() {
    let t = leaf(BlockHash(tiger_digest(b"anything")));
    assert!(t.is_consistent(&TigerAggregator));
}

#[test]
fn generic_two_children_consistent() {
    let d1 = tiger_digest(b"a");
    let d2 = tiger_digest(b"b");
    let parent = aggregate(&[&d1, &d2]);
    let t = node(
        vec![
            Box::new(leaf(BlockHash(d1))),
            Box::new(leaf(BlockHash(d2))),
        ],
        BlockHash(parent),
    );
    assert!(t.is_consistent(&TigerAggregator));
    assert_eq!(t.stored_digest().0, aggregate(&[&tiger_digest(b"a"), &tiger_digest(b"b")]));
}

#[test]
fn generic_wrong_parent_digest() {
    let d1 = tiger_digest(b"a");
    let d2 = tiger_digest(b"b");
    let mut parent = aggregate(&[&d1, &d2]);
    parent[3] ^= 1;
    let t = node(
        vec![
            Box::new(leaf(BlockHash(d1))),
            Box::new(leaf(BlockHash(d2))),
        ],
        BlockHash(parent),
    );
    assert!(!t.is_consistent(&TigerAggregator));
}

#[test]
fn generic_childless_node_inconsistent() {
    // Whatever the stored digest, an internal node without children is
    // treated as fabricated.
    let t = node(Vec::new(), BlockHash(tiger_digest(b"")));
    assert!(!t.is_consistent(&TigerAggregator));
}

#[test]
fn generic_order_matters() {
    let d1 = tiger_digest(b"a");
    let d2 = tiger_digest(b"b");
    let parent_swapped = aggregate(&[&d2, &d1]);
    let t = node(
        vec![
            Box::new(leaf(BlockHash(d1))),
            Box::new(leaf(BlockHash(d2))),
        ],
        BlockHash(parent_swapped),
    );
    assert!(!t.is_consistent(&TigerAggregator));
}

#[test]
fn generic_nested_levels() {
    let d1 = tiger_digest(b"a");
    let d2 = tiger_digest(b"b");
    let d3 = tiger_digest(b"c");
    let p12 = aggregate(&[&d1, &d2]);
    let p3 = aggregate(&[&d3]);
    let root = aggregate(&[&p12, &p3]);
    let n12: HashTree<(), BlockHash> = node(
        vec![
            Box::new(leaf(BlockHash(d1))),
            Box::new(leaf(BlockHash(d2))),
        ],
        BlockHash(p12),
    );
    let n3 = node(vec![Box::new(leaf(BlockHash(d3)))], BlockHash(p3));
    let t = node(vec![Box::new(n12), Box::new(n3)], BlockHash(root));
    assert!(t.is_consistent(&TigerAggregator));

    // A deep mutation is noticed at the top.
    let d1 = tiger_digest(b"a");
    let d2 = tiger_digest(b"b");
    let mut d3 = tiger_digest(b"c");
    let p12 = aggregate(&[&d1, &d2]);
    let p3 = aggregate(&[&d3]);
    let root = aggregate(&[&p12, &p3]);
    d3[0] ^= 1;
    let n12: HashTree<(), BlockHash> = node(
        vec![
            Box::new(leaf(BlockHash(d1))),
            Box::new(leaf(BlockHash(d2))),
        ],
        BlockHash(p12),
    );
    let n3 = node(vec![Box::new(leaf(BlockHash(d3)))], BlockHash(p3));
    let t = node(vec![Box::new(n12), Box::new(n3)], BlockHash(root));
    assert!(!t.is_consistent(&TigerAggregator));
}
