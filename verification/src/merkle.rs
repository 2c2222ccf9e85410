//! The binary Merkle tree over Tiger digests.
//!
//! [`MerkleTree::from_bytes`] cuts the input into blocks of [`BLOCK_SIZE`]
//! bytes (the last block zero-padded), hashes one leaf per block, and reduces
//! the nodes pairwise, bottom up, until a single root remains.  A level with
//! an odd trailing node gives that node a parent whose digest is the hash of
//! the child digest alone, the missing sibling contributing an empty byte
//! sequence; the fixed tie-break keeps the construction reproducible.
//!
//! [`Tree::is_consistent`] recomputes every stored digest from its subtree
//! and compares; it never panics, so it is safe to run on untrusted trees.
//! A leaf whose content is absent is inconsistent, as is an internal node
//! without a left child.  The mathematical model of a tree is [`SpecTree`];
//! every contract speaks of it.

use vstd::prelude::*;

use crate::hashing::bytes_eq;
pub use crate::hashing::tiger_of;

verus! {

/// Number of bytes per content block.
pub const BLOCK_SIZE: usize = 1024;

/// The mathematical model of a binary hash tree: digests and contents as
/// plain byte sequences.
#[verifier::ext_equal]
pub enum SpecTree {
    /// An internal node: up to two children and the stored digest.
    Node { left: Option<Box<SpecTree>>, right: Option<Box<SpecTree>>, digest: Seq<u8> },
    /// A leaf: optional block content and the stored digest.
    Leaf { data: Option<Seq<u8>>, digest: Seq<u8> },
}

impl SpecTree {
    /// The digest stored at the root of this tree.
    pub open spec fn digest(self) -> Seq<u8> {
        match self {
            SpecTree::Node { digest, .. } => digest,
            SpecTree::Leaf { digest, .. } => digest,
        }
    }

    /// The byte sequence an internal node aggregates: the left child's
    /// digest followed by the right child's, a missing child contributing
    /// an empty sequence.
    pub open spec fn child_digests(left: Option<Box<SpecTree>>, right: Option<Box<SpecTree>>) -> Seq<u8> {
        (match left {
            Some(l) => l.digest(),
            None => Seq::empty(),
        }) + (match right {
            Some(r) => r.digest(),
            None => Seq::empty(),
        })
    }

    /// Every stored digest is reproducible from its subtree: a leaf's digest
    /// is the hash of its (present) content, an internal node's digest is the
    /// hash of its children's digests in order, and the children are in turn
    /// consistent.  A leaf without content is inconsistent, and so is an
    /// internal node without a left child.
    pub open spec fn consistent(self) -> bool
        decreases self,
    {
        match self {
            SpecTree::Leaf { data, digest } => {
                &&& data is Some
                &&& digest == tiger_of(data->0)
            },
            SpecTree::Node { left, right, digest } => {
                &&& left is Some
                &&& digest == tiger_of(SpecTree::child_digests(left, right))
                &&& left->0.consistent()
                &&& (right is Some ==> right->0.consistent())
            },
        }
    }
}

/// A Tiger digest: 24 bytes when produced by hashing, though a tree received
/// from elsewhere may store a digest of any length.
#[derive(Debug, PartialEq, Eq)]
pub struct BlockHash(pub Vec<u8>);

impl View for BlockHash {
    type V = Seq<u8>;

    open spec fn view(&self) -> Seq<u8> {
        self.0@
    }
}

impl BlockHash {
    /// The Tiger digest of the given bytes.
    pub fn hashed(bytes: &[u8]) -> (r: BlockHash)
        ensures
            r@ == tiger_of(bytes@),
            r@.len() == 24,
    {
        BlockHash(crate::hashing::tiger_hash(bytes))
    }
}

impl crate::hash_tree::Digest for BlockHash {
    fn eq_digest(&self, other: &Self) -> (r: bool) {
        bytes_eq(&self.0, &other.0)
    }

    fn clone_digest(&self) -> (r: Self) {
        let mut bytes: Vec<u8> = Vec::new();
        append_bytes(&mut bytes, &self.0);
        proof {
            assert(Seq::<u8>::empty() + self.0@ =~= self.0@);
        }
        BlockHash(bytes)
    }
}

/// The aggregate function of the binary layer, offered to the generic layer
/// as well: a parent digest is the Tiger hash of the child digests
/// concatenated in order.
pub struct TigerAggregator;

impl crate::hash_tree::AggregateHasher<BlockHash> for TigerAggregator {
    open spec fn spec_aggregate(&self, digests: Seq<Seq<u8>>) -> Seq<u8> {
        tiger_of(digests.flatten())
    }

    fn aggregate_hash(&self, digests: &Vec<BlockHash>) -> (r: BlockHash) {
        let ghost dv = crate::hash_tree::digest_views(digests@);
        let mut cat: Vec<u8> = Vec::new();
        let mut k: usize = 0;
        proof {
            assert(cat@ =~= dv.take(0).flatten());
        }
        while k < digests.len()
            invariant
                k <= digests@.len(),
                dv == crate::hash_tree::digest_views(digests@),
                cat@ == dv.take(k as int).flatten(),
            decreases digests@.len() - k,
        {
            append_bytes(&mut cat, &digests[k].0);
            proof {
                assert(dv.take(k + 1) =~= dv.take(k as int).push(dv[k as int]));
                dv.take(k as int).lemma_flatten_push(dv[k as int]);
            }
            k += 1;
        }
        proof {
            assert(dv.take(digests@.len() as int) =~= dv);
        }
        BlockHash::hashed(cat.as_slice())
    }
}

/// A binary hash tree node.  Its model is [`SpecTree`], reached by `@`.
#[derive(Debug)]
pub enum Tree {
    /// An internal node: up to two exclusively owned children and a digest.
    Node { left: Option<Box<Tree>>, right: Option<Box<Tree>>, digest: BlockHash },
    /// A leaf: optional block content and a digest.
    Leaf { data: Option<Vec<u8>>, digest: BlockHash },
}

/// The model of an executable tree.
pub open spec fn view_of(t: Tree) -> SpecTree
    decreases t,
{
    match t {
        Tree::Node { left, right, digest } => SpecTree::Node {
            left: match left {
                Some(l) => Some(Box::new(view_of(*l))),
                None => None,
            },
            right: match right {
                Some(r) => Some(Box::new(view_of(*r))),
                None => None,
            },
            digest: digest@,
        },
        Tree::Leaf { data, digest } => SpecTree::Leaf {
            data: match data {
                Some(d) => Some(d@),
                None => None,
            },
            digest: digest@,
        },
    }
}

impl View for Tree {
    type V = SpecTree;

    open spec fn view(&self) -> SpecTree {
        view_of(*self)
    }
}

impl Tree {
    /// The digest stored at the root of this tree.
    pub fn digest(&self) -> (r: &BlockHash)
        ensures
            r@ == self@.digest(),
    {
        match self {
            Tree::Node { digest, .. } => digest,
            Tree::Leaf { digest, .. } => digest,
        }
    }

    /// Decide whether every stored digest in this tree is reproducible from
    /// its subtree; see [`SpecTree::consistent`] for the exact meaning.
    pub fn is_consistent(&self) -> (r: bool)
        ensures
            r == self@.consistent(),
        decreases *self,
    {
        match self {
            Tree::Node { left: Some(left), right, digest } => {
                let mut cat: Vec<u8> = Vec::new();
                append_bytes(&mut cat, &left.digest().0);
                match right {
                    Some(r) => { append_bytes(&mut cat, &r.digest().0); },
                    None => {},
                }
                proof {
                    assert(cat@ =~= SpecTree::child_digests(self@->Node_left, self@->Node_right));
                }
                let computed = BlockHash::hashed(cat.as_slice());
                if !bytes_eq(&digest.0, &computed.0) {
                    return false;
                }
                if !left.is_consistent() {
                    return false;
                }
                match right {
                    Some(r) => r.is_consistent(),
                    None => true,
                }
            },
            Tree::Node { left: None, .. } => false,
            Tree::Leaf { data: Some(data), digest } => {
                let computed = BlockHash::hashed(data.as_slice());
                bytes_eq(&digest.0, &computed.0)
            },
            Tree::Leaf { data: None, .. } => false,
        }
    }
}

/// A sequence of `n` zero bytes.
pub open spec fn zeros(n: nat) -> Seq<u8> {
    Seq::new(n, |k: int| 0u8)
}

/// A block zero-padded to [`BLOCK_SIZE`] bytes; a block already that long
/// is kept as it is.
pub open spec fn pad_block(b: Seq<u8>) -> Seq<u8> {
    if b.len() >= BLOCK_SIZE {
        b
    } else {
        b + zeros((BLOCK_SIZE - b.len()) as nat)
    }
}

/// The input cut into [`BLOCK_SIZE`]-byte blocks, the final (possibly short)
/// block zero-padded to full size.  Every input, even an empty one, yields at
/// least one block.
pub open spec fn spec_blocks(bytes: Seq<u8>) -> Seq<Seq<u8>>
    decreases bytes.len(),
{
    if bytes.len() <= BLOCK_SIZE {
        seq![pad_block(bytes)]
    } else {
        seq![bytes.take(BLOCK_SIZE as int)] + spec_blocks(bytes.skip(BLOCK_SIZE as int))
    }
}

/// The leaf a block becomes: content stored, digest the hash of the content.
pub open spec fn leaf_of_block(b: Seq<u8>) -> SpecTree {
    SpecTree::Leaf { data: Some(b), digest: tiger_of(b) }
}

/// One leaf per block of the input, in order.
pub open spec fn spec_leaves(bytes: Seq<u8>) -> Seq<SpecTree> {
    spec_blocks(bytes).map_values(|b: Seq<u8>| leaf_of_block(b))
}

/// The parent of one or two adjacent nodes: its digest is the hash of the
/// left child's digest followed by the right child's, a missing right
/// sibling contributing an empty byte sequence (the odd-node tie-break).
pub open spec fn pair_node(l: SpecTree, r: Option<SpecTree>) -> SpecTree {
    SpecTree::Node {
        left: Some(Box::new(l)),
        right: match r {
            Some(t) => Some(Box::new(t)),
            None => None,
        },
        digest: tiger_of(
            l.digest() + (match r {
                Some(t) => t.digest(),
                None => Seq::empty(),
            }),
        ),
    }
}

/// One level of the bottom-up reduction: nodes are grouped pairwise in
/// order, and an odd trailing node becomes the sole child of its parent.
pub open spec fn spec_level_up(ns: Seq<SpecTree>) -> Seq<SpecTree>
    decreases ns.len(),
{
    if ns.len() == 0 {
        Seq::empty()
    } else if ns.len() == 1 {
        seq![pair_node(ns[0], None)]
    } else {
        seq![pair_node(ns[0], Some(ns[1]))] + spec_level_up(ns.skip(2))
    }
}

/// One reduction level roughly halves the node count.
pub proof fn lemma_level_up_len(ns: Seq<SpecTree>)
    ensures
        spec_level_up(ns).len() == (ns.len() + 1) / 2,
    decreases ns.len(),
{
    if ns.len() >= 2 {
        lemma_level_up_len(ns.skip(2));
    }
}

/// The bottom-up reduction: reduce level by level until one node remains.
pub open spec fn spec_build_from(ns: Seq<SpecTree>) -> SpecTree
    decreases ns.len(),
        when ns.len() >= 1 via spec_build_from_decreases
{
    if ns.len() == 1 {
        ns[0]
    } else {
        spec_build_from(spec_level_up(ns))
    }
}

#[via_fn]
proof fn spec_build_from_decreases(ns: Seq<SpecTree>) {
    if ns.len() > 1 {
        lemma_level_up_len(ns);
    }
}

/// The tree built from the given input bytes: blocks, then leaves, then the
/// pairwise reduction to a single root.
pub open spec fn spec_build(bytes: Seq<u8>) -> SpecTree {
    spec_build_from(spec_leaves(bytes))
}

/// All nodes of a level are consistent.
pub open spec fn all_consistent(ns: Seq<SpecTree>) -> bool {
    forall|k: int| 0 <= k < ns.len() ==> (#[trigger] ns[k]).consistent()
}

/// Every leaf the builder makes is consistent: its digest is the hash of
/// its stored content.
proof fn lemma_leaves_consistent(bytes: Seq<u8>)
    ensures
        all_consistent(spec_leaves(bytes)),
{
    assert forall|k: int| 0 <= k < spec_leaves(bytes).len() implies (#[trigger] spec_leaves(
        bytes,
    )[k]).consistent() by {
        assert(spec_leaves(bytes)[k] == leaf_of_block(spec_blocks(bytes)[k]));
    }
}

/// One reduction level preserves consistency: each parent's digest is the
/// hash of its children's digests by construction.
proof fn lemma_level_up_consistent(ns: Seq<SpecTree>)
    requires
        all_consistent(ns),
    ensures
        all_consistent(spec_level_up(ns)),
    decreases ns.len(),
{
    if ns.len() == 0 {
    } else if ns.len() == 1 {
        assert(ns[0].consistent());
        assert(pair_node(ns[0], None).consistent());
    } else {
        assert(ns[0].consistent());
        assert(ns[1].consistent());
        assert(pair_node(ns[0], Some(ns[1])).consistent());
        assert(all_consistent(ns.skip(2)));
        lemma_level_up_consistent(ns.skip(2));
        assert forall|k: int|
            0 <= k < spec_level_up(ns).len() implies (#[trigger] spec_level_up(
            ns,
        )[k]).consistent() by {
            if k >= 1 {
                assert(spec_level_up(ns)[k] == spec_level_up(ns.skip(2))[k - 1]);
            }
        }
    }
}

/// Reducing a level of consistent nodes to a single root keeps consistency.
proof fn lemma_build_from_consistent(ns: Seq<SpecTree>)
    requires
        ns.len() >= 1,
        all_consistent(ns),
    ensures
        spec_build_from(ns).consistent(),
    decreases ns.len(),
{
    if ns.len() == 1 {
        assert(ns[0].consistent());
    } else {
        lemma_level_up_len(ns);
        lemma_level_up_consistent(ns);
        lemma_build_from_consistent(spec_level_up(ns));
    }
}

/// Whatever the builder produces passes the consistency check: every stored
/// digest of a built tree is reproducible from its subtree.
pub proof fn lemma_build_consistent(bytes: Seq<u8>)
    requires
        bytes.len() > 0,
    ensures
        spec_build(bytes).consistent(),
{
    lemma_leaves_consistent(bytes);
    lemma_build_from_consistent(spec_leaves(bytes));
}

/// The subtree reached by following `path` from the root: `false` steps to
/// the left child, `true` to the right.  `None` where the path leaves the
/// tree.
pub open spec fn subtree_at(t: SpecTree, path: Seq<bool>) -> Option<SpecTree>
    decreases path.len(),
{
    if path.len() == 0 {
        Some(t)
    } else {
        match t {
            SpecTree::Node { left, right, .. } => {
                match if path[0] {
                    right
                } else {
                    left
                } {
                    Some(c) => subtree_at(*c, path.skip(1)),
                    None => None,
                }
            },
            SpecTree::Leaf { .. } => None,
        }
    }
}

/// The tree with the subtree at `path` replaced by `s`; where the path does
/// not exist, the tree unchanged.
pub open spec fn replace_at(t: SpecTree, path: Seq<bool>, s: SpecTree) -> SpecTree
    decreases path.len(),
{
    if path.len() == 0 {
        s
    } else {
        match t {
            SpecTree::Node { left, right, digest } => {
                if path[0] {
                    match right {
                        Some(c) => SpecTree::Node {
                            left,
                            right: Some(Box::new(replace_at(*c, path.skip(1), s))),
                            digest,
                        },
                        None => t,
                    }
                } else {
                    match left {
                        Some(c) => SpecTree::Node {
                            left: Some(Box::new(replace_at(*c, path.skip(1), s))),
                            right,
                            digest,
                        },
                        None => t,
                    }
                }
            },
            SpecTree::Leaf { .. } => t,
        }
    }
}

/// The tree with its root digest replaced by `d`, everything else kept.
pub open spec fn with_digest(t: SpecTree, d: Seq<u8>) -> SpecTree {
    match t {
        SpecTree::Node { left, right, .. } => SpecTree::Node { left, right, digest: d },
        SpecTree::Leaf { data, .. } => SpecTree::Leaf { data, digest: d },
    }
}

/// A leaf with its content replaced by `c`, the digest kept; an internal
/// node unchanged.
pub open spec fn with_content(t: SpecTree, c: Option<Seq<u8>>) -> SpecTree {
    match t {
        SpecTree::Leaf { digest, .. } => SpecTree::Leaf { data: c, digest },
        SpecTree::Node { .. } => t,
    }
}

/// Some leaf of the tree has no content.
pub open spec fn has_cleared_leaf(t: SpecTree) -> bool
    decreases t,
{
    match t {
        SpecTree::Leaf { data, .. } => data is None,
        SpecTree::Node { left, right, .. } => {
            ||| (left matches Some(l) && has_cleared_leaf(*l))
            ||| (right matches Some(r) && has_cleared_leaf(*r))
        },
    }
}

/// Changing the digest stored at the root of a consistent tree to any other
/// value makes it inconsistent: the recomputed digest is the old one.
pub proof fn lemma_root_digest_mutation(t: SpecTree, d: Seq<u8>)
    requires
        t.consistent(),
        d != t.digest(),
    ensures
        !with_digest(t, d).consistent(),
{
}

/// An inconsistent subtree put anywhere into a tree makes the whole tree
/// inconsistent: the check descends into every present child.
pub proof fn lemma_replace_with_inconsistent(t: SpecTree, path: Seq<bool>, s: SpecTree)
    requires
        subtree_at(t, path) is Some,
        !s.consistent(),
    ensures
        !replace_at(t, path, s).consistent(),
    decreases path.len(),
{
    if path.len() > 0 {
        match t {
            SpecTree::Node { left, right, .. } => {
                if path[0] {
                    lemma_replace_with_inconsistent(*right->0, path.skip(1), s);
                } else {
                    lemma_replace_with_inconsistent(*left->0, path.skip(1), s);
                }
            },
            SpecTree::Leaf { .. } => {},
        }
    }
}

/// Every subtree of a consistent tree is consistent.
pub proof fn lemma_subtree_consistent(t: SpecTree, path: Seq<bool>)
    requires
        t.consistent(),
        subtree_at(t, path) is Some,
    ensures
        subtree_at(t, path)->0.consistent(),
    decreases path.len(),
{
    if path.len() > 0 {
        match t {
            SpecTree::Node { left, right, .. } => {
                if path[0] {
                    lemma_subtree_consistent(*right->0, path.skip(1));
                } else {
                    lemma_subtree_consistent(*left->0, path.skip(1));
                }
            },
            SpecTree::Leaf { .. } => {},
        }
    }
}

/// Tampering with a stored digest is detected: replacing the digest stored
/// at any node of a consistent tree by a different value, without
/// recomputing, makes the tree inconsistent.
pub proof fn lemma_digest_mutation_detected(t: SpecTree, path: Seq<bool>, d: Seq<u8>)
    requires
        t.consistent(),
        subtree_at(t, path) is Some,
        d != subtree_at(t, path)->0.digest(),
    ensures
        !replace_at(t, path, with_digest(subtree_at(t, path)->0, d)).consistent(),
{
    lemma_subtree_consistent(t, path);
    lemma_root_digest_mutation(subtree_at(t, path)->0, d);
    lemma_replace_with_inconsistent(t, path, with_digest(subtree_at(t, path)->0, d));
}

/// Tampering with stored content is detected: replacing the content of any
/// leaf of a consistent tree by bytes whose hash differs from the stored
/// digest makes the tree inconsistent.  (Other bytes that Tiger maps to the
/// very same digest — a hash collision — are the one change this cannot
/// state.)
pub proof fn lemma_content_mutation_detected(t: SpecTree, path: Seq<bool>, c: Seq<u8>)
    requires
        t.consistent(),
        subtree_at(t, path) matches Some(l) && l is Leaf,
        tiger_of(c) != subtree_at(t, path)->0.digest(),
    ensures
        !replace_at(t, path, with_content(subtree_at(t, path)->0, Some(c))).consistent(),
{
    lemma_replace_with_inconsistent(t, path, with_content(subtree_at(t, path)->0, Some(c)));
}

/// A leaf with content cleared but digest retained is never consistent, nor
/// is any tree that contains one.
pub proof fn lemma_cleared_leaf_never_consistent(t: SpecTree)
    requires
        has_cleared_leaf(t),
    ensures
        !t.consistent(),
    decreases t,
{
    match t {
        SpecTree::Leaf { .. } => {},
        SpecTree::Node { left, right, .. } => {
            if left matches Some(l) && has_cleared_leaf(*l) {
                lemma_cleared_leaf_never_consistent(*left->0);
            } else if right matches Some(r) && has_cleared_leaf(*r) {
                lemma_cleared_leaf_never_consistent(*right->0);
            }
        },
    }
}

/// Clearing the content of any leaf is detected, whatever the rest of the
/// tree looks like.
pub proof fn lemma_cleared_leaf_detected(t: SpecTree, path: Seq<bool>)
    requires
        subtree_at(t, path) matches Some(l) && l is Leaf,
    ensures
        !replace_at(t, path, with_content(subtree_at(t, path)->0, None)).consistent(),
{
    lemma_replace_with_inconsistent(t, path, with_content(subtree_at(t, path)->0, None));
}

/// Determinism: equal inputs yield the identical tree, and hence the
/// identical root digest, on every build.
pub proof fn lemma_build_deterministic(b1: Seq<u8>, b2: Seq<u8>)
    requires
        b1 == b2,
    ensures
        spec_build(b1) == spec_build(b2),
        spec_build(b1).digest() == spec_build(b2).digest(),
{
}

/// An input of at most one block builds a tree that is exactly one leaf —
/// the zero-padded input with its digest — and no internal node.
pub proof fn lemma_single_block_is_leaf(bytes: Seq<u8>)
    requires
        0 < bytes.len() <= BLOCK_SIZE,
    ensures
        spec_build(bytes) == leaf_of_block(pad_block(bytes)),
        spec_build(bytes) is Leaf,
{
    assert(spec_leaves(bytes) =~= seq![leaf_of_block(pad_block(bytes))]);
}

/// An input of exactly two blocks and one byte more builds three leaves,
/// and the root follows the odd-node tie-break exactly:
/// the third leaf's parent aggregates its digest with an empty
/// contribution, and the root aggregates the two parents.
pub proof fn lemma_two_blocks_and_one(bytes: Seq<u8>)
    requires
        bytes.len() == 2 * BLOCK_SIZE + 1,
    ensures
        ({
            let l1 = leaf_of_block(bytes.take(BLOCK_SIZE as int));
            let l2 = leaf_of_block(bytes.skip(BLOCK_SIZE as int).take(BLOCK_SIZE as int));
            let l3 = leaf_of_block(pad_block(bytes.skip(2 * BLOCK_SIZE)));
            spec_build(bytes) == pair_node(pair_node(l1, Some(l2)), Some(pair_node(l3, None)))
        }),
{
    let l1 = leaf_of_block(bytes.take(BLOCK_SIZE as int));
    let l2 = leaf_of_block(bytes.skip(BLOCK_SIZE as int).take(BLOCK_SIZE as int));
    let l3 = leaf_of_block(pad_block(bytes.skip(2 * BLOCK_SIZE)));
    let s1 = bytes.skip(BLOCK_SIZE as int);
    let s2 = s1.skip(BLOCK_SIZE as int);
    assert(s2 =~= bytes.skip(2 * BLOCK_SIZE));
    assert(spec_blocks(s2) =~= seq![pad_block(s2)]);
    assert(spec_blocks(s1) =~= seq![s1.take(BLOCK_SIZE as int), pad_block(s2)]);
    assert(spec_blocks(bytes) =~= seq![
        bytes.take(BLOCK_SIZE as int),
        s1.take(BLOCK_SIZE as int),
        pad_block(s2),
    ]);
    let leaves = spec_leaves(bytes);
    assert(leaves =~= seq![l1, l2, l3]);
    assert(leaves.skip(2) =~= seq![l3]);
    assert(spec_level_up(seq![l3]) =~= seq![pair_node(l3, None)]);
    assert(spec_level_up(leaves) =~= seq![pair_node(l1, Some(l2)), pair_node(l3, None)]);
    let pairs = spec_level_up(leaves);
    assert(pairs.skip(2) =~= Seq::<SpecTree>::empty());
    assert(pairs[0] == pair_node(l1, Some(l2)));
    assert(pairs[1] == pair_node(l3, None));
    assert(spec_level_up(pairs.skip(2)) =~= Seq::<SpecTree>::empty());
    assert(spec_level_up(pairs) =~= seq![
        pair_node(pair_node(l1, Some(l2)), Some(pair_node(l3, None))),
    ]);
    assert(spec_build_from(leaves) == spec_build_from(pairs));
    assert(spec_build_from(pairs) == spec_build_from(spec_level_up(pairs)));
}

/// The one hard error of construction: building from zero input bytes.
#[derive(Debug, Clone, Copy, PartialEq, Eq, Structural)]
pub enum BuildError {
    /// The input byte sequence was empty.
    InputEmpty,
}

/// The models of a sequence of executable trees.
pub open spec fn views_of(ns: Seq<Tree>) -> Seq<SpecTree> {
    ns.map_values(|t: Tree| view_of(t))
}

/// A whole Merkle tree, as built from input bytes or from a known root
/// digest.
#[derive(Debug)]
pub struct MerkleTree(Tree);

impl View for MerkleTree {
    type V = SpecTree;

    closed spec fn view(&self) -> SpecTree {
        self.0@
    }
}

impl MerkleTree {
    /// A tree holding a known 24-byte root digest alone, with no children
    /// and no content: an expected or remote root kept for later comparison.
    /// Such a tree is never consistent; only its digest is of use.
    pub fn new(digest: [u8; 24]) -> (r: MerkleTree)
        ensures
            r@ == (SpecTree::Node { left: None, right: None, digest: digest@ }),
    {
        let mut bytes: Vec<u8> = Vec::new();
        let mut i: usize = 0;
        while i < 24
            invariant
                i <= 24,
                bytes@ == digest@.take(i as int),
        decreases 24 - i,
        {
            bytes.push(digest[i]);
            proof {
                assert(digest@.take(i + 1) =~= digest@.take(i as int).push(digest@[i as int]));
            }
            i += 1;
        }
        proof {
            assert(digest@.take(24) =~= digest@);
        }
        MerkleTree(Tree::Node { left: None, right: None, digest: BlockHash(bytes) })
    }

    /// Build the tree for the given bytes: one leaf per zero-padded block,
    /// then the pairwise bottom-up reduction with the odd-node tie-break.
    /// Fails exactly on empty input; the result is [`spec_build`] of the
    /// input, and it always passes the consistency check.
    pub fn from_bytes(bytes: &[u8]) -> (r: Result<MerkleTree, BuildError>)
        ensures
            r is Ok <==> bytes@.len() > 0,
            r matches Ok(t) ==> t@ == spec_build(bytes@),
            r matches Ok(t) ==> t@.consistent(),
    {
        if bytes.len() == 0 {
            return Err(BuildError::InputEmpty);
        }
        let mut nodes: Vec<Tree> = Vec::new();
        let mut i: usize = 0;
        proof {
            assert(bytes@.skip(0) =~= bytes@);
            assert(views_of(nodes@) + spec_leaves(bytes@) =~= spec_leaves(bytes@));
        }
        while i < bytes.len()
            invariant
                bytes@.len() > 0,
                bytes@.len() <= usize::MAX,
                i <= bytes@.len(),
                i > 0 ==> nodes@.len() >= 1,
                i < bytes@.len() ==> views_of(nodes@) + spec_leaves(bytes@.skip(i as int))
                    == spec_leaves(bytes@),
                i == bytes@.len() ==> views_of(nodes@) == spec_leaves(bytes@),
            decreases bytes@.len() - i,
        {
            let ghost rem = bytes@.skip(i as int);
            let remaining = bytes.len() - i;
            let blen = if remaining < BLOCK_SIZE {
                remaining
            } else {
                BLOCK_SIZE
            };
            let mut block: Vec<u8> = Vec::new();
            let mut j: usize = 0;
            while j < blen
                invariant
                    j <= blen,
                    i + blen <= bytes@.len(),
                    bytes@.len() <= usize::MAX,
                    block@ == bytes@.subrange(i as int, i + j),
                decreases blen - j,
            {
                block.push(bytes[i + j]);
                proof {
                    assert(bytes@.subrange(i as int, i + j + 1) =~= bytes@.subrange(
                        i as int,
                        i + j,
                    ).push(bytes@[i + j]));
                }
                j += 1;
            }
            proof {
                assert(block@ =~= bytes@.subrange(i as int, i + blen) + zeros(0));
            }
            while block.len() < BLOCK_SIZE
                invariant
                    i + blen <= bytes@.len(),
                    blen <= block@.len() <= BLOCK_SIZE,
                    block@ == bytes@.subrange(i as int, i + blen) + zeros(
                        (block@.len() - blen) as nat,
                    ),
                decreases BLOCK_SIZE - block@.len(),
            {
                proof {
                    assert(bytes@.subrange(i as int, i + blen) + zeros(
                        (block@.len() + 1 - blen) as nat,
                    ) =~= (bytes@.subrange(i as int, i + blen) + zeros(
                        (block@.len() - blen) as nat,
                    )).push(0u8));
                }
                block.push(0u8);
            }
            let digest = BlockHash::hashed(block.as_slice());
            proof {
                if remaining <= BLOCK_SIZE {
                    assert(rem =~= bytes@.subrange(i as int, i + blen));
                    assert(block@ =~= pad_block(rem));
                    assert(spec_leaves(rem) =~= seq![leaf_of_block(pad_block(rem))]);
                } else {
                    assert(rem.take(BLOCK_SIZE as int) =~= bytes@.subrange(i as int, i + blen));
                    assert(block@ =~= rem.take(BLOCK_SIZE as int));
                    assert(spec_leaves(rem) =~= seq![leaf_of_block(rem.take(BLOCK_SIZE as int))]
                        + spec_leaves(rem.skip(BLOCK_SIZE as int)));
                    assert(rem.skip(BLOCK_SIZE as int) =~= bytes@.skip(i + BLOCK_SIZE));
                }
            }
            let leaf = Tree::Leaf { data: Some(block), digest };
            proof {
                assert(views_of(nodes@.push(leaf)) =~= views_of(nodes@).push(view_of(leaf)));
                if remaining <= BLOCK_SIZE {
                    assert(views_of(nodes@).push(view_of(leaf)) =~= views_of(nodes@)
                        + spec_leaves(rem));
                } else {
                    assert((views_of(nodes@).push(view_of(leaf))) + spec_leaves(
                        bytes@.skip(i + BLOCK_SIZE),
                    ) =~= views_of(nodes@) + spec_leaves(rem));
                }
            }
            nodes.push(leaf);
            i = i + blen;
        }
        while nodes.len() > 1
            invariant
                nodes@.len() >= 1,
                spec_build_from(views_of(nodes@)) == spec_build(bytes@),
            decreases nodes@.len(),
        {
            let ghost prev = views_of(nodes@);
            let ghost prev_len = nodes@.len();
            let mut next: Vec<Tree> = Vec::new();
            while nodes.len() > 0
                invariant
                    views_of(next@) + spec_level_up(views_of(nodes@)) == spec_level_up(prev),
                decreases nodes@.len(),
            {
                let ghost cur = views_of(nodes@);
                let a = nodes.remove(0);
                let ghost after_a = nodes@;
                let b = if nodes.len() > 0 {
                    Some(nodes.remove(0))
                } else {
                    None
                };
                proof {
                    assert(views_of(after_a) =~= cur.skip(1));
                    if cur.len() >= 2 {
                        assert(views_of(nodes@) =~= cur.skip(2));
                    }
                }
                let mut cat: Vec<u8> = Vec::new();
                append_bytes(&mut cat, &a.digest().0);
                match &b {
                    Some(t) => { append_bytes(&mut cat, &t.digest().0); },
                    None => {},
                }
                let node = Tree::Node {
                    left: Some(Box::new(a)),
                    right: match b {
                        Some(t) => Some(Box::new(t)),
                        None => None,
                    },
                    digest: BlockHash::hashed(cat.as_slice()),
                };
                proof {
                    if cur.len() == 1 {
                        assert(cat@ =~= cur[0].digest() + Seq::<u8>::empty());
                        assert(view_of(node) == pair_node(cur[0], None));
                        assert(views_of(next@.push(node)) =~= views_of(next@).push(
                            view_of(node),
                        ));
                        assert(views_of(next@).push(view_of(node)) + spec_level_up(
                            views_of(nodes@),
                        ) =~= views_of(next@) + spec_level_up(cur));
                    } else {
                        assert(cat@ =~= cur[0].digest() + cur[1].digest());
                        assert(view_of(node) == pair_node(cur[0], Some(cur[1])));
                        assert(spec_level_up(cur) == seq![pair_node(cur[0], Some(cur[1]))]
                            + spec_level_up(cur.skip(2)));
                        assert(views_of(next@.push(node)) =~= views_of(next@).push(
                            view_of(node),
                        ));
                        assert(views_of(next@).push(view_of(node)) + spec_level_up(
                            views_of(nodes@),
                        ) =~= views_of(next@) + spec_level_up(cur));
                    }
                }
                next.push(node);
            }
            proof {
                assert(views_of(nodes@) =~= Seq::<SpecTree>::empty());
                assert(views_of(next@) + spec_level_up(views_of(nodes@)) =~= views_of(next@));
                assert(views_of(next@) == spec_level_up(prev));
                lemma_level_up_len(prev);
                assert(prev.len() == prev_len);
            }
            nodes = next;
        }
        proof {
            assert(views_of(nodes@).len() == 1);
            assert(spec_build_from(views_of(nodes@)) == views_of(nodes@)[0]);
            lemma_build_consistent(bytes@);
        }
        let root = nodes.remove(0);
        Ok(MerkleTree(root))
    }

    /// The root node of the tree.
    pub fn root(&self) -> (r: &Tree)
        ensures
            r@ == self@,
    {
        &self.0
    }

    /// The root digest: a fingerprint of the whole content.
    pub fn root_digest(&self) -> (r: &BlockHash)
        ensures
            r@ == self@.digest(),
    {
        self.0.digest()
    }

    /// Decide whether every stored digest in the tree is reproducible from
    /// its subtree; see [`SpecTree::consistent`].
    pub fn is_consistent(&self) -> (r: bool)
        ensures
            r == self@.consistent(),
    {
        self.0.is_consistent()
    }
}

/// Append the bytes of `src` to `dst`.
pub(crate) fn append_bytes(dst: &mut Vec<u8>, src: &Vec<u8>)
    ensures
        final(dst)@ == old(dst)@ + src@,
{
    let mut i: usize = 0;
    while i < src.len()
        invariant
            i <= src@.len(),
            dst@ == old(dst)@ + src@.take(i as int),
        decreases src@.len() - i,
    {
        dst.push(src[i]);
        proof {
            assert(old(dst)@ + src@.take(i + 1) =~= (old(dst)@ + src@.take(i as int)).push(src@[i as int]));
        }
        i += 1;
    }
    proof {
        assert(src@.take(src@.len() as int) =~= src@);
    }
}

} // verus!

