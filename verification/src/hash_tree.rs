//! The generic N-ary hash-tree layer.
//!
//! A [`HashTree`] organizes opaque content into a tree of digests of a
//! pluggable type; an [`AggregateHasher`] supplied by the caller combines
//! the ordered child digests of an internal node into its parent digest.
//! Consistency of a tree against a hasher means that every internal node's
//! stored digest is the aggregate of its children's digests, in order.
//! Leaves carry no content hasher at this layer, so a leaf is trusted as it
//! stands; an internal node without children is never consistent.

use vstd::prelude::*;

verus! {

broadcast use vstd::std_specs::vec::group_vec_axioms;

/// A pluggable digest value, compared and copied by its mathematical view.
pub trait Digest: View + Sized {
    /// Compare two digests: equality of digests is equality of their views.
    fn eq_digest(&self, other: &Self) -> (r: bool)
        ensures
            r == (self@ == other@),
    ;

    /// An owned copy of this digest with the same view.
    fn clone_digest(&self) -> (r: Self)
        ensures
            r@ == self@,
    ;
}

/// The views of a sequence of digests, in order.
pub open spec fn digest_views<D: Digest>(ds: Seq<D>) -> Seq<<D as View>::V> {
    ds.map_values(|d: D| d@)
}

/// A pluggable aggregate function: a pure, deterministic combiner of the
/// ordered child digests into a parent digest.  Its mathematical meaning is
/// the implementor's `spec_aggregate`, which the executable method must
/// realize exactly.
pub trait AggregateHasher<D: Digest>: Sized {
    /// The aggregate of the given digest views, in order.
    spec fn spec_aggregate(&self, digests: Seq<<D as View>::V>) -> <D as View>::V;

    /// Aggregate the ordered child digests into a parent digest.
    fn aggregate_hash(&self, digests: &Vec<D>) -> (r: D)
        ensures
            r@ == self.spec_aggregate(digest_views(digests@)),
    ;
}

/// A hash tree over opaque leaf content `T` and digest type `D`: an
/// internal node exclusively owns its ordered children, and every node
/// stores a digest.
pub enum HashTree<T, D: Digest> {
    /// An internal node: the ordered child subtrees and the stored digest.
    Node(Vec<Box<HashTree<T, D>>>, D),
    /// A leaf: content and the stored digest.
    Leaf(T, D),
}

impl<T, D: Digest> HashTree<T, D> {
    /// The digest stored at the root of this tree.
    pub open spec fn spec_digest(self) -> D {
        match self {
            HashTree::Node(_, d) => d,
            HashTree::Leaf(_, d) => d,
        }
    }

    /// Consistency against a hasher: every internal node has at least one
    /// child, its stored digest is the aggregate of its children's digests
    /// in order, and the children are consistent in turn.  A leaf is
    /// trusted as it stands: this layer has no content hasher.
    pub open spec fn spec_consistent<H: AggregateHasher<D>>(self, hasher: H) -> bool
        decreases self,
    {
        match self {
            HashTree::Leaf(_, _) => true,
            HashTree::Node(children, d) => {
                &&& children@.len() > 0
                &&& (forall|k: int|
                    0 <= k < children@.len() ==> (#[trigger] children@[k]).spec_consistent(
                        hasher,
                    ))
                &&& d@ == hasher.spec_aggregate(
                    children@.map_values(|c: Box<HashTree<T, D>>| (*c).spec_digest()@),
                )
            },
        }
    }

    /// The digest stored at the root of this tree.
    pub fn stored_digest(&self) -> (r: &D)
        ensures
            *r == self.spec_digest(),
    {
        match self {
            HashTree::Node(_, d) => d,
            HashTree::Leaf(_, d) => d,
        }
    }

    /// Decide whether every stored digest of an internal node is the
    /// aggregate, under `hasher`, of its children's digests; see
    /// [`Self::spec_consistent`].
    #[verifier::loop_isolation(false)]
    pub fn is_consistent<H: AggregateHasher<D>>(&self, hasher: &H) -> (r: bool)
        ensures
            r == self.spec_consistent(*hasher),
        decreases *self,
    {
        match self {
            HashTree::Leaf(_, _) => true,
            HashTree::Node(children, stored) => {
                if children.len() == 0 {
                    return false;
                }
                let mut k: usize = 0;
                while k < children.len()
                    invariant
                        k <= children@.len(),
                        forall|m: int|
                            0 <= m < k ==> (#[trigger] children@[m]).spec_consistent(*hasher),
                    decreases children@.len() - k,
                {
                    if !children[k].is_consistent(hasher) {
                        return false;
                    }
                    k += 1;
                }
                let mut ds: Vec<D> = Vec::new();
                let mut m: usize = 0;
                while m < children.len()
                    invariant
                        m <= children@.len(),
                        ds@.len() == m,
                        forall|q: int|
                            0 <= q < m ==> ds@[q]@ == (#[trigger] children@[q]).spec_digest()@,
                    decreases children@.len() - m,
                {
                    ds.push(children[m].stored_digest().clone_digest());
                    m += 1;
                }
                proof {
                    assert(digest_views(ds@) =~= children@.map_values(
                        |c: Box<HashTree<T, D>>| (*c).spec_digest()@,
                    ));
                }
                let computed = hasher.aggregate_hash(&ds);
                stored.eq_digest(&computed)
            },
        }
    }
}

/// A leaf holding the given digest and no content.
pub fn leaf<D: Digest>(digest: D) -> (r: HashTree<(), D>)
    ensures
        r == HashTree::<(), D>::Leaf((), digest),
{
    HashTree::Leaf((), digest)
}

/// An internal node holding the given children, in order, and the given
/// digest.
pub fn node<D: Digest>(children: Vec<Box<HashTree<(), D>>>, digest: D) -> (r: HashTree<(), D>)
    ensures
        r == HashTree::<(), D>::Node(children, digest),
{
    HashTree::Node(children, digest)
}

} // verus!
