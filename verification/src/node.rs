//! The recursive node structure of the quadtree.
//!
//! A node covers a square boundary region and is either a leaf,
//! holding up to `N` indexed points, or an internal node with exactly
//! four children, one per quadrant of its boundary.  A full leaf is
//! subdivided in place; a leaf whose boundary has reached the minimum
//! half-dimension of the integer grid cannot be split further and is
//! allowed to grow beyond `N`, which keeps insertion total for every
//! valid point inside the boundary.
//!
//! The contents of a subtree are modelled as a multiset of indexed
//! points: traversal order is an implementation detail, membership
//! and multiplicity are not.

use vstd::prelude::*;
use vstd::multiset::Multiset;
use vstd::seq_lib::group_to_multiset_ensures;

use crate::aabb::Aabb;
use crate::aabb::DiagonalDirection;
use crate::points::IndexPoint;

verus! {

pub struct Node<const N: usize> {
    pub boundary: Aabb,
    pub data: NodeData<N>,
}

pub enum NodeData<const N: usize> {
    Child(NodeChildData<N>),
    Leaf(NodeLeafData<N>),
}

pub struct NodeChildData<const N: usize> {
    pub up_right: Box<Node<N>>,
    pub up_left: Box<Node<N>>,
    pub down_left: Box<Node<N>>,
    pub down_right: Box<Node<N>>,
}

pub struct NodeLeafData<const N: usize> {
    pub points: Vec<IndexPoint>,
}

/// Some entry of `m` carries the backing-store index `i`.
pub open spec fn entries_has_index(m: Multiset<IndexPoint>, i: usize) -> bool {
    exists|p: IndexPoint| #[trigger] m.contains(p) && p.i == i
}

/// No backing-store index occurs twice among the entries: every
/// entry occurs at most once, and two different entries never carry
/// the same index.
pub open spec fn entries_index_distinct(m: Multiset<IndexPoint>) -> bool {
    &&& forall|p: IndexPoint| #[trigger] m.count(p) <= 1
    &&& forall|p: IndexPoint, q: IndexPoint|
        #![trigger m.contains(p), m.contains(q)]
        m.contains(p) && m.contains(q) && p != q ==> p.i != q.i
}

/// A prefix relation between two sequences carries over to a shorter
/// prefix.
proof fn lemma_prefix_trans<A>(s0: Seq<A>, s1: Seq<A>, s2: Seq<A>)
    requires
        s0.len() <= s1.len() <= s2.len(),
        s1.subrange(0, s0.len() as int) == s0,
        s2.subrange(0, s1.len() as int) == s1,
    ensures
        s2.subrange(0, s0.len() as int) == s0,
{
    assert forall|k: int| 0 <= k < s0.len() implies s2.subrange(0, s0.len() as int)[k]
        == s0[k] by {
        assert(s2[k] == s2.subrange(0, s1.len() as int)[k]);
        assert(s1[k] == s1.subrange(0, s0.len() as int)[k]);
    }
    assert(s2.subrange(0, s0.len() as int) =~= s0);
}

/// An element of a sequence is an element of every extension of it.
proof fn lemma_prefix_contains<A>(s1: Seq<A>, s2: Seq<A>, x: A)
    requires
        s1.len() <= s2.len(),
        s2.subrange(0, s1.len() as int) == s1,
        s1.contains(x),
    ensures
        s2.contains(x),
{
    let k = choose|k: int| 0 <= k < s1.len() && s1[k] == x;
    assert(s2.subrange(0, s1.len() as int)[k] == s1[k]);
    assert(s2[k] == x);
}

/// Stepping stone of the query traversal: when the accumulator so
/// far holds only indices from outside the parent or from the part
/// of the parent already traversed, it is disjoint from the part
/// visited next, and that part inherits index distinctness.
proof fn lemma_query_step(
    parent: Multiset<IndexPoint>,
    done: Multiset<IndexPoint>,
    next: Multiset<IndexPoint>,
    rest: Multiset<IndexPoint>,
    base: Seq<usize>,
    acc: Seq<usize>,
)
    requires
        parent == done.add(next).add(rest),
        entries_index_distinct(parent),
        base.len() <= acc.len(),
        acc.subrange(0, base.len() as int) == base,
        forall|j: int| 0 <= j < base.len() ==> !entries_has_index(parent, #[trigger] base[j]),
        forall|j: int|
            base.len() <= j < acc.len() ==> entries_has_index(done, #[trigger] acc[j]),
    ensures
        entries_index_distinct(next),
        forall|j: int| 0 <= j < acc.len() ==> !entries_has_index(next, #[trigger] acc[j]),
{
    broadcast use vstd::multiset::group_multiset_axioms;
    broadcast use vstd::multiset::group_multiset_properties;

    assert forall|p: IndexPoint| #[trigger] next.count(p) <= 1 by {
        assert(parent.count(p) == done.count(p) + next.count(p) + rest.count(p));
    }
    assert forall|p: IndexPoint, q: IndexPoint|
        #![trigger next.contains(p), next.contains(q)]
        next.contains(p) && next.contains(q) && p != q implies p.i != q.i by {
        assert(parent.count(p) >= next.count(p));
        assert(parent.count(q) >= next.count(q));
        assert(parent.contains(p) && parent.contains(q));
    }
    assert forall|j: int| 0 <= j < acc.len() implies !entries_has_index(
        next,
        #[trigger] acc[j],
    ) by {
        if entries_has_index(next, acc[j]) {
            let p = choose|p: IndexPoint| #[trigger] next.contains(p) && p.i == acc[j];
            assert(parent.count(p) >= next.count(p));
            assert(parent.contains(p));
            if j < base.len() {
                assert(acc.subrange(0, base.len() as int)[j] == acc[j]);
                assert(base[j] == acc[j]);
                assert(entries_has_index(parent, base[j]));
            } else {
                let q = choose|q: IndexPoint| #[trigger] done.contains(q) && q.i == acc[j];
                assert(parent.count(q) >= done.count(q));
                assert(parent.contains(q));
                if p == q {
                    assert(parent.count(p) >= done.count(p) + next.count(p));
                    assert(parent.count(p) >= 2);
                } else {
                    assert(p.i != q.i);
                }
            }
        }
    }
}

/// The predicate selecting the entries whose point falls in
/// quadrant `d` of region `b`.
pub open spec fn in_quadrant(b: Aabb, d: DiagonalDirection) -> spec_fn(IndexPoint) -> bool {
    |p: IndexPoint| b.quadrant_of(p.pt()) == d
}

/// Filtering a multiset extended by one element keeps the old
/// filtered part and adds the element exactly when it passes.
proof fn lemma_multiset_filter_insert<A>(m: Multiset<A>, pred: spec_fn(A) -> bool, x: A)
    ensures
        pred(x) ==> m.insert(x).filter(pred) == m.filter(pred).insert(x),
        !pred(x) ==> m.insert(x).filter(pred) == m.filter(pred),
{
    broadcast use vstd::multiset::group_multiset_axioms;
    broadcast use vstd::multiset::group_multiset_properties;

    if pred(x) {
        assert forall|y: A| #[trigger]
            m.insert(x).filter(pred).count(y) == m.filter(pred).insert(x).count(y) by {
            if y == x {
                assert(m.insert(x).count(y) == m.count(y) + 1);
            } else {
                assert(m.insert(x).count(y) == m.count(y));
            }
        }
        assert(m.insert(x).filter(pred) =~= m.filter(pred).insert(x));
    } else {
        assert forall|y: A| #[trigger]
            m.insert(x).filter(pred).count(y) == m.filter(pred).count(y) by {
            if y == x {
                assert(m.insert(x).count(y) == m.count(y) + 1);
            } else {
                assert(m.insert(x).count(y) == m.count(y));
            }
        }
        assert(m.insert(x).filter(pred) =~= m.filter(pred));
    }
}

/// The larger of two naturals.
pub open spec fn max_nat(a: nat, b: nat) -> nat {
    if a < b {
        b
    } else {
        a
    }
}

impl<const N: usize> Node<N> {
    /// Everything stored in this subtree, as a multiset of indexed
    /// points.
    pub open spec fn entries(self) -> Multiset<IndexPoint>
        decreases self,
    {
        match self.data {
            NodeData::Leaf(leaf) => leaf.points@.to_multiset(),
            NodeData::Child(c) => c.up_right.entries().add(c.up_left.entries()).add(
                c.down_left.entries(),
            ).add(c.down_right.entries()),
        }
    }

    /// Structural well-formedness: the boundary is a valid region,
    /// every stored point is valid and lies inside the boundary, a
    /// leaf respects the capacity unless its region is minimal, and
    /// the children of an internal node carry exactly the quadrant
    /// regions of its boundary.
    pub open spec fn wf(self) -> bool
        decreases self,
    {
        &&& self.boundary.wf()
        &&& forall|p: IndexPoint| #[trigger]
            self.entries().contains(p) ==> self.boundary.contains_point(p.pt())
                && p.pt().is_valid()
        &&& match self.data {
            NodeData::Leaf(leaf) => leaf.points@.len() <= N as int || self.boundary.half_dim
                == 1,
            NodeData::Child(c) => {
                &&& self.boundary.half_dim >= 2
                &&& c.up_right.boundary == self.boundary.child_region(DiagonalDirection::UpRight)
                &&& c.up_left.boundary == self.boundary.child_region(DiagonalDirection::UpLeft)
                &&& c.down_left.boundary == self.boundary.child_region(
                    DiagonalDirection::DownLeft,
                )
                &&& c.down_right.boundary == self.boundary.child_region(
                    DiagonalDirection::DownRight,
                )
                &&& c.up_right.wf()
                &&& c.up_left.wf()
                &&& c.down_left.wf()
                &&& c.down_right.wf()
            },
        }
    }

    /// The broad-phase result of querying this subtree with `range`:
    /// a subtree whose boundary does not intersect `range` is pruned
    /// whole; an intersecting leaf contributes **all** its entries,
    /// never filtering per point.
    pub open spec fn broad_hits(self, range: Aabb) -> Multiset<IndexPoint>
        decreases self,
    {
        if !self.boundary.intersects(range) {
            Multiset::<IndexPoint>::empty()
        } else {
            match self.data {
                NodeData::Leaf(leaf) => leaf.points@.to_multiset(),
                NodeData::Child(c) => c.up_right.broad_hits(range).add(
                    c.up_left.broad_hits(range),
                ).add(c.down_left.broad_hits(range)).add(c.down_right.broad_hits(range)),
            }
        }
    }

    /// The broad-phase result is a sub-multiset of the subtree's
    /// entries.
    pub proof fn lemma_broad_hits_le_entries(self, range: Aabb)
        ensures
            forall|p: IndexPoint| #[trigger]
                self.broad_hits(range).count(p) <= self.entries().count(p),
        decreases self,
    {
        broadcast use vstd::multiset::group_multiset_axioms;

        if !self.boundary.intersects(range) {
            assert forall|p: IndexPoint| #[trigger]
                self.broad_hits(range).count(p) <= self.entries().count(p) by {
                assert(self.broad_hits(range) == Multiset::<IndexPoint>::empty());
                assert(Multiset::<IndexPoint>::empty().count(p) == 0);
            }
        } else {
            match self.data {
                NodeData::Leaf(_) => {},
                NodeData::Child(c) => {
                    c.up_right.lemma_broad_hits_le_entries(range);
                    c.up_left.lemma_broad_hits_le_entries(range);
                    c.down_left.lemma_broad_hits_le_entries(range);
                    c.down_right.lemma_broad_hits_le_entries(range);
                    assert forall|p: IndexPoint| #[trigger]
                        self.broad_hits(range).count(p) <= self.entries().count(p) by {
                        assert(self.broad_hits(range).count(p) == c.up_right.broad_hits(
                            range,
                        ).count(p) + c.up_left.broad_hits(range).count(p)
                            + c.down_left.broad_hits(range).count(p) + c.down_right.broad_hits(
                            range,
                        ).count(p));
                        assert(self.entries().count(p) == c.up_right.entries().count(p)
                            + c.up_left.entries().count(p) + c.down_left.entries().count(p)
                            + c.down_right.entries().count(p));
                    }
                },
            }
        }
    }

    /// Maximum leaf depth of the subtree; a bare leaf has depth 1.
    pub open spec fn depth_spec(self) -> nat
        decreases self,
    {
        match self.data {
            NodeData::Leaf(_) => 1,
            NodeData::Child(c) => 1 + max_nat(
                max_nat(c.up_right.depth_spec(), c.up_left.depth_spec()),
                max_nat(c.down_left.depth_spec(), c.down_right.depth_spec()),
            ),
        }
    }

    /// The depth of a well-formed subtree is bounded by its
    /// half-dimension: every subdivision at least halves it.
    pub proof fn lemma_depth_bounded(self)
        requires
            self.wf(),
        ensures
            self.depth_spec() <= self.boundary.half_dim + 1,
        decreases self,
    {
        match self.data {
            NodeData::Leaf(_) => {},
            NodeData::Child(c) => {
                c.up_right.lemma_depth_bounded();
                c.up_left.lemma_depth_bounded();
                c.down_left.lemma_depth_bounded();
                c.down_right.lemma_depth_bounded();
            },
        }
    }

    /// A fresh leaf node over the given boundary.
    pub fn empty(boundary: Aabb) -> (r: Self)
        requires
            boundary.wf(),
        ensures
            r.wf(),
            r.boundary == boundary,
            r.entries() == Multiset::<IndexPoint>::empty(),
            r.depth_spec() == 1,
    {
        let r = Node { boundary, data: NodeData::Leaf(NodeLeafData { points: Vec::new() }) };
        proof {
            broadcast use group_to_multiset_ensures;

            assert(r.entries() =~= Multiset::<IndexPoint>::empty());
        }
        r
    }

    /// Distribute the points of a full leaf over four fresh quadrant
    /// leaves.
    fn subdivide_leaf(points: Vec<IndexPoint>, boundary: Aabb) -> (r: NodeChildData<N>)
        requires
            boundary.wf(),
            boundary.half_dim >= 2,
            points@.len() <= N as int,
            forall|k: int|
                0 <= k < points@.len() ==> boundary.contains_point(
                    (#[trigger] points@[k]).pt(),
                ) && points@[k].pt().is_valid(),
        ensures
            r.up_right.boundary == boundary.child_region(DiagonalDirection::UpRight),
            r.up_left.boundary == boundary.child_region(DiagonalDirection::UpLeft),
            r.down_left.boundary == boundary.child_region(DiagonalDirection::DownLeft),
            r.down_right.boundary == boundary.child_region(DiagonalDirection::DownRight),
            r.up_right.wf(),
            r.up_left.wf(),
            r.down_left.wf(),
            r.down_right.wf(),
            r.up_right.entries().add(r.up_left.entries()).add(r.down_left.entries()).add(
                r.down_right.entries(),
            ) == points@.to_multiset(),
            r.up_right.entries() == points@.to_multiset().filter(
                in_quadrant(boundary, DiagonalDirection::UpRight),
            ),
            r.up_left.entries() == points@.to_multiset().filter(
                in_quadrant(boundary, DiagonalDirection::UpLeft),
            ),
            r.down_left.entries() == points@.to_multiset().filter(
                in_quadrant(boundary, DiagonalDirection::DownLeft),
            ),
            r.down_right.entries() == points@.to_multiset().filter(
                in_quadrant(boundary, DiagonalDirection::DownRight),
            ),
    {
        broadcast use group_to_multiset_ensures;

        let mut ur: Vec<IndexPoint> = Vec::new();
        let mut ul: Vec<IndexPoint> = Vec::new();
        let mut dl: Vec<IndexPoint> = Vec::new();
        let mut dr: Vec<IndexPoint> = Vec::new();
        let mut k: usize = 0;
        while k < points.len()
            invariant
                boundary.wf(),
                boundary.half_dim >= 2,
                k <= points@.len(),
                forall|j: int|
                    0 <= j < points@.len() ==> boundary.contains_point(
                        (#[trigger] points@[j]).pt(),
                    ) && points@[j].pt().is_valid(),
                ur@.len() + ul@.len() + dl@.len() + dr@.len() == k,
                ur@.to_multiset().add(ul@.to_multiset()).add(dl@.to_multiset()).add(
                    dr@.to_multiset(),
                ) =~= points@.subrange(0, k as int).to_multiset(),
                ur@.to_multiset() == points@.subrange(0, k as int).to_multiset().filter(
                    in_quadrant(boundary, DiagonalDirection::UpRight),
                ),
                ul@.to_multiset() == points@.subrange(0, k as int).to_multiset().filter(
                    in_quadrant(boundary, DiagonalDirection::UpLeft),
                ),
                dl@.to_multiset() == points@.subrange(0, k as int).to_multiset().filter(
                    in_quadrant(boundary, DiagonalDirection::DownLeft),
                ),
                dr@.to_multiset() == points@.subrange(0, k as int).to_multiset().filter(
                    in_quadrant(boundary, DiagonalDirection::DownRight),
                ),
                forall|j: int|
                    0 <= j < ur@.len() ==> boundary.child_region(
                        DiagonalDirection::UpRight,
                    ).contains_point((#[trigger] ur@[j]).pt()) && ur@[j].pt().is_valid(),
                forall|j: int|
                    0 <= j < ul@.len() ==> boundary.child_region(
                        DiagonalDirection::UpLeft,
                    ).contains_point((#[trigger] ul@[j]).pt()) && ul@[j].pt().is_valid(),
                forall|j: int|
                    0 <= j < dl@.len() ==> boundary.child_region(
                        DiagonalDirection::DownLeft,
                    ).contains_point((#[trigger] dl@[j]).pt()) && dl@[j].pt().is_valid(),
                forall|j: int|
                    0 <= j < dr@.len() ==> boundary.child_region(
                        DiagonalDirection::DownRight,
                    ).contains_point((#[trigger] dr@[j]).pt()) && dr@[j].pt().is_valid(),
            decreases points@.len() - k,
        {
            let p: IndexPoint = points[k];
            proof {
                broadcast use group_to_multiset_ensures;

                boundary.lemma_quadrant_covers(p.pt());
                assert(points@.subrange(0, k + 1 as int) =~= points@.subrange(
                    0,
                    k as int,
                ).push(points@[k as int]));
                let sub_m = points@.subrange(0, k as int).to_multiset();
                lemma_multiset_filter_insert(
                    sub_m,
                    in_quadrant(boundary, DiagonalDirection::UpRight),
                    p,
                );
                lemma_multiset_filter_insert(
                    sub_m,
                    in_quadrant(boundary, DiagonalDirection::UpLeft),
                    p,
                );
                lemma_multiset_filter_insert(
                    sub_m,
                    in_quadrant(boundary, DiagonalDirection::DownLeft),
                    p,
                );
                lemma_multiset_filter_insert(
                    sub_m,
                    in_quadrant(boundary, DiagonalDirection::DownRight),
                    p,
                );
            }
            match boundary.diag_pos_from_center(p.into_point()) {
                DiagonalDirection::UpRight => ur.push(p),
                DiagonalDirection::UpLeft => ul.push(p),
                DiagonalDirection::DownLeft => dl.push(p),
                DiagonalDirection::DownRight => dr.push(p),
            }
            k += 1;
        }
        proof {
            assert(points@.subrange(0, points@.len() as int) =~= points@);
        }
        let up_right = Box::new(
            Node {
                boundary: boundary.quadrant_region(DiagonalDirection::UpRight),
                data: NodeData::Leaf(NodeLeafData { points: ur }),
            },
        );
        let up_left = Box::new(
            Node {
                boundary: boundary.quadrant_region(DiagonalDirection::UpLeft),
                data: NodeData::Leaf(NodeLeafData { points: ul }),
            },
        );
        let down_left = Box::new(
            Node {
                boundary: boundary.quadrant_region(DiagonalDirection::DownLeft),
                data: NodeData::Leaf(NodeLeafData { points: dl }),
            },
        );
        let down_right = Box::new(
            Node {
                boundary: boundary.quadrant_region(DiagonalDirection::DownRight),
                data: NodeData::Leaf(NodeLeafData { points: dr }),
            },
        );
        proof {
            boundary.lemma_child_region_wf(DiagonalDirection::UpRight);
            boundary.lemma_child_region_wf(DiagonalDirection::UpLeft);
            boundary.lemma_child_region_wf(DiagonalDirection::DownLeft);
            boundary.lemma_child_region_wf(DiagonalDirection::DownRight);
        }
        NodeChildData { up_right, up_left, down_left, down_right }
    }

    /// Add an indexed point to this subtree.  The point must be valid
    /// and lie within the node's boundary; insertion then always
    /// succeeds, subdividing a full leaf in place when needed.
    pub fn insert(&mut self, p_i: IndexPoint)
        requires
            old(self).wf(),
            old(self).boundary.contains_point(p_i.pt()),
            p_i.pt().is_valid(),
        ensures
            final(self).wf(),
            final(self).boundary == old(self).boundary,
            final(self).entries() == old(self).entries().insert(p_i),
        decreases old(self).boundary.half_dim,
    {
        broadcast use group_to_multiset_ensures;
        broadcast use vstd::multiset::group_multiset_axioms;
        broadcast use vstd::multiset::group_multiset_properties;

        let mut data: NodeData<N> = NodeData::Leaf(NodeLeafData { points: Vec::new() });
        core::mem::swap(&mut self.data, &mut data);
        match data {
            NodeData::Leaf(mut leafdata) => {
                proof {
                    assert forall|k: int|
                        0 <= k < leafdata.points@.len() implies old(self).boundary.contains_point(
                        (#[trigger] leafdata.points@[k]).pt(),
                    ) && leafdata.points@[k].pt().is_valid() by {
                        assert(leafdata.points@.contains(leafdata.points@[k]));
                        assert(old(self).entries().contains(leafdata.points@[k]));
                    }
                }
                if leafdata.points.len() < N || self.boundary.half_dim == 1 {
                    leafdata.points.push(p_i);
                    self.data = NodeData::Leaf(leafdata);
                    proof {
                        assert(self.entries() =~= old(self).entries().insert(p_i));
                        assert forall|p: IndexPoint| #[trigger]
                            self.entries().contains(p) implies self.boundary.contains_point(
                            p.pt(),
                        ) && p.pt().is_valid() by {
                            if p != p_i {
                                assert(old(self).entries().contains(p));
                            }
                        }
                    }
                } else {
                    let mut child: NodeChildData<N> = Self::subdivide_leaf(
                        leafdata.points,
                        self.boundary,
                    );
                    let dir: DiagonalDirection = self.boundary.diag_pos_from_center(
                        p_i.into_point(),
                    );
                    proof {
                        self.boundary.lemma_quadrant_covers(p_i.pt());
                    }
                    match dir {
                        DiagonalDirection::UpRight => {
                            proof {
                                self.boundary.lemma_child_region_wf(DiagonalDirection::UpRight);
                            }
                            (&mut *child.up_right).insert(p_i);
                        },
                        DiagonalDirection::UpLeft => {
                            proof {
                                self.boundary.lemma_child_region_wf(DiagonalDirection::UpLeft);
                            }
                            (&mut *child.up_left).insert(p_i);
                        },
                        DiagonalDirection::DownLeft => {
                            proof {
                                self.boundary.lemma_child_region_wf(DiagonalDirection::DownLeft);
                            }
                            (&mut *child.down_left).insert(p_i);
                        },
                        DiagonalDirection::DownRight => {
                            proof {
                                self.boundary.lemma_child_region_wf(DiagonalDirection::DownRight);
                            }
                            (&mut *child.down_right).insert(p_i);
                        },
                    }
                    self.data = NodeData::Child(child);
                    proof {
                        assert(self.entries() =~= old(self).entries().insert(p_i));
                    }
                }
            },
            NodeData::Child(mut child) => {
                let dir: DiagonalDirection = self.boundary.diag_pos_from_center(
                    p_i.into_point(),
                );
                proof {
                    self.boundary.lemma_quadrant_covers(p_i.pt());
                }
                match dir {
                    DiagonalDirection::UpRight => {
                        proof {
                            self.boundary.lemma_child_region_wf(DiagonalDirection::UpRight);
                        }
                        (&mut *child.up_right).insert(p_i);
                    },
                    DiagonalDirection::UpLeft => {
                        proof {
                            self.boundary.lemma_child_region_wf(DiagonalDirection::UpLeft);
                        }
                        (&mut *child.up_left).insert(p_i);
                    },
                    DiagonalDirection::DownLeft => {
                        proof {
                            self.boundary.lemma_child_region_wf(DiagonalDirection::DownLeft);
                        }
                        (&mut *child.down_left).insert(p_i);
                    },
                    DiagonalDirection::DownRight => {
                        proof {
                            self.boundary.lemma_child_region_wf(DiagonalDirection::DownRight);
                        }
                        (&mut *child.down_right).insert(p_i);
                    },
                }
                self.data = NodeData::Child(child);
                proof {
                    assert(self.entries() =~= old(self).entries().insert(p_i));
                    assert forall|p: IndexPoint| #[trigger]
                        self.entries().contains(p) implies self.boundary.contains_point(p.pt())
                        && p.pt().is_valid() by {
                        if p != p_i {
                            assert(old(self).entries().contains(p));
                        }
                    }
                }
            },
        }
    }

    /// Collect the indices of every entry of this subtree into `acc`,
    /// pruning subtrees whose boundary does not intersect `range`.
    ///
    /// The result is broad-phase: a leaf that intersects the query
    /// region contributes all its entries, so indices of points just
    /// outside `range` may be collected.  Every entry strictly inside
    /// `range` is collected, and no index is collected twice.
    #[verifier::loop_isolation(false)]
    pub fn query_range(&self, range: Aabb, acc: &mut Vec<usize>)
        requires
            self.wf(),
            entries_index_distinct(self.entries()),
            old(acc)@.no_duplicates(),
            forall|j: int|
                0 <= j < old(acc)@.len() ==> !entries_has_index(
                    self.entries(),
                    #[trigger] old(acc)@[j],
                ),
        ensures
            old(acc)@.len() <= final(acc)@.len(),
            final(acc)@.subrange(0, old(acc)@.len() as int) == old(acc)@,
            final(acc)@.no_duplicates(),
            forall|j: int|
                old(acc)@.len() <= j < final(acc)@.len() ==> entries_has_index(
                    self.broad_hits(range),
                    #[trigger] final(acc)@[j],
                ),
            forall|p: IndexPoint| #[trigger]
                self.broad_hits(range).contains(p) ==> final(acc)@.contains(p.i),
            forall|p: IndexPoint| #[trigger]
                self.entries().contains(p) && range.strictly_contains(p.pt())
                    ==> final(acc)@.contains(p.i),
        decreases *self,
    {
        broadcast use group_to_multiset_ensures;
        broadcast use vstd::multiset::group_multiset_axioms;
        broadcast use vstd::multiset::group_multiset_properties;

        if !self.boundary.intersect(range) {
            proof {
                assert(acc@.subrange(0, acc@.len() as int) =~= acc@);
                assert forall|p: IndexPoint| #[trigger]
                    self.entries().contains(p) && range.strictly_contains(
                        p.pt(),
                    ) implies acc@.contains(p.i) by {
                    self.boundary.lemma_contained_point_intersects(range, p.pt());
                }
                assert(self.broad_hits(range) == Multiset::<IndexPoint>::empty());
                assert forall|p: IndexPoint| #[trigger]
                    self.broad_hits(range).contains(p) implies acc@.contains(p.i) by {
                    assert(Multiset::<IndexPoint>::empty().count(p) == 0);
                }
            }
            return ;
        }
        match &self.data {
            NodeData::Leaf(leaf) => {
                proof {
                    assert(self.entries() == leaf.points@.to_multiset());
                    assert(self.broad_hits(range) == leaf.points@.to_multiset());
                    leaf.points@.lemma_multiset_has_no_duplicates_conv();
                }
                let ghost base = acc@;
                let mut k: usize = 0;
                while k < leaf.points.len()
                    invariant
                        k <= leaf.points@.len(),
                        acc@.len() == base.len() + k,
                        acc@.subrange(0, base.len() as int) == base,
                        forall|j: int|
                            0 <= j < k ==> acc@[base.len() + j] == (
                            #[trigger] leaf.points@[j]).i,
                        acc@.no_duplicates(),
                    decreases leaf.points@.len() - k,
                {
                    proof {
                        let x = leaf.points@[k as int].i;
                        assert(leaf.points@.contains(leaf.points@[k as int]));
                        assert(self.entries().contains(leaf.points@[k as int]));
                        assert forall|j: int| 0 <= j < acc@.len() implies acc@[j] != x by {
                            if acc@[j] == x {
                                if j < base.len() {
                                    assert(acc@.subrange(0, base.len() as int)[j] == acc@[j]);
                                    assert(base[j] == x);
                                    assert(self.entries().contains(leaf.points@[k as int])
                                        && leaf.points@[k as int].i == base[j]);
                                    assert(entries_has_index(self.entries(), base[j]));
                                } else {
                                    let jj = j - base.len();
                                    assert(leaf.points@[jj].i == x);
                                    assert(leaf.points@.contains(leaf.points@[jj]));
                                    assert(self.entries().contains(leaf.points@[jj]));
                                    assert(leaf.points@[jj] != leaf.points@[k as int]);
                                    assert(leaf.points@[jj].i != leaf.points@[k as int].i);
                                }
                            }
                        }
                    }
                    acc.push(leaf.points[k].i);
                    proof {
                        assert(acc@.subrange(0, base.len() as int) =~= base);
                    }
                    k += 1;
                }
                proof {
                    assert forall|p: IndexPoint| #[trigger]
                        self.entries().contains(p) && range.strictly_contains(
                            p.pt(),
                        ) implies acc@.contains(p.i) by {
                        assert(leaf.points@.contains(p));
                        let j = choose|j: int|
                            0 <= j < leaf.points@.len() && leaf.points@[j] == p;
                        assert(acc@[base.len() + j] == p.i);
                    }
                    assert forall|j: int|
                        base.len() <= j < acc@.len() implies entries_has_index(
                        self.broad_hits(range),
                        #[trigger] acc@[j],
                    ) by {
                        let jj = j - base.len();
                        assert(acc@[j] == leaf.points@[jj].i);
                        assert(leaf.points@.contains(leaf.points@[jj]));
                        assert(self.broad_hits(range).contains(leaf.points@[jj]));
                    }
                    assert forall|p: IndexPoint| #[trigger]
                        self.broad_hits(range).contains(p) implies acc@.contains(p.i) by {
                        assert(leaf.points@.contains(p));
                        let j = choose|j: int|
                            0 <= j < leaf.points@.len() && leaf.points@[j] == p;
                        assert(acc@[base.len() + j] == p.i);
                    }
                }
            },
            NodeData::Child(c) => {
                let ghost base = acc@;
                let ghost parent = self.entries();
                let ghost m_ur = c.up_right.entries();
                let ghost m_ul = c.up_left.entries();
                let ghost m_dl = c.down_left.entries();
                let ghost m_dr = c.down_right.entries();
                let ghost hits = self.broad_hits(range);
                let ghost h_ur = c.up_right.broad_hits(range);
                let ghost h_ul = c.up_left.broad_hits(range);
                let ghost h_dl = c.down_left.broad_hits(range);
                let ghost h_dr = c.down_right.broad_hits(range);
                proof {
                    c.up_right.lemma_broad_hits_le_entries(range);
                    c.up_left.lemma_broad_hits_le_entries(range);
                    c.down_left.lemma_broad_hits_le_entries(range);
                    c.down_right.lemma_broad_hits_le_entries(range);
                    assert(hits == h_ur.add(h_ul).add(h_dl).add(h_dr));
                    assert(acc@.subrange(0, base.len() as int) =~= base);
                    assert(parent =~= Multiset::<IndexPoint>::empty().add(m_ur).add(
                        m_ul.add(m_dl).add(m_dr),
                    ));
                    lemma_query_step(
                        parent,
                        Multiset::<IndexPoint>::empty(),
                        m_ur,
                        m_ul.add(m_dl).add(m_dr),
                        base,
                        acc@,
                    );
                }
                c.up_right.query_range(range, acc);
                let ghost a1 = acc@;
                proof {
                    assert(parent =~= m_ur.add(m_ul).add(m_dl.add(m_dr)));
                    assert forall|j: int|
                        base.len() <= j < a1.len() implies entries_has_index(
                        m_ur,
                        #[trigger] a1[j],
                    ) by {
                        assert(entries_has_index(h_ur, a1[j]));
                        let p = choose|p: IndexPoint| #[trigger] h_ur.contains(p) && p.i == a1[j];
                        assert(h_ur.count(p) <= m_ur.count(p));
                        assert(m_ur.contains(p));
                    }
                    lemma_query_step(parent, m_ur, m_ul, m_dl.add(m_dr), base, a1);
                }
                c.up_left.query_range(range, acc);
                let ghost a2 = acc@;
                proof {
                    lemma_prefix_trans(base, a1, a2);
                    assert(parent =~= m_ur.add(m_ul).add(m_dl).add(m_dr));
                    assert forall|j: int|
                        base.len() <= j < a2.len() implies entries_has_index(
                        m_ur.add(m_ul),
                        #[trigger] a2[j],
                    ) by {
                        if j < a1.len() {
                            assert(a2[j] == a1[j]) by {
                                assert(a2.subrange(0, a1.len() as int)[j] == a2[j]);
                            }
                            assert(entries_has_index(m_ur, a1[j]));
                            let p = choose|p: IndexPoint|
                                #[trigger] m_ur.contains(p) && p.i == a1[j];
                            assert(m_ur.add(m_ul).contains(p));
                        } else {
                            assert(entries_has_index(h_ul, a2[j]));
                            let p = choose|p: IndexPoint|
                                #[trigger] h_ul.contains(p) && p.i == a2[j];
                            assert(h_ul.count(p) <= m_ul.count(p));
                            assert(m_ur.add(m_ul).contains(p));
                        }
                    }
                    assert forall|j: int|
                        base.len() <= j < a2.len() implies entries_has_index(
                        h_ur.add(h_ul),
                        #[trigger] a2[j],
                    ) by {
                        if j < a1.len() {
                            assert(a2[j] == a1[j]) by {
                                assert(a2.subrange(0, a1.len() as int)[j] == a2[j]);
                            }
                            assert(entries_has_index(h_ur, a1[j]));
                            let p = choose|p: IndexPoint|
                                #[trigger] h_ur.contains(p) && p.i == a1[j];
                            assert(h_ur.add(h_ul).contains(p));
                        } else {
                            assert(entries_has_index(h_ul, a2[j]));
                            let p = choose|p: IndexPoint|
                                #[trigger] h_ul.contains(p) && p.i == a2[j];
                            assert(h_ur.add(h_ul).contains(p));
                        }
                    }
                    lemma_query_step(parent, m_ur.add(m_ul), m_dl, m_dr, base, a2);
                }
                c.down_left.query_range(range, acc);
                let ghost a3 = acc@;
                proof {
                    lemma_prefix_trans(base, a2, a3);
                    assert(parent =~= m_ur.add(m_ul).add(m_dl).add(m_dr).add(
                        Multiset::<IndexPoint>::empty(),
                    ));
                    assert forall|j: int|
                        base.len() <= j < a3.len() implies entries_has_index(
                        m_ur.add(m_ul).add(m_dl),
                        #[trigger] a3[j],
                    ) by {
                        if j < a2.len() {
                            assert(a3[j] == a2[j]) by {
                                assert(a3.subrange(0, a2.len() as int)[j] == a3[j]);
                            }
                            assert(entries_has_index(m_ur.add(m_ul), a2[j]));
                            let p = choose|p: IndexPoint|
                                #[trigger] m_ur.add(m_ul).contains(p) && p.i == a2[j];
                            assert(m_ur.add(m_ul).add(m_dl).contains(p));
                        } else {
                            assert(entries_has_index(h_dl, a3[j]));
                            let p = choose|p: IndexPoint|
                                #[trigger] h_dl.contains(p) && p.i == a3[j];
                            assert(h_dl.count(p) <= m_dl.count(p));
                            assert(m_ur.add(m_ul).add(m_dl).contains(p));
                        }
                    }
                    assert forall|j: int|
                        base.len() <= j < a3.len() implies entries_has_index(
                        h_ur.add(h_ul).add(h_dl),
                        #[trigger] a3[j],
                    ) by {
                        if j < a2.len() {
                            assert(a3[j] == a2[j]) by {
                                assert(a3.subrange(0, a2.len() as int)[j] == a3[j]);
                            }
                            assert(entries_has_index(h_ur.add(h_ul), a2[j]));
                            let p = choose|p: IndexPoint|
                                #[trigger] h_ur.add(h_ul).contains(p) && p.i == a2[j];
                            assert(h_ur.add(h_ul).add(h_dl).contains(p));
                        } else {
                            assert(entries_has_index(h_dl, a3[j]));
                            let p = choose|p: IndexPoint|
                                #[trigger] h_dl.contains(p) && p.i == a3[j];
                            assert(h_ur.add(h_ul).add(h_dl).contains(p));
                        }
                    }
                    lemma_query_step(
                        parent,
                        m_ur.add(m_ul).add(m_dl),
                        m_dr,
                        Multiset::<IndexPoint>::empty(),
                        base,
                        a3,
                    );
                }
                c.down_right.query_range(range, acc);
                let ghost a4 = acc@;
                proof {
                    lemma_prefix_trans(base, a3, a4);
                    // soundness of everything appended, lifted to the
                    // parent's broad-phase result
                    assert forall|j: int|
                        base.len() <= j < a4.len() implies entries_has_index(
                        hits,
                        #[trigger] a4[j],
                    ) by {
                        if j < a3.len() {
                            assert(a4[j] == a3[j]) by {
                                assert(a4.subrange(0, a3.len() as int)[j] == a4[j]);
                            }
                            assert(entries_has_index(h_ur.add(h_ul).add(h_dl), a3[j]));
                            let p = choose|p: IndexPoint|
                                #[trigger] h_ur.add(h_ul).add(h_dl).contains(p) && p.i
                                    == a3[j];
                            assert(hits.contains(p));
                        } else {
                            assert(entries_has_index(h_dr, a4[j]));
                            let p = choose|p: IndexPoint|
                                #[trigger] h_dr.contains(p) && p.i == a4[j];
                            assert(hits.contains(p));
                        }
                    }
                    // node-granularity completeness: every entry of the
                    // broad-phase result was collected in its child
                    assert forall|p: IndexPoint| #[trigger]
                        hits.contains(p) implies a4.contains(p.i) by {
                        if h_ur.contains(p) {
                            lemma_prefix_contains(a1, a2, p.i);
                            lemma_prefix_contains(a2, a3, p.i);
                            lemma_prefix_contains(a3, a4, p.i);
                        } else if h_ul.contains(p) {
                            lemma_prefix_contains(a2, a3, p.i);
                            lemma_prefix_contains(a3, a4, p.i);
                        } else if h_dl.contains(p) {
                            lemma_prefix_contains(a3, a4, p.i);
                        } else {
                            assert(h_dr.contains(p));
                        }
                    }
                    // strict-interior completeness: a strictly contained
                    // entry lies in an intersecting child
                    assert forall|p: IndexPoint| #[trigger]
                        parent.contains(p) && range.strictly_contains(p.pt()) implies a4.contains(
                        p.i,
                    ) by {
                        if m_ur.contains(p) {
                            lemma_prefix_contains(a1, a2, p.i);
                            lemma_prefix_contains(a2, a3, p.i);
                            lemma_prefix_contains(a3, a4, p.i);
                        } else if m_ul.contains(p) {
                            lemma_prefix_contains(a2, a3, p.i);
                            lemma_prefix_contains(a3, a4, p.i);
                        } else if m_dl.contains(p) {
                            lemma_prefix_contains(a3, a4, p.i);
                        } else {
                            assert(m_dr.contains(p));
                        }
                    }
                }
            },
        }
    }

    /// Maximum leaf depth of this subtree.
    pub fn depth(&self) -> (r: usize)
        requires
            self.wf(),
        ensures
            r == self.depth_spec(),
        decreases *self,
    {
        proof {
            self.lemma_depth_bounded();
        }
        match &self.data {
            NodeData::Leaf(_) => 1,
            NodeData::Child(c) => {
                let a: usize = c.up_right.depth();
                let b: usize = c.up_left.depth();
                let d: usize = c.down_left.depth();
                let e: usize = c.down_right.depth();
                let m1: usize = if a < b {
                    b
                } else {
                    a
                };
                let m2: usize = if d < e {
                    e
                } else {
                    d
                };
                let m: usize = if m1 < m2 {
                    m2
                } else {
                    m1
                };
                1 + m
            },
        }
    }
}

} // verus!
