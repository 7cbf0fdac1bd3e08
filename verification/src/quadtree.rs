//! The quadtree container: an append-only backing store of elements
//! plus a structural index over their positions.
//!
//! Every element is indexed under its store position, which never
//! changes: the store only grows.  The structural index is a snapshot
//! of element positions; mutating element coordinates (through
//! [`Quadtree::set`], [`Quadtree::map_query_range`] or the
//! interaction sweeps) leaves the index describing the positions the
//! elements had when they were last indexed, until the next rebuild.
//! The predicate [`Quadtree::indexed`] says that index and store
//! agree.

use vstd::prelude::*;
use vstd::multiset::Multiset;

use crate::aabb::Aabb;
use crate::aabb::mid_toward_zero;
use crate::node::Node;
pub use crate::node::entries_has_index;
use crate::node::entries_index_distinct;
use crate::points::As2dPoint;
use crate::points::COORD_MAX;
use crate::points::IndexPoint;
use crate::points::Point;
use crate::points::point_of;
use crate::points::max_of;

verus! {

/// The two failures an indexing operation can report.
#[derive(Debug, Clone, Copy, PartialEq, Eq, Structural)]
pub enum QuadtreeError {
    /// The point lies outside the checked region; both are carried.
    OutOfBoundary(Aabb, Point),
    /// A coordinate lies outside the valid window.
    InvalidCoord(Point),
}

/// The indexed point that position `i` of the store contributes to
/// the structural index.
pub open spec fn entry_at<T: As2dPoint>(s: Seq<T>, i: int) -> IndexPoint {
    IndexPoint { x: s[i].x_spec(), y: s[i].y_spec(), i: i as usize }
}

/// The smaller of two integers.
pub open spec fn min_of(a: int, b: int) -> int {
    if a < b {
        a
    } else {
        b
    }
}

/// Smallest x coordinate among the elements of a non-empty store.
pub open spec fn min_x_of<T: As2dPoint>(s: Seq<T>) -> int
    decreases s.len(),
{
    if s.len() <= 1 {
        s[0].x_spec() as int
    } else {
        min_of(s.last().x_spec() as int, min_x_of(s.drop_last()))
    }
}

/// Largest x coordinate among the elements of a non-empty store.
pub open spec fn max_x_of<T: As2dPoint>(s: Seq<T>) -> int
    decreases s.len(),
{
    if s.len() <= 1 {
        s[0].x_spec() as int
    } else {
        max_of(s.last().x_spec() as int, max_x_of(s.drop_last()))
    }
}

/// Smallest y coordinate among the elements of a non-empty store.
pub open spec fn min_y_of<T: As2dPoint>(s: Seq<T>) -> int
    decreases s.len(),
{
    if s.len() <= 1 {
        s[0].y_spec() as int
    } else {
        min_of(s.last().y_spec() as int, min_y_of(s.drop_last()))
    }
}

/// Largest y coordinate among the elements of a non-empty store.
pub open spec fn max_y_of<T: As2dPoint>(s: Seq<T>) -> int
    decreases s.len(),
{
    if s.len() <= 1 {
        s[0].y_spec() as int
    } else {
        max_of(s.last().y_spec() as int, max_y_of(s.drop_last()))
    }
}

/// The boundary a refit produces for a non-empty store: the element
/// extents padded by one unit on each side, the longer padded axis
/// halved (rounded down) as half-dimension, centered at the
/// midpoint of the padded extents (rounded toward zero).
pub open spec fn fitted_boundary<T: As2dPoint>(s: Seq<T>) -> Aabb {
    let lo_x = min_x_of(s) - 1;
    let hi_x = max_x_of(s) + 1;
    let lo_y = min_y_of(s) - 1;
    let hi_y = max_y_of(s) + 1;
    let side = max_of(hi_x - lo_x, hi_y - lo_y);
    Aabb {
        center: Point {
            x: mid_toward_zero(lo_x, hi_x) as i64,
            y: mid_toward_zero(lo_y, hi_y) as i64,
        },
        half_dim: (side / 2) as i64,
    }
}

/// One pairwise-interaction event of a sweep: the store goes from
/// `pre` to `post` by replacing positions `i` and `j` (distinct)
/// with an output the pairwise callback admits for their values.
pub open spec fn pair_step<T, F: Fn(&T, &T) -> (T, T)>(
    map: F,
    pre: Seq<T>,
    post: Seq<T>,
    i: int,
    j: int,
) -> bool {
    &&& 0 <= i < pre.len()
    &&& 0 <= j < pre.len()
    &&& i != j
    &&& post.len() == pre.len()
    &&& call_ensures(map, (&pre[i], &pre[j]), (post[i], post[j]))
    &&& post == pre.update(i, post[i]).update(j, post[j])
}

/// One per-element event of a sweep: the store goes from `pre` to
/// `post` by replacing position `i` with an output the callback
/// admits for its value.
pub open spec fn unary_step<T, F: Fn(&T) -> T>(f: F, pre: Seq<T>, post: Seq<T>, i: int) -> bool {
    &&& 0 <= i < pre.len()
    &&& post.len() == pre.len()
    &&& call_ensures(f, (&pre[i],), post[i])
    &&& post == pre.update(i, post[i])
}

/// A record of one pairwise-interaction sweep: the chain of store
/// states, one per callback invocation, together with the query
/// region and broad-phase candidate list of every visit.  The events
/// of visit `i` occupy positions `bounds[i] .. bounds[i + 1]` of
/// `cur`/`oth`.
pub struct SweepTrace<T> {
    pub states: Seq<Seq<T>>,
    pub cur: Seq<usize>,
    pub oth: Seq<usize>,
    pub bounds: Seq<int>,
    pub regions: Seq<Aabb>,
    pub cands: Seq<Seq<usize>>,
}

/// A record of one full simulation sweep
/// ([`Quadtree::map_then_map_with_elem_in_range_then_map`]).  Within
/// visit `i`, event `bounds[i]` is the `first_map` step, events
/// strictly between `bounds[i]` and `bounds[i + 1] - 1` are the
/// pairwise steps, and event `bounds[i + 1] - 1` is the `last_map`
/// step.
pub struct UpdateTrace<T> {
    pub states: Seq<Seq<T>>,
    pub oth: Seq<usize>,
    pub bounds: Seq<int>,
    pub regions: Seq<Aabb>,
    pub cands: Seq<Seq<usize>>,
}

/// A quadtree over elements of type `T`, with leaf capacity `N`.
pub struct Quadtree<T: As2dPoint, const N: usize> {
    vec: Vec<T>,
    base_node: Node<N>,
}

impl<T: As2dPoint, const N: usize> View for Quadtree<T, N> {
    type V = Seq<T>;

    closed spec fn view(&self) -> Seq<T> {
        self.vec@
    }
}

impl<T: As2dPoint, const N: usize> Quadtree<T, N> {
    /// The contents of the structural index.
    pub closed spec fn entries(self) -> Multiset<IndexPoint> {
        self.base_node.entries()
    }

    /// The region the index currently covers.
    pub closed spec fn boundary_spec(self) -> Aabb {
        self.base_node.boundary
    }

    /// Maximum leaf depth of the index.
    pub closed spec fn depth_spec(self) -> nat {
        self.base_node.depth_spec()
    }

    /// The broad-phase result of a query: subtrees whose boundary
    /// does not intersect `range` are pruned whole, and a leaf whose
    /// boundary intersects it contributes **all** its entries —
    /// filtering happens at node granularity only, never per point.
    pub closed spec fn broad_hits(self, range: Aabb) -> Multiset<IndexPoint> {
        self.base_node.broad_hits(range)
    }

    /// What a broad-phase query result is: no index twice, every
    /// reported index carried by some entry of the broad-phase
    /// result for `range`, every entry of that result reported, and
    /// with it every entry strictly inside `range`.
    pub open spec fn query_result_ok(self, range: Aabb, out: Seq<usize>) -> bool {
        &&& out.no_duplicates()
        &&& forall|k: int|
            0 <= k < out.len() ==> #[trigger] out[k] < self@.len() && entries_has_index(
                self.broad_hits(range),
                out[k],
            )
        &&& forall|p: IndexPoint| #[trigger]
            self.broad_hits(range).contains(p) ==> out.contains(p.i)
        &&& forall|p: IndexPoint| #[trigger]
            self.entries().contains(p) && range.strictly_contains(p.pt()) ==> out.contains(p.i)
    }

    /// The trace is a faithful record of one pairwise-interaction
    /// sweep over this tree, starting from store `init`: every visit
    /// queried the index with a region the range callback admits for
    /// the element's value at that moment, obtained a faithful
    /// broad-phase candidate list, and invoked the pairwise callback
    /// exactly once for each candidate other than the element
    /// itself, in order; every store state follows from the previous
    /// one by one such invocation.
    pub open spec fn sweep_trace_ok<R: Fn(&T) -> Aabb, F: Fn(&T, &T) -> (T, T)>(
        self,
        range_mapping: R,
        map: F,
        init: Seq<T>,
        tr: SweepTrace<T>,
    ) -> bool {
        let n = init.len() as int;
        &&& tr.states.len() == tr.cur.len() + 1
        &&& tr.oth.len() == tr.cur.len()
        &&& tr.states[0] == init
        &&& forall|t: int| 0 <= t < tr.states.len() ==> (#[trigger] tr.states[t]).len() == n
        &&& tr.bounds.len() == n + 1
        &&& tr.bounds[0] == 0
        &&& tr.bounds[n] == tr.cur.len()
        &&& forall|q: int| 0 <= q < n ==> #[trigger] tr.bounds[q] <= tr.bounds[q + 1]
        &&& forall|q: int| 0 <= q <= n ==> 0 <= #[trigger] tr.bounds[q] <= tr.cur.len()
        &&& tr.regions.len() == n
        &&& tr.cands.len() == n
        &&& forall|q: int|
            0 <= q < n ==> call_ensures(
                range_mapping,
                (&tr.states[tr.bounds[q]][q],),
                #[trigger] tr.regions[q],
            )
        &&& forall|q: int|
            0 <= q < n ==> self.query_result_ok(#[trigger] tr.regions[q], tr.cands[q])
        &&& forall|q: int|
            0 <= q < n ==> #[trigger] tr.oth.subrange(tr.bounds[q], tr.bounds[q + 1])
                == tr.cands[q].filter(|u: usize| u != q as usize)
        &&& forall|q: int, t: int|
            #![trigger tr.bounds[q], tr.cur[t]]
            0 <= q < n && tr.bounds[q] <= t < tr.bounds[q + 1] ==> tr.cur[t] == q as usize
        &&& forall|t: int|
            0 <= t < tr.cur.len() ==> pair_step(
                map,
                #[trigger] tr.states[t],
                tr.states[t + 1],
                tr.cur[t] as int,
                tr.oth[t] as int,
            )
    }

    /// One visit of a full simulation sweep, for the element at
    /// position `q`: the visit's events occupy `lo .. hi` of the
    /// event chain.  The index was queried with a region the range
    /// callback admits for the element's value at the start of the
    /// visit; event `lo` applies `first_map` to the element; the
    /// events strictly between apply the pairwise callback to the
    /// element and, in order, exactly those candidates with a
    /// strictly greater store index; event `hi - 1` applies
    /// `last_map`.
    pub open spec fn visit_ok<
        F1: Fn(&T) -> T,
        R: Fn(&T) -> Aabb,
        F2: Fn(&T, &T) -> (T, T),
        F3: Fn(&T) -> T,
    >(
        self,
        first_map: F1,
        range_mapping: R,
        map_with_other: F2,
        last_map: F3,
        states: Seq<Seq<T>>,
        oth: Seq<usize>,
        lo: int,
        hi: int,
        region: Aabb,
        cands: Seq<usize>,
        q: int,
    ) -> bool {
        &&& 0 <= lo
        &&& lo + 2 <= hi
        &&& hi <= oth.len()
        &&& hi < states.len()
        &&& call_ensures(range_mapping, (&states[lo][q],), region)
        &&& self.query_result_ok(region, cands)
        &&& unary_step(first_map, states[lo], states[lo + 1], q)
        &&& oth.subrange(lo + 1, hi - 1) == cands.filter(|u: usize| u > q as usize)
        &&& forall|t: int|
            lo + 1 <= t < hi - 1 ==> pair_step(
                map_with_other,
                #[trigger] states[t],
                states[t + 1],
                q,
                oth[t] as int,
            )
        &&& unary_step(last_map, states[hi - 1], states[hi], q)
    }

    /// The trace is a faithful record of one full simulation sweep
    /// over this tree, starting from store `init`: the visits run in
    /// store order, each one a faithful [`Quadtree::visit_ok`] over
    /// the pre-sweep index, and every store state follows from the
    /// previous one by one callback invocation.
    pub open spec fn update_trace_ok<
        F1: Fn(&T) -> T,
        R: Fn(&T) -> Aabb,
        F2: Fn(&T, &T) -> (T, T),
        F3: Fn(&T) -> T,
    >(
        self,
        first_map: F1,
        range_mapping: R,
        map_with_other: F2,
        last_map: F3,
        init: Seq<T>,
        tr: UpdateTrace<T>,
    ) -> bool {
        let n = init.len() as int;
        &&& tr.states.len() == tr.oth.len() + 1
        &&& tr.states[0] == init
        &&& forall|t: int| 0 <= t < tr.states.len() ==> (#[trigger] tr.states[t]).len() == n
        &&& tr.bounds.len() == n + 1
        &&& tr.bounds[0] == 0
        &&& tr.bounds[n] == tr.oth.len()
        &&& tr.regions.len() == n
        &&& tr.cands.len() == n
        &&& forall|q: int|
            0 <= q < n ==> self.visit_ok(
                first_map,
                range_mapping,
                map_with_other,
                last_map,
                tr.states,
                tr.oth,
                tr.bounds[q],
                tr.bounds[q + 1],
                #[trigger] tr.regions[q],
                tr.cands[q],
                q,
            )
    }

    /// A faithful visit record stays faithful when later events are
    /// appended to the chain: all its indices lie before the
    /// appended tail.
    proof fn lemma_visit_ok_push<
        F1: Fn(&T) -> T,
        R: Fn(&T) -> Aabb,
        F2: Fn(&T, &T) -> (T, T),
        F3: Fn(&T) -> T,
    >(
        self,
        first_map: F1,
        range_mapping: R,
        map_with_other: F2,
        last_map: F3,
        states: Seq<Seq<T>>,
        oth: Seq<usize>,
        x_state: Seq<T>,
        x_oth: usize,
        lo: int,
        hi: int,
        region: Aabb,
        cands: Seq<usize>,
        q: int,
    )
        requires
            self.visit_ok(
                first_map,
                range_mapping,
                map_with_other,
                last_map,
                states,
                oth,
                lo,
                hi,
                region,
                cands,
                q,
            ),
        ensures
            self.visit_ok(
                first_map,
                range_mapping,
                map_with_other,
                last_map,
                states.push(x_state),
                oth.push(x_oth),
                lo,
                hi,
                region,
                cands,
                q,
            ),
    {
        lemma_subrange_of_push(oth, x_oth, lo + 1, hi - 1);
        assert forall|t: int| lo + 1 <= t < hi - 1 implies pair_step(
            map_with_other,
            #[trigger] states.push(x_state)[t],
            states.push(x_state)[t + 1],
            q,
            oth.push(x_oth)[t] as int,
        ) by {
            assert(states.push(x_state)[t] == states[t]);
            assert(states.push(x_state)[t + 1] == states[t + 1]);
            assert(oth.push(x_oth)[t] == oth[t]);
        }
    }

    /// Invariant of the container: the index is structurally well
    /// formed, holds each store index at most once, only indexes
    /// positions that exist, and every stored element has valid
    /// coordinates.
    pub closed spec fn inv(self) -> bool {
        &&& N >= 1
        &&& self.base_node.wf()
        &&& entries_index_distinct(self.base_node.entries())
        &&& forall|p: IndexPoint| #[trigger]
            self.base_node.entries().contains(p) ==> p.i < self.vec@.len()
        &&& forall|i: int|
            0 <= i < self.vec@.len() ==> point_of(#[trigger] self.vec@[i]).is_valid()
    }

    /// The structural index agrees with the store: every position is
    /// indexed exactly under its current coordinates.
    pub open spec fn indexed(self) -> bool {
        &&& forall|i: int|
            0 <= i < self@.len() ==> self.entries().contains(#[trigger] entry_at(self@, i))
        &&& forall|p: IndexPoint| #[trigger]
            self.entries().contains(p) ==> p.i < self@.len() && p == entry_at(
                self@,
                p.i as int,
            )
    }

    /// An empty tree over the given boundary region.
    pub fn empty(boundary: Aabb) -> (r: Self)
        requires
            boundary.wf(),
            N >= 1,
        ensures
            r.inv(),
            r.indexed(),
            r@ == Seq::<T>::empty(),
            r.boundary_spec() == boundary,
            r.depth_spec() == 1,
    {
        let r = Quadtree { vec: Vec::new(), base_node: Node::empty(boundary) };
        proof {
            broadcast use vstd::multiset::group_multiset_axioms;

        }
        r
    }

    /// Number of stored elements.
    pub fn len(&self) -> (r: usize)
        ensures
            r == self@.len(),
    {
        self.vec.len()
    }

    /// Whether the store is empty.
    pub fn is_empty(&self) -> (r: bool)
        ensures
            r == (self@.len() == 0),
    {
        self.len() == 0
    }

    /// Maximum leaf depth of the index.
    pub fn depth(&self) -> (r: usize)
        requires
            self.inv(),
        ensures
            r == self.depth_spec(),
    {
        self.base_node.depth()
    }

    /// The stored elements, in store order.
    pub fn iter(&self) -> (r: &Vec<T>)
        ensures
            r@ == self@,
    {
        &self.vec
    }

    /// The element stored at position `i`.
    pub fn get(&self, i: usize) -> (r: &T)
        requires
            i < self@.len(),
        ensures
            *r == self@[i as int],
    {
        &self.vec[i]
    }

    /// Append an element and index it.
    ///
    /// A position with a coordinate outside the valid window is
    /// rejected before anything else is looked at; a valid position
    /// outside the boundary is rejected as out of boundary; every
    /// other insertion succeeds.  A rejection leaves the tree
    /// untouched.
    pub fn insert(&mut self, elem: T) -> (r: Result<(), QuadtreeError>)
        requires
            old(self).inv(),
        ensures
            final(self).inv(),
            final(self).boundary_spec() == old(self).boundary_spec(),
            !point_of(elem).is_valid() ==> r == Err::<(), QuadtreeError>(
                QuadtreeError::InvalidCoord(point_of(elem)),
            ) && *final(self) == *old(self),
            point_of(elem).is_valid() && !old(self).boundary_spec().contains_point(
                point_of(elem),
            ) ==> r == Err::<(), QuadtreeError>(
                QuadtreeError::OutOfBoundary(old(self).boundary_spec(), point_of(elem)),
            ) && *final(self) == *old(self),
            point_of(elem).is_valid() && old(self).boundary_spec().contains_point(
                point_of(elem),
            ) ==> r == Ok::<(), QuadtreeError>(()) && final(self)@ == old(
                self,
            )@.push(elem) && final(self).entries() == old(self).entries().insert(
                entry_at(final(self)@, old(self)@.len() as int),
            ) && (old(self).indexed() ==> final(self).indexed()),
    {
        let p = Point { x: elem.x(), y: elem.y() };
        if !p.as_valid_coord() {
            return Err(QuadtreeError::InvalidCoord(p));
        }
        if !self.base_node.boundary.contain_pt(p) {
            return Err(QuadtreeError::OutOfBoundary(self.base_node.boundary, p));
        }
        let i = self.vec.len();
        let i_p = IndexPoint { x: p.x, y: p.y, i };
        self.vec.push(elem);
        self.base_node.insert(i_p);
        proof {
            lemma_fresh_insert(old(self).entries(), i_p, i);
            assert(entry_at(self@, i as int) == i_p);
            if old(self).indexed() {
                assert forall|j: int|
                    0 <= j < self@.len() implies self.entries().contains(
                    #[trigger] entry_at(self@, j),
                ) by {
                    if j < i {
                        assert(entry_at(self@, j) == entry_at(old(self)@, j));
                        assert(old(self).entries().contains(entry_at(old(self)@, j)));
                    }
                }
                assert forall|q: IndexPoint| #[trigger]
                    self.entries().contains(q) implies q.i < self@.len() && q == entry_at(
                    self@,
                    q.i as int,
                ) by {
                    if q != i_p {
                        assert(old(self).entries().contains(q));
                        assert(entry_at(self@, q.i as int) == entry_at(old(self)@, q.i as int));
                    }
                }
            }
        }
        Ok(())
    }

    /// Build a fresh index over `bound` from the current store, or
    /// report the first element (in store order) that `bound` does
    /// not contain.
    #[verifier::loop_isolation(false)]
    fn build_index(&self, bound: Aabb) -> (r: Result<Node<N>, QuadtreeError>)
        requires
            self.inv(),
            bound.wf(),
        ensures
            match r {
                Ok(node) => {
                    &&& node.wf()
                    &&& node.boundary == bound
                    &&& entries_index_distinct(node.entries())
                    &&& forall|i: int|
                        0 <= i < self@.len() ==> node.entries().contains(
                            #[trigger] entry_at(self@, i),
                        )
                    &&& forall|p: IndexPoint| #[trigger]
                        node.entries().contains(p) ==> p.i < self@.len() && p == entry_at(
                            self@,
                            p.i as int,
                        )
                    &&& forall|i: int|
                        0 <= i < self@.len() ==> bound.contains_point(
                            point_of(#[trigger] self@[i]),
                        )
                },
                Err(e) => exists|j: int|
                    0 <= j < self@.len() && !bound.contains_point(
                        point_of(#[trigger] self@[j]),
                    ) && (forall|l: int|
                        0 <= l < j ==> bound.contains_point(point_of(#[trigger] self@[l])))
                        && e == QuadtreeError::OutOfBoundary(bound, point_of(self@[j])),
            },
    {
        let mut node: Node<N> = Node::empty(bound);
        let mut k: usize = 0;
        while k < self.vec.len()
            invariant
                k <= self.vec@.len(),
                node.wf(),
                node.boundary == bound,
                entries_index_distinct(node.entries()),
                forall|p: IndexPoint| #[trigger]
                    node.entries().contains(p) ==> p.i < k && p == entry_at(
                        self@,
                        p.i as int,
                    ),
                forall|i: int|
                    0 <= i < k ==> node.entries().contains(#[trigger] entry_at(self@, i)),
                forall|i: int|
                    0 <= i < k ==> bound.contains_point(point_of(#[trigger] self@[i])),
            decreases self.vec@.len() - k,
        {
            let p = Point { x: self.vec[k].x(), y: self.vec[k].y() };
            if !bound.contain_pt(p) {
                proof {
                    assert(!bound.contains_point(point_of(self@[k as int])));
                }
                return Err(QuadtreeError::OutOfBoundary(bound, p));
            }
            let i_p = IndexPoint { x: p.x, y: p.y, i: k };
            proof {
                assert(point_of(self@[k as int]).is_valid());
            }
            let ghost before = node.entries();
            node.insert(i_p);
            proof {
                lemma_fresh_insert(before, i_p, k);
                assert(entry_at(self@, k as int) == i_p);
            }
            k += 1;
        }
        Ok(node)
    }

    /// Re-index every element against a caller-supplied boundary.
    /// Succeeds exactly when the new boundary contains every stored
    /// element's position; on failure the tree is unchanged and the
    /// error carries the first element out of bounds.
    pub fn change_bounds(&mut self, new_bound: Aabb) -> (r: Result<(), QuadtreeError>)
        requires
            old(self).inv(),
            new_bound.wf(),
        ensures
            final(self)@ == old(self)@,
            final(self).inv(),
            (forall|i: int|
                0 <= i < old(self)@.len() ==> new_bound.contains_point(
                    point_of(#[trigger] old(self)@[i]),
                )) <==> r is Ok,
            r is Ok ==> final(self).indexed() && final(self).boundary_spec() == new_bound,
            r is Err ==> *final(self) == *old(self) && (exists|j: int|
                0 <= j < old(self)@.len() && !new_bound.contains_point(
                    point_of(#[trigger] old(self)@[j]),
                ) && (forall|l: int|
                    0 <= l < j ==> new_bound.contains_point(point_of(#[trigger] old(self)@[l])))
                    && r == Err::<(), QuadtreeError>(
                    QuadtreeError::OutOfBoundary(new_bound, point_of(old(self)@[j])),
                )),
    {
        match self.build_index(new_bound) {
            Ok(node) => {
                self.base_node = node;
                Ok(())
            },
            Err(e) => Err(e),
        }
    }

    /// Re-index every element against the current boundary.  Fails,
    /// leaving the tree unchanged, exactly when some element has
    /// moved out of the boundary since it was indexed.
    pub fn rebuild(&mut self) -> (r: Result<(), QuadtreeError>)
        requires
            old(self).inv(),
        ensures
            final(self)@ == old(self)@,
            final(self).inv(),
            final(self).boundary_spec() == old(self).boundary_spec(),
            (forall|i: int|
                0 <= i < old(self)@.len() ==> old(self).boundary_spec().contains_point(
                    point_of(#[trigger] old(self)@[i]),
                )) <==> r is Ok,
            r is Ok ==> final(self).indexed(),
            r is Err ==> *final(self) == *old(self) && (exists|j: int|
                0 <= j < old(self)@.len() && !old(self).boundary_spec().contains_point(
                    point_of(#[trigger] old(self)@[j]),
                ) && (forall|l: int|
                    0 <= l < j ==> old(self).boundary_spec().contains_point(
                        point_of(#[trigger] old(self)@[l]),
                    )) && r == Err::<(), QuadtreeError>(
                    QuadtreeError::OutOfBoundary(
                        old(self).boundary_spec(),
                        point_of(old(self)@[j]),
                    ),
                )),
    {
        let bound = self.base_node.boundary;
        self.change_bounds(bound)
    }

    /// Re-index every element, first growing the boundary when some
    /// element lies outside it: the new boundary is the smallest
    /// square covering all element positions, padded by one unit on
    /// each side.  Never fails.
    #[verifier::loop_isolation(false)]
    pub fn rebuild_fit(&mut self)
        requires
            old(self).inv(),
        ensures
            final(self)@ == old(self)@,
            final(self).inv(),
            final(self).indexed(),
            (forall|i: int|
                0 <= i < old(self)@.len() ==> old(self).boundary_spec().contains_point(
                    point_of(#[trigger] old(self)@[i]),
                )) ==> final(self).boundary_spec() == old(self).boundary_spec(),
            !(forall|i: int|
                0 <= i < old(self)@.len() ==> old(self).boundary_spec().contains_point(
                    point_of(#[trigger] old(self)@[i]),
                )) ==> final(self).boundary_spec() == fitted_boundary(old(self)@),
            forall|i: int|
                0 <= i < final(self)@.len() ==> final(self).boundary_spec().contains_point(
                    point_of(#[trigger] final(self)@[i]),
                ),
    {
        let mut all_in: bool = true;
        let mut k: usize = 0;
        while k < self.vec.len()
            invariant
                k <= self.vec@.len(),
                all_in ==> (forall|j: int|
                    0 <= j < k ==> self.boundary_spec().contains_point(
                        point_of(#[trigger] self@[j]),
                    )),
                !all_in ==> (exists|j: int|
                    0 <= j < self.vec@.len() && !self.boundary_spec().contains_point(
                        point_of(#[trigger] self@[j]),
                    )),
            decreases self.vec@.len() - k,
        {
            let p = Point { x: self.vec[k].x(), y: self.vec[k].y() };
            if !self.base_node.boundary.contain_pt(p) {
                all_in = false;
                proof {
                    assert(!self.boundary_spec().contains_point(point_of(self@[k as int])));
                }
            }
            k += 1;
        }
        let bound: Aabb;
        if all_in {
            bound = self.base_node.boundary;
        } else {
            bound = self.fitting_boundary();
        }
        match self.build_index(bound) {
            Ok(node) => {
                self.base_node = node;
            },
            Err(_) => {
                proof {
                    assert(false);
                }
            },
        }
    }

    /// The smallest square boundary covering every element position,
    /// padded by one unit on each side.  The store must not be empty.
    #[verifier::loop_isolation(false)]
    fn fitting_boundary(&self) -> (bound: Aabb)
        requires
            self.inv(),
            self@.len() >= 1,
        ensures
            bound == fitted_boundary(self@),
            bound.wf(),
            forall|i: int|
                0 <= i < self@.len() ==> bound.contains_point(point_of(#[trigger] self@[i])),
    {
        let mut min_x: i64 = self.vec[0].x();
        let mut max_x: i64 = min_x;
        let mut min_y: i64 = self.vec[0].y();
        let mut max_y: i64 = min_y;
        let mut k: usize = 1;
        proof {
            assert(point_of(self@[0]).is_valid());
            assert(self@.subrange(0, 1)[0] == self@[0]);
        }
        while k < self.vec.len()
            invariant
                1 <= k <= self.vec@.len(),
                -COORD_MAX <= min_x <= max_x <= COORD_MAX,
                -COORD_MAX <= min_y <= max_y <= COORD_MAX,
                forall|j: int|
                    0 <= j < k ==> min_x <= (#[trigger] self@[j]).x_spec() <= max_x && min_y
                        <= self@[j].y_spec() <= max_y,
                min_x == min_x_of(self@.subrange(0, k as int)),
                max_x == max_x_of(self@.subrange(0, k as int)),
                min_y == min_y_of(self@.subrange(0, k as int)),
                max_y == max_y_of(self@.subrange(0, k as int)),
            decreases self.vec@.len() - k,
        {
            let x = self.vec[k].x();
            let y = self.vec[k].y();
            proof {
                assert(point_of(self@[k as int]).is_valid());
                assert(self@.subrange(0, k + 1 as int).drop_last() =~= self@.subrange(
                    0,
                    k as int,
                ));
                assert(self@.subrange(0, k + 1 as int).last() == self@[k as int]);
            }
            if x < min_x {
                min_x = x;
            }
            if x > max_x {
                max_x = x;
            }
            if y < min_y {
                min_y = y;
            }
            if y > max_y {
                max_y = y;
            }
            k += 1;
        }
        proof {
            assert(self@.subrange(0, self@.len() as int) =~= self@);
        }
        let lo_x: i64 = min_x - 1;
        let hi_x: i64 = max_x + 1;
        let lo_y: i64 = min_y - 1;
        let hi_y: i64 = max_y + 1;
        let w: i64 = hi_x - lo_x;
        let h: i64 = hi_y - lo_y;
        let side: i64 = if w < h {
            h
        } else {
            w
        };
        let half: i64 = side / 2;
        let cx: i64 = crate::aabb::half_toward_zero(lo_x + hi_x);
        let cy: i64 = crate::aabb::half_toward_zero(lo_y + hi_y);
        let bound = Aabb { center: Point { x: cx, y: cy }, half_dim: half };
        proof {
            assert(2 * half + 1 >= side);
            assert(2 * cx >= lo_x + hi_x - 1 && 2 * cx <= lo_x + hi_x + 1);
            assert(2 * cy >= lo_y + hi_y - 1 && 2 * cy <= lo_y + hi_y + 1);
            assert forall|i: int| 0 <= i < self@.len() implies bound.contains_point(
                point_of(#[trigger] self@[i]),
            ) by {
                assert(min_x <= self@[i].x_spec() <= max_x);
            }
        }
        bound
    }

    /// Append an element unconditionally: if its position lies
    /// outside the current boundary, the whole index is rebuilt over
    /// a boundary that fits.  Requires a valid position; never fails.
    pub fn insert_fit(&mut self, elem: T)
        requires
            old(self).inv(),
            point_of(elem).is_valid(),
        ensures
            final(self).inv(),
            final(self)@ == old(self)@.push(elem),
            old(self).indexed() ==> final(self).indexed(),
            old(self).boundary_spec().contains_point(point_of(elem))
                ==> final(self).boundary_spec() == old(self).boundary_spec(),
            !old(self).boundary_spec().contains_point(point_of(elem)) ==> final(self).indexed()
                && (forall|i: int|
                0 <= i < final(self)@.len() ==> final(self).boundary_spec().contains_point(
                    point_of(#[trigger] final(self)@[i]),
                )),
    {
        let p = Point { x: elem.x(), y: elem.y() };
        let i = self.vec.len();
        let i_p = IndexPoint { x: p.x, y: p.y, i };
        let in_bounds = self.base_node.boundary.contain_pt(p);
        self.vec.push(elem);
        if in_bounds {
            self.base_node.insert(i_p);
            proof {
                lemma_fresh_insert(old(self).entries(), i_p, i);
                assert(entry_at(self@, i as int) == i_p);
                if old(self).indexed() {
                    assert forall|j: int|
                        0 <= j < self@.len() implies self.entries().contains(
                        #[trigger] entry_at(self@, j),
                    ) by {
                        if j < i {
                            assert(entry_at(self@, j) == entry_at(old(self)@, j));
                            assert(old(self).entries().contains(entry_at(old(self)@, j)));
                        }
                    }
                    assert forall|q: IndexPoint| #[trigger]
                        self.entries().contains(q) implies q.i < self@.len() && q == entry_at(
                        self@,
                        q.i as int,
                    ) by {
                        if q != i_p {
                            assert(old(self).entries().contains(q));
                            assert(entry_at(self@, q.i as int) == entry_at(
                                old(self)@,
                                q.i as int,
                            ));
                        }
                    }
                }
            }
        } else {
            self.rebuild_fit();
        }
    }

    /// A tree over `boundary` holding the given elements, re-indexed
    /// with a fitting boundary when `boundary` does not contain all
    /// of them.
    pub fn new(boundary: Aabb, vec: Vec<T>) -> (r: Self)
        requires
            boundary.wf(),
            N >= 1,
            forall|i: int| 0 <= i < vec@.len() ==> point_of(#[trigger] vec@[i]).is_valid(),
        ensures
            r.inv(),
            r.indexed(),
            r@ == vec@,
            (forall|i: int|
                0 <= i < vec@.len() ==> boundary.contains_point(
                    point_of(#[trigger] vec@[i]),
                )) ==> r.boundary_spec() == boundary,
            forall|i: int|
                0 <= i < vec@.len() ==> r.boundary_spec().contains_point(
                    point_of(#[trigger] vec@[i]),
                ),
    {
        let mut r = Quadtree { vec, base_node: Node::empty(boundary) };
        proof {
            broadcast use vstd::multiset::group_multiset_axioms;

        }
        r.rebuild_fit();
        r
    }

    /// Replace the element at position `i`.  The structural index is
    /// left as it is: it keeps describing the coordinates the store
    /// had when it was built, until the next rebuild.
    pub fn set(&mut self, i: usize, elem: T)
        requires
            old(self).inv(),
            i < old(self)@.len(),
            point_of(elem).is_valid(),
        ensures
            final(self).inv(),
            final(self)@ == old(self)@.update(i as int, elem),
            final(self).boundary_spec() == old(self).boundary_spec(),
            final(self).entries() == old(self).entries(),
    {
        self.vec[i] = elem;
    }

    /// Collect the store indices of the broad-phase result of
    /// `range`: a subtree whose boundary does not intersect `range`
    /// contributes nothing, an intersecting leaf contributes **all**
    /// its entries.  The result is exactly that set: nothing is
    /// reported twice, every broad-phase entry is reported, and in
    /// particular every entry strictly inside `range` is reported.
    pub fn query_range(&self, range: Aabb) -> (r: Vec<usize>)
        requires
            self.inv(),
        ensures
            self.query_result_ok(range, r@),
            forall|k: int|
                0 <= k < r@.len() ==> entries_has_index(self.entries(), #[trigger] r@[k]),
            self.indexed() ==> forall|i: int|
                0 <= i < self@.len() && range.strictly_contains(
                    point_of(#[trigger] self@[i]),
                ) ==> r@.contains(i as usize),
    {
        let mut acc: Vec<usize> = Vec::new();
        self.base_node.query_range(range, &mut acc);
        proof {
            self.base_node.lemma_broad_hits_le_entries(range);
            assert forall|k: int| 0 <= k < acc@.len() implies #[trigger] acc@[k] < self@.len()
                && entries_has_index(self.broad_hits(range), acc@[k]) && entries_has_index(
                self.entries(),
                acc@[k],
            ) by {
                let p = choose|p: IndexPoint|
                    #[trigger] self.broad_hits(range).contains(p) && p.i == acc@[k];
                assert(self.broad_hits(range).count(p) <= self.entries().count(p));
                assert(self.entries().contains(p));
                assert(p.i < self.vec@.len());
            }
            if self.indexed() {
                assert forall|i: int|
                    0 <= i < self@.len() && range.strictly_contains(
                        point_of(#[trigger] self@[i]),
                    ) implies acc@.contains(i as usize) by {
                    let p = entry_at(self@, i);
                    assert(self.entries().contains(p));
                    assert(p.pt() == point_of(self@[i]));
                    assert(acc@.contains(p.i));
                }
            }
        }
        acc
    }
    /// Replace each element within reach of `range` (broad-phase, at
    /// leaf granularity) by the image the callback gives for it.
    /// The callback must keep positions valid; the structural index
    /// is not rebuilt.
    #[verifier::loop_isolation(false)]
    pub fn map_query_range<F: Fn(&T) -> T>(&mut self, range: Aabb, map: F)
        requires
            old(self).inv(),
            forall|t: T| #[trigger] map.requires((&t,)),
            forall|t: T, r: T| #[trigger] map.ensures((&t,), r) ==> point_of(r).is_valid(),
        ensures
            final(self).inv(),
            final(self)@.len() == old(self)@.len(),
            final(self).boundary_spec() == old(self).boundary_spec(),
            final(self).entries() == old(self).entries(),
            forall|i: int|
                0 <= i < final(self)@.len() && !entries_has_index(
                    old(self).broad_hits(range),
                    i as usize,
                ) ==> final(self)@[i] == #[trigger] old(self)@[i],
            forall|i: int|
                0 <= i < final(self)@.len() && entries_has_index(
                    old(self).broad_hits(range),
                    i as usize,
                ) ==> map.ensures((&old(self)@[i],), #[trigger] final(self)@[i]),
            old(self).indexed() ==> forall|i: int|
                0 <= i < final(self)@.len() && range.strictly_contains(
                    point_of(#[trigger] old(self)@[i]),
                ) ==> map.ensures((&old(self)@[i],), final(self)@[i]),
    {
        let idxs = self.query_range(range);
        let mut j: usize = 0;
        while j < idxs.len()
            invariant
                j <= idxs@.len(),
                self.inv(),
                self@.len() == old(self)@.len(),
                self.boundary_spec() == old(self).boundary_spec(),
                self.entries() == old(self).entries(),
                forall|jj: int|
                    0 <= jj < j ==> map.ensures(
                        (&old(self)@[idxs@[jj] as int],),
                        #[trigger] self@[idxs@[jj] as int],
                    ),
                forall|i: int|
                    0 <= i < self@.len() ==> #[trigger] self@[i] == old(self)@[i]
                        || idxs@.subrange(0, j as int).contains(i as usize),
            decreases idxs@.len() - j,
        {
            let i = idxs[j];
            proof {
                assert(!idxs@.subrange(0, j as int).contains(idxs@[j as int]));
                assert(self@[i as int] == old(self)@[i as int]);
            }
            let mapped = map(&self.vec[i]);
            self.vec[i] = mapped;
            proof {
                let pre = idxs@.subrange(0, j as int);
                let post = idxs@.subrange(0, j + 1 as int);
                assert(post =~= pre.push(idxs@[j as int]));
                assert(post[j as int] == idxs@[j as int]);
                assert(post.contains(idxs@[j as int]));
                assert forall|i: int|
                    0 <= i < self@.len() && #[trigger] pre.contains(i as usize) implies post
                    .contains(i as usize) by {
                    let k = choose|k: int| 0 <= k < pre.len() && pre[k] == i as usize;
                    assert(post[k] == pre[k]);
                }
                assert forall|jj: int| 0 <= jj < j + 1 implies map.ensures(
                    (&old(self)@[idxs@[jj] as int],),
                    #[trigger] self@[idxs@[jj] as int],
                ) by {
                    if jj < j {
                        assert(idxs@[jj] != idxs@[j as int]);
                    }
                }
            }
            j += 1;
        }
        let n_e: usize = self.vec.len();
        proof {
            assert(n_e == self@.len());
            assert(idxs@.subrange(0, idxs@.len() as int) =~= idxs@);
            assert forall|i: int|
                0 <= i < self@.len() && !entries_has_index(
                    old(self).broad_hits(range),
                    i as usize,
                ) implies self@[i] == #[trigger] old(self)@[i] by {
                if idxs@.contains(i as usize) {
                    let k = choose|k: int| 0 <= k < idxs@.len() && idxs@[k] == i as usize;
                    assert(entries_has_index(old(self).broad_hits(range), idxs@[k]));
                }
            }
            assert forall|i: int|
                0 <= i < self@.len() && entries_has_index(
                    old(self).broad_hits(range),
                    i as usize,
                ) implies map.ensures((&old(self)@[i],), #[trigger] self@[i]) by {
                let p = choose|p: IndexPoint|
                    #[trigger] old(self).broad_hits(range).contains(p) && p.i == i as usize;
                assert(idxs@.contains(p.i));
                let jj = choose|jj: int| 0 <= jj < idxs@.len() && idxs@[jj] == p.i;
                assert(map.ensures((&old(self)@[idxs@[jj] as int],), self@[idxs@[jj] as int]));
                assert(idxs@[jj] as int == i);
            }
            if old(self).indexed() {
                assert forall|i: int|
                    0 <= i < self@.len() && range.strictly_contains(
                        point_of(#[trigger] old(self)@[i]),
                    ) implies map.ensures((&old(self)@[i],), self@[i]) by {
                    let p = entry_at(old(self)@, i);
                    assert(old(self).entries().contains(p));
                    assert(p.pt() == point_of(old(self)@[i]));
                    assert(idxs@.contains(p.i));
                    let jj = choose|jj: int| 0 <= jj < idxs@.len() && idxs@[jj] == p.i;
                    assert(map.ensures((&old(self)@[idxs@[jj] as int],), self@[idxs@[jj] as int]));
                }
            }
        }
    }

    /// For every element, find its neighbor candidates through the
    /// current index — the query region comes from `range_mapping` —
    /// and apply the pairwise callback to the element and each
    /// candidate other than itself, in both relative orders.  The
    /// callback receives the pair and returns both replacements; it
    /// must keep positions valid.  The structural index is reused as
    /// it is, never rebuilt.  The whole sweep is recorded by a
    /// [`SweepTrace`]: every element change comes from a callback
    /// invocation, and every candidate pair was visited once per
    /// side.
    #[verifier::rlimit(60)]
    pub fn map_with_elem_in_range<R: Fn(&T) -> Aabb, F: Fn(&T, &T) -> (T, T)>(
        &mut self,
        range_mapping: R,
        map: F,
    )
        requires
            old(self).inv(),
            forall|t: T| #[trigger] range_mapping.requires((&t,)),
            forall|a: T, b: T| #[trigger] map.requires((&a, &b)),
            forall|a: T, b: T, r: (T, T)| #[trigger]
                map.ensures((&a, &b), r) ==> point_of(r.0).is_valid() && point_of(
                    r.1,
                ).is_valid(),
        ensures
            final(self).inv(),
            final(self)@.len() == old(self)@.len(),
            final(self).boundary_spec() == old(self).boundary_spec(),
            final(self).entries() == old(self).entries(),
            exists|tr: SweepTrace<T>|
                #[trigger] old(self).sweep_trace_ok(range_mapping, map, old(self)@, tr)
                    && tr.states.last() == final(self)@,
    {
        let ghost n = old(self)@.len() as int;
        let ghost mut g_states: Seq<Seq<T>> = seq![old(self)@];
        let ghost mut g_cur: Seq<usize> = Seq::empty();
        let ghost mut g_oth: Seq<usize> = Seq::empty();
        let ghost mut g_bounds: Seq<int> = seq![0];
        let ghost mut g_regions: Seq<Aabb> = Seq::empty();
        let ghost mut g_cands: Seq<Seq<usize>> = Seq::empty();
        let mut i: usize = 0;
        while i < self.vec.len()
            invariant
                old(self).inv(),
                forall|t: T| #[trigger] range_mapping.requires((&t,)),
                forall|a: T, b: T| #[trigger] map.requires((&a, &b)),
                forall|a: T, b: T, r: (T, T)| #[trigger]
                    map.ensures((&a, &b), r) ==> point_of(r.0).is_valid() && point_of(
                        r.1,
                    ).is_valid(),
                n == old(self)@.len(),
                i <= self.vec@.len(),
                self.inv(),
                self@.len() == n,
                self.boundary_spec() == old(self).boundary_spec(),
                self.base_node == old(self).base_node,
                g_states.len() == g_cur.len() + 1,
                g_oth.len() == g_cur.len(),
                g_states[0] == old(self)@,
                g_states.last() == self@,
                forall|t: int| 0 <= t < g_states.len() ==> (#[trigger] g_states[t]).len() == n,
                g_bounds.len() == i + 1,
                g_bounds[0] == 0,
                g_bounds[i as int] == g_cur.len(),
                forall|q: int| 0 <= q < i ==> #[trigger] g_bounds[q] <= g_bounds[q + 1],
                forall|q: int| 0 <= q <= i ==> 0 <= #[trigger] g_bounds[q] <= g_cur.len(),
                g_regions.len() == i,
                g_cands.len() == i,
                forall|q: int|
                    0 <= q < i ==> call_ensures(
                        range_mapping,
                        (&g_states[g_bounds[q]][q],),
                        #[trigger] g_regions[q],
                    ),
                forall|q: int|
                    0 <= q < i ==> old(self).query_result_ok(
                        #[trigger] g_regions[q],
                        g_cands[q],
                    ),
                forall|q: int|
                    0 <= q < i ==> #[trigger] g_oth.subrange(g_bounds[q], g_bounds[q + 1])
                        == g_cands[q].filter(|u: usize| u != q as usize),
                forall|q: int, t: int|
                    #![trigger g_bounds[q], g_cur[t]]
                    0 <= q < i && g_bounds[q] <= t < g_bounds[q + 1] ==> g_cur[t] == q as usize,
                forall|t: int|
                    0 <= t < g_cur.len() ==> pair_step(
                        map,
                        #[trigger] g_states[t],
                        g_states[t + 1],
                        g_cur[t] as int,
                        g_oth[t] as int,
                    ),
            decreases self.vec@.len() - i,
        {
            let range = range_mapping(&self.vec[i]);
            let idxs = self.query_range(range);
            proof {
                g_regions = g_regions.push(range);
                g_cands = g_cands.push(idxs@);
                assert(old(self).broad_hits(range) == self.broad_hits(range));
                assert(old(self).entries() == self.entries());
                assert(old(self).query_result_ok(range, idxs@));
            }
            let ghost visit_start = g_cur.len() as int;
            let mut k: usize = 0;
            while k < idxs.len()
                invariant
                    old(self).inv(),
                    forall|t: T| #[trigger] range_mapping.requires((&t,)),
                    forall|a: T, b: T| #[trigger] map.requires((&a, &b)),
                    forall|a: T, b: T, r: (T, T)| #[trigger]
                        map.ensures((&a, &b), r) ==> point_of(r.0).is_valid() && point_of(
                            r.1,
                        ).is_valid(),
                    n == old(self)@.len(),
                    i < self.vec@.len(),
                    k <= idxs@.len(),
                    self.inv(),
                    self@.len() == n,
                    self.boundary_spec() == old(self).boundary_spec(),
                    self.base_node == old(self).base_node,
                    forall|kk: int| 0 <= kk < idxs@.len() ==> #[trigger] idxs@[kk] < n,
                    g_states.len() == g_cur.len() + 1,
                    g_oth.len() == g_cur.len(),
                    g_states[0] == old(self)@,
                    g_states.last() == self@,
                    forall|t: int|
                        0 <= t < g_states.len() ==> (#[trigger] g_states[t]).len() == n,
                    g_bounds.len() == i + 1,
                    g_bounds[0] == 0,
                    g_bounds[i as int] == visit_start,
                    forall|q: int| 0 <= q < i ==> #[trigger] g_bounds[q] <= g_bounds[q + 1],
                    forall|q: int| 0 <= q <= i ==> 0 <= #[trigger] g_bounds[q] <= visit_start,
                    g_regions.len() == i + 1,
                    g_cands.len() == i + 1,
                    g_cands[i as int] == idxs@,
                    visit_start <= g_cur.len(),
                    forall|q: int|
                        0 <= q <= i ==> call_ensures(
                            range_mapping,
                            (&g_states[g_bounds[q]][q],),
                            #[trigger] g_regions[q],
                        ),
                    forall|q: int|
                        0 <= q <= i ==> old(self).query_result_ok(
                            #[trigger] g_regions[q],
                            g_cands[q],
                        ),
                    g_oth.subrange(visit_start, g_oth.len() as int) == idxs@.subrange(
                        0,
                        k as int,
                    ).filter(|u: usize| u != i as usize),
                    forall|t: int| visit_start <= t < g_cur.len() ==> #[trigger] g_cur[t] == i,
                    forall|q: int|
                        0 <= q < i ==> #[trigger] g_oth.subrange(g_bounds[q], g_bounds[q + 1])
                            == g_cands[q].filter(|u: usize| u != q as usize),
                    forall|q: int, t: int|
                        #![trigger g_bounds[q], g_cur[t]]
                        0 <= q < i && g_bounds[q] <= t < g_bounds[q + 1] ==> g_cur[t]
                            == q as usize,
                    forall|t: int|
                        0 <= t < g_cur.len() ==> pair_step(
                            map,
                            #[trigger] g_states[t],
                            g_states[t + 1],
                            g_cur[t] as int,
                            g_oth[t] as int,
                        ),
                decreases idxs@.len() - k,
            {
                let j = idxs[k];
                let ghost pre_oth = g_oth;
                let ghost pre_sub = idxs@.subrange(0, k as int);
                let ghost post_sub = idxs@.subrange(0, k + 1 as int);
                proof {
                    assert(post_sub =~= pre_sub.push(idxs@[k as int]));
                    lemma_filter_push(pre_sub, |u: usize| u != i as usize, idxs@[k as int]);
                }
                if j != i {
                    let ghost pre_state = self@;
                    let (a, b) = map(&self.vec[i], &self.vec[j]);
                    self.vec[i] = a;
                    self.vec[j] = b;
                    proof {
                        g_states = g_states.push(self@);
                        g_cur = g_cur.push(i);
                        g_oth = g_oth.push(j);
                        assert(pair_step(map, pre_state, self@, i as int, j as int));
                        lemma_subrange_push_tail(pre_oth, j, visit_start);
                        assert forall|q: int|
                            0 <= q < i implies #[trigger] g_oth.subrange(
                            g_bounds[q],
                            g_bounds[q + 1],
                        ) == g_cands[q].filter(|u: usize| u != q as usize) by {
                            lemma_subrange_of_push(pre_oth, j, g_bounds[q], g_bounds[q + 1]);
                        }
                    }
                }
                k += 1;
            }
            i += 1;
            proof {
                g_bounds = g_bounds.push(g_cur.len() as int);
                assert(idxs@.subrange(0, idxs@.len() as int) =~= idxs@);
                assert(g_oth.subrange(visit_start, g_oth.len() as int) == g_cands[i - 1]
                    .filter(|u: usize| u != (i - 1) as usize));
            }
        }
        proof {
            let tr = SweepTrace::<T> {
                states: g_states,
                cur: g_cur,
                oth: g_oth,
                bounds: g_bounds,
                regions: g_regions,
                cands: g_cands,
            };
            assert(old(self).sweep_trace_ok(range_mapping, map, old(self)@, tr)
                && tr.states.last() == self@);
        }
    }

    /// One full simulation sweep.  For every element, in store
    /// order: apply `first_map`; then, for every neighbor candidate
    /// with a strictly greater store index found through the
    /// pre-sweep index, apply the pairwise `map_with_other` (the
    /// callback updates both sides, so each unordered pair is
    /// visited once); then apply `last_map`.  The whole sweep is
    /// recorded by an [`UpdateTrace`].  The element's final position
    /// is inserted into a replacement index; if some element has
    /// moved outside the boundary, the replacement is discarded and
    /// the index is rebuilt over a fitting boundary.  Either way the
    /// index agrees with the store afterwards.
    #[verifier::rlimit(60)]
    pub fn map_then_map_with_elem_in_range_then_map<
        F1: Fn(&T) -> T,
        R: Fn(&T) -> Aabb,
        F2: Fn(&T, &T) -> (T, T),
        F3: Fn(&T) -> T,
    >(
        &mut self,
        first_map: F1,
        range_mapping: R,
        map_with_other: F2,
        last_map: F3,
    )
        requires
            old(self).inv(),
            forall|t: T| #[trigger] first_map.requires((&t,)),
            forall|t: T| #[trigger] range_mapping.requires((&t,)),
            forall|a: T, b: T| #[trigger] map_with_other.requires((&a, &b)),
            forall|t: T| #[trigger] last_map.requires((&t,)),
            forall|t: T, r: T| #[trigger]
                first_map.ensures((&t,), r) ==> point_of(r).is_valid(),
            forall|a: T, b: T, r: (T, T)| #[trigger]
                map_with_other.ensures((&a, &b), r) ==> point_of(r.0).is_valid() && point_of(
                    r.1,
                ).is_valid(),
            forall|t: T, r: T| #[trigger] last_map.ensures((&t,), r) ==> point_of(r).is_valid(),
        ensures
            final(self).inv(),
            final(self).indexed(),
            final(self)@.len() == old(self)@.len(),
            exists|tr: UpdateTrace<T>|
                #[trigger] old(self).update_trace_ok(
                    first_map,
                    range_mapping,
                    map_with_other,
                    last_map,
                    old(self)@,
                    tr,
                ) && tr.states.last() == final(self)@,
    {
        let ghost n = old(self)@.len() as int;
        let ghost mut g_states: Seq<Seq<T>> = seq![old(self)@];
        let ghost mut g_oth: Seq<usize> = Seq::empty();
        let ghost mut g_bounds: Seq<int> = seq![0];
        let ghost mut g_regions: Seq<Aabb> = Seq::empty();
        let ghost mut g_cands: Seq<Seq<usize>> = Seq::empty();
        let boundary = self.base_node.boundary;
        let mut new_node: Node<N> = Node::empty(boundary);
        let mut failed: bool = false;
        let mut i: usize = 0;
        while i < self.vec.len()
            invariant
                old(self).inv(),
                forall|t: T| #[trigger] first_map.requires((&t,)),
                forall|t: T| #[trigger] range_mapping.requires((&t,)),
                forall|a: T, b: T| #[trigger] map_with_other.requires((&a, &b)),
                forall|t: T| #[trigger] last_map.requires((&t,)),
                forall|t: T, r: T| #[trigger]
                    first_map.ensures((&t,), r) ==> point_of(r).is_valid(),
                forall|a: T, b: T, r: (T, T)| #[trigger]
                    map_with_other.ensures((&a, &b), r) ==> point_of(r.0).is_valid()
                        && point_of(r.1).is_valid(),
                forall|t: T, r: T| #[trigger]
                    last_map.ensures((&t,), r) ==> point_of(r).is_valid(),
                n == old(self)@.len(),
                i <= self.vec@.len(),
                self.inv(),
                self@.len() == n,
                self.boundary_spec() == old(self).boundary_spec(),
                self.base_node == old(self).base_node,
                boundary == old(self).boundary_spec(),
                new_node.wf(),
                new_node.boundary == boundary,
                !failed ==> entries_index_distinct(new_node.entries()),
                !failed ==> forall|p: IndexPoint| #[trigger]
                    new_node.entries().contains(p) ==> p.i < i && p == entry_at(
                        self@,
                        p.i as int,
                    ),
                !failed ==> forall|l: int|
                    0 <= l < i ==> new_node.entries().contains(#[trigger] entry_at(self@, l)),
                g_states.len() == g_oth.len() + 1,
                g_states[0] == old(self)@,
                g_states.last() == self@,
                forall|t: int| 0 <= t < g_states.len() ==> (#[trigger] g_states[t]).len() == n,
                g_bounds.len() == i + 1,
                g_bounds[0] == 0,
                g_bounds[i as int] == g_oth.len(),
                forall|q: int| 0 <= q <= i ==> 0 <= #[trigger] g_bounds[q] <= g_oth.len(),
                g_regions.len() == i,
                g_cands.len() == i,
                forall|q: int|
                    0 <= q < i ==> old(self).visit_ok(
                        first_map,
                        range_mapping,
                        map_with_other,
                        last_map,
                        g_states,
                        g_oth,
                        g_bounds[q],
                        g_bounds[q + 1],
                        #[trigger] g_regions[q],
                        g_cands[q],
                        q,
                    ),
            decreases self.vec@.len() - i,
        {
            broadcast use vstd::multiset::group_multiset_axioms;
            broadcast use vstd::multiset::group_multiset_properties;

            let range = range_mapping(&self.vec[i]);
            let idxs = self.query_range(range);
            proof {
                g_regions = g_regions.push(range);
                g_cands = g_cands.push(idxs@);
                assert(old(self).broad_hits(range) == self.broad_hits(range));
                assert(old(self).entries() == self.entries());
                assert(old(self).query_result_ok(range, idxs@));
            }
            let ghost visit_start = g_oth.len() as int;
            let ghost start_view = self@;
            let ghost start_entries = new_node.entries();
            let ghost start_failed = failed;
            let ghost frozen = self@.subrange(0, i as int);
            let fm = first_map(&self.vec[i]);
            self.vec[i] = fm;
            proof {
                let pre_states = g_states;
                let pre_oth = g_oth;
                g_states = g_states.push(self@);
                g_oth = g_oth.push(i);
                assert(unary_step(first_map, start_view, self@, i as int));
                assert forall|q: int|
                    0 <= q < i implies old(self).visit_ok(
                    first_map,
                    range_mapping,
                    map_with_other,
                    last_map,
                    g_states,
                    g_oth,
                    g_bounds[q],
                    g_bounds[q + 1],
                    #[trigger] g_regions[q],
                    g_cands[q],
                    q,
                ) by {
                    old(self).lemma_visit_ok_push(
                        first_map,
                        range_mapping,
                        map_with_other,
                        last_map,
                        pre_states,
                        pre_oth,
                        self@,
                        i,
                        g_bounds[q],
                        g_bounds[q + 1],
                        g_regions[q],
                        g_cands[q],
                        q,
                    );
                }
                assert(self@.subrange(0, i as int) =~= frozen);
            }
            let mut k: usize = 0;
            while k < idxs.len()
                invariant
                    old(self).inv(),
                    forall|a: T, b: T| #[trigger] map_with_other.requires((&a, &b)),
                    forall|t: T| #[trigger] last_map.requires((&t,)),
                    forall|a: T, b: T, r: (T, T)| #[trigger]
                        map_with_other.ensures((&a, &b), r) ==> point_of(r.0).is_valid()
                            && point_of(r.1).is_valid(),
                    forall|t: T, r: T| #[trigger]
                        last_map.ensures((&t,), r) ==> point_of(r).is_valid(),
                    n == old(self)@.len(),
                    i < self.vec@.len(),
                    k <= idxs@.len(),
                    self.inv(),
                    self@.len() == n,
                    self.boundary_spec() == old(self).boundary_spec(),
                    self.base_node == old(self).base_node,
                    boundary == old(self).boundary_spec(),
                    new_node.wf(),
                    new_node.boundary == boundary,
                    start_entries == new_node.entries(),
                    start_failed == failed,
                    !failed ==> entries_index_distinct(new_node.entries()),
                    !failed ==> forall|p: IndexPoint| #[trigger]
                        new_node.entries().contains(p) ==> p.i < i && p == entry_at(
                            start_view,
                            p.i as int,
                        ),
                    !failed ==> forall|l: int|
                        0 <= l < i ==> new_node.entries().contains(
                            #[trigger] entry_at(start_view, l),
                        ),
                    forall|kk: int| 0 <= kk < idxs@.len() ==> #[trigger] idxs@[kk] < n,
                    start_view.len() == n,
                    frozen == start_view.subrange(0, i as int),
                    self@.subrange(0, i as int) == frozen,
                    call_ensures(range_mapping, (&start_view[i as int],), range),
                    old(self).query_result_ok(range, idxs@),
                    g_states.len() == g_oth.len() + 1,
                    g_states[0] == old(self)@,
                    g_states.last() == self@,
                    forall|t: int|
                        0 <= t < g_states.len() ==> (#[trigger] g_states[t]).len() == n,
                    g_bounds.len() == i + 1,
                    g_bounds[0] == 0,
                    g_bounds[i as int] == visit_start,
                    forall|q: int| 0 <= q <= i ==> 0 <= #[trigger] g_bounds[q] <= visit_start,
                    g_regions.len() == i + 1,
                    g_cands.len() == i + 1,
                    g_regions[i as int] == range,
                    g_cands[i as int] == idxs@,
                    g_states[visit_start] == start_view,
                    visit_start + 1 <= g_oth.len(),
                    unary_step(
                        first_map,
                        g_states[visit_start],
                        g_states[visit_start + 1],
                        i as int,
                    ),
                    g_oth.subrange(visit_start + 1, g_oth.len() as int) == idxs@.subrange(
                        0,
                        k as int,
                    ).filter(|u: usize| u > i as usize),
                    forall|t: int|
                        visit_start + 1 <= t < g_oth.len() ==> pair_step(
                            map_with_other,
                            #[trigger] g_states[t],
                            g_states[t + 1],
                            i as int,
                            g_oth[t] as int,
                        ),
                    forall|q: int|
                        0 <= q < i ==> old(self).visit_ok(
                            first_map,
                            range_mapping,
                            map_with_other,
                            last_map,
                            g_states,
                            g_oth,
                            g_bounds[q],
                            g_bounds[q + 1],
                            #[trigger] g_regions[q],
                            g_cands[q],
                            q,
                        ),
                decreases idxs@.len() - k,
            {
                let j = idxs[k];
                let ghost pre_sub = idxs@.subrange(0, k as int);
                let ghost post_sub = idxs@.subrange(0, k + 1 as int);
                proof {
                    assert(post_sub =~= pre_sub.push(idxs@[k as int]));
                    lemma_filter_push(pre_sub, |u: usize| u > i as usize, idxs@[k as int]);
                }
                if j > i {
                    let ghost pre_states = g_states;
                    let ghost pre_oth = g_oth;
                    let ghost pre_state = self@;
                    let (a, b) = map_with_other(&self.vec[i], &self.vec[j]);
                    self.vec[i] = a;
                    self.vec[j] = b;
                    proof {
                        g_states = g_states.push(self@);
                        g_oth = g_oth.push(j);
                        assert(pair_step(map_with_other, pre_state, self@, i as int, j as int));
                        lemma_subrange_push_tail(pre_oth, j, visit_start + 1);
                        assert(self@.subrange(0, i as int) =~= frozen);
                        assert forall|t: int|
                            visit_start + 1 <= t < g_oth.len() implies pair_step(
                            map_with_other,
                            #[trigger] g_states[t],
                            g_states[t + 1],
                            i as int,
                            g_oth[t] as int,
                        ) by {
                            if t < g_oth.len() - 1 {
                                assert(g_states[t] == pre_states[t]);
                                assert(g_states[t + 1] == pre_states[t + 1]);
                                assert(g_oth[t] == pre_oth[t]);
                            }
                        }
                        assert forall|q: int|
                            0 <= q < i implies old(self).visit_ok(
                            first_map,
                            range_mapping,
                            map_with_other,
                            last_map,
                            g_states,
                            g_oth,
                            g_bounds[q],
                            g_bounds[q + 1],
                            #[trigger] g_regions[q],
                            g_cands[q],
                            q,
                        ) by {
                            old(self).lemma_visit_ok_push(
                                first_map,
                                range_mapping,
                                map_with_other,
                                last_map,
                                pre_states,
                                pre_oth,
                                self@,
                                j,
                                g_bounds[q],
                                g_bounds[q + 1],
                                g_regions[q],
                                g_cands[q],
                                q,
                            );
                        }
                    }
                }
                k += 1;
            }
            let lm = last_map(&self.vec[i]);
            self.vec[i] = lm;
            proof {
                let pre_states = g_states;
                let pre_oth = g_oth;
                let pre_state = pre_states.last();
                g_states = g_states.push(self@);
                g_oth = g_oth.push(i);
                assert(unary_step(last_map, pre_state, self@, i as int));
                assert(self@.subrange(0, i as int) =~= frozen);
                assert forall|l: int| 0 <= l < i implies #[trigger] self@[l] == start_view[l] by {
                    assert(self@.subrange(0, i as int)[l] == self@[l]);
                    assert(start_view.subrange(0, i as int)[l] == start_view[l]);
                }
                assert forall|q: int|
                    0 <= q < i implies old(self).visit_ok(
                    first_map,
                    range_mapping,
                    map_with_other,
                    last_map,
                    g_states,
                    g_oth,
                    g_bounds[q],
                    g_bounds[q + 1],
                    #[trigger] g_regions[q],
                    g_cands[q],
                    q,
                ) by {
                    old(self).lemma_visit_ok_push(
                        first_map,
                        range_mapping,
                        map_with_other,
                        last_map,
                        pre_states,
                        pre_oth,
                        self@,
                        i,
                        g_bounds[q],
                        g_bounds[q + 1],
                        g_regions[q],
                        g_cands[q],
                        q,
                    );
                }
                // the new events of this visit keep their shape under
                // the final append
                assert(g_states[visit_start] == start_view);
                assert forall|t: int|
                    visit_start + 1 <= t < g_oth.len() - 1 implies pair_step(
                    map_with_other,
                    #[trigger] g_states[t],
                    g_states[t + 1],
                    i as int,
                    g_oth[t] as int,
                ) by {
                    assert(g_states[t] == pre_states[t]);
                    assert(g_states[t + 1] == pre_states[t + 1]);
                    assert(g_oth[t] == pre_oth[t]);
                }
                lemma_subrange_of_push(pre_oth, i, visit_start + 1, pre_oth.len() as int);
                assert(idxs@.subrange(0, idxs@.len() as int) =~= idxs@);
            }
            if !failed {
                let p = Point { x: self.vec[i].x(), y: self.vec[i].y() };
                if boundary.contain_pt(p) {
                    let i_p = IndexPoint { x: p.x, y: p.y, i };
                    let ghost before = new_node.entries();
                    new_node.insert(i_p);
                    proof {
                        lemma_fresh_insert(before, i_p, i);
                        assert(entry_at(self@, i as int) == i_p);
                    }
                } else {
                    failed = true;
                }
            }
            i += 1;
            proof {
                g_bounds = g_bounds.push(g_oth.len() as int);
                assert(old(self).visit_ok(
                    first_map,
                    range_mapping,
                    map_with_other,
                    last_map,
                    g_states,
                    g_oth,
                    visit_start,
                    g_oth.len() as int,
                    range,
                    idxs@,
                    i - 1,
                ));
                if !failed {
                    assert(!start_failed);
                    assert forall|l: int| 0 <= l < i - 1 implies entry_at(self@, l) == entry_at(
                        start_view,
                        l,
                    ) by {
                        assert(self@[l] == frozen[l]);
                        assert(self@.subrange(0, i - 1)[l] == self@[l]);
                        assert(start_view.subrange(0, i - 1)[l] == start_view[l]);
                    }
                    assert forall|p: IndexPoint| #[trigger]
                        new_node.entries().contains(p) implies p.i < i && p == entry_at(
                        self@,
                        p.i as int,
                    ) by {
                        if p != entry_at(self@, i - 1) {
                            assert(start_entries.contains(p));
                            assert(p == entry_at(start_view, p.i as int));
                        }
                    }
                    assert forall|l: int|
                        0 <= l < i implies new_node.entries().contains(
                        #[trigger] entry_at(self@, l),
                    ) by {
                        if l < i - 1 {
                            assert(start_entries.contains(entry_at(start_view, l)));
                            assert(entry_at(self@, l) == entry_at(start_view, l));
                        }
                    }
                }
            }
        }
        if !failed {
            self.base_node = new_node;
        } else {
            self.rebuild_fit();
        }
        proof {
            let tr = UpdateTrace::<T> {
                states: g_states,
                oth: g_oth,
                bounds: g_bounds,
                regions: g_regions,
                cands: g_cands,
            };
            assert(old(self).update_trace_ok(
                first_map,
                range_mapping,
                map_with_other,
                last_map,
                old(self)@,
                tr,
            ) && tr.states.last() == self@);
        }
    }

}

/// Law: a query whose region strictly covers every element of a
/// fully indexed tree returns, as a set, exactly the store
/// positions: a position is reported if and only if it exists.  The
/// hypotheses on `out` are the guarantees [`Quadtree::query_range`]
/// gives about its result.
pub proof fn lemma_query_covering_returns_all<T: As2dPoint, const N: usize>(
    q: Quadtree<T, N>,
    range: Aabb,
    out: Seq<usize>,
)
    requires
        q.indexed(),
        forall|k: int|
            0 <= k < out.len() ==> #[trigger] out[k] < q@.len() && entries_has_index(
                q.entries(),
                out[k],
            ),
        forall|p: IndexPoint| #[trigger]
            q.entries().contains(p) && range.strictly_contains(p.pt()) ==> out.contains(p.i),
        forall|i: int|
            0 <= i < q@.len() ==> range.strictly_contains(point_of(#[trigger] q@[i])),
    ensures
        forall|u: usize| #[trigger] out.contains(u) <==> (u as int) < q@.len(),
{
    assert forall|u: usize| #[trigger] out.contains(u) <==> (u as int) < q@.len() by {
        if out.contains(u) {
            let k = choose|k: int| 0 <= k < out.len() && out[k] == u;
            assert(out[k] < q@.len());
        }
        if (u as int) < q@.len() {
            let p = entry_at(q@, u as int);
            assert(q.entries().contains(p));
            assert(p.pt() == point_of(q@[u as int]));
            assert(out.contains(p.i));
        }
    }
}

/// Law: rebuilding the index over the same store does not change
/// what a covering query returns.  `pre` and `post` are the tree
/// before and after a rebuild that kept the store (`post@ == pre@`)
/// and left both sides fully indexed; `out_pre` and `out_post` are
/// results of querying each with a region that strictly covers every
/// element, each satisfying the guarantees of
/// [`Quadtree::query_range`].  The two results are equal as sets of
/// indices.
pub proof fn lemma_rebuild_preserves_query<T: As2dPoint, const N: usize>(
    pre: Quadtree<T, N>,
    post: Quadtree<T, N>,
    range: Aabb,
    out_pre: Seq<usize>,
    out_post: Seq<usize>,
)
    requires
        pre.indexed(),
        post.indexed(),
        post@ == pre@,
        forall|i: int|
            0 <= i < pre@.len() ==> range.strictly_contains(point_of(#[trigger] pre@[i])),
        forall|k: int|
            0 <= k < out_pre.len() ==> #[trigger] out_pre[k] < pre@.len() && entries_has_index(
                pre.entries(),
                out_pre[k],
            ),
        forall|p: IndexPoint| #[trigger]
            pre.entries().contains(p) && range.strictly_contains(p.pt()) ==> out_pre.contains(
                p.i,
            ),
        forall|k: int|
            0 <= k < out_post.len() ==> #[trigger] out_post[k] < post@.len()
                && entries_has_index(post.entries(), out_post[k]),
        forall|p: IndexPoint| #[trigger]
            post.entries().contains(p) && range.strictly_contains(p.pt()) ==> out_post.contains(
                p.i,
            ),
    ensures
        forall|u: usize| #[trigger] out_pre.contains(u) <==> out_post.contains(u),
{
    lemma_query_covering_returns_all(pre, range, out_pre);
    lemma_query_covering_returns_all(post, range, out_post);
}

/// Law of the pairwise sweep: when some element `j` lies strictly
/// inside the query region derived from another element, a query
/// result for that region names position `j` exactly once.  The
/// interaction callback therefore fires exactly once for that
/// candidate from this side: the sweep calls it once per occurrence
/// of a greater index in the result.
pub proof fn lemma_candidate_reported_once<T: As2dPoint, const N: usize>(
    q: Quadtree<T, N>,
    range: Aabb,
    out: Seq<usize>,
    j: int,
)
    requires
        q.indexed(),
        0 <= j < q@.len(),
        range.strictly_contains(point_of(q@[j])),
        out.no_duplicates(),
        forall|p: IndexPoint| #[trigger]
            q.entries().contains(p) && range.strictly_contains(p.pt()) ==> out.contains(p.i),
    ensures
        out.to_multiset().count(j as usize) == 1,
{
    broadcast use vstd::seq_lib::group_to_multiset_ensures;

    let p = entry_at(q@, j);
    assert(q.entries().contains(p));
    assert(p.pt() == point_of(q@[j]));
    assert(out.contains(p.i));
    out.lemma_multiset_has_no_duplicates();
}

/// Filtering a sequence extended by one element keeps the old
/// filtered part and appends the element exactly when it passes.
proof fn lemma_filter_push<A>(s: Seq<A>, pred: spec_fn(A) -> bool, x: A)
    ensures
        pred(x) ==> s.push(x).filter(pred) == s.filter(pred).push(x),
        !pred(x) ==> s.push(x).filter(pred) == s.filter(pred),
{
    reveal(Seq::filter);
    assert(s.push(x).drop_last() =~= s);
    assert(s.push(x).last() == x);
}

/// Appending to a sequence leaves every subrange of the old part as
/// it was.
proof fn lemma_subrange_of_push<A>(s: Seq<A>, x: A, a: int, b: int)
    requires
        0 <= a <= b <= s.len(),
    ensures
        s.push(x).subrange(a, b) == s.subrange(a, b),
{
    assert(s.push(x).subrange(a, b) =~= s.subrange(a, b));
}

/// A subrange that reaches the end of a sequence, after appending
/// one element, is the old tail subrange with that element appended.
proof fn lemma_subrange_push_tail<A>(s: Seq<A>, x: A, a: int)
    requires
        0 <= a <= s.len(),
    ensures
        s.push(x).subrange(a, s.len() as int + 1) == s.subrange(a, s.len() as int).push(x),
{
    assert(s.push(x).subrange(a, s.len() as int + 1) =~= s.subrange(a, s.len() as int).push(
        x,
    ));
}

/// Inserting an entry that carries a fresh store index keeps the
/// index set distinct and bounded by the grown store.
proof fn lemma_fresh_insert(m: Multiset<IndexPoint>, ip: IndexPoint, len: usize)
    requires
        entries_index_distinct(m),
        forall|p: IndexPoint| #[trigger] m.contains(p) ==> p.i < len,
        ip.i == len,
    ensures
        entries_index_distinct(m.insert(ip)),
        forall|p: IndexPoint| #[trigger] m.insert(ip).contains(p) ==> p.i < len + 1,
        forall|p: IndexPoint| #[trigger]
            m.insert(ip).contains(p) ==> (m.contains(p) || p == ip),
        m.insert(ip).contains(ip),
{
    broadcast use vstd::multiset::group_multiset_axioms;
    broadcast use vstd::multiset::group_multiset_properties;

    assert(m.count(ip) == 0) by {
        if m.count(ip) > 0 {
            assert(m.contains(ip));
        }
    }
    assert forall|p: IndexPoint| #[trigger] m.insert(ip).count(p) <= 1 by {
        if p == ip {
            assert(m.insert(ip).count(ip) == m.count(ip) + 1);
        } else {
            assert(m.insert(ip).count(p) == m.count(p));
        }
    }
    assert forall|p: IndexPoint| #[trigger] m.insert(ip).contains(p) implies (m.contains(p)
        || p == ip) by {
        if p != ip {
            assert(m.insert(ip).count(p) == m.count(p));
        }
    }
}

} // verus!
