//! Bookkeeping of a bounding volume hierarchy over a scene's primitives.
//!
//! The hierarchy is an arena of nodes over one ordering of the primitives:
//! each node owns a contiguous range of that ordering, an interior node splits
//! its range into two adjacent child ranges, and the leaves' ranges partition
//! the ordering. Geometry stays with the caller: a primitive is known here by
//! its index, by one order key per axis for the centre of its box, and the cost
//! of a candidate split is handed in as an order key too.
//!
//! An order key is a value's place in the numeric order of the coordinates it
//! is compared with, or `None` where the value is not a number. Keys that are
//! `None` sort after every number and equal to each other.
use vstd::prelude::*;

verus! {

/// Position of an order key in the sort order: numbers by their key, and
/// everything that is not a number after all of them, all in one place.
pub open spec fn rank_of(k: Option<u32>) -> int {
    match k {
        Some(x) => x as int,
        None => u32::MAX as int + 1,
    }
}

/// The position of an order key in the sort order, as `rank_of` gives it.
pub fn rank(k: Option<u32>) -> (r: u64)
    ensures
        r as int == rank_of(k),
{
    match k {
        Some(x) => x as u64,
        None => u32::MAX as u64 + 1,
    }
}

/// Primitive `a` comes no later than primitive `b` when ordered by `keys`:
/// by rank first, and by index among equal ranks.
pub open spec fn member_le(keys: Seq<Option<u32>>, a: usize, b: usize) -> bool {
    rank_of(keys[a as int]) < rank_of(keys[b as int]) || (rank_of(keys[a as int]) == rank_of(
        keys[b as int],
    ) && a <= b)
}

/// The sort key of primitive `i`: its rank, then its index.
fn member_key(keys: &Vec<Option<u32>>, i: usize) -> (r: (u64, usize))
    requires
        i < keys.len(),
    ensures
        r.0 as int == rank_of(keys@[i as int]),
        r.1 == i,
{
    (rank(keys[i]), i)
}

/// Relies on `slice::sort_unstable_by_key`: the elements of `v[start..end]`
/// are rearranged into ascending order of their key, a `(u64, usize)` pair
/// compared lexicographically; the rest of `v` is left as it was.
#[verifier::external_body]
fn sort_range_by_key(v: &mut Vec<usize>, start: usize, end: usize, keys: &Vec<Option<u32>>)
    requires
        start <= end <= old(v).len(),
        forall|i: int| start <= i < end ==> (#[trigger] old(v)@[i]) < keys.len(),
    ensures
        final(v)@.len() == old(v)@.len(),
        forall|i: int|
            0 <= i < old(v)@.len() && !(start <= i < end) ==> (#[trigger] final(v)@[i])
                == old(v)@[i],
        final(v)@.subrange(start as int, end as int).to_multiset() == old(v)@.subrange(
            start as int,
            end as int,
        ).to_multiset(),
        forall|i: int, j: int|
            start <= i < j < end ==> member_le(keys@, #[trigger] final(v)@[i], #[trigger] final(v)@[j]),
{
    v[start..end].sort_unstable_by_key(|&i| member_key(keys, i));
}

/// `costs[a][p]` is a number and no other cost is a smaller one, nor an equal
/// one at an earlier axis, or at an earlier position on the same axis.
pub open spec fn is_best(costs: Seq<Vec<Option<u32>>>, a: int, p: int) -> bool {
    &&& 0 <= a < costs.len()
    &&& 0 <= p < costs[a]@.len()
    &&& costs[a]@[p] is Some
    &&& forall|a2: int, p2: int|
        0 <= a2 < costs.len() && 0 <= p2 < costs[a2]@.len() && (#[trigger] costs[a2]@[p2]) is Some
            ==> {
            let c = costs[a]@[p]->0;
            let c2 = costs[a2]@[p2]->0;
            c <= c2 && ((a2 < a || (a2 == a && p2 < p)) ==> c < c2)
        }
}

/// Some cost in `costs` is a number.
pub open spec fn has_number(costs: Seq<Vec<Option<u32>>>) -> bool {
    exists|a: int, p: int|
        0 <= a < costs.len() && 0 <= p < costs[a]@.len() && (#[trigger] costs[a]@[p]) is Some
}

/// The cheapest split: over the axes in turn and, on each, over the positions
/// in turn, the first whose cost is least among the costs that are numbers.
/// `None` where no cost is a number.
pub fn best_split(costs: &Vec<Vec<Option<u32>>>) -> (r: Option<(usize, usize)>)
    ensures
        r is None <==> !has_number(costs@),
        r matches Some((a, p)) ==> is_best(costs@, a as int, p as int),
{
    let mut best: Option<(usize, usize)> = None;
    let mut best_cost: u32 = 0;
    let mut a: usize = 0;
    while a < costs.len()
        invariant
            a <= costs.len(),
            best is None ==> forall|a2: int, p2: int|
                0 <= a2 < a && 0 <= p2 < costs@[a2]@.len() ==> (#[trigger] costs@[a2]@[p2]) is None,
            best matches Some((ba, bp)) ==> {
                &&& ba < a
                &&& bp < costs@[ba as int]@.len()
                &&& costs@[ba as int]@[bp as int] == Some(best_cost)
                &&& forall|a2: int, p2: int|
                    0 <= a2 < a && 0 <= p2 < costs@[a2]@.len() && (#[trigger] costs@[a2]@[p2]) is Some
                        ==> {
                        let c2 = costs@[a2]@[p2]->0;
                        best_cost <= c2 && ((a2 < ba || (a2 == ba && p2 < bp)) ==> best_cost < c2)
                    }
            },
        decreases costs.len() - a,
    {
        let row = &costs[a];
        let mut p: usize = 0;
        while p < row.len()
            invariant
                a < costs.len(),
                row == costs@[a as int],
                p <= row.len(),
                best is None ==> forall|a2: int, p2: int|
                    (0 <= a2 < a && 0 <= p2 < costs@[a2]@.len()) || (a2 == a && 0 <= p2 < p)
                        ==> (#[trigger] costs@[a2]@[p2]) is None,
                best matches Some((ba, bp)) ==> {
                    &&& ba <= a
                    &&& bp < costs@[ba as int]@.len()
                    &&& (ba == a ==> bp < p)
                    &&& costs@[ba as int]@[bp as int] == Some(best_cost)
                    &&& forall|a2: int, p2: int|
                        ((0 <= a2 < a && 0 <= p2 < costs@[a2]@.len()) || (a2 == a && 0 <= p2 < p))
                            && (#[trigger] costs@[a2]@[p2]) is Some ==> {
                            let c2 = costs@[a2]@[p2]->0;
                            best_cost <= c2 && ((a2 < ba || (a2 == ba && p2 < bp)) ==> best_cost
                                < c2)
                        }
                },
            decreases row.len() - p,
        {
            if let Some(c) = row[p] {
                if best.is_none() || c < best_cost {
                    best = Some((a, p));
                    best_cost = c;
                }
            }
            p = p + 1;
        }
        a = a + 1;
    }
    proof {
        if best is None {
            assert(!has_number(costs@));
        }
    }
    best
}

/// A node of the hierarchy: the range `start..end` of the ordering that it
/// owns, and for an interior node the arena indices of its two children.
#[derive(Clone, Copy, Debug)]
pub struct BvhNode {
    pub start: usize,
    pub end: usize,
    pub children: Option<(usize, usize)>,
}

/// The indices `0, 1, ..., n - 1` in order.
pub open spec fn ids(n: nat) -> Seq<usize> {
    Seq::new(n, |i: int| i as usize)
}

/// Node `i` is a leaf and its range holds position `pos` of the ordering.
pub open spec fn leaf_covers(nodes: Seq<BvhNode>, i: int, pos: int) -> bool {
    &&& 0 <= i < nodes.len()
    &&& nodes[i].children is None
    &&& nodes[i].start <= pos < nodes[i].end
}

/// Some leaf holds position `pos` of the ordering.
pub open spec fn covered(nodes: Seq<BvhNode>, pos: int) -> bool {
    exists|i: int| #[trigger] leaf_covers(nodes, i, pos)
}

/// Node `i` has a range within `0..n`, non-empty unless `n` is zero, and an
/// interior node's children come after it in the arena and split its range
/// into two adjacent parts.
pub open spec fn node_ok(nodes: Seq<BvhNode>, i: int, n: nat) -> bool {
    let nd = nodes[i];
    &&& nd.start <= nd.end <= n
    &&& n > 0 ==> nd.start < nd.end
    &&& nd.children matches Some((l, r)) ==> {
        &&& i < l < nodes.len()
        &&& i < r < nodes.len()
        &&& nodes[l as int].start == nd.start
        &&& nodes[l as int].end == nodes[r as int].start
        &&& nodes[r as int].end == nd.end
    }
}

/// The arena describes a hierarchy over `n` ordered primitives: the root is
/// node 0 and owns all of them, every node is well placed, and each position
/// of the ordering lies in exactly one leaf.
pub open spec fn tree_ok(nodes: Seq<BvhNode>, n: nat) -> bool {
    &&& nodes.len() >= 1
    &&& nodes[0].start == 0
    &&& nodes[0].end == n
    &&& forall|i: int| 0 <= i < nodes.len() ==> #[trigger] node_ok(nodes, i, n)
    &&& forall|pos: int| 0 <= pos < n ==> #[trigger] covered(nodes, pos)
    &&& forall|i: int, j: int, pos: int|
        leaf_covers(nodes, i, pos) && leaf_covers(nodes, j, pos) ==> i == j
}

/// Node `i` is a leaf of at least three primitives, which the build splits
/// further where a split pays.
pub open spec fn splittable(nodes: Seq<BvhNode>, i: int) -> bool {
    &&& 0 <= i < nodes.len()
    &&& nodes[i].children is None
    &&& nodes[i].end - nodes[i].start >= 3
}

/// Builds a hierarchy by the surface area heuristic, one partition at a time.
///
/// The caller takes the partitions that `next_pending` hands out; for each it
/// sorts the partition along every axis with `sort_partition`, works out the
/// cost of each candidate split along that order, and hands the costs to
/// `split`. When `next_pending` returns `None` the hierarchy is complete.
pub struct BvhBuilder {
    keys: Vec<Vec<Option<u32>>>,
    order: Vec<usize>,
    nodes: Vec<BvhNode>,
    pending: Vec<usize>,
}

impl BvhBuilder {
    /// The order keys of the primitives' box centres, one list per axis.
    pub closed spec fn keys_view(&self) -> Seq<Vec<Option<u32>>> {
        self.keys@
    }

    /// The ordering of the primitives: position to primitive index.
    pub closed spec fn order_view(&self) -> Seq<usize> {
        self.order@
    }

    /// The node arena; node 0 is the root.
    pub closed spec fn nodes_view(&self) -> Seq<BvhNode> {
        self.nodes@
    }

    /// The nodes still to be considered for a split, the last one first.
    pub closed spec fn pending_view(&self) -> Seq<usize> {
        self.pending@
    }

    /// The number of primitives.
    pub open spec fn count(&self) -> nat {
        self.order_view().len()
    }

    /// Each axis has a key for every primitive, the ordering holds each
    /// primitive once, the arena is a hierarchy over the ordering, and the
    /// pending list names nodes of the arena.
    pub open spec fn wf(&self) -> bool {
        let n = self.count();
        &&& self.keys_view().len() >= 1
        &&& forall|a: int| 0 <= a < self.keys_view().len() ==> #[trigger] self.keys_view()[a]@.len() == n
        &&& self.order_view().to_multiset() == ids(n).to_multiset()
        &&& tree_ok(self.nodes_view(), n)
        &&& forall|k: int| 0 <= k < self.pending_view().len() ==> #[trigger] self.pending_view()[k] < self.nodes_view().len()
    }

    /// Starts a build over the primitives `0..n`, where `keys[a][i]` is the
    /// order key of the centre of primitive `i` on axis `a`: the ordering is
    /// `0..n`, and the root is a single leaf, waiting to be split.
    pub fn new(keys: Vec<Vec<Option<u32>>>) -> (r: BvhBuilder)
        requires
            keys.len() >= 1,
            forall|a: int| 0 <= a < keys.len() ==> #[trigger] keys@[a]@.len() == keys@[0]@.len(),
        ensures
            r.wf(),
            r.keys_view() == keys@,
            r.order_view() == ids(keys@[0]@.len()),
            r.nodes_view() == seq![BvhNode { start: 0, end: keys@[0]@.len() as usize, children: None }],
            r.pending_view() == seq![0usize],
    {
        let n = keys[0].len();
        let mut order: Vec<usize> = Vec::new();
        let mut i: usize = 0;
        while i < n
            invariant
                i <= n,
                order@ == ids(i as nat),
            decreases n - i,
        {
            order.push(i);
            i = i + 1;
            assert(order@ =~= ids(i as nat));
        }
        let mut nodes: Vec<BvhNode> = Vec::new();
        nodes.push(BvhNode { start: 0, end: n, children: None });
        let mut pending: Vec<usize> = Vec::new();
        pending.push(0);
        let r = BvhBuilder { keys, order, nodes, pending };
        proof {
            assert forall|pos: int| 0 <= pos < n implies #[trigger] covered(r.nodes@, pos) by {
                assert(leaf_covers(r.nodes@, 0, pos));
            }
        }
        r
    }

    /// The ordering of the primitives: position to primitive index.
    pub fn order(&self) -> (r: &Vec<usize>)
        ensures
            r@ == self.order_view(),
    {
        &self.order
    }

    /// The node arena; node 0 is the root.
    pub fn nodes(&self) -> (r: &Vec<BvhNode>)
        ensures
            r@ == self.nodes_view(),
    {
        &self.nodes
    }

    /// Takes from the pending list, last first, the next node that is a leaf
    /// of at least three primitives, dropping those passed over; `None` once
    /// the list holds no such node, and the list is then empty.
    pub fn next_pending(&mut self) -> (r: Option<usize>)
        requires
            old(self).wf(),
        ensures
            final(self).wf(),
            final(self).keys_view() == old(self).keys_view(),
            final(self).order_view() == old(self).order_view(),
            final(self).nodes_view() == old(self).nodes_view(),
            r is None ==> {
                &&& final(self).pending_view().len() == 0
                &&& forall|k: int|
                    0 <= k < old(self).pending_view().len() ==> !splittable(
                        old(self).nodes_view(),
                        #[trigger] old(self).pending_view()[k] as int,
                    )
            },
            r matches Some(i) ==> {
                let k = final(self).pending_view().len() as int;
                &&& k < old(self).pending_view().len()
                &&& final(self).pending_view() == old(self).pending_view().take(k)
                &&& old(self).pending_view()[k] == i
                &&& splittable(old(self).nodes_view(), i as int)
                &&& forall|j: int|
                    k < j < old(self).pending_view().len() ==> !splittable(
                        old(self).nodes_view(),
                        #[trigger] old(self).pending_view()[j] as int,
                    )
            },
    {
        let ghost before = self.pending@;
        loop
            invariant
                self.wf(),
                self.keys@ == old(self).keys@,
                self.order@ == old(self).order@,
                self.nodes@ == old(self).nodes@,
                before == old(self).pending@,
                self.pending@.len() <= before.len(),
                self.pending@ == before.take(self.pending@.len() as int),
                forall|j: int|
                    self.pending@.len() <= j < before.len() ==> !splittable(
                        self.nodes@,
                        #[trigger] before[j] as int,
                    ),
            decreases self.pending@.len(),
        {
            let ghost prev = self.pending@;
            proof {
                if prev.len() > 0 {
                    assert(self.pending_view()[prev.len() - 1] < self.nodes_view().len());
                }
            }
            match self.pending.pop() {
                None => {
                    return None;
                },
                Some(i) => {
                    assert(prev[prev.len() - 1] == i);
                    assert(self.pending@ =~= before.take(self.pending@.len() as int));
                    assert(node_ok(self.nodes_view(), i as int, self.count()));
                    let nd = self.nodes[i];
                    if nd.children.is_none() && nd.end - nd.start >= 3 {
                        return Some(i);
                    }
                },
            }
        }
    }

    /// Sorts the primitives of leaf `node` along axis `axis`: its range of
    /// the ordering is rearranged into ascending order of the primitives'
    /// keys on that axis, keys that are not numbers last, and equal keys by
    /// primitive index. Nothing else changes.
    pub fn sort_partition(&mut self, node: usize, axis: usize)
        requires
            old(self).wf(),
            node < old(self).nodes_view().len(),
            old(self).nodes_view()[node as int].children is None,
            axis < old(self).keys_view().len(),
        ensures
            final(self).wf(),
            final(self).keys_view() == old(self).keys_view(),
            final(self).nodes_view() == old(self).nodes_view(),
            final(self).pending_view() == old(self).pending_view(),
            rearranged(
                old(self).order_view(),
                final(self).order_view(),
                old(self).nodes_view()[node as int].start as int,
                old(self).nodes_view()[node as int].end as int,
            ),
            sorted_by(
                final(self).order_view(),
                old(self).nodes_view()[node as int].start as int,
                old(self).nodes_view()[node as int].end as int,
                old(self).keys_view()[axis as int]@,
            ),
    {
        let start = self.nodes[node].start;
        let end = self.nodes[node].end;
        proof {
            assert(node_ok(self.nodes@, node as int, self.count()));
            lemma_order_bounded(self.order@, self.count());
        }
        sort_range_by_key(&mut self.order, start, end, &self.keys[axis]);
        proof {
            lemma_rearranged_multiset(old(self).order@, self.order@, start as int, end as int);
            assert(self.pending_view() == old(self).pending_view());
        }
    }

    /// Splits leaf `node` by the surface area heuristic. `costs[a][p]` is the
    /// order key of the cost of splitting the leaf's primitives, sorted along
    /// axis `a` as `sort_partition` sorts them, between positions `p` and
    /// `p + 1` of that order. The cheapest split (see `best_split`) is taken
    /// where it leaves primitives on both sides: the leaf's range is sorted
    /// along its axis, the node becomes an interior node over two new leaves,
    /// the first `p + 1` primitives and the rest, and both leaves are added to
    /// the pending list. Otherwise nothing changes. Returns whether it split.
    pub fn split(&mut self, node: usize, costs: &Vec<Vec<Option<u32>>>) -> (r: bool)
        requires
            old(self).wf(),
            splittable(old(self).nodes_view(), node as int),
            old(self).nodes_view().len() + 2 <= usize::MAX,
            costs@.len() == old(self).keys_view().len(),
            forall|a: int|
                0 <= a < costs@.len() ==> (#[trigger] costs@[a])@.len()
                    == old(self).nodes_view()[node as int].end - old(self).nodes_view()[node as int].start,
        ensures
            final(self).wf(),
            final(self).keys_view() == old(self).keys_view(),
            ({
                let nd = old(self).nodes_view()[node as int];
                r <==> exists|a: int, p: int| is_best(costs@, a, p) && p + 1 < nd.end - nd.start
            }),
            !r ==> final(self).order_view() == old(self).order_view() && final(self).nodes_view()
                == old(self).nodes_view() && final(self).pending_view() == old(self).pending_view(),
            forall|a: int, p: int|
                is_best(costs@, a, p) && p + 1 < old(self).nodes_view()[node as int].end
                    - old(self).nodes_view()[node as int].start ==> split_by(
                    *old(self),
                    *final(self),
                    node as int,
                    a,
                    p,
                ),
    {
        let nd = self.nodes[node];
        let start = nd.start;
        let end = nd.end;
        proof {
            assert(node_ok(self.nodes_view(), node as int, self.count()));
            lemma_best_unique(costs@);
        }
        let choice = best_split(costs);
        match choice {
            None => false,
            Some((axis, pivot)) => {
                if pivot + 1 >= end - start {
                    return false;
                }
                proof {
                    lemma_order_bounded(self.order@, self.count());
                }
                sort_range_by_key(&mut self.order, start, end, &self.keys[axis]);
                proof {
                    lemma_rearranged_multiset(old(self).order@, self.order@, start as int, end as int);
                }
                let l = self.nodes.len();
                let mid = start + pivot + 1;
                self.nodes.set(node, BvhNode { start, end, children: Some((l, l + 1)) });
                self.nodes.push(BvhNode { start, end: mid, children: None });
                self.nodes.push(BvhNode { start: mid, end, children: None });
                self.pending.push(l);
                self.pending.push(l + 1);
                proof {
                    lemma_split_tree(old(self).nodes@, self.nodes@, node as int, mid as int, self.count());
                    assert(self.pending_view() == old(self).pending_view().push(l).push((l + 1) as usize));
                }
                true
            },
        }
    }
}

/// `new` is `old` with the range `start..end` rearranged and the rest kept.
pub open spec fn rearranged(old: Seq<usize>, new: Seq<usize>, start: int, end: int) -> bool {
    &&& 0 <= start <= end <= old.len()
    &&& new.len() == old.len()
    &&& forall|i: int| 0 <= i < old.len() && !(start <= i < end) ==> #[trigger] new[i] == old[i]
    &&& new.subrange(start, end).to_multiset() == old.subrange(start, end).to_multiset()
}

/// The range `start..end` of `order` is in ascending order of `keys`.
pub open spec fn sorted_by(order: Seq<usize>, start: int, end: int, keys: Seq<Option<u32>>) -> bool {
    forall|i: int, j: int|
        start <= i < j < end ==> member_le(keys, #[trigger] order[i], #[trigger] order[j])
}

/// `after` is `before` with leaf `node` split along axis `a` after position
/// `p` of its sorted range: the range sorted along `a`, the node turned into
/// an interior node whose children are two new leaves at the end of the arena,
/// and these two added to the pending list.
pub open spec fn split_by(before: BvhBuilder, after: BvhBuilder, node: int, a: int, p: int) -> bool {
    let nd = before.nodes_view()[node];
    let l = before.nodes_view().len();
    let mid = (nd.start + p + 1) as usize;
    &&& rearranged(before.order_view(), after.order_view(), nd.start as int, nd.end as int)
    &&& sorted_by(after.order_view(), nd.start as int, nd.end as int, before.keys_view()[a]@)
    &&& after.nodes_view() == before.nodes_view().update(
        node,
        (BvhNode { start: nd.start, end: nd.end, children: Some((l as usize, (l + 1) as usize)) }),
    ).push((BvhNode { start: nd.start, end: mid, children: None })).push(
        (BvhNode { start: mid, end: nd.end, children: None }),
    )
    &&& after.pending_view() == before.pending_view().push(l as usize).push((l + 1) as usize)
}

/// In a well-formed build every primitive stands at exactly one position of
/// the ordering, and every position lies in exactly one leaf: the leaves share
/// the primitives out among themselves, each primitive to exactly one leaf.
pub proof fn lemma_each_primitive_in_one_leaf(b: BvhBuilder, obj: usize)
    requires
        b.wf(),
        obj < b.count(),
    ensures
        exists|pos: int|
            0 <= pos < b.count() && b.order_view()[pos] == obj && #[trigger] covered(
                b.nodes_view(),
                pos,
            ),
        forall|p1: int, p2: int|
            0 <= p1 < b.count() && 0 <= p2 < b.count() && #[trigger] b.order_view()[p1] == obj
                && #[trigger] b.order_view()[p2] == obj ==> p1 == p2,
        forall|i: int, j: int, pos: int|
            leaf_covers(b.nodes_view(), i, pos) && leaf_covers(b.nodes_view(), j, pos) ==> i == j,
{
    broadcast use vstd::seq_lib::to_multiset_contains;

    let n = b.count();
    let order = b.order_view();
    assert(ids(n)[obj as int] == obj);
    assert(ids(n).contains(obj));
    assert(ids(n).to_multiset().count(obj) > 0);
    assert(order.to_multiset().count(obj) > 0);
    assert(order.contains(obj));
    let pos = choose|pos: int| 0 <= pos < order.len() && order[pos] == obj;
    assert(covered(b.nodes_view(), pos));
    assert(ids(n).no_duplicates());
    ids(n).lemma_multiset_has_no_duplicates();
    order.lemma_multiset_has_no_duplicates_conv();
}

/// Sorting a range of the ordering along one axis has a single outcome: two
/// rearrangements of the same range, both in ascending order of the same keys,
/// are the same sequence. So the order that `sort_partition` gives a leaf
/// along an axis is the order that `split` leaves when it splits along it.
pub proof fn lemma_sorted_range_unique(
    old: Seq<usize>,
    new1: Seq<usize>,
    new2: Seq<usize>,
    start: int,
    end: int,
    keys: Seq<Option<u32>>,
)
    requires
        rearranged(old, new1, start, end),
        rearranged(old, new2, start, end),
        sorted_by(new1, start, end, keys),
        sorted_by(new2, start, end, keys),
    ensures
        new1 == new2,
{
    let r1 = new1.subrange(start, end);
    let r2 = new2.subrange(start, end);
    assert(sorted_by(r1, 0, r1.len() as int, keys)) by {
        assert forall|i: int, j: int| 0 <= i < j < r1.len() implies member_le(keys, #[trigger] r1[i], #[trigger] r1[j]) by {
            assert(r1[i] == new1[start + i] && r1[j] == new1[start + j]);
        }
    }
    assert(sorted_by(r2, 0, r2.len() as int, keys)) by {
        assert forall|i: int, j: int| 0 <= i < j < r2.len() implies member_le(keys, #[trigger] r2[i], #[trigger] r2[j]) by {
            assert(r2[i] == new2[start + i] && r2[j] == new2[start + j]);
        }
    }
    lemma_sorted_unique(r1, r2, keys);
    assert forall|i: int| 0 <= i < new1.len() implies new1[i] == new2[i] by {
        if start <= i < end {
            assert(r1[i - start] == r2[i - start]);
        }
    }
    assert(new1 =~= new2);
}

/// Two sequences with the same elements, both in ascending order of `keys`,
/// are equal.
proof fn lemma_sorted_unique(s1: Seq<usize>, s2: Seq<usize>, keys: Seq<Option<u32>>)
    requires
        s1.to_multiset() == s2.to_multiset(),
        sorted_by(s1, 0, s1.len() as int, keys),
        sorted_by(s2, 0, s2.len() as int, keys),
    ensures
        s1 == s2,
    decreases s1.len(),
{
    broadcast use vstd::seq_lib::to_multiset_contains;
    broadcast use vstd::seq_lib::to_multiset_len;
    broadcast use vstd::seq_lib::lemma_multiset_commutative;
    broadcast use vstd::multiset::group_multiset_axioms;

    assert(s1.len() == s1.to_multiset().len());
    assert(s2.len() == s2.to_multiset().len());
    if s1.len() == 0 {
        assert(s1 =~= s2);
    } else {
        let x1 = s1[0];
        let x2 = s2[0];
        assert(s2.to_multiset().count(x2) > 0);
        assert(s1.contains(x2));
        let j1 = choose|j: int| 0 <= j < s1.len() && s1[j] == x2;
        if j1 > 0 {
            assert(member_le(keys, s1[0], s1[j1]));
        }
        assert(s1.to_multiset().count(x1) > 0);
        assert(s2.contains(x1));
        let j2 = choose|j: int| 0 <= j < s2.len() && s2[j] == x1;
        if j2 > 0 {
            assert(member_le(keys, s2[0], s2[j2]));
        }
        assert(x1 == x2);
        let d1 = s1.drop_first();
        let d2 = s2.drop_first();
        assert(s1 =~= seq![x1] + d1);
        assert(s2 =~= seq![x1] + d2);
        assert(s1.to_multiset() == seq![x1].to_multiset().add(d1.to_multiset()));
        assert(s2.to_multiset() == seq![x1].to_multiset().add(d2.to_multiset()));
        assert forall|y: usize| #[trigger] d1.to_multiset().count(y) == d2.to_multiset().count(y) by {
            assert(s1.to_multiset().count(y) == seq![x1].to_multiset().count(y) + d1.to_multiset().count(y));
            assert(s2.to_multiset().count(y) == seq![x1].to_multiset().count(y) + d2.to_multiset().count(y));
        }
        assert(d1.to_multiset() =~= d2.to_multiset());
        assert forall|i: int, j: int| 0 <= i < j < d1.len() implies member_le(keys, #[trigger] d1[i], #[trigger] d1[j]) by {
            assert(d1[i] == s1[i + 1] && d1[j] == s1[j + 1]);
        }
        assert forall|i: int, j: int| 0 <= i < j < d2.len() implies member_le(keys, #[trigger] d2[i], #[trigger] d2[j]) by {
            assert(d2[i] == s2[i + 1] && d2[j] == s2[j + 1]);
        }
        lemma_sorted_unique(d1, d2, keys);
        assert(s1 =~= s2);
    }
}

/// At most one split is the cheapest.
proof fn lemma_best_unique(costs: Seq<Vec<Option<u32>>>)
    ensures
        forall|a: int, p: int, a2: int, p2: int|
            is_best(costs, a, p) && is_best(costs, a2, p2) ==> a == a2 && p == p2,
{
    assert forall|a: int, p: int, a2: int, p2: int|
        is_best(costs, a, p) && is_best(costs, a2, p2) implies a == a2 && p == p2 by {
        let x = costs[a]@[p];
        let y = costs[a2]@[p2];
        assert(x is Some);
        assert(y is Some);
    }
}

/// Splitting leaf `node` of a well-formed arena at `mid`, strictly inside its
/// range, keeps the arena well-formed.
proof fn lemma_split_tree(before: Seq<BvhNode>, after: Seq<BvhNode>, node: int, mid: int, n: nat)
    requires
        tree_ok(before, n),
        splittable(before, node),
        before[node].start < mid < before[node].end,
        before.len() + 2 <= usize::MAX,
        after == before.update(
            node,
            (BvhNode {
                start: before[node].start,
                end: before[node].end,
                children: Some((before.len() as usize, (before.len() + 1) as usize)),
            }),
        ).push((BvhNode { start: before[node].start, end: mid as usize, children: None })).push(
            (BvhNode { start: mid as usize, end: before[node].end, children: None }),
        ),
    ensures
        tree_ok(after, n),
{
    let l = before.len() as int;
    assert(node_ok(before, node, n));
    assert forall|i: int| 0 <= i < after.len() implies #[trigger] node_ok(after, i, n) by {
        if i < l && i != node {
            assert(node_ok(before, i, n));
        } else if i == node {
            assert(after[l].start == before[node].start);
        }
    }
    assert forall|pos: int| 0 <= pos < n implies #[trigger] covered(after, pos) by {
        assert(covered(before, pos));
        let i = choose|i: int| #[trigger] leaf_covers(before, i, pos);
        if i == node {
            if pos < mid {
                assert(leaf_covers(after, l, pos));
            } else {
                assert(leaf_covers(after, l + 1, pos));
            }
        } else {
            assert(leaf_covers(after, i, pos));
        }
    }
    assert forall|i: int, j: int, pos: int|
        leaf_covers(after, i, pos) && leaf_covers(after, j, pos) implies i == j by {
        if i < l && j < l {
            assert(leaf_covers(before, i, pos));
            assert(leaf_covers(before, j, pos));
        } else if i < l {
            assert(leaf_covers(before, i, pos));
            assert(leaf_covers(before, node, pos));
        } else if j < l {
            assert(leaf_covers(before, j, pos));
            assert(leaf_covers(before, node, pos));
        }
    }
}

proof fn lemma_order_bounded(order: Seq<usize>, n: nat)
    requires
        order.to_multiset() == ids(n).to_multiset(),
    ensures
        forall|i: int| 0 <= i < order.len() ==> #[trigger] order[i] < n,
{
    broadcast use vstd::seq_lib::to_multiset_contains;

    assert forall|i: int| 0 <= i < order.len() implies #[trigger] order[i] < n by {
        let x = order[i];
        assert(order.contains(x));
        assert(order.to_multiset().count(x) > 0);
        assert(ids(n).to_multiset().count(x) > 0);
        assert(ids(n).contains(x));
        let j = choose|j: int| 0 <= j < ids(n).len() && ids(n)[j] == x;
        assert(ids(n)[j] == j as usize);
    }
}

proof fn lemma_rearranged_multiset(old: Seq<usize>, new: Seq<usize>, start: int, end: int)
    requires
        rearranged(old, new, start, end),
    ensures
        new.to_multiset() == old.to_multiset(),
{
    broadcast use vstd::seq_lib::lemma_multiset_commutative;

    assert(old =~= old.subrange(0, start) + old.subrange(start, end) + old.subrange(
        end,
        old.len() as int,
    ));
    assert(new =~= new.subrange(0, start) + new.subrange(start, end) + new.subrange(
        end,
        new.len() as int,
    ));
    assert(new.subrange(0, start) =~= old.subrange(0, start));
    assert(new.subrange(end, new.len() as int) =~= old.subrange(end, old.len() as int));
}

} // verus!
