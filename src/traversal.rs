//! A walk over a bounding volume hierarchy for one ray.
//!
//! The walk keeps a stack of nodes, the root first. The caller tests the box
//! of the node on top against the ray and hands the outcome to `advance`: a
//! missed node is pruned with everything below it, a hit interior node makes
//! way for its two children, and a hit leaf hands out its range of the
//! ordering, whose primitives the caller then tests one by one.
use crate::bvh::{node_ok, tree_ok, BvhNode};
use vstd::prelude::*;

verus! {

/// Node `i` of `nodes` owns position `pos`.
pub open spec fn owns(nodes: Seq<BvhNode>, i: int, pos: int) -> bool {
    nodes[i].start <= pos < nodes[i].end
}

/// The positions `start..end`.
pub open spec fn span(start: int, end: int) -> Set<int> {
    Set::new(|pos: int| start <= pos < end)
}

/// Some node on `stack` owns position `pos`.
pub open spec fn on_stack(nodes: Seq<BvhNode>, stack: Seq<usize>, pos: int) -> bool {
    exists|k: int| 0 <= k < stack.len() && #[trigger] owns(nodes, stack[k] as int, pos)
}

/// The state of a walk over `nodes`.
pub struct Traversal {
    stack: Vec<usize>,
    reached: Ghost<Set<int>>,
    pruned: Ghost<Set<int>>,
}

impl Traversal {
    /// The nodes still to visit, the last one next.
    pub closed spec fn stack_view(&self) -> Seq<usize> {
        self.stack@
    }

    /// The walk is a walk over `nodes`: the nodes on the stack own disjoint
    /// ranges, and every position of the ordering is owned by a node on the
    /// stack, has been handed out, or has been pruned, and only one of these.
    /// The positions that hit leaves have handed out.
    pub closed spec fn reached_view(&self) -> Set<int> {
        self.reached@
    }

    /// The positions below nodes whose box the ray missed.
    pub closed spec fn pruned_view(&self) -> Set<int> {
        self.pruned@
    }

    pub open spec fn wf(&self, nodes: Seq<BvhNode>) -> bool {
        let n = nodes[0].end as int;
        let stack = self.stack_view();
        &&& tree_ok(nodes, n as nat)
        &&& forall|k: int| 0 <= k < stack.len() ==> #[trigger] stack[k] < nodes.len()
        &&& forall|k1: int, k2: int, pos: int|
            0 <= k1 < stack.len() && 0 <= k2 < stack.len() && #[trigger] owns(nodes, stack[k1] as int, pos)
                && #[trigger] owns(nodes, stack[k2] as int, pos) ==> k1 == k2
        &&& forall|pos: int|
            on_stack(nodes, stack, pos) ==> !self.reached_view().contains(pos) && !self.pruned_view().contains(pos)
        &&& self.reached_view().disjoint(self.pruned_view())
        &&& forall|pos: int|
            0 <= pos < n ==> #[trigger] self.reached_view().contains(pos) || self.pruned_view().contains(pos)
                || on_stack(nodes, stack, pos)
        &&& forall|pos: int| #[trigger] self.reached_view().contains(pos) ==> 0 <= pos < n
        &&& forall|pos: int| #[trigger] self.pruned_view().contains(pos) ==> 0 <= pos < n
    }

    /// The walk is over: no node is left to visit.
    pub open spec fn done(&self) -> bool {
        self.stack_view().len() == 0
    }

    /// Starts a walk at the root.
    pub fn new(nodes: &Vec<BvhNode>) -> (r: Traversal)
        requires
            nodes@.len() >= 1,
            tree_ok(nodes@, nodes@[0].end as nat),
        ensures
            r.wf(nodes@),
            r.stack_view() == seq![0usize],
            r.reached_view() == Set::<int>::empty(),
            r.pruned_view() == Set::<int>::empty(),
    {
        let mut stack: Vec<usize> = Vec::new();
        stack.push(0);
        let r = Traversal { stack, reached: Ghost(Set::empty()), pruned: Ghost(Set::empty()) };
        proof {
            assert forall|pos: int| 0 <= pos < nodes@[0].end implies #[trigger] r.reached_view().contains(pos)
                || r.pruned_view().contains(pos) || on_stack(nodes@, r.stack@, pos) by {
                assert(owns(nodes@, r.stack@[0] as int, pos));
            }
        }
        r
    }

    /// The node to test next, if any is left.
    pub fn current(&self) -> (r: Option<usize>)
        ensures
            r is None <==> self.done(),
            r matches Some(i) ==> i == self.stack_view().last(),
    {
        if self.stack.len() == 0 {
            None
        } else {
            Some(self.stack[self.stack.len() - 1])
        }
    }

    /// Takes the current node off the stack, given whether the ray hits its
    /// box. A missed node is pruned, with all the positions it owns. A hit
    /// interior node is replaced by its left child and then its right one,
    /// which comes next. A hit leaf hands out the range of the ordering that
    /// it owns, which no earlier step handed out or pruned.
    pub fn advance(&mut self, nodes: &Vec<BvhNode>, box_hit: bool) -> (r: Option<(usize, usize)>)
        requires
            old(self).wf(nodes@),
            !old(self).done(),
        ensures
            final(self).wf(nodes@),
            ({
                let stack = old(self).stack_view();
                let top = stack.last() as int;
                let nd = nodes@[top];
                let rest = stack.drop_last();
                &&& !box_hit ==> {
                    &&& r is None
                    &&& final(self).stack_view() == rest
                    &&& final(self).reached_view() == old(self).reached_view()
                    &&& final(self).pruned_view() == old(self).pruned_view().union(span(nd.start as int, nd.end as int))
                }
                &&& box_hit && nd.children is None ==> {
                    &&& r == Some((nd.start, nd.end))
                    &&& final(self).stack_view() == rest
                    &&& span(nd.start as int, nd.end as int).disjoint(old(self).reached_view())
                    &&& final(self).reached_view() == old(self).reached_view().union(span(nd.start as int, nd.end as int))
                    &&& final(self).pruned_view() == old(self).pruned_view()
                }
                &&& box_hit && nd.children is Some ==> {
                    &&& r is None
                    &&& final(self).stack_view() == rest.push((nd.children->0).0).push((nd.children->0).1)
                    &&& final(self).reached_view() == old(self).reached_view()
                    &&& final(self).pruned_view() == old(self).pruned_view()
                }
            }),
    {
        let ghost old_walk = *self;
        let ghost stack0 = self.stack@;
        let ghost n = nodes@[0].end as int;
        let top = self.stack.pop().unwrap();
        proof {
            let last = stack0.len() - 1;
            assert(stack0[last] == top);
            assert(self.stack@ =~= stack0.drop_last());
            assert(node_ok(nodes@, top as int, n as nat));
        }
        let nd = nodes[top];
        let ghost sp = span(nd.start as int, nd.end as int);
        if !box_hit {
            self.pruned = Ghost(self.pruned_view().union(sp));
            proof {
                self.lemma_pop_keeps(old_walk, nodes@);
            }
            None
        } else {
            match nd.children {
                None => {
                    self.reached = Ghost(self.reached_view().union(sp));
                    proof {
                        self.lemma_pop_keeps(old_walk, nodes@);
                    }
                    Some((nd.start, nd.end))
                },
                Some((left, right)) => {
                    self.stack.push(left);
                    self.stack.push(right);
                    proof {
                        self.lemma_descend_keeps(old_walk, nodes@);
                    }
                    None
                },
            }
        }
    }

    /// Popping the top node and moving the positions it owns to the handed
    /// out or the pruned ones keeps the walk well formed.
    proof fn lemma_pop_keeps(&self, old_walk: Traversal, nodes: Seq<BvhNode>)
        requires
            old_walk.wf(nodes),
            !old_walk.done(),
            self.stack@ == old_walk.stack@.drop_last(),
            ({
                let nd = nodes[old_walk.stack@.last() as int];
                let sp = span(nd.start as int, nd.end as int);
                ||| (self.reached_view() == old_walk.reached_view().union(sp) && self.pruned_view() == old_walk.pruned_view())
                ||| (self.reached_view() == old_walk.reached_view() && self.pruned_view() == old_walk.pruned_view().union(sp))
            }),
        ensures
            self.wf(nodes),
            span(
                nodes[old_walk.stack@.last() as int].start as int,
                nodes[old_walk.stack@.last() as int].end as int,
            ).disjoint(old_walk.reached_view()),
    {
        let n = nodes[0].end as int;
        let stack0 = old_walk.stack@;
        let last = stack0.len() - 1;
        let top = stack0[last] as int;
        let nd = nodes[top];
        let sp = span(nd.start as int, nd.end as int);
        assert(node_ok(nodes, top, n as nat));
        assert forall|pos: int| sp.contains(pos) implies !old_walk.reached_view().contains(pos)
            && !old_walk.pruned_view().contains(pos) && 0 <= pos < n by {
            assert(owns(nodes, stack0[last] as int, pos));
            assert(on_stack(nodes, stack0, pos));
        }
        assert forall|pos: int| on_stack(nodes, self.stack@, pos) implies !self.reached_view().contains(pos)
            && !self.pruned_view().contains(pos) by {
            let k = choose|k: int| 0 <= k < self.stack@.len() && #[trigger] owns(nodes, self.stack@[k] as int, pos);
            assert(stack0[k] == self.stack@[k]);
            assert(on_stack(nodes, stack0, pos));
            if sp.contains(pos) {
                assert(owns(nodes, stack0[last] as int, pos));
            }
        }
        assert forall|pos: int| 0 <= pos < n implies #[trigger] self.reached_view().contains(pos)
            || self.pruned_view().contains(pos) || on_stack(nodes, self.stack@, pos) by {
            if !old_walk.reached_view().contains(pos) && !old_walk.pruned_view().contains(pos) {
                let k = choose|k: int| 0 <= k < stack0.len() && #[trigger] owns(nodes, stack0[k] as int, pos);
                if k == last {
                    assert(sp.contains(pos));
                } else {
                    assert(owns(nodes, self.stack@[k] as int, pos));
                }
            }
        }
        assert(self.reached_view().disjoint(self.pruned_view()));
        assert(sp.disjoint(old_walk.reached_view()));
    }

    /// Replacing the top node by its two children keeps the walk well formed.
    proof fn lemma_descend_keeps(&self, old_walk: Traversal, nodes: Seq<BvhNode>)
        requires
            old_walk.wf(nodes),
            !old_walk.done(),
            nodes[old_walk.stack@.last() as int].children is Some,
            self.stack@ == old_walk.stack@.drop_last().push(
                (nodes[old_walk.stack@.last() as int].children->0).0,
            ).push((nodes[old_walk.stack@.last() as int].children->0).1),
            self.reached_view() == old_walk.reached_view(),
            self.pruned_view() == old_walk.pruned_view(),
        ensures
            self.wf(nodes),
    {
        let n = nodes[0].end as int;
        let stack0 = old_walk.stack@;
        let stack = self.stack@;
        let last = stack0.len() - 1;
        let top = stack0[last] as int;
        let nd = nodes[top];
        assert(node_ok(nodes, top, n as nat));
        assert(stack[last] == (nd.children->0).0);
        assert(stack[last + 1] == (nd.children->0).1);
        assert(node_ok(nodes, (nd.children->0).0 as int, n as nat));
        assert(node_ok(nodes, (nd.children->0).1 as int, n as nat));
        // Whatever a child owns, its parent owned.
        assert forall|k: int, pos: int| last <= k < stack.len() && #[trigger] owns(nodes, stack[k] as int, pos)
            implies owns(nodes, top, pos) by {}
        assert forall|k: int| 0 <= k < stack.len() implies #[trigger] stack[k] < nodes.len() by {
            if k < last {
                assert(stack[k] == stack0[k]);
            }
        }
        assert forall|k1: int, k2: int, pos: int|
            0 <= k1 < stack.len() && 0 <= k2 < stack.len() && #[trigger] owns(nodes, stack[k1] as int, pos)
                && #[trigger] owns(nodes, stack[k2] as int, pos) implies k1 == k2 by {
            if k1 < last {
                assert(stack[k1] == stack0[k1]);
            }
            if k2 < last {
                assert(stack[k2] == stack0[k2]);
            }
            if k1 < last && k2 >= last {
                assert(owns(nodes, stack0[last] as int, pos));
            }
            if k2 < last && k1 >= last {
                assert(owns(nodes, stack0[last] as int, pos));
            }
        }
        assert forall|pos: int| on_stack(nodes, stack, pos) implies !self.reached_view().contains(pos)
            && !self.pruned_view().contains(pos) by {
            let k = choose|k: int| 0 <= k < stack.len() && #[trigger] owns(nodes, stack[k] as int, pos);
            if k < last {
                assert(stack[k] == stack0[k]);
                assert(owns(nodes, stack0[k] as int, pos));
            } else {
                assert(owns(nodes, stack0[last] as int, pos));
            }
            assert(on_stack(nodes, stack0, pos));
        }
        assert forall|pos: int| 0 <= pos < n implies #[trigger] self.reached_view().contains(pos)
            || self.pruned_view().contains(pos) || on_stack(nodes, stack, pos) by {
            if !old_walk.reached_view().contains(pos) && !old_walk.pruned_view().contains(pos) {
                let k = choose|k: int| 0 <= k < stack0.len() && #[trigger] owns(nodes, stack0[k] as int, pos);
                if k == last {
                    if pos < nodes[(nd.children->0).0 as int].end {
                        assert(owns(nodes, stack[last] as int, pos));
                    } else {
                        assert(owns(nodes, stack[last + 1] as int, pos));
                    }
                } else {
                    assert(stack[k] == stack0[k]);
                    assert(owns(nodes, stack[k] as int, pos));
                }
            }
        }
    }
}

/// A finished walk has met every primitive of the hierarchy once, but for
/// those below a node whose box the ray missed: each position of the ordering
/// has been handed out by a hit leaf or pruned, never both, and handing out
/// never repeats a position (see `advance`). A walk that pruned nothing has
/// handed out every position, as a scan of all the primitives would.
pub proof fn lemma_finished_walk_meets_all(w: Traversal, nodes: Seq<BvhNode>)
    requires
        w.wf(nodes),
        w.done(),
    ensures
        forall|pos: int|
            0 <= pos < nodes[0].end ==> #[trigger] w.reached_view().contains(pos) != w.pruned_view().contains(pos),
        w.reached_view().union(w.pruned_view()) == span(0, nodes[0].end as int),
        w.pruned_view().is_empty() ==> w.reached_view() == span(0, nodes[0].end as int),
{
    assert forall|pos: int| 0 <= pos < nodes[0].end implies #[trigger] w.reached_view().contains(pos)
        != w.pruned_view().contains(pos) by {
        assert(!on_stack(nodes, w.stack_view(), pos));
    }
    assert forall|pos: int| 0 <= pos < nodes[0].end implies !on_stack(nodes, w.stack_view(), pos) by {}
    assert(w.reached_view().union(w.pruned_view()) =~= span(0, nodes[0].end as int));
    if w.pruned_view().is_empty() {
        assert(w.reached_view() =~= span(0, nodes[0].end as int));
    }
}

} // verus!
