//! The force evaluation of one body as a walk over the tree: the decision
//! at each node, the stack of nodes that are yet to be visited, and what a
//! walk amounts to.
use vstd::prelude::*;
use crate::octtree::{Entry, Node, OctTree};

verus! {

/// What the force evaluation of one body does at a node.
#[derive(Clone, Copy, Debug, PartialEq, Eq, Structural)]
pub enum Visit {
    /// The node adds nothing: its cell is empty, or holds the body itself.
    Skip,
    /// The node acts on the body as one point mass.
    Accept,
    /// The node is too near and too coarse: its children are visited.
    Descend,
}

impl OctTree {
    /// What the evaluation for body `target` does at node `n`, where `far`
    /// says whether the cell is small enough for its distance. A cell that
    /// holds only the body itself exerts no force on it. Any other cell acts
    /// as a point mass if it is far, or if it is not split; else the walk
    /// goes on to its children.
    pub open spec fn spec_visit(&self, n: int, target: usize, far: bool) -> Visit {
        let nd = self.nodes@[n];
        if nd.num_bodies == 0 {
            Visit::Skip
        } else if nd.num_bodies == 1 && nd.current_body is Some && nd.current_body->0.body
            == target {
            Visit::Skip
        } else if far || nd.first_child is None {
            Visit::Accept
        } else {
            Visit::Descend
        }
    }

    /// What the evaluation for body `target` does at node `n`.
    pub fn visit(&self, n: usize, target: usize, far: bool) -> (v: Visit)
        requires
            n < self.nodes@.len(),
        ensures
            v == self.spec_visit(n as int, target, far),
    {
        let nd: Node = self.nodes[n];
        if nd.num_bodies == 0 {
            return Visit::Skip;
        }
        if nd.num_bodies == 1 {
            match nd.current_body {
                Some(sole) => {
                    if sole.body == target {
                        return Visit::Skip;
                    }
                },
                None => {},
            }
        }
        if far || nd.first_child.is_none() {
            Visit::Accept
        } else {
            Visit::Descend
        }
    }

    /// The non-empty children of the split node `n` from the `from`-th on,
    /// the last of them first.
    pub open spec fn spec_children(&self, n: int, from: int) -> Seq<usize>
        decreases 8 - from,
    {
        if from >= 8 {
            Seq::empty()
        } else {
            let rest = self.spec_children(n, from + 1);
            let ch = self.nodes@[n].first_child->0 + from;
            if self.nodes@[ch].num_bodies != 0 {
                rest.push(ch as usize)
            } else {
                rest
            }
        }
    }

    /// Whether every node on the stack of a walk is a node of this tree.
    pub open spec fn walk_ok(&self, stack: Seq<usize>) -> bool {
        forall|k: int| 0 <= k < stack.len() ==> #[trigger] stack[k] < self.nodes@.len()
    }

    /// The stack on which a walk begins: the root alone.
    pub fn start_walk(&self) -> (stack: Vec<usize>)
        requires
            self.wf(),
        ensures
            stack@ == Seq::<usize>::empty().push(0),
            self.walk_ok(stack@),
    {
        let mut stack: Vec<usize> = Vec::new();
        stack.push(0);
        stack
    }

    /// One step of the force evaluation for body `target`: takes the node on
    /// top of the stack and says what it contributes. `far` is the caller's
    /// answer for that node. On `Descend` the node's non-empty children come
    /// onto the stack, the first of them on top.
    pub fn update_body(&self, stack: &mut Vec<usize>, target: usize, far: bool) -> (v: Visit)
        requires
            self.wf(),
            self.walk_ok(old(stack)@),
            old(stack)@.len() > 0,
        ensures
            v == self.spec_visit(old(stack)@.last() as int, target, far),
            final(stack)@ == self.spec_step(old(stack)@, target, far),
            self.walk_ok(final(stack)@),
    {
        let n: usize = stack.pop().unwrap();
        assert(n == old(stack)@[old(stack)@.len() - 1]);
        let ghost rest = stack@;
        assert(self.node_ok(n as int, None));
        let v: Visit = self.visit(n, target, far);
        match v {
            Visit::Descend => {
                let f: usize = self.nodes[n].first_child.unwrap();
                let mut i: usize = 8;
                assert(rest + self.spec_children(n as int, 8) =~= rest);
                while i > 0
                    invariant
                        i <= 8,
                        n < self.nodes@.len(),
                        self.nodes@[n as int].first_child == Some(f),
                        f + 8 <= self.nodes@.len() <= usize::MAX,
                        self.walk_ok(rest),
                        self.walk_ok(stack@),
                        stack@ == rest + self.spec_children(n as int, i as int),
                    decreases i,
                {
                    i -= 1;
                    let ch: usize = f + i;
                    let ghost before = stack@;
                    if self.nodes[ch].num_bodies != 0 {
                        stack.push(ch);
                        assert(stack@ =~= rest + self.spec_children(n as int, i as int));
                        assert forall|k: int| 0 <= k < stack@.len() implies #[trigger] stack@[k]
                            < self.nodes@.len() by {
                            if k < before.len() {
                                assert(stack@[k] == before[k]);
                            }
                        }
                    }
                }
            },
            _ => {
                assert(rest + Seq::<usize>::empty() =~= rest);
            },
        }
        v
    }

    /// The nodes of the subtree under `n` that act on body `target` as
    /// point masses, in the order of a traversal that takes the children of
    /// a node from the first to the last. `far` says of each node whether its
    /// cell is small enough for its distance.
    pub open spec fn spec_interactions(
        &self,
        n: int,
        target: usize,
        far: spec_fn(usize) -> bool,
    ) -> Seq<usize>
        decreases self.max_depth - self.nodes@[n].depth, 9int,
    {
        match self.spec_visit(n, target, far(n as usize)) {
            Visit::Skip => Seq::empty(),
            Visit::Accept => Seq::empty().push(n as usize),
            Visit::Descend => self.spec_interactions_from(n, 0, target, far),
        }
    }

    /// The same for the children of the split node `n` from the `from`-th
    /// on; empty cells are passed over.
    pub open spec fn spec_interactions_from(
        &self,
        n: int,
        from: int,
        target: usize,
        far: spec_fn(usize) -> bool,
    ) -> Seq<usize>
        decreases self.max_depth - self.nodes@[n].depth, 8 - from,
    {
        if from < 0 || from >= 8 {
            Seq::empty()
        } else {
            let ch = self.nodes@[n].first_child->0 + from;
            let here = if self.nodes@[ch].num_bodies != 0 && self.nodes@[ch].depth
                == self.nodes@[n].depth + 1 && self.nodes@[n].depth < self.max_depth {
                self.spec_interactions(ch, target, far)
            } else {
                Seq::empty()
            };
            here + self.spec_interactions_from(n, from + 1, target, far)
        }
    }

    /// The nodes that a walk with this stack has yet to accept: those of the
    /// subtree on top of the stack, then those of the one below, and so on.
    pub open spec fn spec_pending(
        &self,
        stack: Seq<usize>,
        target: usize,
        far: spec_fn(usize) -> bool,
    ) -> Seq<usize>
        decreases stack.len(),
    {
        if stack.len() == 0 {
            Seq::empty()
        } else {
            self.spec_interactions(stack.last() as int, target, far) + self.spec_pending(
                stack.drop_last(),
                target,
                far,
            )
        }
    }

    /// The stack of a walk after a step at its top node, as `update_body`
    /// leaves it.
    pub open spec fn spec_step(&self, stack: Seq<usize>, target: usize, far: bool) -> Seq<usize> {
        stack.drop_last() + if self.spec_visit(stack.last() as int, target, far)
            == Visit::Descend {
            self.spec_children(stack.last() as int, 0)
        } else {
            Seq::<usize>::empty()
        }
    }

    /// Putting the children of a split node onto the stack puts their
    /// subtrees' interactions before those of the stack.
    proof fn lemma_pending_children(
        &self,
        rest: Seq<usize>,
        n: int,
        from: int,
        target: usize,
        far: spec_fn(usize) -> bool,
    )
        requires
            self.wf(),
            0 <= n < self.nodes@.len(),
            self.nodes@[n].first_child is Some,
            0 <= from <= 8,
        ensures
            self.spec_pending(rest + self.spec_children(n, from), target, far)
                == self.spec_interactions_from(n, from, target, far) + self.spec_pending(
                rest,
                target,
                far,
            ),
        decreases 8 - from,
    {
        if from >= 8 {
            assert(rest + self.spec_children(n, from) =~= rest);
            assert(Seq::<usize>::empty() + self.spec_pending(rest, target, far)
                =~= self.spec_pending(rest, target, far));
        } else {
            self.lemma_pending_children(rest, n, from + 1, target, far);
            assert(self.node_ok(n, None));
            assert(self.child_ok(n, from, None));
            let ch = self.nodes@[n].first_child->0 + from;
            let below = self.spec_children(n, from + 1);
            let tail = self.spec_interactions_from(n, from + 1, target, far);
            let done = self.spec_pending(rest, target, far);
            if self.nodes@[ch].num_bodies != 0 {
                let stack = rest + below.push(ch as usize);
                assert(self.spec_children(n, from) == below.push(ch as usize));
                assert(stack.drop_last() =~= rest + below);
                assert(stack.last() == ch as usize);
                let here = self.spec_interactions(ch, target, far);
                assert(self.spec_pending(stack, target, far) == here + self.spec_pending(
                    rest + below,
                    target,
                    far,
                ));
                assert(self.spec_interactions_from(n, from, target, far) == here + tail);
                assert(here + (tail + done) =~= (here + tail) + done);
            } else {
                assert(self.spec_children(n, from) == below);
                assert(self.spec_interactions_from(n, from, target, far) == Seq::<
                    usize,
                >::empty() + tail);
                assert(Seq::<usize>::empty() + tail =~= tail);
            }
        }
    }

    /// A walk accepts the nodes that the traversal of the tree accepts, in
    /// the same order: what is yet to be accepted before a step is the node
    /// that the step accepts, if it accepts one, and then what is yet to be
    /// accepted after it.
    pub proof fn lemma_walk_step(
        &self,
        stack: Seq<usize>,
        target: usize,
        far: spec_fn(usize) -> bool,
    )
        requires
            self.wf(),
            self.walk_ok(stack),
            stack.len() > 0,
        ensures
            self.spec_pending(stack, target, far) == (if self.spec_visit(
                stack.last() as int,
                target,
                far(stack.last()),
            ) == Visit::Accept {
                Seq::<usize>::empty().push(stack.last())
            } else {
                Seq::<usize>::empty()
            }) + self.spec_pending(
                self.spec_step(stack, target, far(stack.last())),
                target,
                far,
            ),
    {
        let n = stack.last();
        let rest = stack.drop_last();
        let done = self.spec_pending(rest, target, far);
        assert(stack[stack.len() - 1] < self.nodes@.len());
        match self.spec_visit(n as int, target, far(n)) {
            Visit::Descend => {
                self.lemma_pending_children(rest, n as int, 0, target, far);
                assert(Seq::<usize>::empty() + self.spec_pending(
                    rest + self.spec_children(n as int, 0),
                    target,
                    far,
                ) =~= self.spec_pending(rest + self.spec_children(n as int, 0), target, far));
            },
            _ => {
                assert(rest + Seq::<usize>::empty() =~= rest);
                assert(Seq::<usize>::empty() + done =~= done);
            },
        }
    }

    /// No self-force: in a tree that holds one body, nothing acts on that
    /// body, whatever is far.
    pub proof fn lemma_lone_body_feels_nothing(&self, far: spec_fn(usize) -> bool)
        requires
            self.wf(),
            self@.len() == 1,
        ensures
            self.spec_interactions(0, self@[0].body, far) == Seq::<usize>::empty(),
            forall|b: bool| self.spec_visit(0, self@[0].body, b) == Visit::Skip,
    {
        assert(self.node_ok(0, None));
    }

    /// In an empty tree nothing acts on any body.
    pub proof fn lemma_empty_tree_is_skipped(&self, target: usize, far: spec_fn(usize) -> bool)
        requires
            self.wf(),
            self@.len() == 0,
        ensures
            self.spec_interactions(0, target, far) == Seq::<usize>::empty(),
    {
        assert(self.node_ok(0, None));
    }

    /// The nodes at which the evaluation for `target` takes a decision in
    /// the subtree under `n`, in order: the node itself, and where it
    /// descends, the nodes under its non-empty children.
    pub open spec fn spec_visits(
        &self,
        n: int,
        target: usize,
        far: spec_fn(usize) -> bool,
    ) -> Seq<usize>
        decreases self.max_depth - self.nodes@[n].depth, 9int,
    {
        Seq::empty().push(n as usize) + if self.spec_visit(n, target, far(n as usize))
            == Visit::Descend {
            self.spec_visits_from(n, 0, target, far)
        } else {
            Seq::empty()
        }
    }

    /// The same for the children of the split node `n` from the `from`-th
    /// on.
    pub open spec fn spec_visits_from(
        &self,
        n: int,
        from: int,
        target: usize,
        far: spec_fn(usize) -> bool,
    ) -> Seq<usize>
        decreases self.max_depth - self.nodes@[n].depth, 8 - from,
    {
        if from < 0 || from >= 8 {
            Seq::empty()
        } else {
            let ch = self.nodes@[n].first_child->0 + from;
            let here = if self.nodes@[ch].num_bodies != 0 && self.nodes@[ch].depth
                == self.nodes@[n].depth + 1 && self.nodes@[n].depth < self.max_depth {
                self.spec_visits(ch, target, far)
            } else {
                Seq::empty()
            };
            here + self.spec_visits_from(n, from + 1, target, far)
        }
    }

    /// The nodes that a walk with this stack has yet to visit.
    pub open spec fn spec_to_visit(
        &self,
        stack: Seq<usize>,
        target: usize,
        far: spec_fn(usize) -> bool,
    ) -> Seq<usize>
        decreases stack.len(),
    {
        if stack.len() == 0 {
            Seq::empty()
        } else {
            self.spec_visits(stack.last() as int, target, far) + self.spec_to_visit(
                stack.drop_last(),
                target,
                far,
            )
        }
    }

    /// Putting the children of a split node onto the stack puts the visits
    /// under them before those of the stack.
    proof fn lemma_to_visit_children(
        &self,
        rest: Seq<usize>,
        n: int,
        from: int,
        target: usize,
        far: spec_fn(usize) -> bool,
    )
        requires
            self.wf(),
            0 <= n < self.nodes@.len(),
            self.nodes@[n].first_child is Some,
            0 <= from <= 8,
        ensures
            self.spec_to_visit(rest + self.spec_children(n, from), target, far)
                == self.spec_visits_from(n, from, target, far) + self.spec_to_visit(
                rest,
                target,
                far,
            ),
        decreases 8 - from,
    {
        if from >= 8 {
            assert(rest + self.spec_children(n, from) =~= rest);
            assert(Seq::<usize>::empty() + self.spec_to_visit(rest, target, far)
                =~= self.spec_to_visit(rest, target, far));
        } else {
            self.lemma_to_visit_children(rest, n, from + 1, target, far);
            assert(self.node_ok(n, None));
            assert(self.child_ok(n, from, None));
            let ch = self.nodes@[n].first_child->0 + from;
            let below = self.spec_children(n, from + 1);
            let tail = self.spec_visits_from(n, from + 1, target, far);
            let done = self.spec_to_visit(rest, target, far);
            if self.nodes@[ch].num_bodies != 0 {
                let stack = rest + below.push(ch as usize);
                assert(self.spec_children(n, from) == below.push(ch as usize));
                assert(stack.drop_last() =~= rest + below);
                assert(stack.last() == ch as usize);
                let here = self.spec_visits(ch, target, far);
                assert(self.spec_to_visit(stack, target, far) == here + self.spec_to_visit(
                    rest + below,
                    target,
                    far,
                ));
                assert(self.spec_visits_from(n, from, target, far) == here + tail);
                assert(here + (tail + done) =~= (here + tail) + done);
            } else {
                assert(self.spec_children(n, from) == below);
                assert(self.spec_visits_from(n, from, target, far) == Seq::<usize>::empty()
                    + tail);
                assert(Seq::<usize>::empty() + tail =~= tail);
            }
        }
    }

    /// A walk ends: each step takes the first of the nodes that are yet to
    /// be visited and leaves the others, so a walk that starts at the root
    /// takes as many steps as the traversal of the tree visits nodes.
    pub proof fn lemma_walk_step_visits_one(
        &self,
        stack: Seq<usize>,
        target: usize,
        far: spec_fn(usize) -> bool,
    )
        requires
            self.wf(),
            self.walk_ok(stack),
            stack.len() > 0,
        ensures
            self.spec_to_visit(stack, target, far) == Seq::<usize>::empty().push(stack.last())
                + self.spec_to_visit(
                self.spec_step(stack, target, far(stack.last())),
                target,
                far,
            ),
    {
        let n = stack.last();
        let rest = stack.drop_last();
        let done = self.spec_to_visit(rest, target, far);
        let one = Seq::<usize>::empty().push(n);
        assert(stack[stack.len() - 1] < self.nodes@.len());
        match self.spec_visit(n as int, target, far(n)) {
            Visit::Descend => {
                self.lemma_to_visit_children(rest, n as int, 0, target, far);
                let under = self.spec_visits_from(n as int, 0, target, far);
                assert((one + under) + done =~= one + (under + done));
            },
            _ => {
                assert(rest + Seq::<usize>::empty() =~= rest);
                assert(one + Seq::<usize>::empty() =~= one);
            },
        }
    }
}

} // verus!
