//! What the force evaluation amounts to: every body of the tree other than
//! the one evaluated is counted in exactly one accepted node.
use vstd::prelude::*;
use crate::octant::spec_octant_at;
use crate::octtree::{lemma_octant_part_push, octant_part, Entry, OctTree};
use crate::walk::Visit;

verus! {

/// The sum, over the entries of `c`, of the quantity `w` of each.
pub open spec fn spec_total(c: Seq<Entry>, w: spec_fn(Entry) -> int) -> int
    decreases c.len(),
{
    if c.len() == 0 {
        0
    } else {
        spec_total(c.drop_last(), w) + w(c.last())
    }
}

/// The sum of `w` over the parts of `c` that fall to the octants from
/// `from` on at `depth`.
pub open spec fn spec_parts_total(
    c: Seq<Entry>,
    depth: u32,
    from: int,
    w: spec_fn(Entry) -> int,
) -> int
    decreases 8 - from,
{
    if from >= 8 {
        0
    } else {
        spec_total(octant_part(c, depth, from), w) + spec_parts_total(c, depth, from + 1, w)
    }
}

/// There are eight octants.
proof fn lemma_octant_below_eight(key: u64, level: u32)
    ensures
        spec_octant_at(key, level) < 8,
{
    let s = (3 * level) as u64;
    assert((key >> s) & 7 < 8) by (bit_vector);
}

/// One more entry adds its quantity to the sum.
proof fn lemma_total_push(c: Seq<Entry>, e: Entry, w: spec_fn(Entry) -> int)
    ensures
        spec_total(c.push(e), w) == spec_total(c, w) + w(e),
{
    assert(c.push(e).drop_last() =~= c);
}

/// One more entry adds its quantity to the part of its octant.
proof fn lemma_parts_total_push(
    c: Seq<Entry>,
    e: Entry,
    depth: u32,
    from: int,
    w: spec_fn(Entry) -> int,
)
    requires
        0 <= from <= 8,
    ensures
        spec_parts_total(c.push(e), depth, from, w) == spec_parts_total(c, depth, from, w) + if from
            <= spec_octant_at(e.key, depth) {
            w(e)
        } else {
            0
        },
    decreases 8 - from,
{
    lemma_octant_below_eight(e.key, depth);
    if from < 8 {
        lemma_parts_total_push(c, e, depth, from + 1, w);
        lemma_octant_part_push(c, e, depth, from);
        if spec_octant_at(e.key, depth) == from {
            lemma_total_push(octant_part(c, depth, from), e, w);
        }
    }
}

/// The parts of nothing sum to nothing.
proof fn lemma_parts_total_empty(depth: u32, from: int, w: spec_fn(Entry) -> int)
    requires
        0 <= from <= 8,
    ensures
        spec_parts_total(Seq::<Entry>::empty(), depth, from, w) == 0,
    decreases 8 - from,
{
    if from < 8 {
        lemma_parts_total_empty(depth, from + 1, w);
    }
}

/// The eight octants share the entries among them: the sums over the
/// parts add up to the sum over the whole.
pub proof fn lemma_parts_total(c: Seq<Entry>, depth: u32, w: spec_fn(Entry) -> int)
    ensures
        spec_parts_total(c, depth, 0, w) == spec_total(c, w),
    decreases c.len(),
{
    if c.len() == 0 {
        assert(c =~= Seq::<Entry>::empty());
        lemma_parts_total_empty(depth, 0, w);
    } else {
        assert(c.drop_last().push(c.last()) =~= c);
        lemma_parts_total(c.drop_last(), depth, w);
        lemma_parts_total_push(c.drop_last(), c.last(), depth, 0, w);
        lemma_octant_below_eight(c.last().key, depth);
    }
}

impl OctTree {
    /// The sum of `w` over the bodies in the cells of `nodes`.
    pub open spec fn spec_accepted_total(
        &self,
        nodes: Seq<usize>,
        w: spec_fn(Entry) -> int,
    ) -> int
        decreases nodes.len(),
    {
        if nodes.len() == 0 {
            0
        } else {
            self.spec_accepted_total(nodes.drop_last(), w) + spec_total(
                self.contents@[nodes.last() as int],
                w,
            )
        }
    }

    /// The sum over two lists of nodes is the sum of the two sums.
    proof fn lemma_accepted_total_concat(
        &self,
        a: Seq<usize>,
        b: Seq<usize>,
        w: spec_fn(Entry) -> int,
    )
        ensures
            self.spec_accepted_total(a + b, w) == self.spec_accepted_total(a, w)
                + self.spec_accepted_total(b, w),
        decreases b.len(),
    {
        if b.len() == 0 {
            assert(a + b =~= a);
        } else {
            self.lemma_accepted_total_concat(a, b.drop_last(), w);
            assert((a + b).drop_last() =~= a + b.drop_last());
            assert((a + b).last() == b.last());
        }
    }

    /// The sum of `w` over the bodies in the children of the split node `n`
    /// from the `from`-th on.
    pub open spec fn spec_children_total(
        &self,
        n: int,
        from: int,
        w: spec_fn(Entry) -> int,
    ) -> int
        decreases 8 - from,
    {
        if from < 0 || from >= 8 {
            0
        } else {
            spec_total(self.contents@[self.nodes@[n].first_child->0 + from], w)
                + self.spec_children_total(n, from + 1, w)
        }
    }

    /// The children of a split node hold what the parts of its cell hold.
    proof fn lemma_children_total(&self, n: int, from: int, w: spec_fn(Entry) -> int)
        requires
            self.wf(),
            0 <= n < self.nodes@.len(),
            self.nodes@[n].first_child is Some,
            0 <= from <= 8,
        ensures
            self.spec_children_total(n, from, w) == spec_parts_total(
                self.contents@[n],
                self.nodes@[n].depth,
                from,
                w,
            ),
        decreases 8 - from,
    {
        if from < 8 {
            assert(self.node_ok(n, None));
            assert(self.child_ok(n, from, None));
            self.lemma_children_total(n, from + 1, w);
        }
    }

    /// Aggregates add up through the tree: whatever quantity `w` a body
    /// carries, a split node holds as much of it as its eight children
    /// together.
    pub proof fn lemma_split_node_total(&self, n: int, w: spec_fn(Entry) -> int)
        requires
            self.wf(),
            0 <= n < self.nodes@.len(),
            self.nodes@[n].first_child is Some,
        ensures
            spec_total(self.contents@[n], w) == self.spec_children_total(n, 0, w),
    {
        self.lemma_children_total(n, 0, w);
        lemma_parts_total(self.contents@[n], self.nodes@[n].depth, w);
    }

    /// Every body but the one evaluated is counted once. Let `w` be any
    /// quantity of a body that is zero for the body `target`. Then the
    /// nodes that the evaluation for `target` accepts in the subtree under
    /// `n` hold, between them, as much of it as the cell of `n` holds:
    /// whatever is far, no body is left out and none is counted twice.
    pub proof fn lemma_walk_accounts_for_all(
        &self,
        n: int,
        target: usize,
        far: spec_fn(usize) -> bool,
        w: spec_fn(Entry) -> int,
    )
        requires
            self.wf(),
            0 <= n < self.nodes@.len(),
            forall|e: Entry| e.body == target ==> #[trigger] w(e) == 0,
        ensures
            self.spec_accepted_total(self.spec_interactions(n, target, far), w) == spec_total(
                self.contents@[n],
                w,
            ),
        decreases self.max_depth - self.nodes@[n].depth, 9int,
    {
        let c = self.contents@[n];
        assert(self.node_ok(n, None));
        let met = self.spec_interactions(n, target, far);
        match self.spec_visit(n, target, far(n as usize)) {
            Visit::Skip => {
                assert(met.len() == 0);
                if c.len() != 0 {
                    assert(c.drop_last().len() == 0);
                    assert(c.last() == c[0]);
                    assert(w(c[0]) == 0);
                    assert(spec_total(c.drop_last(), w) == 0);
                }
            },
            Visit::Accept => {
                assert(met.drop_last().len() == 0);
                assert(met.last() == n as usize);
                assert(self.spec_accepted_total(met.drop_last(), w) == 0);
            },
            Visit::Descend => {
                self.lemma_children_account_for_all(n, 0, target, far, w);
                lemma_parts_total(c, self.nodes@[n].depth, w);
            },
        }
    }

    /// The same for the children of the split node `n` from the `from`-th
    /// on: what the evaluation accepts under them holds as much as the
    /// parts of the cell that fall to them.
    proof fn lemma_children_account_for_all(
        &self,
        n: int,
        from: int,
        target: usize,
        far: spec_fn(usize) -> bool,
        w: spec_fn(Entry) -> int,
    )
        requires
            self.wf(),
            0 <= n < self.nodes@.len(),
            self.nodes@[n].first_child is Some,
            0 <= from <= 8,
            forall|e: Entry| e.body == target ==> #[trigger] w(e) == 0,
        ensures
            self.spec_accepted_total(self.spec_interactions_from(n, from, target, far), w)
                == spec_parts_total(self.contents@[n], self.nodes@[n].depth, from, w),
        decreases self.max_depth - self.nodes@[n].depth, 8 - from,
    {
        if from < 8 {
            assert(self.node_ok(n, None));
            assert(self.child_ok(n, from, None));
            let ch = self.nodes@[n].first_child->0 + from;
            assert(self.node_ok(ch, None));
            let tail = self.spec_interactions_from(n, from + 1, target, far);
            self.lemma_children_account_for_all(n, from + 1, target, far, w);
            if self.nodes@[ch].num_bodies != 0 {
                let here = self.spec_interactions(ch, target, far);
                self.lemma_walk_accounts_for_all(ch, target, far, w);
                self.lemma_accepted_total_concat(here, tail, w);
            } else {
                assert(Seq::<usize>::empty() + tail =~= tail);
                assert(self.contents@[ch].len() == 0);
            }
        }
    }

    /// Every node that the evaluation for `target` meets as a point mass is
    /// a node of the tree at which it decides to accept.
    pub proof fn lemma_interactions_are_accepted(
        &self,
        n: int,
        target: usize,
        far: spec_fn(usize) -> bool,
        k: int,
    )
        requires
            self.wf(),
            0 <= n < self.nodes@.len(),
            0 <= k < self.spec_interactions(n, target, far).len(),
        ensures
            self.spec_interactions(n, target, far)[k] < self.nodes@.len(),
            self.spec_visit(
                self.spec_interactions(n, target, far)[k] as int,
                target,
                far(self.spec_interactions(n, target, far)[k]),
            ) == Visit::Accept,
        decreases self.max_depth - self.nodes@[n].depth, 9int,
    {
        match self.spec_visit(n, target, far(n as usize)) {
            Visit::Descend => {
                self.lemma_children_are_accepted(n, 0, target, far, k);
            },
            _ => {},
        }
    }

    /// The same for the children of the split node `n` from the `from`-th
    /// on.
    proof fn lemma_children_are_accepted(
        &self,
        n: int,
        from: int,
        target: usize,
        far: spec_fn(usize) -> bool,
        k: int,
    )
        requires
            self.wf(),
            0 <= n < self.nodes@.len(),
            self.nodes@[n].first_child is Some,
            0 <= from <= 8,
            0 <= k < self.spec_interactions_from(n, from, target, far).len(),
        ensures
            self.spec_interactions_from(n, from, target, far)[k] < self.nodes@.len(),
            self.spec_visit(
                self.spec_interactions_from(n, from, target, far)[k] as int,
                target,
                far(self.spec_interactions_from(n, from, target, far)[k]),
            ) == Visit::Accept,
        decreases self.max_depth - self.nodes@[n].depth, 8 - from,
    {
        if from < 8 {
            assert(self.node_ok(n, None));
            assert(self.child_ok(n, from, None));
            let ch = self.nodes@[n].first_child->0 + from;
            let tail = self.spec_interactions_from(n, from + 1, target, far);
            let here = if self.nodes@[ch].num_bodies != 0 {
                self.spec_interactions(ch, target, far)
            } else {
                Seq::<usize>::empty()
            };
            assert(self.spec_interactions_from(n, from, target, far) == here + tail);
            if k < here.len() {
                self.lemma_interactions_are_accepted(ch, target, far, k);
            } else {
                self.lemma_children_are_accepted(n, from + 1, target, far, k - here.len());
            }
        }
    }

    /// Full descent: where nothing is far, the evaluation goes down to the
    /// unsplit cells, and takes from each of them that holds one body that
    /// body by itself, which is not the body evaluated.
    pub proof fn lemma_full_descent_meets_bodies(
        &self,
        target: usize,
        far: spec_fn(usize) -> bool,
        k: int,
    )
        requires
            self.wf(),
            forall|m: usize| !#[trigger] far(m),
            0 <= k < self.spec_interactions(0, target, far).len(),
        ensures
            ({
                let nd = self.nodes@[self.spec_interactions(0, target, far)[k] as int];
                &&& nd.first_child is None
                &&& nd.num_bodies >= 1
                &&& nd.num_bodies == 1 ==> nd.current_body is Some && nd.current_body->0.body
                    != target
            }),
    {
        self.lemma_interactions_are_accepted(0, target, far, k);
        let m = self.spec_interactions(0, target, far)[k];
        assert(self.node_ok(m as int, None));
    }

    /// At the root: for any quantity `w` that is zero for the body
    /// `target`, the nodes that the evaluation for `target` accepts hold as
    /// much of it as all the bodies of the tree together.
    pub proof fn lemma_each_other_body_once(
        &self,
        target: usize,
        far: spec_fn(usize) -> bool,
        w: spec_fn(Entry) -> int,
    )
        requires
            self.wf(),
            forall|e: Entry| e.body == target ==> #[trigger] w(e) == 0,
        ensures
            self.spec_accepted_total(self.spec_interactions(0, target, far), w) == spec_total(
                self@,
                w,
            ),
    {
        self.lemma_walk_accounts_for_all(0, target, far, w);
    }
}

} // verus!
