//! Which bodies lie in which cell: a node holds the bodies of the tree whose
//! keys lead to it, and no others.
use vstd::prelude::*;
use crate::octant::spec_octant_at;
use crate::octtree::{octant_part, Entry, OctTree};

verus! {

impl OctTree {
    /// Whether the way down the tree that `key` describes comes through
    /// node `n`: it comes through the parent of `n`, and there `key` names
    /// the octant of `n`.
    pub open spec fn spec_leads_to(&self, key: u64, n: int) -> bool
        decreases n,
    {
        if n <= 0 {
            n == 0
        } else {
            let p = self.nodes@[n].parent as int;
            &&& p < n
            &&& self.spec_leads_to(key, p)
            &&& self.nodes@[p].first_child matches Some(f) && f + spec_octant_at(
                key,
                self.nodes@[p].depth,
            ) == n
        }
    }

    /// The entries of `all` whose keys lead to node `n`, in order.
    pub open spec fn spec_bodies_of(&self, all: Seq<Entry>, n: int) -> Seq<Entry>
        decreases all.len(),
    {
        if all.len() == 0 {
            Seq::empty()
        } else {
            let rest = self.spec_bodies_of(all.drop_last(), n);
            if self.spec_leads_to(all.last().key, n) {
                rest.push(all.last())
            } else {
                rest
            }
        }
    }

    /// Every key leads to the root.
    proof fn lemma_bodies_of_root(&self, all: Seq<Entry>)
        ensures
            self.spec_bodies_of(all, 0) == all,
        decreases all.len(),
    {
        if all.len() == 0 {
            assert(all =~= Seq::<Entry>::empty());
        } else {
            self.lemma_bodies_of_root(all.drop_last());
            assert(all.drop_last().push(all.last()) =~= all);
        }
    }

    /// Of the entries that lead to a split node, those in the octant of a
    /// child are the ones that lead to the child.
    proof fn lemma_bodies_of_child(&self, all: Seq<Entry>, p: int, i: int)
        requires
            0 <= p < self.nodes@.len(),
            self.nodes@[p].first_child matches Some(f) && p < f && f + 8 <= self.nodes@.len(),
            0 <= i < 8,
            self.nodes@[self.nodes@[p].first_child->0 + i].parent == p,
        ensures
            octant_part(self.spec_bodies_of(all, p), self.nodes@[p].depth, i)
                == self.spec_bodies_of(all, self.nodes@[p].first_child->0 + i),
        decreases all.len(),
    {
        let n = self.nodes@[p].first_child->0 + i;
        let d = self.nodes@[p].depth;
        if all.len() > 0 {
            self.lemma_bodies_of_child(all.drop_last(), p, i);
            let e = all.last();
            let through = self.spec_bodies_of(all.drop_last(), p);
            assert(self.spec_leads_to(e.key, n) == (self.spec_leads_to(e.key, p)
                && spec_octant_at(e.key, d) == i));
            if self.spec_leads_to(e.key, p) {
                assert(through.push(e).drop_last() =~= through);
            }
        }
    }

    /// A node holds the bodies of the tree whose keys lead to it, in the
    /// order in which they were added, and no others: what lies in a cell
    /// follows from what was added to the tree.
    pub proof fn lemma_cell_holds_what_leads_to_it(&self, n: int)
        requires
            self.wf(),
            0 <= n < self.nodes@.len(),
        ensures
            self.contents@[n] == self.spec_bodies_of(self@, n),
        decreases n,
    {
        if n == 0 {
            self.lemma_bodies_of_root(self@);
        } else {
            assert(self.node_ok(n, None));
            let p = self.nodes@[n].parent as int;
            assert(self.node_ok(p, None));
            let i = n - self.nodes@[p].first_child->0;
            assert(self.child_ok(p, i, None));
            self.lemma_cell_holds_what_leads_to_it(p);
            self.lemma_bodies_of_child(self@, p, i);
        }
    }
}

} // verus!
