//! The Barnes-Hut octree, as an arena of nodes over body handles.
//!
//! The tree records which bodies lie in which cell; the masses and positions
//! of the bodies stay with the caller, who keeps one aggregate per node and
//! applies the updates that an insertion reports.
use vstd::prelude::*;
use crate::octant::{octant_at, spec_octant_at, MAX_LEVELS};

verus! {

/// A body in the tree: its handle, and the key of its position.
#[derive(Clone, Copy, Debug, PartialEq, Eq, Structural)]
pub struct Entry {
    pub body: usize,
    pub key: u64,
}

/// One cell of the tree.
#[derive(Clone, Copy, Debug, PartialEq, Eq)]
pub struct Node {
    /// The node this one is a child of (the root: itself).
    pub parent: usize,
    /// Levels below the root.
    pub depth: u32,
    /// How many bodies lie in this cell.
    pub num_bodies: usize,
    /// The first body that came to this cell, while the cell is unsplit.
    pub current_body: Option<Entry>,
    /// The index of the first of the eight children, once the cell is split.
    pub first_child: Option<usize>,
}

/// A body to add to the aggregate of a node.
#[derive(Clone, Copy, Debug, PartialEq, Eq, Structural)]
pub struct Update {
    pub node: usize,
    pub entry: Entry,
}

/// An entry on its way down the tree: the nodes above `node` have counted
/// it, `node` has not yet.
pub struct Pending {
    pub node: int,
    pub entry: Entry,
}

/// The entry `e` pending at `node`.
pub open spec fn pending_at(node: int, e: Entry) -> Option<Pending> {
    Some(Pending { node, entry: e })
}

/// The octree. Node 0 is the root; the children of a split node are eight
/// consecutive nodes.
pub struct OctTree {
    pub nodes: Vec<Node>,
    /// The level at which cells are no longer split.
    pub max_depth: u32,
    /// For each node, the bodies that lie in its cell, in order of arrival.
    pub contents: Ghost<Seq<Seq<Entry>>>,
}

/// The entries of `c` whose key lies in octant `i` at `depth`, in order.
pub open spec fn octant_part(c: Seq<Entry>, depth: u32, i: int) -> Seq<Entry>
    decreases c.len(),
{
    if c.len() == 0 {
        Seq::empty()
    } else {
        let rest = octant_part(c.drop_last(), depth, i);
        if spec_octant_at(c.last().key, depth) == i {
            rest.push(c.last())
        } else {
            rest
        }
    }
}

/// The entries that `updates` adds to node `n`, in order.
pub open spec fn applied(updates: Seq<Update>, n: int) -> Seq<Entry>
    decreases updates.len(),
{
    if updates.len() == 0 {
        Seq::empty()
    } else {
        let rest = applied(updates.drop_last(), n);
        if updates.last().node == n {
            rest.push(updates.last().entry)
        } else {
            rest
        }
    }
}

/// Adding an entry at the end adds it to the part of its own octant only.
pub(crate) proof fn lemma_octant_part_push(c: Seq<Entry>, e: Entry, depth: u32, i: int)
    ensures
        octant_part(c.push(e), depth, i) == if spec_octant_at(e.key, depth) == i {
            octant_part(c, depth, i).push(e)
        } else {
            octant_part(c, depth, i)
        },
{
    assert(c.push(e).drop_last() =~= c);
}

/// A part is no longer than the whole.
proof fn lemma_octant_part_len(c: Seq<Entry>, depth: u32, i: int)
    ensures
        octant_part(c, depth, i).len() <= c.len(),
    decreases c.len(),
{
    if c.len() > 0 {
        lemma_octant_part_len(c.drop_last(), depth, i);
    }
}

/// One more update adds its entry to its own node only.
proof fn lemma_applied_push(updates: Seq<Update>, u: Update, n: int)
    ensures
        applied(updates.push(u), n) == if u.node == n {
            applied(updates, n).push(u.entry)
        } else {
            applied(updates, n)
        },
{
    assert(updates.push(u).drop_last() =~= updates);
}

/// Updates that do not name a node add nothing to it.
pub(crate) proof fn lemma_applied_absent(updates: Seq<Update>, n: int)
    requires
        forall|k: int| 0 <= k < updates.len() ==> (#[trigger] updates[k]).node != n,
    ensures
        applied(updates, n) == Seq::<Entry>::empty(),
    decreases updates.len(),
{
    if updates.len() > 0 {
        let rest = updates.drop_last();
        assert forall|k: int| 0 <= k < rest.len() implies (#[trigger] rest[k]).node != n by {
            assert(rest[k] == updates[k]);
        }
        lemma_applied_absent(rest, n);
        assert(updates.last() == updates[updates.len() - 1]);
    }
}

/// A well-formed tree is well-formed with any entry pending at the root.
proof fn lemma_pending_at_root(t: OctTree, e: Entry)
    requires
        t.wf(),
    ensures
        t.wf_pending(pending_at(0, e)),
{
    assert forall|n: int| 0 <= n < t.nodes@.len() implies #[trigger] t.node_ok(
        n,
        pending_at(0, e),
    ) by {
        assert(t.node_ok(n, None));
        if t.nodes@[n].first_child is Some {
            assert forall|i: int| 0 <= i < 8 implies #[trigger] t.child_ok(n, i, pending_at(0, e)) by {
                assert(t.child_ok(n, i, None));
            }
        }
    }
}

/// Counting the pending entry at node `cur` leaves the tree well-formed,
/// with the entry pending at the child of its octant if `cur` is split, and
/// with nothing pending if `cur` is empty or lies at the deepest level.
proof fn lemma_step(s0: OctTree, s1: OctTree, cur: int, e: Entry, next: Option<Pending>)
    requires
        s0.wf_pending(pending_at(cur, e)),
        0 <= cur < s0.nodes@.len(),
        s1.max_depth == s0.max_depth,
        s1.nodes@.len() == s0.nodes@.len(),
        forall|n: int| 0 <= n < s0.nodes@.len() && n != cur ==> s1.nodes@[n] == s0.nodes@[n],
        s1.nodes@[cur].parent == s0.nodes@[cur].parent,
        s1.nodes@[cur].depth == s0.nodes@[cur].depth,
        s1.nodes@[cur].first_child == s0.nodes@[cur].first_child,
        s1.nodes@[cur].num_bodies == s0.contents@[cur].len() + 1,
        s1.nodes@[cur].current_body == if s0.contents@[cur].len() == 0 {
            Some(e)
        } else {
            s0.nodes@[cur].current_body
        },
        s1.contents@ == s0.contents@.update(cur, s0.contents@[cur].push(e)),
        match s0.nodes@[cur].first_child {
            Some(f) => next == pending_at(f + spec_octant_at(e.key, s0.nodes@[cur].depth), e)
                && spec_octant_at(e.key, s0.nodes@[cur].depth) < 8,
            None => next is None && (s0.contents@[cur].len() == 0 || s0.nodes@[cur].depth
                == s0.max_depth),
        },
    ensures
        s1.wf_pending(next),
{
    assert(s0.node_ok(cur, pending_at(cur, e)));
    assert(s0.node_ok(0, pending_at(cur, e)));
    assert forall|n: int| 0 <= n < s1.nodes@.len() implies #[trigger] s1.node_ok(n, next) by {
        assert(s0.node_ok(n, pending_at(cur, e)));
        let nd = s0.nodes@[n];
        if nd.first_child is Some {
            let f = nd.first_child->0;
            assert forall|i: int| 0 <= i < 8 implies #[trigger] s1.child_ok(n, i, next) by {
                assert(s0.child_ok(n, i, pending_at(cur, e)));
                if n == cur {
                    lemma_octant_part_push(s0.contents@[cur], e, nd.depth, i);
                } else if next is Some {
                    let fc = s0.nodes@[cur].first_child->0;
                    let o = spec_octant_at(e.key, s0.nodes@[cur].depth) as int;
                    assert(s0.child_ok(cur, o, pending_at(cur, e)));
                }
            }
        }
    }
}

/// An unsplit node under `parent` that holds `first`, if any, and nothing
/// else.
pub open spec fn spec_leaf(parent: usize, depth: u32, first: Option<Entry>) -> Node {
    Node {
        parent,
        depth,
        num_bodies: if first is Some {
            1
        } else {
            0
        },
        current_body: first,
        first_child: None,
    }
}

/// The bodies in the cell of a new node that holds `first`, if any.
pub open spec fn spec_cell(first: Option<Entry>) -> Seq<Entry> {
    match first {
        Some(x) => Seq::empty().push(x),
        None => Seq::empty(),
    }
}

/// What the `k`-th child of a node at `depth` begins with when the node is
/// split: the one body `e0` of the node, if `k` is the octant of `e0`.
pub open spec fn spec_share(k: int, e0: Entry, depth: u32) -> Option<Entry> {
    if k == spec_octant_at(e0.key, depth) {
        Some(e0)
    } else {
        None
    }
}

/// Splitting the unsplit node `cur`, which holds the one body `e0`, on the
/// arrival of `e` leaves the tree well-formed, with `e` pending at the child
/// of its octant.
proof fn lemma_split(s0: OctTree, s2: OctTree, cur: int, e: Entry, e0: Entry, next: int)
    requires
        s0.wf_pending(pending_at(cur, e)),
        0 <= cur < s0.nodes@.len(),
        s0.nodes@[cur].first_child is None,
        s0.contents@[cur].len() == 1,
        s0.contents@[cur][0] == e0,
        s0.nodes@[cur].depth < s0.max_depth,
        s2.max_depth == s0.max_depth,
        s2.nodes@.len() == s0.nodes@.len() + 8,
        s2.contents@.len() == s0.nodes@.len() + 8,
        s0.nodes@.len() + 8 <= usize::MAX,
        forall|n: int|
            0 <= n < s0.nodes@.len() && n != cur ==> #[trigger] s2.nodes@[n] == s0.nodes@[n],
        forall|n: int|
            0 <= n < s0.nodes@.len() && n != cur ==> #[trigger] s2.contents@[n]
                == s0.contents@[n],
        s2.nodes@[cur] == (Node {
            parent: s0.nodes@[cur].parent,
            depth: s0.nodes@[cur].depth,
            num_bodies: 2,
            current_body: None,
            first_child: Some(s0.nodes@.len() as usize),
        }),
        s2.contents@[cur] == s0.contents@[cur].push(e),
        forall|k: int|
            0 <= k < 8 ==> #[trigger] s2.nodes@[s0.nodes@.len() + k] == spec_leaf(
                cur as usize,
                (s0.nodes@[cur].depth + 1) as u32,
                spec_share(k, e0, s0.nodes@[cur].depth),
            ),
        forall|k: int|
            0 <= k < 8 ==> #[trigger] s2.contents@[s0.nodes@.len() + k] == spec_cell(
                spec_share(k, e0, s0.nodes@[cur].depth),
            ),
        next == s0.nodes@.len() + spec_octant_at(e.key, s0.nodes@[cur].depth),
        spec_octant_at(e.key, s0.nodes@[cur].depth) < 8,
    ensures
        s2.wf_pending(pending_at(next, e)),
{
    let f = s0.nodes@.len() as int;
    let d = s0.nodes@[cur].depth;
    let c = s0.contents@[cur];
    assert(s0.node_ok(cur, pending_at(cur, e)));
    assert(s0.node_ok(0, pending_at(cur, e)));
    assert(c =~= Seq::<Entry>::empty().push(e0));
    assert forall|n: int| 0 <= n < s2.nodes@.len() implies #[trigger] s2.node_ok(n, pending_at(next, e)) by {
        if n < f {
            assert(s0.node_ok(n, pending_at(cur, e)));
            if n > 0 {
                let p = s0.nodes@[n].parent as int;
                assert(s0.spec_is_child(p, n));
                assert(s2.nodes@[p] == s0.nodes@[p]);
                assert(s2.spec_is_child(p, n));
            }
            if n == cur {
                assert forall|i: int| 0 <= i < 8 implies #[trigger] s2.child_ok(n, i, pending_at(next, e)) by {
                    assert(s2.nodes@[f + i].first_child is None);
                    assert(s2.contents@[f + i].len() <= 1);
                    lemma_octant_part_push(Seq::<Entry>::empty(), e0, d, i);
                    lemma_octant_part_push(c, e, d, i);
                }
            } else if s0.nodes@[n].first_child is Some {
                assert forall|i: int| 0 <= i < 8 implies #[trigger] s2.child_ok(n, i, pending_at(next, e)) by {
                    assert(s0.child_ok(n, i, pending_at(cur, e)));
                }
            }
        } else {
            let k = n - f;
            assert(s2.nodes@[f + k].first_child is None);
            assert(s2.contents@[f + k].len() <= 1);
        }
    }
}

/// After one more update for node `cur`, each node still holds what it held
/// at first and what the updates add to it.
proof fn lemma_applied_step(
    first: OctTree,
    c0: Seq<Seq<Entry>>,
    c1: Seq<Seq<Entry>>,
    u0: Seq<Update>,
    u1: Seq<Update>,
    cur: usize,
    e: Entry,
)
    requires
        0 <= cur < c0.len(),
        c1 == c0.update(cur as int, c0[cur as int].push(e)),
        u1 == u0.push(Update { node: cur, entry: e }),
        forall|n: int|
            0 <= n < c0.len() ==> #[trigger] c0[n] == first.spec_contents(n) + applied(u0, n),
    ensures
        forall|n: int|
            0 <= n < c1.len() ==> #[trigger] c1[n] == first.spec_contents(n) + applied(u1, n),
{
    assert forall|n: int| 0 <= n < c1.len() implies #[trigger] c1[n] == first.spec_contents(n)
        + applied(u1, n) by {
        lemma_applied_push(u0, Update { node: cur, entry: e }, n);
        assert(c0[n] == first.spec_contents(n) + applied(u0, n));
        if n == cur {
            assert(c1[n] =~= first.spec_contents(n) + applied(u0, n).push(e));
        }
    }
}

/// After the two updates of a split, each node holds what it held at first
/// and what the updates add to it.
proof fn lemma_applied_split(
    first: OctTree,
    c0: Seq<Seq<Entry>>,
    c2: Seq<Seq<Entry>>,
    u0: Seq<Update>,
    u2: Seq<Update>,
    cur: usize,
    e: Entry,
    e0: Entry,
    child: usize,
)
    requires
        0 <= cur < c0.len(),
        first.contents@.len() <= c0.len(),
        c2.len() == c0.len() + 8,
        c0.len() <= child < c0.len() + 8,
        forall|n: int| 0 <= n < c0.len() && n != cur ==> #[trigger] c2[n] == c0[n],
        c2[cur as int] == c0[cur as int].push(e),
        c2[child as int] == Seq::<Entry>::empty().push(e0),
        forall|n: int|
            c0.len() <= n < c0.len() + 8 && n != child ==> #[trigger] c2[n] == Seq::<
                Entry,
            >::empty(),
        u2 == u0.push(Update { node: cur, entry: e }).push(Update { node: child, entry: e0 }),
        forall|k: int| 0 <= k < u0.len() ==> (#[trigger] u0[k]).node < c0.len(),
        forall|n: int|
            0 <= n < c0.len() ==> #[trigger] c0[n] == first.spec_contents(n) + applied(u0, n),
    ensures
        forall|n: int|
            0 <= n < c2.len() ==> #[trigger] c2[n] == first.spec_contents(n) + applied(u2, n),
{
    let u1 = u0.push(Update { node: cur, entry: e });
    assert forall|n: int| 0 <= n < c2.len() implies #[trigger] c2[n] == first.spec_contents(n)
        + applied(u2, n) by {
        lemma_applied_push(u0, Update { node: cur, entry: e }, n);
        lemma_applied_push(u1, Update { node: child, entry: e0 }, n);
        if n < c0.len() {
            assert(c0[n] == first.spec_contents(n) + applied(u0, n));
            if n == cur {
                assert(c2[n] =~= first.spec_contents(n) + applied(u0, n).push(e));
            }
        } else {
            lemma_applied_absent(u0, n);
            assert(first.spec_contents(n) =~= Seq::<Entry>::empty());
            assert(c2[n] =~= first.spec_contents(n) + applied(u2, n));
        }
    }
}

impl View for OctTree {
    type V = Seq<Entry>;

    /// The bodies in the tree, in the order in which they were added.
    open spec fn view(&self) -> Seq<Entry> {
        self.contents@[0]
    }
}

impl OctTree {
    /// What holds between a split node `n` and its `i`-th child: the child
    /// holds the part of the node's bodies that falls to its octant, but for
    /// an entry that is pending at the child.
    pub open spec fn child_ok(&self, n: int, i: int, pending: Option<Pending>) -> bool {
        let nd = self.nodes@[n];
        let ch = nd.first_child->0 + i;
        let want = octant_part(self.contents@[n], nd.depth, i);
        &&& self.nodes@[ch].parent == n
        &&& self.nodes@[ch].depth == nd.depth + 1
        &&& match pending {
            Some(p) if p.node == ch => self.contents@[ch].push(p.entry) == want,
            _ => self.contents@[ch] == want,
        }
    }

    /// Whether `n` is one of the eight children of the split node `p`.
    pub open spec fn spec_is_child(&self, p: int, n: int) -> bool {
        &&& 0 <= p < n
        &&& self.nodes@[p].first_child matches Some(f) && f <= n < f + 8
    }

    /// What holds of node `n`: its count, its place under its parent, and
    /// its shape by its count.
    pub open spec fn node_ok(&self, n: int, pending: Option<Pending>) -> bool {
        let nd = self.nodes@[n];
        let c = self.contents@[n];
        &&& nd.depth <= self.max_depth
        &&& nd.num_bodies == c.len()
        &&& if n == 0 {
            nd.parent == 0
        } else {
            self.spec_is_child(nd.parent as int, n)
        }
        &&& match nd.first_child {
            Some(f) => {
                &&& n < f
                &&& f + 8 <= self.nodes@.len()
                &&& nd.depth < self.max_depth
                &&& c.len() >= 2
                &&& nd.current_body is None
                &&& forall|i: int| 0 <= i < 8 ==> #[trigger] self.child_ok(n, i, pending)
            },
            None => {
                &&& c.len() == 0 ==> nd.current_body is None
                &&& c.len() >= 1 ==> nd.current_body == Some(c[0])
                &&& c.len() >= 2 ==> nd.depth == self.max_depth
            },
        }
    }

    /// Well-formedness while an insertion is on its way down: the nodes
    /// above the pending one have counted the entry, the pending node has
    /// not yet.
    pub open spec fn wf_pending(&self, pending: Option<Pending>) -> bool {
        &&& 1 <= self.nodes@.len() <= usize::MAX
        &&& self.contents@.len() == self.nodes@.len()
        &&& self.max_depth <= MAX_LEVELS
        &&& self.nodes@[0].depth == 0
        &&& forall|n: int| 0 <= n < self.nodes@.len() ==> #[trigger] self.node_ok(n, pending)
    }

    /// Well-formedness. An empty cell has neither body nor children. A cell
    /// with one body holds it directly. A cell with more is split into eight
    /// children, which share its bodies by octant, unless it lies at the
    /// deepest level: there it stays unsplit and keeps its first body.
    pub open spec fn wf(&self) -> bool {
        self.wf_pending(None)
    }

    /// Whether one more body fits: indices and counts stay below the
    /// machine's limit.
    pub open spec fn spec_has_room(&self) -> bool {
        &&& self.nodes@.len() + 8 * MAX_LEVELS <= usize::MAX
        &&& self@.len() < usize::MAX
    }

    /// An empty tree whose cells are split down to `max_depth` levels.
    pub fn new(max_depth: u32) -> (tree: OctTree)
        requires
            max_depth <= MAX_LEVELS,
        ensures
            tree.wf(),
            tree@ == Seq::<Entry>::empty(),
            tree.max_depth == max_depth,
            tree.nodes@.len() == 1,
            tree.nodes@[0].parent == 0,
    {
        let mut nodes: Vec<Node> = Vec::new();
        nodes.push(
            Node { parent: 0, depth: 0, num_bodies: 0, current_body: None, first_child: None },
        );
        let ghost contents = Seq::<Seq<Entry>>::empty().push(Seq::<Entry>::empty());
        let tree = OctTree { nodes, max_depth, contents: Ghost(contents) };
        assert(tree.node_ok(0, None));
        tree
    }

    /// Whether one more body fits.
    pub fn has_room(&self) -> (r: bool)
        requires
            self.wf(),
        ensures
            r == self.spec_has_room(),
    {
        assert(self.node_ok(0, None));
        self.nodes.len() <= usize::MAX - 168 && self.nodes[0].num_bodies < usize::MAX
    }

    /// The number of nodes.
    pub fn len(&self) -> (n: usize)
        ensures
            n == self.nodes@.len(),
    {
        self.nodes.len()
    }

    /// The child of node `n` in whose cell the position behind `key` lies;
    /// `None` where `n` is not split.
    pub fn find_subtree(&self, n: usize, key: u64) -> (child: Option<usize>)
        requires
            self.wf(),
            n < self.nodes@.len(),
        ensures
            child == match self.nodes@[n as int].first_child {
                Some(f) => Some(
                    (f + spec_octant_at(key, self.nodes@[n as int].depth)) as usize,
                ),
                None => None::<usize>,
            },
            child is Some ==> child->0 < self.nodes@.len(),
    {
        assert(self.node_ok(n as int, None));
        let nd: Node = self.nodes[n];
        match nd.first_child {
            Some(f) => {
                let o: usize = octant_at(key, nd.depth);
                Some(f + o)
            },
            None => None,
        }
    }

    /// The bodies in the cell of node `n`; none for a node that is not there.
    pub open spec fn spec_contents(&self, n: int) -> Seq<Entry> {
        if 0 <= n < self.contents@.len() {
            self.contents@[n]
        } else {
            Seq::empty()
        }
    }

    /// Whether `now` is node `n` of this tree at a later time: a node keeps
    /// its place in the tree, and its children once it has them.
    pub open spec fn spec_same_cell(&self, n: int, now: Node) -> bool {
        let was = self.nodes@[n];
        &&& now.parent == was.parent
        &&& now.depth == was.depth
        &&& was.first_child is Some ==> now.first_child == was.first_child
    }

    /// Appends an unsplit node that holds `first`, if any, and nothing else.
    fn push_leaf(&mut self, parent: usize, depth: u32, first: Option<Entry>)
        ensures
            final(self).max_depth == old(self).max_depth,
            final(self).nodes@ == old(self).nodes@.push(spec_leaf(parent, depth, first)),
            final(self).contents@ == old(self).contents@.push(spec_cell(first)),
    {
        let count: usize = if first.is_some() {
            1
        } else {
            0
        };
        self.nodes.push(
            Node { parent, depth, num_bodies: count, current_body: first, first_child: None },
        );
        self.contents = Ghost(self.contents@.push(spec_cell(first)));
    }

    /// Appends the eight children of node `cur`, which lies at `depth` and
    /// holds the one body `e0`: the child of the octant of `e0` takes the
    /// body, the others are empty.
    fn push_children(&mut self, cur: usize, depth: u32, e0: Entry)
        requires
            depth < MAX_LEVELS,
            old(self).contents@.len() == old(self).nodes@.len(),
        ensures
            final(self).max_depth == old(self).max_depth,
            final(self).nodes@.len() == old(self).nodes@.len() + 8,
            final(self).contents@.len() == old(self).nodes@.len() + 8,
            forall|n: int|
                0 <= n < old(self).nodes@.len() ==> #[trigger] final(self).nodes@[n]
                    == old(self).nodes@[n],
            forall|n: int|
                0 <= n < old(self).nodes@.len() ==> #[trigger] final(self).contents@[n]
                    == old(self).contents@[n],
            forall|k: int|
                0 <= k < 8 ==> #[trigger] final(self).nodes@[old(self).nodes@.len() + k]
                    == spec_leaf(cur, (depth + 1) as u32, spec_share(k, e0, depth)),
            forall|k: int|
                0 <= k < 8 ==> #[trigger] final(self).contents@[old(self).nodes@.len() + k]
                    == spec_cell(spec_share(k, e0, depth)),
    {
        let ghost f = self.nodes@.len() as int;
        let o0: usize = octant_at(e0.key, depth);
        let mut i: usize = 0;
        while i < 8
            invariant
                i <= 8,
                depth < MAX_LEVELS,
                o0 == spec_octant_at(e0.key, depth),
                f == old(self).nodes@.len(),
                self.max_depth == old(self).max_depth,
                self.nodes@.len() == f + i,
                self.contents@.len() == f + i,
                forall|n: int| 0 <= n < f ==> #[trigger] self.nodes@[n] == old(self).nodes@[n],
                forall|n: int|
                    0 <= n < f ==> #[trigger] self.contents@[n] == old(self).contents@[n],
                forall|k: int|
                    0 <= k < i ==> #[trigger] self.nodes@[f + k] == spec_leaf(
                        cur,
                        (depth + 1) as u32,
                        spec_share(k, e0, depth),
                    ),
                forall|k: int|
                    0 <= k < i ==> #[trigger] self.contents@[f + k] == spec_cell(
                        spec_share(k, e0, depth),
                    ),
            decreases 8 - i,
        {
            let ghost before = *self;
            let first: Option<Entry> = if i == o0 {
                Some(e0)
            } else {
                None
            };
            self.push_leaf(cur, depth + 1, first);
            proof {
                assert forall|k: int| 0 <= k < i + 1 implies #[trigger] self.nodes@[f + k]
                    == spec_leaf(cur, (depth + 1) as u32, spec_share(k, e0, depth)) by {
                    if k < i {
                        assert(self.nodes@[f + k] == before.nodes@[f + k]);
                    }
                }
                assert forall|k: int| 0 <= k < i + 1 implies #[trigger] self.contents@[f + k]
                    == spec_cell(spec_share(k, e0, depth)) by {
                    if k < i {
                        assert(self.contents@[f + k] == before.contents@[f + k]);
                    }
                }
            }
            i += 1;
        }
    }

    /// Replaces node `cur` by `node`, takes `e` into its cell, and notes the
    /// update.
    fn record(&mut self, cur: usize, node: Node, e: Entry, updates: &mut Vec<Update>)
        requires
            cur < old(self).nodes@.len(),
            cur < old(self).contents@.len(),
        ensures
            final(self).max_depth == old(self).max_depth,
            final(self).nodes@ == old(self).nodes@.update(cur as int, node),
            final(self).contents@ == old(self).contents@.update(
                cur as int,
                old(self).contents@[cur as int].push(e),
            ),
            final(updates)@ == old(updates)@.push((Update { node: cur, entry: e })),
    {
        self.nodes[cur] = node;
        self.contents = Ghost(
            self.contents@.update(cur as int, self.contents@[cur as int].push(e)),
        );
        updates.push(Update { node: cur, entry: e });
    }

    /// Adds a body to the tree. The body is counted in every cell on the way
    /// from the root down to the cell where it comes to rest: an empty cell,
    /// or a cell at the deepest level. A cell on the way that held one body
    /// is split first, and that body moves to the child of its octant.
    ///
    /// Returns, in the order in which they are to be applied, the additions
    /// to the nodes' aggregates: for each node, the bodies that are new to
    /// its cell.
    pub fn add_body(&mut self, body: usize, key: u64) -> (updates: Vec<Update>)
        requires
            old(self).wf(),
            old(self).spec_has_room(),
        ensures
            final(self).wf(),
            final(self)@ == old(self)@.push((Entry { body, key })),
            final(self).max_depth == old(self).max_depth,
            old(self).nodes@.len() <= final(self).nodes@.len() <= old(self).nodes@.len() + 8
                * old(self).max_depth,
            forall|n: int|
                0 <= n < old(self).nodes@.len() ==> old(self).spec_same_cell(
                    n,
                    #[trigger] final(self).nodes@[n],
                ),
            forall|k: int|
                0 <= k < updates@.len() ==> (#[trigger] updates@[k]).node
                    < final(self).nodes@.len(),
            forall|n: int|
                0 <= n < final(self).nodes@.len() ==> #[trigger] final(self).contents@[n]
                    == old(self).spec_contents(n) + applied(updates@, n),
    {
        let e = Entry { body, key };
        let mut updates: Vec<Update> = Vec::new();
        let mut cur: usize = 0;
        proof {
            lemma_pending_at_root(*self, e);
            assert forall|n: int| 0 <= n < self.nodes@.len() implies #[trigger] self.contents@[n]
                == old(self).spec_contents(n) + applied(updates@, n) by {
                assert(self.contents@[n] + Seq::<Entry>::empty() =~= self.contents@[n]);
            }
        }
        loop
            invariant
                self.wf_pending(pending_at(cur as int, e)),
                e == (Entry { body, key }),
                cur < self.nodes@.len(),
                old(self).contents@.len() == old(self).nodes@.len(),
                self.max_depth == old(self).max_depth,
                self.nodes@.len() >= old(self).nodes@.len(),
                old(self).nodes@.len() + 8 * MAX_LEVELS <= usize::MAX,
                self.nodes@.len() + 8 * (self.max_depth - self.nodes@[cur as int].depth)
                    <= old(self).nodes@.len() + 8 * self.max_depth,
                self.contents@[cur as int].len() < usize::MAX,
                cur == 0 ==> self.contents@[0] == old(self)@,
                cur != 0 ==> self.contents@[0] == old(self)@.push(e),
                forall|n: int|
                    0 <= n < old(self).nodes@.len() ==> old(self).spec_same_cell(
                        n,
                        #[trigger] self.nodes@[n],
                    ),
                forall|k: int|
                    0 <= k < updates@.len() ==> (#[trigger] updates@[k]).node < self.nodes@.len(),
                forall|n: int|
                    0 <= n < self.nodes@.len() ==> #[trigger] self.contents@[n]
                        == old(self).spec_contents(n) + applied(updates@, n),
            decreases self.max_depth - self.nodes@[cur as int].depth,
        {
            let ghost s0 = *self;
            let ghost u0 = updates@;
            assert(s0.node_ok(cur as int, pending_at(cur as int, e)));
            let mut node: Node = self.nodes[cur];
            let was: usize = node.num_bodies;
            node.num_bodies = was + 1;
            match node.first_child {
                Some(f) => {
                    // A split node: the body goes on to the child of its octant.
                    let o: usize = octant_at(key, node.depth);
                    self.record(cur, node, e, &mut updates);
                    proof {
                        lemma_step(s0, *self, cur as int, e, pending_at(f + o, e));
                        lemma_applied_step(
                            *old(self),
                            s0.contents@,
                            self.contents@,
                            u0,
                            updates@,
                            cur,
                            e,
                        );
                        assert(s0.child_ok(cur as int, o as int, pending_at(cur as int, e)));
                        lemma_octant_part_push(s0.contents@[cur as int], e, node.depth, o as int);
                        lemma_octant_part_len(s0.contents@[cur as int], node.depth, o as int);
                    }
                    cur = f + o;
                },
                None => {
                    if was == 0 || node.depth >= self.max_depth {
                        // An empty cell takes the body; a cell at the deepest
                        // level only counts it.
                        if was == 0 {
                            node.current_body = Some(e);
                        }
                        self.record(cur, node, e, &mut updates);
                        proof {
                            lemma_step(s0, *self, cur as int, e, None);
                            lemma_applied_step(
                                *old(self),
                                s0.contents@,
                                self.contents@,
                                u0,
                                updates@,
                                cur,
                                e,
                            );
                        }
                        return updates;
                    }
                    // A cell with one body is split: that body moves down,
                    // and the new one goes on to the child of its octant.
                    let e0: Entry = node.current_body.unwrap();
                    let f: usize = self.nodes.len();
                    let o0: usize = octant_at(e0.key, node.depth);
                    let o: usize = octant_at(key, node.depth);
                    self.push_children(cur, node.depth, e0);
                    let ghost s1 = *self;
                    node.current_body = None;
                    node.first_child = Some(f);
                    self.record(cur, node, e, &mut updates);
                    updates.push(Update { node: f + o0, entry: e0 });
                    proof {
                        assert forall|k: int| 0 <= k < 8 implies #[trigger] self.contents@[f + k]
                            == s1.contents@[f + k] && self.nodes@[f + k] == s1.nodes@[f + k] by {}
                        assert forall|n: int|
                            f <= n < f + 8 && n != f + o0 implies #[trigger] self.contents@[n]
                            == Seq::<Entry>::empty() by {
                            assert(self.contents@[f + (n - f)] == s1.contents@[f + (n - f)]);
                        }
                        assert forall|n: int|
                            0 <= n < old(self).nodes@.len() implies old(self).spec_same_cell(
                            n,
                            #[trigger] self.nodes@[n],
                        ) by {
                            assert(old(self).spec_same_cell(n, s0.nodes@[n]));
                            if n != cur {
                                assert(self.nodes@[n] == s1.nodes@[n]);
                            }
                        }
                        lemma_split(s0, *self, cur as int, e, e0, f + o);
                        lemma_applied_split(
                            *old(self),
                            s0.contents@,
                            self.contents@,
                            u0,
                            updates@,
                            cur,
                            e,
                            e0,
                            (f + o0) as usize,
                        );
                    }
                    cur = f + o;
                },
            }
        }
    }

    /// Every node counts the bodies in its cell; the root counts all bodies
    /// of the tree.
    pub proof fn lemma_counts(&self, n: int)
        requires
            self.wf(),
            0 <= n < self.nodes@.len(),
        ensures
            self.nodes@[n].num_bodies == self.contents@[n].len(),
            self.nodes@[0].num_bodies == self@.len(),
    {
        assert(self.node_ok(n, None));
        assert(self.node_ok(0, None));
    }
}

} // verus!
