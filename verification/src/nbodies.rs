//! The order of work within a tick: which pairs of bodies the pairwise step
//! evaluates, and how the tree of a tick is built.
use vstd::prelude::*;
use crate::octant::MAX_LEVELS;
use crate::octtree::{applied, lemma_applied_absent, Entry, OctTree, Update};

verus! {

/// Two distinct bodies, the one with the smaller handle first.
#[derive(Clone, Copy, Debug, PartialEq, Eq, Structural)]
pub struct Pair {
    pub first: usize,
    pub second: usize,
}

/// Whether `p` is a pair of two of the bodies `0` to `n - 1`.
pub open spec fn is_pair(n: usize, p: Pair) -> bool {
    p.first < p.second < n
}

/// Whether `p` comes before `q` in the order of evaluation: by the first
/// body, then by the second.
pub open spec fn pair_before(p: Pair, q: Pair) -> bool {
    p.first < q.first || (p.first == q.first && p.second < q.second)
}

/// The pair with which the evaluation begins; none with fewer than two
/// bodies.
pub open spec fn spec_first_pair(n: usize) -> Option<Pair> {
    if n >= 2 {
        Some(Pair { first: 0, second: 1 })
    } else {
        None
    }
}

/// The pair that is evaluated after `p`; none after the last.
pub open spec fn spec_next_pair(n: usize, p: Pair) -> Option<Pair> {
    if p.second + 1 < n {
        Some(Pair { first: p.first, second: (p.second + 1) as usize })
    } else if p.first + 2 < n {
        Some(Pair { first: (p.first + 1) as usize, second: (p.first + 2) as usize })
    } else {
        None
    }
}

/// The pair with which the pairwise step over `n` bodies begins. With
/// fewer than two bodies there is none, and the step does nothing.
pub fn first_pair(n: usize) -> (p: Option<Pair>)
    ensures
        p == spec_first_pair(n),
        p is Some ==> is_pair(n, p->0),
        p is None <==> n <= 1,
{
    if n >= 2 {
        Some(Pair { first: 0, second: 1 })
    } else {
        None
    }
}

/// The pair that the pairwise step over `n` bodies evaluates after `p`.
pub fn next_pair(n: usize, p: Pair) -> (q: Option<Pair>)
    requires
        is_pair(n, p),
    ensures
        q == spec_next_pair(n, p),
        q is Some ==> is_pair(n, q->0),
{
    if p.second + 1 < n {
        Some(Pair { first: p.first, second: p.second + 1 })
    } else if p.first + 2 < n {
        Some(Pair { first: p.first + 1, second: p.first + 2 })
    } else {
        None
    }
}

/// The evaluation begins with the pair that comes before every other.
pub proof fn lemma_first_pair_is_least(n: usize, q: Pair)
    requires
        is_pair(n, q),
    ensures
        spec_first_pair(n) is Some,
        spec_first_pair(n)->0 == q || pair_before(spec_first_pair(n)->0, q),
{
}

/// The evaluation goes from a pair to the very next one: the next pair
/// comes after it, and no pair lies between the two.
pub proof fn lemma_next_pair_is_successor(n: usize, p: Pair, q: Pair)
    requires
        is_pair(n, p),
        is_pair(n, q),
        pair_before(p, q),
    ensures
        spec_next_pair(n, p) is Some,
        is_pair(n, spec_next_pair(n, p)->0),
        pair_before(p, spec_next_pair(n, p)->0),
        spec_next_pair(n, p)->0 == q || pair_before(spec_next_pair(n, p)->0, q),
{
}

/// The evaluation ends only at the pair that comes after every other.
pub proof fn lemma_last_pair_is_greatest(n: usize, p: Pair, q: Pair)
    requires
        is_pair(n, p),
        is_pair(n, q),
        spec_next_pair(n, p) is None,
    ensures
        q == p || pair_before(q, p),
{
}

/// The tree of a tick, and the additions to the aggregates of its nodes in
/// the order in which they are to be applied.
pub struct Built {
    pub tree: OctTree,
    pub updates: Vec<Update>,
}

/// The bodies `0` to `keys.len() - 1`, each with its key.
pub open spec fn spec_entries(keys: Seq<u64>) -> Seq<Entry> {
    Seq::new(keys.len(), |i: int| Entry { body: i as usize, key: keys[i] })
}

/// Whether a tree over `n` bodies stays within the machine's limit on
/// indices, however the bodies lie.
pub open spec fn spec_fits(n: nat) -> bool {
    1 + 168 * (n + 1) <= usize::MAX
}

/// Whether a tree over `n` bodies stays within the machine's limit on
/// indices.
pub fn fits(n: usize) -> (r: bool)
    ensures
        r == spec_fits(n as nat),
{
    n < (usize::MAX - 1) / 168
}

/// What two lists of updates add to a node, one after the other.
proof fn lemma_applied_concat(u: Seq<Update>, v: Seq<Update>, n: int)
    ensures
        applied(u + v, n) == applied(u, n) + applied(v, n),
    decreases v.len(),
{
    if v.len() == 0 {
        assert(u + v =~= u);
        assert(applied(u, n) + applied(v, n) =~= applied(u, n));
    } else {
        lemma_applied_concat(u, v.drop_last(), n);
        assert((u + v).drop_last() =~= u + v.drop_last());
        assert((u + v).last() == v.last());
        if v.last().node == n {
            assert(applied(u, n) + applied(v.drop_last(), n).push(v.last().entry) =~= (applied(
                u,
                n,
            ) + applied(v.drop_last(), n)).push(v.last().entry));
        }
    }
}

/// Builds the tree of a tick: an empty tree that is split down to
/// `max_depth` levels, to which the bodies `0`, `1`, ... are added in this
/// order, body `i` at the position behind `keys[i]`.
pub fn build_tree(keys: &Vec<u64>, max_depth: u32) -> (built: Built)
    requires
        max_depth <= MAX_LEVELS,
        spec_fits(keys@.len()),
    ensures
        built.tree.wf(),
        built.tree.max_depth == max_depth,
        built.tree@ == spec_entries(keys@),
        forall|k: int|
            0 <= k < built.updates@.len() ==> (#[trigger] built.updates@[k]).node
                < built.tree.nodes@.len(),
        forall|n: int|
            0 <= n < built.tree.nodes@.len() ==> #[trigger] built.tree.contents@[n] == applied(
                built.updates@,
                n,
            ),
{
    let mut tree: OctTree = OctTree::new(max_depth);
    let mut updates: Vec<Update> = Vec::new();
    let mut i: usize = 0;
    assert(tree@ =~= spec_entries(keys@.subrange(0, 0)));
    assert(tree.contents@[0] =~= applied(updates@, 0));
    while i < keys.len()
        invariant
            i <= keys@.len(),
            spec_fits(keys@.len()),
            tree.wf(),
            tree.max_depth == max_depth,
            tree.nodes@.len() <= 1 + 168 * i,
            tree@ == spec_entries(keys@.subrange(0, i as int)),
            forall|k: int|
                0 <= k < updates@.len() ==> (#[trigger] updates@[k]).node < tree.nodes@.len(),
            forall|n: int|
                0 <= n < tree.nodes@.len() ==> #[trigger] tree.contents@[n] == applied(
                    updates@,
                    n,
                ),
        decreases keys@.len() - i,
    {
        let ghost t0 = tree;
        let ghost u0 = updates@;
        let mut more: Vec<Update> = tree.add_body(i, keys[i]);
        let ghost added = more@;
        updates.append(&mut more);
        proof {
            assert(spec_entries(keys@.subrange(0, i as int)).push(
                Entry { body: i, key: keys@[i as int] },
            ) =~= spec_entries(keys@.subrange(0, i + 1)));
            assert forall|n: int| 0 <= n < tree.nodes@.len() implies #[trigger] tree.contents@[n]
                == applied(updates@, n) by {
                lemma_applied_concat(u0, added, n);
                if n >= t0.nodes@.len() {
                    lemma_applied_absent(u0, n);
                    assert(t0.spec_contents(n) =~= applied(u0, n));
                }
            }
        }
        i += 1;
    }
    assert(keys@.subrange(0, i as int) =~= keys@);
    Built { tree, updates }
}

/// The tree for one tick over the bodies behind `keys`, if the tick has
/// work to do. With fewer than two bodies no body acts on another and the
/// tick is a no-op: there is no tree. There is none either for more bodies
/// than a tree can index.
pub fn tree_of_tick(keys: &Vec<u64>, max_depth: u32) -> (built: Option<Built>)
    requires
        max_depth <= MAX_LEVELS,
    ensures
        built is None <==> keys@.len() <= 1 || !spec_fits(keys@.len()),
        built matches Some(b) ==> {
            &&& b.tree.wf()
            &&& b.tree.max_depth == max_depth
            &&& b.tree@ == spec_entries(keys@)
            &&& forall|k: int|
                0 <= k < b.updates@.len() ==> (#[trigger] b.updates@[k]).node
                    < b.tree.nodes@.len()
            &&& forall|n: int|
                0 <= n < b.tree.nodes@.len() ==> #[trigger] b.tree.contents@[n] == applied(
                    b.updates@,
                    n,
                )
        },
{
    if keys.len() <= 1 || !fits(keys.len()) {
        None
    } else {
        Some(build_tree(keys, max_depth))
    }
}

} // verus!
