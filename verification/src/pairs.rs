//! What it means for two graphs to agree, walked in step from a pair of items.
//!
//! A pair of items agrees when the two show the same values and have links in the same places.
//! From a pair one steps to the pairs of items that corresponding links lead to.

use crate::cache::ProbCache;
use crate::node::{NeighborSlot, ProbNode, SharedNode};
use vstd::prelude::*;

verus! {

/// Two items that are compared with each other.
pub type Pair = (SharedNode, SharedNode);

/// Both slots are empty, or both hold a neighbor at the same distance.
pub open spec fn slot_agrees(a: NeighborSlot, b: NeighborSlot) -> bool {
    match (a, b) {
        (None, None) => true,
        (Some((_, d)), Some((_, e))) => d.same_distance(e),
        _ => false,
    }
}

/// As many slots, and each agrees with its counterpart.
pub open spec fn slots_agree(a: Seq<NeighborSlot>, b: Seq<NeighborSlot>) -> bool {
    &&& a.len() == b.len()
    &&& forall|i: int| 0 <= i < a.len() ==> slot_agrees(#[trigger] a[i], b[i])
}

/// The values of two nodes are the same, and the same links are present in both.
pub open spec fn nodes_agree(a: ProbNode, b: ProbNode) -> bool {
    &&& a.hnsw_level == b.hnsw_level
    &&& a.prop.same_prop(*b.prop)
    &&& a.versions@.len() == b.versions@.len()
    &&& a.parent is Some == b.parent is Some
    &&& a.child is Some == b.child is Some
    &&& slots_agree(a.neighbors@, b.neighbors@)
}

/// The pairs at the same position of two lists.
pub open spec fn item_pairs(a: Seq<SharedNode>, b: Seq<SharedNode>) -> Set<Pair> {
    Set::new(
        |p: Pair| exists|i: int| 0 <= i < a.len() && i < b.len() && p == (#[trigger] a[i], b[i]),
    )
}

/// The pair that two links lead to, if both are present.
pub open spec fn link_pair(a: Option<SharedNode>, b: Option<SharedNode>) -> Set<Pair> {
    match (a, b) {
        (Some(x), Some(y)) => Set::empty().insert((x, y)),
        _ => Set::empty(),
    }
}

/// The pairs of neighbors in the same slot.
pub open spec fn slot_pairs(a: Seq<NeighborSlot>, b: Seq<NeighborSlot>) -> Set<Pair> {
    Set::new(
        |p: Pair|
            exists|i: int|
                {
                    &&& 0 <= i < a.len()
                    &&& i < b.len()
                    &&& (#[trigger] a[i]) matches Some((x, _))
                    &&& b[i] matches Some((y, _))
                    &&& p == (x, y)
                },
    )
}

/// The pairs of items that corresponding links of two nodes lead to.
pub open spec fn node_pairs(a: ProbNode, b: ProbNode) -> Set<Pair> {
    item_pairs(a.versions@, b.versions@).union(link_pair(a.parent, b.parent)).union(
        link_pair(a.child, b.child),
    ).union(slot_pairs(a.neighbors@, b.neighbors@))
}

/// The items of a pair have the same version, both show a node, and the nodes agree.
pub open spec fn items_agree(cache: ProbCache, p: Pair) -> bool {
    &&& cache.item(p.0) matches Some(a)
    &&& cache.item(p.1) matches Some(b)
    &&& a.version_id == b.version_id
    &&& a.version_number == b.version_number
    &&& cache.node(p.0) matches Ok(m)
    &&& cache.node(p.1) matches Ok(n)
    &&& nodes_agree(m, n)
}

/// The pairs that one step leads to.
pub open spec fn successors(cache: ProbCache, p: Pair) -> Set<Pair> {
    match (cache.node(p.0), cache.node(p.1)) {
        (Ok(a), Ok(b)) => node_pairs(a, b),
        _ => Set::empty(),
    }
}

/// A walk by steps that goes no further from a pair in `done`.
pub open spec fn is_walk(cache: ProbCache, done: Set<Pair>, walk: Seq<Pair>) -> bool {
    &&& walk.len() > 0
    &&& forall|i: int|
        #![trigger walk[i]]
        0 <= i < walk.len() - 1 ==> !done.contains(walk[i]) && successors(
            cache,
            walk[i],
        ).contains(walk[i + 1])
}

/// A walk from one of the `roots` to `q`.
pub open spec fn walk_between(
    cache: ProbCache,
    done: Set<Pair>,
    roots: Set<Pair>,
    walk: Seq<Pair>,
    q: Pair,
) -> bool {
    &&& is_walk(cache, done, walk)
    &&& roots.contains(walk[0])
    &&& walk.last() == q
}

/// The pairs that walks from the `roots` reach, going no further from a pair in `done`.
pub open spec fn reached(cache: ProbCache, done: Set<Pair>, roots: Set<Pair>) -> Set<Pair> {
    Set::new(|q: Pair| exists|walk: Seq<Pair>| walk_between(cache, done, roots, walk, q))
}

/// Every pair that is reached from the `roots` agrees, unless it is in `done`.
pub open spec fn all_agree(cache: ProbCache, done: Set<Pair>, roots: Set<Pair>) -> bool {
    forall|q: Pair|
        #![trigger reached(cache, done, roots).contains(q)]
        reached(cache, done, roots).contains(q) ==> done.contains(q) || items_agree(cache, q)
}

/// A root is reached.
pub proof fn root_is_reached(cache: ProbCache, done: Set<Pair>, roots: Set<Pair>, r: Pair)
    requires
        roots.contains(r),
    ensures
        reached(cache, done, roots).contains(r),
{
    assert(walk_between(cache, done, roots, seq![r], r));
}

/// What a step leads to from a reached pair is reached, unless the pair is done.
pub proof fn step_is_reached(
    cache: ProbCache,
    done: Set<Pair>,
    roots: Set<Pair>,
    q: Pair,
    s: Pair,
)
    requires
        reached(cache, done, roots).contains(q),
        !done.contains(q),
        successors(cache, q).contains(s),
    ensures
        reached(cache, done, roots).contains(s),
{
    let walk = choose|walk: Seq<Pair>| walk_between(cache, done, roots, walk, q);
    let longer = walk.push(s);
    assert forall|i: int| #![trigger longer[i]] 0 <= i < longer.len() - 1 implies !done.contains(
        longer[i],
    ) && successors(cache, longer[i]).contains(longer[i + 1]) by {
        if i < walk.len() - 1 {
            assert(longer[i] == walk[i] && longer[i + 1] == walk[i + 1]);
        }
    }
    assert(walk_between(cache, done, roots, longer, s));
}

/// Walks do not leave a set that holds the roots and is closed under steps from what is not done.
pub proof fn reached_stays_within(
    cache: ProbCache,
    done: Set<Pair>,
    roots: Set<Pair>,
    within: Set<Pair>,
)
    requires
        roots.subset_of(within),
        forall|q: Pair, s: Pair|
            #![trigger within.contains(q), successors(cache, q).contains(s)]
            within.contains(q) && !done.contains(q) && successors(cache, q).contains(s)
                ==> within.contains(s),
    ensures
        reached(cache, done, roots).subset_of(within),
{
    assert forall|q: Pair| reached(cache, done, roots).contains(q) implies within.contains(q) by {
        let walk = choose|walk: Seq<Pair>| walk_between(cache, done, roots, walk, q);
        walk_stays_within(cache, done, walk, within, walk.len() - 1);
    }
}

proof fn walk_stays_within(
    cache: ProbCache,
    done: Set<Pair>,
    walk: Seq<Pair>,
    within: Set<Pair>,
    k: int,
)
    requires
        is_walk(cache, done, walk),
        within.contains(walk[0]),
        0 <= k < walk.len(),
        forall|q: Pair, s: Pair|
            #![trigger within.contains(q), successors(cache, q).contains(s)]
            within.contains(q) && !done.contains(q) && successors(cache, q).contains(s)
                ==> within.contains(s),
    ensures
        within.contains(walk[k]),
    decreases k,
{
    if k > 0 {
        walk_stays_within(cache, done, walk, within, k - 1);
        let prev = walk[k - 1];
        assert(successors(cache, prev).contains(walk[k - 1 + 1]));
    }
}

/// More roots reach more.
pub proof fn reached_grows_with_roots(
    cache: ProbCache,
    done: Set<Pair>,
    roots: Set<Pair>,
    more: Set<Pair>,
)
    requires
        roots.subset_of(more),
    ensures
        reached(cache, done, roots).subset_of(reached(cache, done, more)),
        all_agree(cache, done, more) ==> all_agree(cache, done, roots),
{
    assert forall|q: Pair| reached(cache, done, roots).contains(q) implies reached(
        cache,
        done,
        more,
    ).contains(q) by {
        let walk = choose|walk: Seq<Pair>| walk_between(cache, done, roots, walk, q);
        assert(walk_between(cache, done, more, walk, q));
    }
}

/// Leaving aside pairs that are reached anyway and whose steps are accounted for changes neither
/// what is reached in the end nor whether it agrees.
pub proof fn reached_in_stages(
    cache: ProbCache,
    done: Set<Pair>,
    roots: Set<Pair>,
    later_done: Set<Pair>,
    later_roots: Set<Pair>,
)
    requires
        done.subset_of(later_done),
        roots.subset_of(later_done.union(later_roots)),
        later_roots.subset_of(reached(cache, done, roots)),
        later_done.subset_of(done.union(reached(cache, done, roots))),
        forall|q: Pair, s: Pair|
            #![trigger later_done.contains(q), successors(cache, q).contains(s)]
            later_done.contains(q) && !done.contains(q) && successors(cache, q).contains(s)
                ==> later_done.contains(s) || later_roots.contains(s),
    ensures
        later_done.union(reached(cache, later_done, later_roots)) == done.union(
            reached(cache, done, roots),
        ),
        (forall|q: Pair|
            #![trigger later_done.contains(q)]
            later_done.contains(q) && !done.contains(q) ==> items_agree(cache, q)) ==> all_agree(
            cache,
            later_done,
            later_roots,
        ) == all_agree(cache, done, roots),
{
    let first = reached(cache, done, roots);
    let second = reached(cache, later_done, later_roots);
    let both = later_done.union(second);

    assert forall|q: Pair, s: Pair|
        #![trigger first.contains(q), successors(cache, q).contains(s)]
        first.contains(q) && !later_done.contains(q) && successors(cache, q).contains(
            s,
        ) implies first.contains(s) by {
        step_is_reached(cache, done, roots, q, s);
    }
    reached_stays_within(cache, later_done, later_roots, first);

    assert forall|q: Pair, s: Pair|
        #![trigger both.contains(q), successors(cache, q).contains(s)]
        both.contains(q) && !done.contains(q) && successors(cache, q).contains(
            s,
        ) implies both.contains(s) by {
        if later_done.contains(q) {
            if later_roots.contains(s) {
                root_is_reached(cache, later_done, later_roots, s);
            }
        } else {
            step_is_reached(cache, later_done, later_roots, q, s);
        }
    }
    assert forall|r: Pair| roots.contains(r) implies both.contains(r) by {
        if later_roots.contains(r) {
            root_is_reached(cache, later_done, later_roots, r);
        }
    }
    reached_stays_within(cache, done, roots, both);
    assert(both =~= done.union(first));

    if forall|q: Pair|
        #![trigger later_done.contains(q)]
        later_done.contains(q) && !done.contains(q) ==> items_agree(cache, q) {
        if all_agree(cache, later_done, later_roots) {
            assert forall|q: Pair| #![trigger first.contains(q)] first.contains(
                q,
            ) implies done.contains(q) || items_agree(cache, q) by {
                assert(both.contains(q));
            }
        }
    }
}

} // verus!
