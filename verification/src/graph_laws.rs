//! What graphs that compare equal have in common, value by value and link by link.

use crate::cache::{LoadError, ProbCache};
use crate::equality::outcome;
use crate::equality_laws::{
    consistent, consistent_pairs_have_same_graph, pair_by_link, same_graph, same_graph_unfolds,
    target, Link,
};
use crate::float::same_pattern_value;
use crate::node::{NeighborSlot, ProbNode, SharedNode};
use crate::pairs::{
    all_agree, item_pairs, items_agree, node_pairs, nodes_agree, reached, reached_stays_within,
    root_is_reached, slot_agrees, slot_pairs, slots_agree, step_is_reached, successors, Pair,
};
use crate::types::{distances_by_number, props_by_field, MetricResult, Storage};
use vstd::prelude::*;

verus! {

/// Two slots agree exactly when both are empty or both hold a neighbor at the same distance.
pub proof fn slots_by_distance(a: NeighborSlot, b: NeighborSlot)
    ensures
        slot_agrees(a, b) <==> match (a, b) {
            (None, None) => true,
            (
                Some((_, MetricResult::CosineSimilarity(d))),
                Some((_, MetricResult::CosineSimilarity(e))),
            ) => same_pattern_value(d.0.bits, e.0.bits),
            _ => false,
        },
{
    if let (Some((_, d)), Some((_, e))) = (a, b) {
        distances_by_number(d, e);
    }
}

/// Two rows agree exactly when they have as many slots and each slot agrees with its counterpart.
pub proof fn rows_by_slot(a: Seq<NeighborSlot>, b: Seq<NeighborSlot>)
    ensures
        slots_agree(a, b) <==> a.len() == b.len() && forall|i: int|
            #![trigger a[i]]
            0 <= i < a.len() ==> match (a[i], b[i]) {
                (None, None) => true,
                (
                    Some((_, MetricResult::CosineSimilarity(d))),
                    Some((_, MetricResult::CosineSimilarity(e))),
                ) => same_pattern_value(d.0.bits, e.0.bits),
                _ => false,
            },
{
    assert forall|i: int| #![trigger a[i]] 0 <= i < a.len() && a.len() == b.len() implies (
    slot_agrees(a[i], b[i]) <==> match (a[i], b[i]) {
        (None, None) => true,
        (
            Some((_, MetricResult::CosineSimilarity(d))),
            Some((_, MetricResult::CosineSimilarity(e))),
        ) => same_pattern_value(d.0.bits, e.0.bits),
        _ => false,
    }) by {
        slots_by_distance(a[i], b[i]);
    }
}

/// Two nodes agree exactly when they have the same level, vector number, place, magnitude and
/// components, as many versions, a parent and a child on both sides or neither, and neighbors in
/// the same slots at the same distances.
pub proof fn nodes_by_field(m: &ProbNode, n: &ProbNode)
    ensures
        match (*m.prop.value, *n.prop.value) {
            (
                Storage::UnsignedByte { mag: p, quant_vec: v },
                Storage::UnsignedByte { mag: q, quant_vec: w },
            ) => nodes_agree(*m, *n) <==> {
                &&& m.hnsw_level.0 == n.hnsw_level.0
                &&& m.prop.id.0 == n.prop.id.0
                &&& m.prop.location.0 == n.prop.location.0
                &&& p == q
                &&& v@.len() == w@.len()
                &&& forall|i: int| 0 <= i < v@.len() ==> #[trigger] v@[i] == w@[i]
                &&& m.versions@.len() == n.versions@.len()
                &&& m.parent is Some <==> n.parent is Some
                &&& m.child is Some <==> n.child is Some
                &&& m.neighbors@.len() == n.neighbors@.len()
                &&& forall|i: int|
                    #![trigger m.neighbors@[i]]
                    0 <= i < m.neighbors@.len() ==> match (m.neighbors@[i], n.neighbors@[i]) {
                        (None, None) => true,
                        (
                            Some((_, MetricResult::CosineSimilarity(d))),
                            Some((_, MetricResult::CosineSimilarity(e))),
                        ) => same_pattern_value(d.0.bits, e.0.bits),
                        _ => false,
                    }
            },
        },
{
    props_by_field(&*m.prop, &*n.prop);
    rows_by_slot(m.neighbors@, n.neighbors@);
}

/// Two items agree exactly when both exist, have the same version, show a node, and the nodes
/// agree.
pub proof fn items_by_field(cache: ProbCache, a: SharedNode, b: SharedNode)
    ensures
        items_agree(cache, (a, b)) <==> {
            &&& a.ptr < cache.items().len()
            &&& b.ptr < cache.items().len()
            &&& cache.items()[a.ptr as int].version_id.0 == cache.items()[b.ptr as int].version_id.0
            &&& cache.items()[a.ptr as int].version_number
                == cache.items()[b.ptr as int].version_number
            &&& cache.node(a) matches Ok(m)
            &&& cache.node(b) matches Ok(n)
            &&& nodes_agree(m, n)
        },
{
}

/// Two items with the same graph have the same version and show nodes that stand for the same
/// vector: its number, place and level are equal, its magnitude, and its components one by one.
pub proof fn same_graph_same_vectors(cache: ProbCache, a: SharedNode, b: SharedNode)
    requires
        same_graph(cache, a, b),
    ensures
        a.ptr < cache.items().len(),
        b.ptr < cache.items().len(),
        cache.items()[a.ptr as int].version_id.0 == cache.items()[b.ptr as int].version_id.0,
        cache.items()[a.ptr as int].version_number == cache.items()[b.ptr as int].version_number,
        cache.node(a) is Ok,
        cache.node(b) is Ok,
        ({
            let m = cache.node(a)->Ok_0;
            let n = cache.node(b)->Ok_0;
            &&& m.hnsw_level.0 == n.hnsw_level.0
            &&& m.prop.id.0 == n.prop.id.0
            &&& m.prop.location.0 == n.prop.location.0
            &&& match (*m.prop.value, *n.prop.value) {
                (
                    Storage::UnsignedByte { mag: p, quant_vec: v },
                    Storage::UnsignedByte { mag: q, quant_vec: w },
                ) => p == q && v@.len() == w@.len() && forall|i: int|
                    0 <= i < v@.len() ==> #[trigger] v@[i] == w@[i],
            }
        }),
{
    same_graph_unfolds(cache, (a, b));
    nodes_by_field(&cache.node(a)->Ok_0, &cache.node(b)->Ok_0);
}

/// From two items with the same graph, each link on one side has its counterpart on the other,
/// and the two lead to items with the same graph.
pub proof fn same_graph_by_link(
    cache: ProbCache,
    a: SharedNode,
    b: SharedNode,
    m: ProbNode,
    n: ProbNode,
)
    requires
        same_graph(cache, a, b),
        cache.node(a) == Ok::<ProbNode, LoadError>(m),
        cache.node(b) == Ok::<ProbNode, LoadError>(n),
    ensures
        match (m.parent, n.parent) {
            (None, None) => true,
            (Some(x), Some(y)) => same_graph(cache, x, y),
            _ => false,
        },
        match (m.child, n.child) {
            (None, None) => true,
            (Some(x), Some(y)) => same_graph(cache, x, y),
            _ => false,
        },
        m.versions@.len() == n.versions@.len(),
        forall|i: int|
            #![trigger m.versions@[i]]
            0 <= i < m.versions@.len() ==> same_graph(cache, m.versions@[i], n.versions@[i]),
        m.neighbors@.len() == n.neighbors@.len(),
        forall|i: int|
            #![trigger m.neighbors@[i]]
            0 <= i < m.neighbors@.len() ==> match (m.neighbors@[i], n.neighbors@[i]) {
                (None, None) => true,
                (Some((x, _)), Some((y, _))) => same_graph(cache, x, y),
                _ => false,
            },
{
    same_graph_unfolds(cache, (a, b));
    assert forall|link: Link|
        #![trigger target(m, link)]
        target(m, link) is Some && target(n, link) is Some implies same_graph(
        cache,
        target(m, link)->0,
        target(n, link)->0,
    ) by {
        let s = (target(m, link)->0, target(n, link)->0);
        pair_by_link(m, n, s);
        assert(successors(cache, (a, b)).contains(s));
    }
    assert(target(m, Link::Parent) == m.parent);
    assert(target(m, Link::Child) == m.child);
    assert forall|i: int| #![trigger m.versions@[i]] 0 <= i < m.versions@.len() implies same_graph(
        cache,
        m.versions@[i],
        n.versions@[i],
    ) by {
        assert(target(m, Link::Version(i as nat)) == Some(m.versions@[i]));
    }
    assert forall|i: int|
        #![trigger m.neighbors@[i]]
        0 <= i < m.neighbors@.len() implies match (m.neighbors@[i], n.neighbors@[i]) {
        (None, None) => true,
        (Some((x, _)), Some((y, _))) => same_graph(cache, x, y),
        _ => false,
    } by {
        assert(slot_agrees(m.neighbors@[i], n.neighbors@[i]));
        if let Some((x, _)) = m.neighbors@[i] {
            assert(target(m, Link::Neighbor(i as nat)) == Some(x));
        }
    }
}

/// Two items have the same graph if they are among pairs of which each agrees, and whose links
/// lead to such pairs again.
pub proof fn matching_pairs_have_same_graph(
    cache: ProbCache,
    pairs: Set<Pair>,
    a: SharedNode,
    b: SharedNode,
)
    requires
        pairs.contains((a, b)),
        forall|x: SharedNode, y: SharedNode|
            #![trigger pairs.contains((x, y))]
            pairs.contains((x, y)) ==> {
                let m = cache.node(x)->Ok_0;
                let n = cache.node(y)->Ok_0;
                &&& items_agree(cache, (x, y))
                &&& m.parent matches Some(s) ==> pairs.contains((s, n.parent->0))
                &&& m.child matches Some(s) ==> pairs.contains((s, n.child->0))
                &&& forall|i: int|
                    #![trigger m.versions@[i]]
                    0 <= i < m.versions@.len() ==> pairs.contains((m.versions@[i], n.versions@[i]))
                &&& forall|i: int|
                    #![trigger m.neighbors@[i]]
                    0 <= i < m.neighbors@.len() ==> (m.neighbors@[i] matches Some((s, _))
                        ==> pairs.contains((s, (n.neighbors@[i]->0).0)))
            },
    ensures
        same_graph(cache, a, b),
{
    assert forall|p: Pair| #![trigger pairs.contains(p)] pairs.contains(p) implies items_agree(
        cache,
        p,
    ) && successors(cache, p).subset_of(pairs) by {
        assert(pairs.contains((p.0, p.1)));
        let m = cache.node(p.0)->Ok_0;
        let n = cache.node(p.1)->Ok_0;
        assert forall|s: Pair| successors(cache, p).contains(s) implies pairs.contains(s) by {
            pair_by_link(m, n, s);
            let link = choose|link: Link|
                #![trigger target(m, link)]
                target(m, link) == Some(s.0) && target(n, link) == Some(s.1);
            assert(s == (s.0, s.1));
            match link {
                Link::Parent => {},
                Link::Child => {},
                Link::Version(i) => {
                    assert(m.versions@[i as int] == s.0);
                },
                Link::Neighbor(i) => {
                    assert(m.neighbors@[i as int] is Some);
                },
            }
        }
    }
    assert(consistent(cache, pairs));
    consistent_pairs_have_same_graph(cache, pairs, (a, b));
}

/// One step leads from a pair of items to exactly the pairs that corresponding links of their
/// nodes lead to.
pub proof fn steps_follow_links(cache: ProbCache, p: Pair, s: Pair)
    ensures
        successors(cache, p).contains(s) <==> {
            &&& cache.node(p.0) matches Ok(m)
            &&& cache.node(p.1) matches Ok(n)
            &&& exists|link: Link|
                #![trigger target(m, link)]
                target(m, link) == Some(s.0) && target(n, link) == Some(s.1)
        },
{
    if let (Ok(m), Ok(n)) = (cache.node(p.0), cache.node(p.1)) {
        pair_by_link(m, n, s);
    }
}

/// A comparison that goes by what it remembers of pairs with the same graph succeeds exactly when
/// its starting points are alike and each pair it starts from has the same graph. Then all that
/// it remembers has the same graph again.
pub proof fn comparisons_decide_same_graph(
    cache: ProbCache,
    before: Set<Pair>,
    roots: Set<Pair>,
    alike: bool,
    success: bool,
    after: Set<Pair>,
)
    requires
        forall|p: Pair| #[trigger] before.contains(p) ==> same_graph(cache, p.0, p.1),
        outcome(cache, before, roots, alike, success, after),
    ensures
        success <==> alike && forall|r: Pair| #[trigger]
            roots.contains(r) ==> same_graph(cache, r.0, r.1),
        success ==> roots.subset_of(after),
        success ==> forall|p: Pair| #[trigger] after.contains(p) ==> same_graph(cache, p.0, p.1),
{
    let same = Set::new(|q: Pair| same_graph(cache, q.0, q.1));
    let walked = reached(cache, before, roots);
    assert forall|q: Pair| #![trigger same.contains(q)] same.contains(q) implies items_agree(
        cache,
        q,
    ) && successors(cache, q).subset_of(same) by {
        same_graph_unfolds(cache, q);
        assert forall|s: Pair| successors(cache, q).contains(s) implies same.contains(s) by {}
    }
    assert forall|r: Pair| roots.contains(r) implies walked.contains(r) by {
        root_is_reached(cache, before, roots, r);
    }
    if all_agree(cache, before, roots) {
        let all = same.union(walked);
        assert forall|q: Pair| #![trigger all.contains(q)] all.contains(q) implies items_agree(
            cache,
            q,
        ) && successors(cache, q).subset_of(all) by {
            if before.contains(q) {
                assert(same.contains(q));
            }
            if !same.contains(q) {
                assert forall|s: Pair| successors(cache, q).contains(s) implies all.contains(s) by {
                    step_is_reached(cache, before, roots, q, s);
                }
            }
        }
        assert forall|q: Pair| walked.contains(q) implies same_graph(cache, q.0, q.1) by {
            assert(all.contains(q));
            consistent_pairs_have_same_graph(cache, all, q);
        }
    }
    if forall|r: Pair| #[trigger] roots.contains(r) ==> same_graph(cache, r.0, r.1) {
        assert forall|q: Pair, s: Pair|
            #![trigger same.contains(q), successors(cache, q).contains(s)]
            same.contains(q) && !before.contains(q) && successors(cache, q).contains(
                s,
            ) implies same.contains(s) by {}
        reached_stays_within(cache, before, roots, same);
        assert forall|q: Pair| #![trigger walked.contains(q)] walked.contains(
            q,
        ) implies items_agree(cache, q) by {
            assert(same.contains(q));
        }
    }
}

/// Two lists compare equal exactly when they are as long as each other and the items at each
/// position have the same graph.
pub proof fn list_comparisons_decide(
    cache: ProbCache,
    before: Set<Pair>,
    a: Seq<SharedNode>,
    b: Seq<SharedNode>,
    success: bool,
    after: Set<Pair>,
)
    requires
        forall|p: Pair| #[trigger] before.contains(p) ==> same_graph(cache, p.0, p.1),
        outcome(cache, before, item_pairs(a, b), a.len() == b.len(), success, after),
    ensures
        success <==> a.len() == b.len() && forall|i: int|
            #![trigger a[i]]
            0 <= i < a.len() ==> same_graph(cache, a[i], b[i]),
        success ==> forall|p: Pair| #[trigger] after.contains(p) ==> same_graph(cache, p.0, p.1),
{
    let roots = item_pairs(a, b);
    comparisons_decide_same_graph(cache, before, roots, a.len() == b.len(), success, after);
    if success {
        assert forall|i: int| #![trigger a[i]] 0 <= i < a.len() implies same_graph(
            cache,
            a[i],
            b[i],
        ) by {
            assert(roots.contains((a[i], b[i])));
        }
    }
}

/// Two rows of slots compare equal exactly when they agree and the neighbors in each slot have
/// the same graph.
pub proof fn row_comparisons_decide(
    cache: ProbCache,
    before: Set<Pair>,
    a: Seq<NeighborSlot>,
    b: Seq<NeighborSlot>,
    success: bool,
    after: Set<Pair>,
)
    requires
        forall|p: Pair| #[trigger] before.contains(p) ==> same_graph(cache, p.0, p.1),
        outcome(cache, before, slot_pairs(a, b), slots_agree(a, b), success, after),
    ensures
        success <==> slots_agree(a, b) && forall|i: int|
            #![trigger a[i]]
            0 <= i < a.len() ==> (a[i] matches Some((x, _)) ==> same_graph(
                cache,
                x,
                (b[i]->0).0,
            )),
        success ==> forall|p: Pair| #[trigger] after.contains(p) ==> same_graph(cache, p.0, p.1),
{
    let roots = slot_pairs(a, b);
    comparisons_decide_same_graph(cache, before, roots, slots_agree(a, b), success, after);
    if slots_agree(a, b) {
        assert forall|i: int| #![trigger a[i]] 0 <= i < a.len() && a[i] is Some implies (
        roots.contains(((a[i]->0).0, (b[i]->0).0))) by {
            assert(slot_agrees(a[i], b[i]));
        }
        if success {
            assert forall|i: int| #![trigger a[i]] 0 <= i < a.len() && a[i] is Some implies (
            same_graph(cache, (a[i]->0).0, (b[i]->0).0)) by {
                assert(roots.contains(((a[i]->0).0, (b[i]->0).0)));
            }
        }
    }
}

/// Two nodes compare equal exactly when they agree and corresponding links lead to items with the
/// same graph.
pub proof fn node_comparisons_decide(
    cache: ProbCache,
    before: Set<Pair>,
    m: ProbNode,
    n: ProbNode,
    success: bool,
    after: Set<Pair>,
)
    requires
        forall|p: Pair| #[trigger] before.contains(p) ==> same_graph(cache, p.0, p.1),
        outcome(cache, before, node_pairs(m, n), nodes_agree(m, n), success, after),
    ensures
        success <==> {
            &&& nodes_agree(m, n)
            &&& m.parent matches Some(x) ==> same_graph(cache, x, n.parent->0)
            &&& m.child matches Some(x) ==> same_graph(cache, x, n.child->0)
            &&& forall|i: int|
                #![trigger m.versions@[i]]
                0 <= i < m.versions@.len() ==> same_graph(cache, m.versions@[i], n.versions@[i])
            &&& forall|i: int|
                #![trigger m.neighbors@[i]]
                0 <= i < m.neighbors@.len() ==> (m.neighbors@[i] matches Some((x, _))
                    ==> same_graph(cache, x, (n.neighbors@[i]->0).0))
        },
        success ==> forall|p: Pair| #[trigger] after.contains(p) ==> same_graph(cache, p.0, p.1),
{
    let roots = node_pairs(m, n);
    comparisons_decide_same_graph(cache, before, roots, nodes_agree(m, n), success, after);
    if nodes_agree(m, n) {
        assert(m.parent is Some ==> roots.contains((m.parent->0, n.parent->0)));
        assert(m.child is Some ==> roots.contains((m.child->0, n.child->0)));
        assert forall|i: int| #![trigger m.versions@[i]] 0 <= i < m.versions@.len() implies (
        roots.contains((m.versions@[i], n.versions@[i]))) by {
            assert(item_pairs(m.versions@, n.versions@).contains(
                (m.versions@[i], n.versions@[i]),
            ));
        }
        assert forall|i: int|
            #![trigger m.neighbors@[i]]
            0 <= i < m.neighbors@.len() && m.neighbors@[i] is Some implies (roots.contains(
            ((m.neighbors@[i]->0).0, (n.neighbors@[i]->0).0),
        )) by {
            assert(slot_agrees(m.neighbors@[i], n.neighbors@[i]));
            assert(slot_pairs(m.neighbors@, n.neighbors@).contains(
                ((m.neighbors@[i]->0).0, (n.neighbors@[i]->0).0),
            ));
        }
    }
}

/// Whatever a tester remembers, after a successful comparison it remembers the pairs it started
/// from; each pair that it has newly seen agrees, and its links lead to pairs it has seen.
pub proof fn successful_comparisons_close(
    cache: ProbCache,
    before: Set<Pair>,
    roots: Set<Pair>,
    alike: bool,
    after: Set<Pair>,
)
    requires
        outcome(cache, before, roots, alike, true, after),
    ensures
        alike,
        before.subset_of(after),
        roots.subset_of(after),
        forall|q: Pair|
            #![trigger after.contains(q)]
            after.contains(q) && !before.contains(q) ==> items_agree(cache, q) && successors(
                cache,
                q,
            ).subset_of(after),
{
    assert forall|r: Pair| roots.contains(r) implies after.contains(r) by {
        root_is_reached(cache, before, roots, r);
    }
    assert forall|q: Pair|
        #![trigger after.contains(q)]
        after.contains(q) && !before.contains(q) implies items_agree(cache, q) && successors(
        cache,
        q,
    ).subset_of(after) by {
        assert(reached(cache, before, roots).contains(q));
        assert forall|s: Pair| successors(cache, q).contains(s) implies after.contains(s) by {
            step_is_reached(cache, before, roots, q, s);
        }
    }
}

/// Whatever a tester remembers, a comparison never leaves a set that holds its starting pairs and
/// that links do not leave; and it succeeds if all of that agrees.
pub proof fn comparisons_stay_within(
    cache: ProbCache,
    before: Set<Pair>,
    roots: Set<Pair>,
    alike: bool,
    success: bool,
    after: Set<Pair>,
    within: Set<Pair>,
)
    requires
        outcome(cache, before, roots, alike, success, after),
        roots.subset_of(within),
        forall|q: Pair|
            #![trigger within.contains(q)]
            within.contains(q) && !before.contains(q) ==> successors(cache, q).subset_of(within),
    ensures
        before.subset_of(after),
        after.subset_of(before.union(within)),
        alike && (forall|q: Pair|
            #![trigger within.contains(q)]
            within.contains(q) && !before.contains(q) ==> items_agree(cache, q)) ==> success,
        !alike ==> !success,
{
    assert forall|q: Pair, s: Pair|
        #![trigger within.contains(q), successors(cache, q).contains(s)]
        within.contains(q) && !before.contains(q) && successors(cache, q).contains(
            s,
        ) implies within.contains(s) by {
        assert(successors(cache, q).subset_of(within));
    }
    reached_stays_within(cache, before, roots, within);
    if forall|q: Pair|
        #![trigger within.contains(q)]
        within.contains(q) && !before.contains(q) ==> items_agree(cache, q) {
        assert forall|q: Pair|
            #![trigger reached(cache, before, roots).contains(q)]
            reached(cache, before, roots).contains(q) implies before.contains(q) || items_agree(
            cache,
            q,
        ) by {
            assert(within.contains(q));
        }
    }
}

} // verus!
