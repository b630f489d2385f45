//! What holds of the comparison of graphs as a whole.

use crate::cache::ProbCache;
use crate::equality::outcome;
use crate::float::{same_number_symmetric, same_number_transitive};
use crate::node::{NeighborSlot, ProbNode, SharedNode};
use crate::pairs::{
    all_agree, item_pairs, items_agree, link_pair, node_pairs, nodes_agree, reached,
    reached_stays_within, root_is_reached, slot_agrees, slot_pairs, slots_agree, step_is_reached,
    successors, Pair,
};
use crate::steps::{ending, ending_keeps_what_was_seen, ending_of_items, pair_steps, Step};
use crate::types::MetricResult;
use vstd::prelude::*;

verus! {

/// A place in a node where a link can stand.
pub enum Link {
    Parent,
    Child,
    Version(nat),
    Neighbor(nat),
}

/// What the link at a place leads to, if there is one.
pub open spec fn target(node: ProbNode, link: Link) -> Option<SharedNode> {
    match link {
        Link::Parent => node.parent,
        Link::Child => node.child,
        Link::Version(i) => if i < node.versions@.len() {
            Some(node.versions@[i as int])
        } else {
            None
        },
        Link::Neighbor(i) => if i < node.neighbors@.len() {
            match node.neighbors@[i as int] {
                Some((neighbor, _)) => Some(neighbor),
                None => None,
            }
        } else {
            None
        },
    }
}

/// The item that is found by following links one after another.
pub open spec fn follow(cache: ProbCache, start: SharedNode, route: Seq<Link>) -> Option<SharedNode>
    decreases route.len(),
{
    if route.len() == 0 {
        Some(start)
    } else {
        match follow(cache, start, route.drop_last()) {
            None => None,
            Some(node) => match cache.node(node) {
                Ok(data) => target(data, route.last()),
                Err(_) => None,
            },
        }
    }
}

/// The graphs that hang on two items are the same: every pair of items reached in step agrees.
pub open spec fn same_graph(cache: ProbCache, a: SharedNode, b: SharedNode) -> bool {
    all_agree(cache, Set::empty(), Set::empty().insert((a, b)))
}

/// Every pair agrees, and every step leads to another pair in the set.
pub open spec fn consistent(cache: ProbCache, pairs: Set<Pair>) -> bool {
    forall|p: Pair|
        #![trigger pairs.contains(p)]
        pairs.contains(p) ==> items_agree(cache, p) && successors(cache, p).subset_of(pairs)
}

/// A pair is among the pairs of two nodes exactly when some place leads to it.
pub proof fn pair_by_link(a: ProbNode, b: ProbNode, p: Pair)
    ensures
        node_pairs(a, b).contains(p) <==> exists|link: Link|
            #![trigger target(a, link)]
            target(a, link) == Some(p.0) && target(b, link) == Some(p.1),
{
    if node_pairs(a, b).contains(p) {
        if item_pairs(a.versions@, b.versions@).contains(p) {
            let i = choose|i: int|
                0 <= i < a.versions@.len() && i < b.versions@.len() && p == (
                    #[trigger] a.versions@[i],
                    b.versions@[i],
                );
            let link = Link::Version(i as nat);
            assert(target(a, link) == Some(p.0) && target(b, link) == Some(p.1));
        } else if link_pair(a.parent, b.parent).contains(p) {
            assert(target(a, Link::Parent) == Some(p.0));
        } else if link_pair(a.child, b.child).contains(p) {
            assert(target(a, Link::Child) == Some(p.0));
        } else {
            let i = choose|i: int|
                {
                    &&& 0 <= i < a.neighbors@.len()
                    &&& i < b.neighbors@.len()
                    &&& (#[trigger] a.neighbors@[i]) matches Some((x, _))
                    &&& b.neighbors@[i] matches Some((y, _))
                    &&& p == (x, y)
                };
            let link = Link::Neighbor(i as nat);
            assert(target(a, link) == Some(p.0) && target(b, link) == Some(p.1));
        }
    }
    if exists|link: Link|
        #![trigger target(a, link)]
        target(a, link) == Some(p.0) && target(b, link) == Some(p.1) {
        let link = choose|link: Link|
            #![trigger target(a, link)]
            target(a, link) == Some(p.0) && target(b, link) == Some(p.1);
        match link {
            Link::Parent => {},
            Link::Child => {},
            Link::Version(i) => {
                assert(p == (a.versions@[i as int], b.versions@[i as int]));
                assert(item_pairs(a.versions@, b.versions@).contains(p));
            },
            Link::Neighbor(i) => {
                assert(a.neighbors@[i as int] is Some);
                assert(slot_pairs(a.neighbors@, b.neighbors@).contains(p));
            },
        }
    }
}

/// Nodes that agree have links in the same places.
proof fn agreeing_links(a: ProbNode, b: ProbNode, link: Link)
    requires
        nodes_agree(a, b),
    ensures
        target(a, link) is Some == target(b, link) is Some,
{
    if let Link::Neighbor(i) = link {
        if i < a.neighbors@.len() {
            assert(slot_agrees(a.neighbors@[i as int], b.neighbors@[i as int]));
        }
    }
}

/// A consistent set of pairs relates only items with the same graph.
pub proof fn consistent_pairs_have_same_graph(cache: ProbCache, pairs: Set<Pair>, p: Pair)
    requires
        consistent(cache, pairs),
        pairs.contains(p),
    ensures
        same_graph(cache, p.0, p.1),
{
    let roots = Set::<Pair>::empty().insert((p.0, p.1));
    assert(p == (p.0, p.1));
    reached_stays_within(cache, Set::empty(), roots, pairs);
}

/// Two items have the same graph exactly when they agree and their links lead to items with the
/// same graph.
pub proof fn same_graph_unfolds(cache: ProbCache, p: Pair)
    ensures
        same_graph(cache, p.0, p.1) <==> items_agree(cache, p) && forall|s: Pair|
            #![trigger successors(cache, p).contains(s)]
            successors(cache, p).contains(s) ==> same_graph(cache, s.0, s.1),
{
    let none = Set::<Pair>::empty();
    let roots = none.insert((p.0, p.1));
    assert(p == (p.0, p.1));
    root_is_reached(cache, none, roots, p);
    if same_graph(cache, p.0, p.1) {
        reached_pairs_are_consistent(cache, p);
        assert forall|s: Pair| #![trigger successors(cache, p).contains(s)] successors(
            cache,
            p,
        ).contains(s) implies same_graph(cache, s.0, s.1) by {
            step_is_reached(cache, none, roots, p, s);
            consistent_pairs_have_same_graph(cache, reached(cache, none, roots), s);
        }
    }
    if items_agree(cache, p) && forall|s: Pair|
        #![trigger successors(cache, p).contains(s)]
        successors(cache, p).contains(s) ==> same_graph(cache, s.0, s.1) {
        let all = Set::new(|q: Pair| q == p || same_graph(cache, q.0, q.1));
        assert forall|q: Pair| #![trigger all.contains(q)] all.contains(q) implies items_agree(
            cache,
            q,
        ) && successors(cache, q).subset_of(all) by {
            if q != p {
                let from_q = none.insert((q.0, q.1));
                assert(q == (q.0, q.1));
                reached_pairs_are_consistent(cache, q);
                root_is_reached(cache, none, from_q, q);
                assert forall|s: Pair| successors(cache, q).contains(s) implies all.contains(s) by {
                    step_is_reached(cache, none, from_q, q, s);
                    consistent_pairs_have_same_graph(cache, reached(cache, none, from_q), s);
                }
            }
        }
        consistent_pairs_have_same_graph(cache, all, p);
    }
}

/// The pairs reached from items with the same graph are consistent.
proof fn reached_pairs_are_consistent(cache: ProbCache, p: Pair)
    requires
        same_graph(cache, p.0, p.1),
    ensures
        consistent(cache, reached(cache, Set::empty(), Set::empty().insert((p.0, p.1)))),
{
    let none = Set::<Pair>::empty();
    let roots = none.insert((p.0, p.1));
    let all = reached(cache, none, roots);
    assert forall|q: Pair| #![trigger all.contains(q)] all.contains(q) implies items_agree(
        cache,
        q,
    ) && successors(cache, q).subset_of(all) by {
        assert forall|s: Pair| successors(cache, q).contains(s) implies all.contains(s) by {
            step_is_reached(cache, none, roots, q, s);
        }
    }
}

/// A tester whose remembered pairs are consistent gives the verdict that a new tester would.
pub proof fn memory_does_not_change_the_verdict(
    cache: ProbCache,
    seen: Set<Pair>,
    roots: Set<Pair>,
)
    requires
        consistent(cache, seen),
    ensures
        all_agree(cache, seen, roots) == all_agree(cache, Set::empty(), roots),
{
    let none = Set::<Pair>::empty();
    let fresh = reached(cache, none, roots);
    let spared = reached(cache, seen, roots);
    if all_agree(cache, seen, roots) {
        let both = seen.union(spared);
        assert forall|q: Pair, s: Pair|
            #![trigger both.contains(q), successors(cache, q).contains(s)]
            both.contains(q) && !none.contains(q) && successors(cache, q).contains(
                s,
            ) implies both.contains(s) by {
            if !seen.contains(q) {
                step_is_reached(cache, seen, roots, q, s);
            }
        }
        assert forall|r: Pair| roots.contains(r) implies both.contains(r) by {
            root_is_reached(cache, seen, roots, r);
        }
        reached_stays_within(cache, none, roots, both);
        assert forall|q: Pair| #![trigger fresh.contains(q)] fresh.contains(q) implies items_agree(
            cache,
            q,
        ) by {
            assert(both.contains(q));
        }
    }
    if all_agree(cache, none, roots) {
        assert forall|q: Pair, s: Pair|
            #![trigger fresh.contains(q), successors(cache, q).contains(s)]
            fresh.contains(q) && !seen.contains(q) && successors(cache, q).contains(
                s,
            ) implies fresh.contains(s) by {
            step_is_reached(cache, none, roots, q, s);
        }
        assert forall|r: Pair| roots.contains(r) implies fresh.contains(r) by {
            root_is_reached(cache, none, roots, r);
        }
        reached_stays_within(cache, seen, roots, fresh);
    }
}

/// As long as its comparisons succeed, what a tester remembers stays consistent.
pub proof fn success_keeps_memory_consistent(
    cache: ProbCache,
    before: Set<Pair>,
    roots: Set<Pair>,
    alike: bool,
    after: Set<Pair>,
)
    requires
        consistent(cache, before),
        outcome(cache, before, roots, alike, true, after),
    ensures
        consistent(cache, after),
{
    assert forall|q: Pair| #![trigger after.contains(q)] after.contains(q) implies items_agree(
        cache,
        q,
    ) && successors(cache, q).subset_of(after) by {
        if !before.contains(q) {
            assert forall|s: Pair| successors(cache, q).contains(s) implies after.contains(s) by {
                step_is_reached(cache, before, roots, q, s);
            }
        }
    }
}

/// As long as its comparisons have succeeded, a tester accepts two items exactly when they have
/// the same graph.
pub proof fn tester_decides_same_graph(
    cache: ProbCache,
    before: Set<Pair>,
    a: SharedNode,
    b: SharedNode,
    success: bool,
    after: Set<Pair>,
)
    requires
        consistent(cache, before),
        outcome(cache, before, Set::empty().insert((a, b)), true, success, after),
    ensures
        success == same_graph(cache, a, b),
        success ==> consistent(cache, after) && after.contains((a, b)),
{
    let roots = Set::<Pair>::empty().insert((a, b));
    memory_does_not_change_the_verdict(cache, before, roots);
    root_is_reached(cache, before, roots, (a, b));
    if success {
        success_keeps_memory_consistent(cache, before, roots, true, after);
    }
}

/// Comparing a pair that a tester has seen succeeds and leaves the tester as it was.
pub proof fn seen_pairs_succeed(
    cache: ProbCache,
    seen: Set<Pair>,
    p: Pair,
    success: bool,
    after: Set<Pair>,
)
    requires
        seen.contains(p),
        outcome(cache, seen, Set::empty().insert(p), true, success, after),
    ensures
        success,
        after == seen,
{
    let roots = Set::<Pair>::empty().insert(p);
    reached_stays_within(cache, seen, roots, roots);
    assert(after =~= seen);
}

/// A tester compares a pair at most once: whether or not the first comparison succeeded, and
/// whatever was compared since, comparing the pair again succeeds and leaves the tester as it was.
pub proof fn pairs_are_compared_once(
    cache: ProbCache,
    before: Set<Pair>,
    a: SharedNode,
    b: SharedNode,
    first: bool,
    between: Set<Pair>,
    later: Set<Pair>,
    second: bool,
    after: Set<Pair>,
)
    requires
        (first, between) == ending(cache, before, seq![Step::Items(a, b)]),
        between.subset_of(later),
        (second, after) == ending(cache, later, seq![Step::Items(a, b)]),
    ensures
        second,
        after == later,
{
    ending_of_items(cache, before, a, b);
    let marked = before.insert((a, b));
    ending_keeps_what_was_seen(cache, marked, pair_steps(cache, (a, b)));
    assert(marked.contains((a, b)));
    assert(between.contains((a, b)));
    ending_of_items(cache, later, a, b);
}

/// From items with the same graph, every route that exists on one side exists on the other and
/// leads to items that agree.
pub proof fn routes_agree(cache: ProbCache, a: SharedNode, b: SharedNode, route: Seq<Link>)
    requires
        same_graph(cache, a, b),
    ensures
        follow(cache, a, route) is Some == follow(cache, b, route) is Some,
        follow(cache, a, route) matches Some(x) ==> same_graph(
            cache,
            x,
            follow(cache, b, route)->0,
        ) && items_agree(cache, (x, follow(cache, b, route)->0)),
    decreases route.len(),
{
    same_graph_unfolds(cache, (a, b));
    if route.len() > 0 {
        let shorter = route.drop_last();
        routes_agree(cache, a, b, shorter);
        if let Some(x) = follow(cache, a, shorter) {
            let y = follow(cache, b, shorter)->0;
            let m = cache.node(x)->Ok_0;
            let n = cache.node(y)->Ok_0;
            agreeing_links(m, n, route.last());
            if let Some(s) = target(m, route.last()) {
                let t = target(n, route.last())->0;
                pair_by_link(m, n, (s, t));
                assert(successors(cache, (x, y)).contains((s, t)));
                same_graph_unfolds(cache, (x, y));
                same_graph_unfolds(cache, (s, t));
            }
        }
    }
}

/// If every route that exists on both sides leads to items that agree, the graphs are the same.
pub proof fn agreeing_routes_suffice(cache: ProbCache, a: SharedNode, b: SharedNode)
    requires
        forall|route: Seq<Link>|
            #![trigger follow(cache, a, route)]
            follow(cache, a, route) is Some && follow(cache, b, route) is Some ==> items_agree(
                cache,
                (follow(cache, a, route)->0, follow(cache, b, route)->0),
            ),
    ensures
        same_graph(cache, a, b),
{
    let all = Set::new(
        |q: Pair|
            exists|route: Seq<Link>|
                #![trigger follow(cache, a, route)]
                follow(cache, a, route) == Some(q.0) && follow(cache, b, route) == Some(q.1),
    );
    assert forall|q: Pair| #![trigger all.contains(q)] all.contains(q) implies items_agree(
        cache,
        q,
    ) && successors(cache, q).subset_of(all) by {
        let route = choose|route: Seq<Link>|
            #![trigger follow(cache, a, route)]
            follow(cache, a, route) == Some(q.0) && follow(cache, b, route) == Some(q.1);
        assert(q == (q.0, q.1));
        assert forall|s: Pair| successors(cache, q).contains(s) implies all.contains(s) by {
            let m = cache.node(q.0)->Ok_0;
            let n = cache.node(q.1)->Ok_0;
            pair_by_link(m, n, s);
            let link = choose|link: Link|
                #![trigger target(m, link)]
                target(m, link) == Some(s.0) && target(n, link) == Some(s.1);
            let longer = route.push(link);
            assert(longer.drop_last() =~= route);
            assert(follow(cache, a, longer) == Some(s.0));
            assert(follow(cache, b, longer) == Some(s.1));
        }
    }
    assert(follow(cache, a, Seq::empty()) == Some(a));
    assert(follow(cache, b, Seq::empty()) == Some(b));
    assert(all.contains((a, b)));
    consistent_pairs_have_same_graph(cache, all, (a, b));
}

proof fn distance_symmetric(d: MetricResult, e: MetricResult)
    ensures
        d.same_distance(e) == e.same_distance(d),
{
    match (d, e) {
        (MetricResult::CosineSimilarity(x), MetricResult::CosineSimilarity(y)) => {
            same_number_symmetric(x.0, y.0);
        },
    }
}

proof fn distance_transitive(d: MetricResult, e: MetricResult, f: MetricResult)
    requires
        d.same_distance(e),
        e.same_distance(f),
    ensures
        d.same_distance(f),
{
    match (d, e, f) {
        (
            MetricResult::CosineSimilarity(x),
            MetricResult::CosineSimilarity(y),
            MetricResult::CosineSimilarity(z),
        ) => {
            same_number_transitive(x.0, y.0, z.0);
        },
    }
}

proof fn slots_symmetric(a: Seq<NeighborSlot>, b: Seq<NeighborSlot>)
    requires
        slots_agree(a, b),
    ensures
        slots_agree(b, a),
{
    assert forall|i: int| 0 <= i < b.len() implies slot_agrees(#[trigger] b[i], a[i]) by {
        assert(slot_agrees(a[i], b[i]));
        if let (Some((_, d)), Some((_, e))) = (a[i], b[i]) {
            distance_symmetric(d, e);
        }
    }
}

proof fn slots_transitive(a: Seq<NeighborSlot>, b: Seq<NeighborSlot>, c: Seq<NeighborSlot>)
    requires
        slots_agree(a, b),
        slots_agree(b, c),
    ensures
        slots_agree(a, c),
{
    assert forall|i: int| 0 <= i < a.len() implies slot_agrees(#[trigger] a[i], c[i]) by {
        assert(slot_agrees(a[i], b[i]));
        assert(slot_agrees(b[i], c[i]));
        if let (Some((_, d)), Some((_, e)), Some((_, f))) = (a[i], b[i], c[i]) {
            distance_transitive(d, e, f);
        }
    }
}

/// Having the same graph is symmetric.
pub proof fn same_graph_symmetric(cache: ProbCache, a: SharedNode, b: SharedNode)
    requires
        same_graph(cache, a, b),
    ensures
        same_graph(cache, b, a),
{
    let forth = reached(cache, Set::empty(), Set::empty().insert((a, b)));
    reached_pairs_are_consistent(cache, (a, b));
    root_is_reached(cache, Set::empty(), Set::empty().insert((a, b)), (a, b));
    let back = Set::new(|q: Pair| forth.contains((q.1, q.0)));
    assert forall|q: Pair| #![trigger back.contains(q)] back.contains(q) implies items_agree(
        cache,
        q,
    ) && successors(cache, q).subset_of(back) by {
        let p = (q.1, q.0);
        assert(forth.contains(p));
        let m = cache.node(q.0)->Ok_0;
        let n = cache.node(q.1)->Ok_0;
        slots_symmetric(n.neighbors@, m.neighbors@);
        assert forall|s: Pair| successors(cache, q).contains(s) implies back.contains(s) by {
            pair_by_link(m, n, s);
            pair_by_link(n, m, (s.1, s.0));
            let link = choose|link: Link|
                #![trigger target(m, link)]
                target(m, link) == Some(s.0) && target(n, link) == Some(s.1);
            assert(target(n, link) == Some(s.1));
            assert(successors(cache, p).contains((s.1, s.0)));
        }
    }
    assert(back.contains((b, a)));
    consistent_pairs_have_same_graph(cache, back, (b, a));
}

/// Having the same graph is transitive.
pub proof fn same_graph_transitive(cache: ProbCache, a: SharedNode, b: SharedNode, c: SharedNode)
    requires
        same_graph(cache, a, b),
        same_graph(cache, b, c),
    ensures
        same_graph(cache, a, c),
{
    let all = Set::new(
        |q: Pair|
            exists|y: SharedNode|
                #![trigger same_graph(cache, q.0, y)]
                same_graph(cache, q.0, y) && same_graph(cache, y, q.1),
    );
    assert forall|q: Pair| #![trigger all.contains(q)] all.contains(q) implies items_agree(
        cache,
        q,
    ) && successors(cache, q).subset_of(all) by {
        let y = choose|y: SharedNode|
            #![trigger same_graph(cache, q.0, y)]
            same_graph(cache, q.0, y) && same_graph(cache, y, q.1);
        same_graph_unfolds(cache, (q.0, y));
        same_graph_unfolds(cache, (y, q.1));
        let m = cache.node(q.0)->Ok_0;
        let k = cache.node(y)->Ok_0;
        let n = cache.node(q.1)->Ok_0;
        slots_transitive(m.neighbors@, k.neighbors@, n.neighbors@);
        assert forall|s: Pair| successors(cache, q).contains(s) implies all.contains(s) by {
            pair_by_link(m, n, s);
            let link = choose|link: Link|
                #![trigger target(m, link)]
                target(m, link) == Some(s.0) && target(n, link) == Some(s.1);
            agreeing_links(m, k, link);
            let t = target(k, link)->0;
            pair_by_link(m, k, (s.0, t));
            pair_by_link(k, n, (t, s.1));
            assert(successors(cache, (q.0, y)).contains((s.0, t)));
            assert(successors(cache, (y, q.1)).contains((t, s.1)));
            assert(same_graph(cache, s.0, t) && same_graph(cache, t, s.1));
        }
    }
    let ends: Pair = (a, c);
    assert(same_graph(cache, ends.0, b) && same_graph(cache, b, ends.1));
    assert(all.contains(ends));
    consistent_pairs_have_same_graph(cache, all, (a, c));
}

/// An item that can be compared at all: it shows a node, and none of its distances is NaN.
pub open spec fn comparable(cache: ProbCache, node: SharedNode) -> bool {
    &&& cache.node(node) matches Ok(data)
    &&& forall|i: int|
        #![trigger data.neighbors@[i]]
        0 <= i < data.neighbors@.len() ==> (data.neighbors@[i] matches Some((_, distance))
            ==> distance.same_distance(distance))
}

/// An item has the same graph as itself exactly when every item that links lead to from it can be
/// compared.
pub proof fn same_graph_reflexive(cache: ProbCache, a: SharedNode)
    ensures
        same_graph(cache, a, a) <==> forall|route: Seq<Link>|
            #![trigger follow(cache, a, route)]
            follow(cache, a, route) matches Some(x) ==> comparable(cache, x),
{
    if same_graph(cache, a, a) {
        assert forall|route: Seq<Link>| #![trigger follow(cache, a, route)] follow(
            cache,
            a,
            route,
        ) matches Some(x) implies comparable(cache, follow(cache, a, route)->0) by {
            routes_agree(cache, a, a, route);
            let x = follow(cache, a, route)->0;
            let data = cache.node(x)->Ok_0;
            assert forall|i: int|
                #![trigger data.neighbors@[i]]
                0 <= i < data.neighbors@.len() implies (data.neighbors@[i] matches Some((_, d))
                ==> d.same_distance(d)) by {
                assert(slot_agrees(data.neighbors@[i], data.neighbors@[i]));
            }
        }
    }
    if forall|route: Seq<Link>|
        #![trigger follow(cache, a, route)]
        follow(cache, a, route) matches Some(x) ==> comparable(cache, x) {
        assert forall|route: Seq<Link>| #![trigger follow(cache, a, route)] follow(
            cache,
            a,
            route,
        ) is Some implies items_agree(
            cache,
            (follow(cache, a, route)->0, follow(cache, a, route)->0),
        ) by {
            let x = follow(cache, a, route)->0;
            assert(comparable(cache, x));
            let data = cache.node(x)->Ok_0;
            assert forall|i: int| 0 <= i < data.neighbors@.len() implies slot_agrees(
                #[trigger] data.neighbors@[i],
                data.neighbors@[i],
            ) by {}
            assert(nodes_agree(data, data));
        }
        agreeing_routes_suffice(cache, a, a);
    }
}

/// A node whose values are those of another, and whose links lead to the copies of what the
/// links of the other lead to.
pub open spec fn is_copy(
    source: ProbNode,
    copy: ProbNode,
    copies: spec_fn(SharedNode) -> SharedNode,
) -> bool {
    &&& nodes_agree(source, copy)
    &&& forall|link: Link|
        #![trigger target(source, link)]
        target(source, link) matches Some(s) ==> target(copy, link) == Some(copies(s))
}

/// A faithful copy of a graph, such as one written to a file and loaded from there, compares
/// equal to what was copied. The copy of an item has its version, and a node that is a copy of
/// its node.
pub proof fn faithful_copy_has_same_graph(
    cache: ProbCache,
    sources: Set<SharedNode>,
    copies: spec_fn(SharedNode) -> SharedNode,
    a: SharedNode,
)
    requires
        sources.contains(a),
        forall|x: SharedNode|
            #![trigger sources.contains(x)]
            sources.contains(x) ==> {
                &&& cache.item(x) matches Some(item)
                &&& cache.item(copies(x)) matches Some(copy)
                &&& item.version_id == copy.version_id
                &&& item.version_number == copy.version_number
                &&& cache.node(x) matches Ok(data)
                &&& cache.node(copies(x)) matches Ok(copied)
                &&& is_copy(data, copied, copies)
                &&& forall|link: Link|
                    #![trigger target(data, link)]
                    target(data, link) matches Some(s) ==> sources.contains(s)
            },
    ensures
        same_graph(cache, a, copies(a)),
{
    let all = Set::new(|q: Pair| sources.contains(q.0) && q.1 == copies(q.0));
    assert forall|q: Pair| #![trigger all.contains(q)] all.contains(q) implies items_agree(
        cache,
        q,
    ) && successors(cache, q).subset_of(all) by {
        let m = cache.node(q.0)->Ok_0;
        let n = cache.node(q.1)->Ok_0;
        assert forall|s: Pair| successors(cache, q).contains(s) implies all.contains(s) by {
            pair_by_link(m, n, s);
            let link = choose|link: Link|
                #![trigger target(m, link)]
                target(m, link) == Some(s.0) && target(n, link) == Some(s.1);
            assert(target(m, link) == Some(s.0));
        }
    }
    assert(all.contains((a, copies(a))));
    consistent_pairs_have_same_graph(cache, all, (a, copies(a)));
}

} // verus!
