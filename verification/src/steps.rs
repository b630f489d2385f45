//! The order in which a comparison goes, and so what it has seen when it ends.
//!
//! A comparison is a list of steps. A pair of items that has not been seen is marked as seen, and
//! then its own steps come before those that are left. The first step that finds a difference
//! ends the comparison.

use crate::cache::ProbCache;
use crate::node::{NeighborSlot, ProbNode, SharedNode};
use crate::pairs::{slot_agrees, Pair};
use vstd::prelude::*;

verus! {

/// One step of a comparison.
pub enum Step {
    /// Two values are the same, or not.
    Values(bool),
    /// Two items are to be compared.
    Items(SharedNode, SharedNode),
}

/// The items of two lists, one after another.
pub open spec fn item_steps(a: Seq<SharedNode>, b: Seq<SharedNode>) -> Seq<Step>
    decreases a.len(),
{
    if a.len() == 0 || b.len() == 0 {
        Seq::empty()
    } else {
        seq![Step::Items(a[0], b[0])] + item_steps(a.drop_first(), b.drop_first())
    }
}

/// Two lists: their lengths, then their items.
pub open spec fn list_steps(a: Seq<SharedNode>, b: Seq<SharedNode>) -> Seq<Step> {
    seq![Step::Values(a.len() == b.len())] + item_steps(a, b)
}

/// Two links: whether both are there, then what they lead to.
pub open spec fn link_steps(a: Option<SharedNode>, b: Option<SharedNode>) -> Seq<Step> {
    match (a, b) {
        (Some(x), Some(y)) => seq![Step::Items(x, y)],
        _ => seq![Step::Values(a is Some == b is Some)],
    }
}

/// Two neighbor slots: whether both are filled and at the same distance, then the neighbors.
pub open spec fn slot_steps(a: NeighborSlot, b: NeighborSlot) -> Seq<Step> {
    match (a, b) {
        (Some((x, _)), Some((y, _))) => seq![Step::Values(slot_agrees(a, b)), Step::Items(x, y)],
        _ => seq![Step::Values(slot_agrees(a, b))],
    }
}

/// The slots of two rows, one after another.
pub open spec fn each_slot_steps(a: Seq<NeighborSlot>, b: Seq<NeighborSlot>) -> Seq<Step>
    decreases a.len(),
{
    if a.len() == 0 || b.len() == 0 {
        Seq::empty()
    } else {
        slot_steps(a[0], b[0]) + each_slot_steps(a.drop_first(), b.drop_first())
    }
}

/// Two rows of slots: their lengths, then their slots.
pub open spec fn row_steps(a: Seq<NeighborSlot>, b: Seq<NeighborSlot>) -> Seq<Step> {
    seq![Step::Values(a.len() == b.len())] + each_slot_steps(a, b)
}

/// Two nodes: level, property, versions, parent, child, neighbors.
pub open spec fn node_steps(a: ProbNode, b: ProbNode) -> Seq<Step> {
    seq![
        Step::Values(a.hnsw_level == b.hnsw_level),
        Step::Values(a.prop.same_prop(*b.prop)),
    ] + (list_steps(a.versions@, b.versions@) + (link_steps(a.parent, b.parent) + (link_steps(
        a.child,
        b.child,
    ) + row_steps(a.neighbors@, b.neighbors@))))
}

/// Two existing items: their versions, whether both show a node, then the nodes.
pub open spec fn pair_steps(cache: ProbCache, p: Pair) -> Seq<Step> {
    let a = cache.item(p.0)->0;
    let b = cache.item(p.1)->0;
    let versions = Step::Values(
        a.version_id == b.version_id && a.version_number == b.version_number,
    );
    match (cache.node(p.0), cache.node(p.1)) {
        (Ok(m), Ok(n)) => seq![versions] + node_steps(m, n),
        _ => seq![versions, Step::Values(false)],
    }
}

/// The pairs of existing items that have not been seen.
pub open spec fn unseen(count: nat, seen: Set<Pair>) -> Set<Pair> {
    Set::new(|p: Pair| p.0.ptr < count && p.1.ptr < count && !seen.contains(p))
}

proof fn unseen_is_finite(count: nat, seen: Set<Pair>)
    ensures
        unseen(count, seen).finite(),
{
    pairs_below_are_finite(count, count);
    let below = Set::new(|p: Pair| p.0.ptr < count && p.1.ptr < count);
    vstd::set_lib::lemma_set_subset_finite(below, unseen(count, seen));
}

proof fn pairs_below_are_finite(m: nat, n: nat)
    ensures
        Set::new(|p: Pair| p.0.ptr < m && p.1.ptr < n).finite(),
    decreases m,
{
    let below = Set::new(|p: Pair| p.0.ptr < m && p.1.ptr < n);
    if m == 0 {
        assert(below =~= Set::empty());
    } else {
        pairs_below_are_finite((m - 1) as nat, n);
        row_is_finite((m - 1) as nat, n);
        let rest = Set::new(|p: Pair| p.0.ptr < (m - 1) as nat && p.1.ptr < n);
        let row = Set::new(|p: Pair| p.0.ptr == (m - 1) as nat && p.1.ptr < n);
        assert(below =~= rest.union(row));
    }
}

proof fn row_is_finite(m: nat, n: nat)
    ensures
        Set::new(|p: Pair| p.0.ptr == m && p.1.ptr < n).finite(),
    decreases n,
{
    let row = Set::new(|p: Pair| p.0.ptr == m && p.1.ptr < n);
    if n == 0 {
        assert(row =~= Set::empty());
    } else {
        row_is_finite(m, (n - 1) as nat);
        let rest = Set::new(|p: Pair| p.0.ptr == m && p.1.ptr < (n - 1) as nat);
        let last = (SharedNode { ptr: m as usize }, SharedNode { ptr: (n - 1) as usize });
        vstd::set_lib::lemma_set_subset_finite(rest.insert(last), row);
    }
}

/// Seeing more leaves no more unseen, and seeing a new pair of items leaves less.
pub proof fn unseen_shrinks(count: nat, seen: Set<Pair>, more: Set<Pair>)
    requires
        seen.subset_of(more),
    ensures
        unseen(count, more).len() <= unseen(count, seen).len(),
        forall|p: Pair|
            #![trigger more.contains(p)]
            more.contains(p) && !seen.contains(p) && p.0.ptr < count && p.1.ptr < count
                ==> unseen(count, more).len() < unseen(count, seen).len(),
{
    unseen_is_finite(count, seen);
    vstd::set_lib::lemma_len_subset(unseen(count, more), unseen(count, seen));
    assert forall|p: Pair|
        #![trigger more.contains(p)]
        more.contains(p) && !seen.contains(p) && p.0.ptr < count && p.1.ptr < count implies unseen(
        count,
        more,
    ).len() < unseen(count, seen).len() by {
        assert(unseen(count, seen).contains(p));
        vstd::set_lib::lemma_len_subset(unseen(count, more), unseen(count, seen).remove(p));
    }
}

/// How a comparison ends: whether all its steps found the same, and which pairs it has seen.
pub open spec fn ending(cache: ProbCache, seen: Set<Pair>, steps: Seq<Step>) -> (bool, Set<Pair>)
    decreases unseen(cache.items().len(), seen).len(), steps.len(),
{
    if steps.len() == 0 {
        (true, seen)
    } else {
        let rest = steps.drop_first();
        match steps[0] {
            Step::Values(same) => if same {
                ending(cache, seen, rest)
            } else {
                (false, seen)
            },
            Step::Items(a, b) => {
                let p = (a, b);
                let more = seen.insert(p);
                if seen.contains(p) {
                    ending(cache, seen, rest)
                } else if cache.item(a) is None || cache.item(b) is None {
                    (false, more)
                } else {
                    proof {
                        unseen_shrinks(cache.items().len(), seen, more);
                        assert(more.contains(p));
                    }
                    ending(cache, more, pair_steps(cache, p) + rest)
                }
            },
        }
    }
}

/// A step that compares values ends the comparison or goes on.
pub proof fn ending_after_values(cache: ProbCache, seen: Set<Pair>, same: bool, rest: Seq<Step>)
    ensures
        ending(cache, seen, seq![Step::Values(same)] + rest) == (if same {
            ending(cache, seen, rest)
        } else {
            (false, seen)
        }),
        ending(cache, seen, seq![Step::Values(same)]) == (same, seen),
{
    assert((seq![Step::Values(same)] + rest).drop_first() =~= rest);
    assert(seq![Step::Values(same)].drop_first() =~= Seq::empty());
    assert(ending(cache, seen, Seq::empty()) == (true, seen));
}

/// A pair of items is compared by its own steps, unless it was seen before.
pub proof fn ending_of_items(cache: ProbCache, seen: Set<Pair>, a: SharedNode, b: SharedNode)
    ensures
        ending(cache, seen, seq![Step::Items(a, b)]) == (if seen.contains((a, b)) {
            (true, seen)
        } else if cache.item(a) is None || cache.item(b) is None {
            (false, seen.insert((a, b)))
        } else {
            ending(cache, seen.insert((a, b)), pair_steps(cache, (a, b)))
        }),
{
    assert(seq![Step::Items(a, b)].drop_first() =~= Seq::empty());
    assert(ending(cache, seen, Seq::empty()) == (true, seen));
    let own = pair_steps(cache, (a, b));
    assert(own + Seq::<Step>::empty() =~= own);
}

/// A comparison goes through one list of steps and, if that finds no difference, the next.
pub proof fn ending_in_stages(
    cache: ProbCache,
    seen: Set<Pair>,
    first: Seq<Step>,
    next: Seq<Step>,
)
    ensures
        ending(cache, seen, first + next) == ({
            let (same, between) = ending(cache, seen, first);
            if same {
                ending(cache, between, next)
            } else {
                (false, between)
            }
        }),
    decreases unseen(cache.items().len(), seen).len(), first.len(),
{
    if first.len() == 0 {
        assert(first + next =~= next);
    } else {
        let rest = first.drop_first();
        assert((first + next).drop_first() =~= rest + next);
        match first[0] {
            Step::Values(same) => {
                if same {
                    ending_in_stages(cache, seen, rest, next);
                }
            },
            Step::Items(a, b) => {
                let p = (a, b);
                let more = seen.insert(p);
                if seen.contains(p) {
                    ending_in_stages(cache, seen, rest, next);
                } else if cache.item(a) is Some && cache.item(b) is Some {
                    unseen_shrinks(cache.items().len(), seen, more);
                    assert(more.contains(p));
                    let own = pair_steps(cache, p);
                    ending_in_stages(cache, more, own + rest, next);
                    assert(own + (rest + next) =~= (own + rest) + next);
                }
            },
        }
    }
}

/// A comparison forgets nothing.
pub proof fn ending_keeps_what_was_seen(cache: ProbCache, seen: Set<Pair>, steps: Seq<Step>)
    ensures
        seen.subset_of(ending(cache, seen, steps).1),
    decreases unseen(cache.items().len(), seen).len(), steps.len(),
{
    if steps.len() > 0 {
        let rest = steps.drop_first();
        match steps[0] {
            Step::Values(same) => {
                if same {
                    ending_keeps_what_was_seen(cache, seen, rest);
                }
            },
            Step::Items(a, b) => {
                let p = (a, b);
                let more = seen.insert(p);
                if seen.contains(p) {
                    ending_keeps_what_was_seen(cache, seen, rest);
                } else if cache.item(a) is Some && cache.item(b) is Some {
                    unseen_shrinks(cache.items().len(), seen, more);
                    assert(more.contains(p));
                    ending_keeps_what_was_seen(cache, more, pair_steps(cache, p) + rest);
                }
            },
        }
    }
}

/// A pair of items is looked at in this order: a pair that was seen before passes; else it is
/// marked as seen, and then fails if an item is missing, if the versions differ or if an item
/// shows no node; else the nodes decide.
pub proof fn pairs_are_compared_in_order(
    cache: ProbCache,
    seen: Set<Pair>,
    a: SharedNode,
    b: SharedNode,
)
    ensures
        seen.contains((a, b)) ==> ending(cache, seen, seq![Step::Items(a, b)]) == (true, seen),
        !seen.contains((a, b)) ==> ending(cache, seen, seq![Step::Items(a, b)]) == (if a.ptr
            >= cache.items().len() || b.ptr >= cache.items().len() {
            (false, seen.insert((a, b)))
        } else if cache.items()[a.ptr as int].version_id.0
            != cache.items()[b.ptr as int].version_id.0
            || cache.items()[a.ptr as int].version_number
            != cache.items()[b.ptr as int].version_number {
            (false, seen.insert((a, b)))
        } else {
            match (cache.node(a), cache.node(b)) {
                (Ok(m), Ok(n)) => ending(cache, seen.insert((a, b)), node_steps(m, n)),
                _ => (false, seen.insert((a, b))),
            }
        }),
{
    ending_of_items(cache, seen, a, b);
    let marked = seen.insert((a, b));
    let x = cache.items()[a.ptr as int];
    let y = cache.items()[b.ptr as int];
    let same = x.version_id == y.version_id && x.version_number == y.version_number;
    let own = pair_steps(cache, (a, b));
    match (cache.node(a), cache.node(b)) {
        (Ok(m), Ok(n)) => {
            ending_after_values(cache, marked, same, node_steps(m, n));
        },
        _ => {
            if a.ptr < cache.items().len() && b.ptr < cache.items().len() {
                assert(own =~= seq![Step::Values(same)] + seq![Step::Values(false)]);
            }
            ending_after_values(cache, marked, same, seq![Step::Values(false)]);
            ending_after_values(cache, marked, false, Seq::empty());
        },
    }
}

/// Two nodes are looked at in this order: level, vector number, components and place, versions,
/// parent, child, neighbors. The first difference ends the comparison, and what comes after it
/// is not looked at.
pub proof fn nodes_are_compared_in_order(
    cache: ProbCache,
    seen: Set<Pair>,
    m: ProbNode,
    n: ProbNode,
)
    ensures
        ending(cache, seen, node_steps(m, n)) == (if m.hnsw_level.0 != n.hnsw_level.0
            || !m.prop.same_prop(*n.prop) {
            (false, seen)
        } else {
            let (versions, seen1) = ending(cache, seen, list_steps(m.versions@, n.versions@));
            let (parents, seen2) = ending(cache, seen1, link_steps(m.parent, n.parent));
            let (children, seen3) = ending(cache, seen2, link_steps(m.child, n.child));
            if !versions {
                (false, seen1)
            } else if !parents {
                (false, seen2)
            } else if !children {
                (false, seen3)
            } else {
                ending(cache, seen3, row_steps(m.neighbors@, n.neighbors@))
            }
        }),
{
    let versions = list_steps(m.versions@, n.versions@);
    let parents = link_steps(m.parent, n.parent);
    let children = link_steps(m.child, n.child);
    let neighbors = row_steps(m.neighbors@, n.neighbors@);
    let links = versions + (parents + (children + neighbors));
    let steps = node_steps(m, n);
    let rest = steps.drop_first();
    assert(rest =~= seq![rest[0]] + links);
    assert(steps =~= seq![steps[0]] + rest);
    ending_after_values(cache, seen, steps[0]->Values_0, rest);
    ending_after_values(cache, seen, rest[0]->Values_0, links);
    ending_in_stages(cache, seen, versions, parents + (children + neighbors));
    let seen1 = ending(cache, seen, versions).1;
    ending_in_stages(cache, seen1, parents, children + neighbors);
    let seen2 = ending(cache, seen1, parents).1;
    ending_in_stages(cache, seen2, children, neighbors);
}

/// Two links that are both there lead on to what they point at; a link that only one side has is
/// a difference, and nothing is marked for it.
pub proof fn links_are_compared_by_presence(
    cache: ProbCache,
    seen: Set<Pair>,
    a: Option<SharedNode>,
    b: Option<SharedNode>,
)
    ensures
        ending(cache, seen, link_steps(a, b)) == (match (a, b) {
            (None, None) => (true, seen),
            (Some(x), Some(y)) => ending(cache, seen, seq![Step::Items(x, y)]),
            _ => (false, seen),
        }),
{
    ending_after_values(cache, seen, a is Some == b is Some, Seq::empty());
}

/// Lists of different lengths differ, and nothing is marked for them; lists of the same length
/// are compared from the first item on, up to the first pair of items that differ.
pub proof fn lists_are_compared_in_order(
    cache: ProbCache,
    seen: Set<Pair>,
    a: Seq<SharedNode>,
    b: Seq<SharedNode>,
)
    ensures
        a.len() != b.len() ==> ending(cache, seen, list_steps(a, b)) == (false, seen),
        a.len() == 0 && b.len() == 0 ==> ending(cache, seen, list_steps(a, b)) == (true, seen),
        a.len() == b.len() && a.len() > 0 ==> ending(cache, seen, list_steps(a, b)) == ({
            let (same, between) = ending(cache, seen, seq![Step::Items(a[0], b[0])]);
            if same {
                ending(cache, between, list_steps(a.drop_first(), b.drop_first()))
            } else {
                (false, between)
            }
        }),
{
    ending_after_values(cache, seen, a.len() == b.len(), item_steps(a, b));
    if a.len() == b.len() && a.len() > 0 {
        let rest = item_steps(a.drop_first(), b.drop_first());
        let between = ending(cache, seen, seq![Step::Items(a[0], b[0])]).1;
        ending_in_stages(cache, seen, seq![Step::Items(a[0], b[0])], rest);
        ending_after_values(cache, between, true, rest);
    }
}

/// Rows of different lengths differ, and nothing is marked for them; rows of the same length are
/// compared from the first slot on, each slot by its distance before its neighbor.
pub proof fn rows_are_compared_in_order(
    cache: ProbCache,
    seen: Set<Pair>,
    a: Seq<NeighborSlot>,
    b: Seq<NeighborSlot>,
)
    ensures
        a.len() != b.len() ==> ending(cache, seen, row_steps(a, b)) == (false, seen),
        a.len() == 0 && b.len() == 0 ==> ending(cache, seen, row_steps(a, b)) == (true, seen),
        a.len() == b.len() && a.len() > 0 ==> ending(cache, seen, row_steps(a, b)) == ({
            let rest = row_steps(a.drop_first(), b.drop_first());
            match (a[0], b[0]) {
                (None, None) => ending(cache, seen, rest),
                (Some((x, d)), Some((y, e))) => {
                    let (same, between) = ending(cache, seen, seq![Step::Items(x, y)]);
                    if !d.same_distance(e) {
                        (false, seen)
                    } else if same {
                        ending(cache, between, rest)
                    } else {
                        (false, between)
                    }
                },
                _ => (false, seen),
            }
        }),
{
    ending_after_values(cache, seen, a.len() == b.len(), each_slot_steps(a, b));
    if a.len() == b.len() && a.len() > 0 {
        let rest = each_slot_steps(a.drop_first(), b.drop_first());
        let agree = slot_agrees(a[0], b[0]);
        ending_in_stages(cache, seen, slot_steps(a[0], b[0]), rest);
        ending_after_values(cache, seen, agree, Seq::empty());
        ending_after_values(cache, seen, true, rest);
        if let (Some((x, _)), Some((y, _))) = (a[0], b[0]) {
            let next = seq![Step::Items(x, y)];
            let between = ending(cache, seen, next).1;
            assert(slot_steps(a[0], b[0]) =~= seq![Step::Values(agree)] + next);
            ending_after_values(cache, seen, agree, next);
            ending_after_values(cache, between, true, rest);
        }
    }
}

} // verus!
