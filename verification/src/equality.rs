//! Comparison of two graphs of items, link by link.

use crate::cache::ProbCache;
use crate::equality_laws::same_graph;
use crate::graph_laws::{
    comparisons_decide_same_graph, list_comparisons_decide, node_comparisons_decide,
    row_comparisons_decide,
};
use crate::node::{NeighborSlot, ProbLazyItemArray, ProbNode, SharedNode};
use crate::pairs::{
    all_agree, item_pairs, items_agree, link_pair, node_pairs, nodes_agree, reached,
    reached_grows_with_roots, reached_in_stages, reached_stays_within, root_is_reached, slot_agrees,
    slot_pairs, slots_agree, step_is_reached, successors, Pair,
};
use crate::steps::{
    each_slot_steps, ending, ending_after_values, ending_in_stages, ending_of_items, item_steps,
    link_steps, list_steps, node_steps, pair_steps, row_steps, slot_steps, unseen, unseen_shrinks, Step,
};
use std::collections::HashSet;
use std::sync::Arc;
use vstd::prelude::*;

verus! {

broadcast use vstd::std_specs::hash::group_hash_axioms;

/// The pairs of items that have been compared, or are being compared.
pub struct CheckedPairs {
    keys: HashSet<u128>,
}

/// A number for each pair: the two positions side by side.
spec fn pair_key(p: Pair) -> int {
    p.0.ptr * 0x1_0000_0000_0000_0000 + p.1.ptr
}

impl View for CheckedPairs {
    type V = Set<Pair>;

    closed spec fn view(&self) -> Set<Pair> {
        Set::new(|p: Pair| self.keys@.contains(pair_key(p) as u128))
    }
}

impl CheckedPairs {
    /// No pairs.
    fn new() -> (r: CheckedPairs)
        ensures
            r@ == Set::<Pair>::empty(),
    {
        let r = CheckedPairs { keys: HashSet::new() };
        assert(r@ =~= Set::<Pair>::empty());
        r
    }

    /// Adds a pair; reports whether it is new.
    fn insert(&mut self, a: SharedNode, b: SharedNode) -> (r: bool)
        ensures
            r == !old(self)@.contains((a, b)),
            final(self)@ == old(self)@.insert((a, b)),
    {
        let high: u128 = a.as_ptr() as u128;
        let low: u128 = b.as_ptr() as u128;
        let key: u128 = high * 0x1_0000_0000_0000_0000 + low;
        let fresh = self.keys.insert(key);
        proof {
            assert forall|p: Pair| self@.contains(p) == old(self)@.insert((a, b)).contains(p) by {
                if pair_key(p) == pair_key((a, b)) {
                    assert(p.0.ptr == a.ptr && p.1.ptr == b.ptr);
                    assert(p == (a, b));
                }
            }
            assert(self@ =~= old(self)@.insert((a, b)));
        }
        fresh
    }
}

/// Compares items, and remembers which pairs it has seen so that cycles are walked once.
pub struct EqualityTester {
    checked: CheckedPairs,
    cache: Arc<ProbCache>,
}

impl View for EqualityTester {
    type V = Set<Pair>;

    /// The pairs that have been seen.
    closed spec fn view(&self) -> Set<Pair> {
        self.checked@
    }
}

impl EqualityTester {
    /// The cache that items are looked up in.
    pub closed spec fn cache(&self) -> ProbCache {
        *self.cache
    }

    /// A tester that has seen no pair.
    pub fn new(cache: Arc<ProbCache>) -> (r: EqualityTester)
        ensures
            r@ == Set::<Pair>::empty(),
            r.cache() == *cache,
    {
        EqualityTester { checked: CheckedPairs::new(), cache }
    }
}

/// What a comparison that starts at the `roots` finds and remembers: it succeeds exactly when
/// the starting points show the same values (`alike`) and every pair reached from the roots
/// agrees. On success it has seen all pairs that are reached, else some of them: those that
/// [`ending`] names.
pub open spec fn outcome(
    cache: ProbCache,
    before: Set<Pair>,
    roots: Set<Pair>,
    alike: bool,
    success: bool,
    after: Set<Pair>,
) -> bool {
    &&& success == (alike && all_agree(cache, before, roots))
    &&& before.subset_of(after)
    &&& after.subset_of(before.union(reached(cache, before, roots)))
    &&& success ==> after == before.union(reached(cache, before, roots))
}

/// Nothing to compare.
proof fn outcome_of_nothing(cache: ProbCache, before: Set<Pair>)
    ensures
        outcome(cache, before, Set::empty(), true, true, before),
{
    reached_stays_within(cache, before, Set::empty(), Set::empty());
    assert(before.union(reached(cache, before, Set::empty())) =~= before);
}

/// A comparison that goes on where a successful one ended.
proof fn outcome_of_two(
    cache: ProbCache,
    before: Set<Pair>,
    roots: Set<Pair>,
    between: Set<Pair>,
    more: Set<Pair>,
    alike: bool,
    success: bool,
    after: Set<Pair>,
)
    requires
        outcome(cache, before, roots, true, true, between),
        outcome(cache, between, more, alike, success, after),
    ensures
        outcome(cache, before, roots.union(more), alike, success, after),
{
    let all = roots.union(more);
    reached_grows_with_roots(cache, before, roots, all);
    assert forall|r: Pair| roots.contains(r) implies between.contains(r) by {
        root_is_reached(cache, before, roots, r);
    }
    assert forall|r: Pair| more.contains(r) implies reached(cache, before, all).contains(r) by {
        root_is_reached(cache, before, all, r);
    }
    assert forall|q: Pair, s: Pair|
        #![trigger between.contains(q), successors(cache, q).contains(s)]
        between.contains(q) && !before.contains(q) && successors(cache, q).contains(
            s,
        ) implies between.contains(s) || more.contains(s) by {
        step_is_reached(cache, before, roots, q, s);
    }
    assert forall|q: Pair|
        #![trigger between.contains(q)]
        between.contains(q) && !before.contains(q) implies items_agree(cache, q) by {
        assert(reached(cache, before, roots).contains(q));
    }
    reached_in_stages(cache, before, all, between, more);
}

/// A comparison that failed fails whatever else was to be compared.
proof fn outcome_of_failure(
    cache: ProbCache,
    before: Set<Pair>,
    roots: Set<Pair>,
    all: Set<Pair>,
    alike: bool,
    all_alike: bool,
    after: Set<Pair>,
)
    requires
        outcome(cache, before, roots, alike, false, after),
        roots.subset_of(all),
        all_alike ==> alike,
    ensures
        outcome(cache, before, all, all_alike, false, after),
{
    reached_grows_with_roots(cache, before, roots, all);
}

/// A pair that is compared for the first time: its items, then all that its steps lead to.
proof fn outcome_of_pair(
    cache: ProbCache,
    before: Set<Pair>,
    p: Pair,
    success: bool,
    after: Set<Pair>,
)
    requires
        !before.contains(p),
        items_agree(cache, p) ==> outcome(
            cache,
            before.insert(p),
            successors(cache, p),
            true,
            success,
            after,
        ),
        !items_agree(cache, p) ==> !success && before.insert(p).subset_of(after)
            && after.subset_of(
            before.insert(p).union(reached(cache, before.insert(p), successors(cache, p))),
        ),
    ensures
        outcome(cache, before, Set::empty().insert(p), true, success, after),
{
    let roots = Set::<Pair>::empty().insert(p);
    root_is_reached(cache, before, roots, p);
    assert forall|s: Pair| successors(cache, p).contains(s) implies reached(
        cache,
        before,
        roots,
    ).contains(s) by {
        step_is_reached(cache, before, roots, p, s);
    }
    reached_in_stages(cache, before, roots, before.insert(p), successors(cache, p));
}

/// A pair that was seen before is not compared again.
proof fn outcome_of_seen_pair(cache: ProbCache, before: Set<Pair>, p: Pair)
    requires
        before.contains(p),
    ensures
        outcome(cache, before, Set::empty().insert(p), true, true, before),
{
    let roots = Set::<Pair>::empty().insert(p);
    reached_stays_within(cache, before, roots, roots);
    assert(before.union(reached(cache, before, roots)) =~= before);
}

/// Compares two items, unless the pair was seen before.
fn compare_items(
    a: SharedNode,
    b: SharedNode,
    cache: &ProbCache,
    checked: &mut CheckedPairs,
) -> (r: bool)
    ensures
        outcome(
            *cache,
            old(checked)@,
            Set::empty().insert((a, b)),
            true,
            r,
            final(checked)@,
        ),
        (r, final(checked)@) == ending(*cache, old(checked)@, seq![Step::Items(a, b)]),
        final(checked)@.contains((a, b)),
    decreases unseen(cache.items().len(), old(checked)@).len(), 0nat,
{
    let ghost before = checked@;
    let ghost p: Pair = (a, b);
    proof {
        ending_of_items(*cache, before, a, b);
    }
    if !checked.insert(a, b) {
        proof {
            assert(checked@ =~= before);
            outcome_of_seen_pair(*cache, before, p);
        }
        return true;
    }
    let ghost seen = checked@;
    let (item_a, item_b) = match (cache.get(a), cache.get(b)) {
        (Some(x), Some(y)) => (x, y),
        _ => {
            proof {
                outcome_of_pair(*cache, before, p, false, seen);
            }
            return false;
        },
    };
    let ghost same_version = item_a.version_id == item_b.version_id && item_a.version_number
        == item_b.version_number;
    if item_a.version_id != item_b.version_id || item_a.version_number != item_b.version_number {
        proof {
            outcome_of_pair(*cache, before, p, false, seen);
            let rest = pair_steps(*cache, p).drop_first();
            assert(pair_steps(*cache, p) =~= seq![Step::Values(same_version)] + rest);
            ending_after_values(*cache, seen, same_version, rest);
        }
        return false;
    }
    match (a.try_get_data(cache), b.try_get_data(cache)) {
        (Ok(m), Ok(n)) => {
            proof {
                unseen_shrinks(cache.items().len(), before, seen);
                assert(seen.contains(p));
                ending_after_values(*cache, seen, same_version, node_steps(*m, *n));
            }
            let r = compare_nodes(m, n, cache, checked);
            proof {
                outcome_of_pair(*cache, before, p, r, checked@);
            }
            r
        },
        _ => {
            proof {
                outcome_of_pair(*cache, before, p, false, seen);
                let rest = seq![Step::Values(false)];
                assert(pair_steps(*cache, p) =~= seq![Step::Values(same_version)] + rest);
                ending_after_values(*cache, seen, same_version, rest);
                ending_after_values(*cache, seen, false, Seq::empty());
            }
            false
        },
    }
}

/// Compares what two links lead to; a link that only one side has is a difference.
fn compare_links(
    a: Option<SharedNode>,
    b: Option<SharedNode>,
    cache: &ProbCache,
    checked: &mut CheckedPairs,
) -> (r: bool)
    ensures
        outcome(
            *cache,
            old(checked)@,
            link_pair(a, b),
            a is Some == b is Some,
            r,
            final(checked)@,
        ),
        (r, final(checked)@) == ending(*cache, old(checked)@, link_steps(a, b)),
    decreases unseen(cache.items().len(), old(checked)@).len(), 1nat,
{
    proof {
        ending_after_values(*cache, checked@, a is Some == b is Some, Seq::empty());
    }
    match (a, b) {
        (Some(x), Some(y)) => compare_items(x, y, cache, checked),
        (None, None) => {
            proof {
                outcome_of_nothing(*cache, checked@);
            }
            true
        },
        _ => false,
    }
}

/// Compares two lists item by item.
fn compare_lists<const N: usize>(
    a: &ProbLazyItemArray<N>,
    b: &ProbLazyItemArray<N>,
    cache: &ProbCache,
    checked: &mut CheckedPairs,
) -> (r: bool)
    ensures
        outcome(
            *cache,
            old(checked)@,
            item_pairs(a@, b@),
            a@.len() == b@.len(),
            r,
            final(checked)@,
        ),
        (r, final(checked)@) == ending(*cache, old(checked)@, list_steps(a@, b@)),
        a@.len() != b@.len() ==> final(checked)@ == old(checked)@,
    decreases unseen(cache.items().len(), old(checked)@).len(), 2nat,
{
    let ghost before = checked@;
    proof {
        ending_after_values(*cache, before, a@.len() == b@.len(), item_steps(a@, b@));
    }
    if a.len() != b.len() {
        return false;
    }
    let mut i: usize = 0;
    proof {
        outcome_of_nothing(*cache, before);
        assert(item_pairs(a@.take(0), b@.take(0)) =~= Set::empty());
        assert(a@.skip(0) =~= a@ && b@.skip(0) =~= b@);
    }
    while i < a.len()
        invariant
            before == old(checked)@,
            i <= a@.len(),
            a@.len() == b@.len(),
            outcome(
                *cache,
                before,
                item_pairs(a@.take(i as int), b@.take(i as int)),
                true,
                true,
                checked@,
            ),
            ending(*cache, before, list_steps(a@, b@)) == ending(
                *cache,
                checked@,
                item_steps(a@.skip(i as int), b@.skip(i as int)),
            ),
        decreases a@.len() - i,
    {
        let ghost between = checked@;
        let ghost done = item_pairs(a@.take(i as int), b@.take(i as int));
        let (x, y) = match (a.get(i), b.get(i)) {
            (Some(x), Some(y)) => (x, y),
            _ => return false,
        };
        proof {
            unseen_shrinks(cache.items().len(), before, between);
        }
        let same = compare_items(x, y, cache, checked);
        let ghost next = item_pairs(a@.take(i + 1), b@.take(i + 1));
        let ghost one = Set::<Pair>::empty().insert((x, y));
        proof {
            outcome_of_two(*cache, before, done, between, one, true, same, checked@);
            take_item_pairs(a@, b@, i as int);
            let rest = item_steps(a@.skip(i + 1), b@.skip(i + 1));
            assert(a@.skip(i as int).drop_first() =~= a@.skip(i + 1));
            assert(b@.skip(i as int).drop_first() =~= b@.skip(i + 1));
            ending_in_stages(*cache, between, seq![Step::Items(x, y)], rest);
        }
        if !same {
            proof {
                assert(next.subset_of(item_pairs(a@, b@))) by {
                    some_item_pairs(a@, b@, i + 1);
                }
                outcome_of_failure(
                    *cache,
                    before,
                    next,
                    item_pairs(a@, b@),
                    true,
                    true,
                    checked@,
                );
            }
            return false;
        }
        i = i + 1;
    }
    assert(a@.take(i as int) =~= a@ && b@.take(i as int) =~= b@);
    true
}

/// One more position adds one more pair.
proof fn take_item_pairs(a: Seq<SharedNode>, b: Seq<SharedNode>, i: int)
    requires
        0 <= i < a.len(),
        a.len() == b.len(),
    ensures
        item_pairs(a.take(i + 1), b.take(i + 1)) == item_pairs(a.take(i), b.take(i)).union(
            Set::empty().insert((a[i], b[i])),
        ),
{
    let less = item_pairs(a.take(i), b.take(i));
    let more = item_pairs(a.take(i + 1), b.take(i + 1));
    assert forall|p: Pair| more.contains(p) implies less.contains(p) || p == (a[i], b[i]) by {
        let j = choose|j: int|
            0 <= j < a.take(i + 1).len() && j < b.take(i + 1).len() && p == (
                #[trigger] a.take(i + 1)[j],
                b.take(i + 1)[j],
            );
        if j < i {
            assert(a.take(i)[j] == a[j]);
        }
    }
    assert forall|p: Pair| less.contains(p) || p == (a[i], b[i]) implies more.contains(p) by {
        if p == (a[i], b[i]) {
            assert(a.take(i + 1)[i] == a[i]);
        } else {
            let j = choose|j: int|
                0 <= j < a.take(i).len() && j < b.take(i).len() && p == (
                    #[trigger] a.take(i)[j],
                    b.take(i)[j],
                );
            assert(a.take(i + 1)[j] == a[j]);
        }
    }
    assert(more =~= less.union(Set::empty().insert((a[i], b[i]))));
}

proof fn some_item_pairs(a: Seq<SharedNode>, b: Seq<SharedNode>, i: int)
    requires
        0 <= i <= a.len(),
        a.len() == b.len(),
    ensures
        item_pairs(a.take(i), b.take(i)).subset_of(item_pairs(a, b)),
{
    assert forall|p: Pair| item_pairs(a.take(i), b.take(i)).contains(p) implies item_pairs(
        a,
        b,
    ).contains(p) by {
        let j = choose|j: int|
            0 <= j < a.take(i).len() && j < b.take(i).len() && p == (
                #[trigger] a.take(i)[j],
                b.take(i)[j],
            );
        assert(a[j] == p.0);
    }
}

/// Compares two rows of neighbor slots.
fn compare_slots(
    a: &Vec<NeighborSlot>,
    b: &Vec<NeighborSlot>,
    cache: &ProbCache,
    checked: &mut CheckedPairs,
) -> (r: bool)
    ensures
        outcome(
            *cache,
            old(checked)@,
            slot_pairs(a@, b@),
            slots_agree(a@, b@),
            r,
            final(checked)@,
        ),
        (r, final(checked)@) == ending(*cache, old(checked)@, row_steps(a@, b@)),
        a@.len() != b@.len() ==> final(checked)@ == old(checked)@,
        forall|k: int|
            0 <= k < a@.len() && k < b@.len() && !slot_agrees(#[trigger] a@[k], b@[k])
                ==> final(checked)@.subset_of(
                old(checked)@.union(
                    reached(*cache, old(checked)@, slot_pairs(a@.take(k), b@.take(k))),
                ),
            ),
    decreases unseen(cache.items().len(), old(checked)@).len(), 2nat,
{
    let ghost before = checked@;
    proof {
        ending_after_values(*cache, before, a@.len() == b@.len(), each_slot_steps(a@, b@));
    }
    if a.len() != b.len() {
        return false;
    }
    let mut i: usize = 0;
    proof {
        outcome_of_nothing(*cache, before);
        assert(slot_pairs(a@.take(0), b@.take(0)) =~= Set::empty());
        assert(a@.skip(0) =~= a@ && b@.skip(0) =~= b@);
    }
    while i < a.len()
        invariant
            before == old(checked)@,
            i <= a@.len(),
            a@.len() == b@.len(),
            slots_agree(a@.take(i as int), b@.take(i as int)),
            outcome(
                *cache,
                before,
                slot_pairs(a@.take(i as int), b@.take(i as int)),
                true,
                true,
                checked@,
            ),
            ending(*cache, before, row_steps(a@, b@)) == ending(
                *cache,
                checked@,
                each_slot_steps(a@.skip(i as int), b@.skip(i as int)),
            ),
        decreases a@.len() - i,
    {
        let ghost between = checked@;
        let ghost done = slot_pairs(a@.take(i as int), b@.take(i as int));
        let ghost next = slot_pairs(a@.take(i + 1), b@.take(i + 1));
        proof {
            take_slot_pairs(a@, b@, i as int);
            some_slot_pairs(a@, b@, i + 1);
            some_slot_pairs(a@, b@, i as int);
            reached_grows_with_roots(*cache, before, done, slot_pairs(a@, b@));
            assert(a@.skip(i as int).drop_first() =~= a@.skip(i + 1));
            assert(b@.skip(i as int).drop_first() =~= b@.skip(i + 1));
            slots_before_a_difference(*cache, before, a@, b@, i as int);
            ending_in_stages(
                *cache,
                between,
                slot_steps(a@[i as int], b@[i as int]),
                each_slot_steps(a@.skip(i + 1), b@.skip(i + 1)),
            );
            ending_after_values(
                *cache,
                between,
                slot_agrees(a@[i as int], b@[i as int]),
                Seq::empty(),
            );
            unseen_shrinks(cache.items().len(), before, between);
        }
        match (a[i], b[i]) {
            (None, None) => {
                proof {
                    outcome_of_nothing(*cache, between);
                    outcome_of_two(
                        *cache,
                        before,
                        done,
                        between,
                        Set::empty(),
                        true,
                        true,
                        between,
                    );
                }
            },
            (Some((x, d)), Some((y, e))) => {
                if d != e {
                    proof {
                        assert(!slot_agrees(a@[i as int], b@[i as int]));
                        assert(slot_steps(a@[i as int], b@[i as int]) =~= seq![Step::Values(false)]
                            + seq![Step::Items(x, y)]);
                        ending_after_values(*cache, between, false, seq![Step::Items(x, y)]);
                    }
                    return false;
                }
                proof {
                    assert(slot_steps(a@[i as int], b@[i as int]) =~= seq![Step::Values(true)]
                        + seq![Step::Items(x, y)]);
                    ending_after_values(*cache, between, true, seq![Step::Items(x, y)]);
                }
                let same = compare_items(x, y, cache, checked);
                let ghost one = Set::<Pair>::empty().insert((x, y));
                proof {
                    outcome_of_two(*cache, before, done, between, one, true, same, checked@);
                }
                if !same {
                    proof {
                        outcome_of_failure(
                            *cache,
                            before,
                            next,
                            slot_pairs(a@, b@),
                            true,
                            slots_agree(a@, b@),
                            checked@,
                        );
                    }
                    return false;
                }
            },
            _ => {
                assert(!slot_agrees(a@[i as int], b@[i as int]));
                return false;
            },
        }
        i = i + 1;
    }
    assert(a@.take(i as int) =~= a@ && b@.take(i as int) =~= b@);
    true
}

/// One more slot adds the pair in it, if both sides hold a neighbor.
proof fn take_slot_pairs(a: Seq<NeighborSlot>, b: Seq<NeighborSlot>, i: int)
    requires
        0 <= i < a.len(),
        a.len() == b.len(),
    ensures
        slot_pairs(a.take(i + 1), b.take(i + 1)) == slot_pairs(a.take(i), b.take(i)).union(
            match (a[i], b[i]) {
                (Some((x, _)), Some((y, _))) => Set::empty().insert((x, y)),
                _ => Set::empty(),
            },
        ),
{
    let less = slot_pairs(a.take(i), b.take(i));
    let more = slot_pairs(a.take(i + 1), b.take(i + 1));
    let new = match (a[i], b[i]) {
        (Some((x, _)), Some((y, _))) => Set::<Pair>::empty().insert((x, y)),
        _ => Set::empty(),
    };
    assert forall|p: Pair| more.contains(p) implies less.contains(p) || new.contains(p) by {
        let j = choose|j: int|
            {
                &&& 0 <= j < a.take(i + 1).len()
                &&& j < b.take(i + 1).len()
                &&& (#[trigger] a.take(i + 1)[j]) matches Some((x, _))
                &&& b.take(i + 1)[j] matches Some((y, _))
                &&& p == (x, y)
            };
        if j < i {
            assert(a.take(i)[j] == a[j]);
        }
    }
    assert forall|p: Pair| less.contains(p) || new.contains(p) implies more.contains(p) by {
        if less.contains(p) {
            let j = choose|j: int|
                {
                    &&& 0 <= j < a.take(i).len()
                    &&& j < b.take(i).len()
                    &&& (#[trigger] a.take(i)[j]) matches Some((x, _))
                    &&& b.take(i)[j] matches Some((y, _))
                    &&& p == (x, y)
                };
            assert(a.take(i + 1)[j] == a[j]);
        } else {
            assert(a.take(i + 1)[i] == a[i]);
        }
    }
    assert(more =~= less.union(new));
}

/// The slots up to the first difference are among those before any difference.
proof fn slots_before_a_difference(
    cache: ProbCache,
    before: Set<Pair>,
    a: Seq<NeighborSlot>,
    b: Seq<NeighborSlot>,
    i: int,
)
    requires
        0 <= i < a.len(),
        a.len() == b.len(),
        slots_agree(a.take(i), b.take(i)),
    ensures
        forall|k: int|
            0 <= k < a.len() && k < b.len() && !slot_agrees(#[trigger] a[k], b[k]) ==> {
                let pairs = slot_pairs(a.take(k), b.take(k));
                &&& i <= k
                &&& reached(cache, before, slot_pairs(a.take(i), b.take(i))).subset_of(
                    reached(cache, before, pairs),
                )
                &&& i < k ==> reached(cache, before, slot_pairs(a.take(i + 1), b.take(i + 1)))
                    .subset_of(reached(cache, before, pairs))
            },
{
    assert forall|k: int|
        0 <= k < a.len() && k < b.len() && !slot_agrees(#[trigger] a[k], b[k]) implies {
        let pairs = slot_pairs(a.take(k), b.take(k));
        &&& i <= k
        &&& reached(cache, before, slot_pairs(a.take(i), b.take(i))).subset_of(
            reached(cache, before, pairs),
        )
        &&& i < k ==> reached(cache, before, slot_pairs(a.take(i + 1), b.take(i + 1))).subset_of(
            reached(cache, before, pairs),
        )
    } by {
        let pairs = slot_pairs(a.take(k), b.take(k));
        if k < i {
            assert(slot_agrees(a.take(i)[k], b.take(i)[k]));
        }
        some_slot_pairs(a.take(k), b.take(k), i);
        assert(a.take(k).take(i) =~= a.take(i) && b.take(k).take(i) =~= b.take(i));
        reached_grows_with_roots(cache, before, slot_pairs(a.take(i), b.take(i)), pairs);
        if i < k {
            some_slot_pairs(a.take(k), b.take(k), i + 1);
            assert(a.take(k).take(i + 1) =~= a.take(i + 1));
            assert(b.take(k).take(i + 1) =~= b.take(i + 1));
            reached_grows_with_roots(
                cache,
                before,
                slot_pairs(a.take(i + 1), b.take(i + 1)),
                pairs,
            );
        }
    }
}

proof fn some_slot_pairs(a: Seq<NeighborSlot>, b: Seq<NeighborSlot>, i: int)
    requires
        0 <= i <= a.len(),
        a.len() == b.len(),
    ensures
        slot_pairs(a.take(i), b.take(i)).subset_of(slot_pairs(a, b)),
{
    assert forall|p: Pair| slot_pairs(a.take(i), b.take(i)).contains(p) implies slot_pairs(
        a,
        b,
    ).contains(p) by {
        let j = choose|j: int|
            {
                &&& 0 <= j < a.take(i).len()
                &&& j < b.take(i).len()
                &&& (#[trigger] a.take(i)[j]) matches Some((x, _))
                &&& b.take(i)[j] matches Some((y, _))
                &&& p == (x, y)
            };
        assert(a[j] == a.take(i)[j]);
    }
}

/// Compares two nodes: their values, then all that their links lead to.
fn compare_nodes(
    a: &ProbNode,
    b: &ProbNode,
    cache: &ProbCache,
    checked: &mut CheckedPairs,
) -> (r: bool)
    ensures
        outcome(
            *cache,
            old(checked)@,
            node_pairs(*a, *b),
            nodes_agree(*a, *b),
            r,
            final(checked)@,
        ),
        (r, final(checked)@) == ending(*cache, old(checked)@, node_steps(*a, *b)),
        a.hnsw_level != b.hnsw_level || !a.prop.same_prop(*b.prop) || a.versions@.len()
            != b.versions@.len() ==> final(checked)@ == old(checked)@,
    decreases unseen(cache.items().len(), old(checked)@).len(), 3nat,
{
    let ghost steps1 = list_steps(a.versions@, b.versions@);
    let ghost steps2 = link_steps(a.parent, b.parent);
    let ghost steps3 = link_steps(a.child, b.child);
    let ghost steps4 = row_steps(a.neighbors@, b.neighbors@);
    proof {
        let links = steps1 + (steps2 + (steps3 + steps4));
        let same_level = a.hnsw_level == b.hnsw_level;
        let rest = node_steps(*a, *b).drop_first();
        let same_prop = rest[0]->Values_0;
        assert(rest =~= seq![Step::Values(same_prop)] + links);
        assert(node_steps(*a, *b) =~= seq![Step::Values(same_level)] + rest);
        ending_after_values(*cache, checked@, same_level, rest);
        ending_after_values(*cache, checked@, same_prop, links);
    }
    if a.hnsw_level != b.hnsw_level {
        return false;
    }
    if !a.prop.equals(&b.prop) {
        return false;
    }
    let ghost count = cache.items().len();
    let ghost all = node_pairs(*a, *b);
    let ghost alike = nodes_agree(*a, *b);
    let ghost start = checked@;

    proof {
        ending_in_stages(*cache, start, steps1, steps2 + (steps3 + steps4));
    }
    let versions = compare_lists(&a.versions, &b.versions, cache, checked);
    let ghost roots1 = item_pairs(a.versions@, b.versions@);
    let ghost alike1 = a.versions@.len() == b.versions@.len();
    if !versions {
        proof {
            outcome_of_failure(*cache, start, roots1, all, alike1, alike, checked@);
        }
        return false;
    }
    let ghost seen1 = checked@;
    proof {
        unseen_shrinks(count, start, seen1);
    }

    proof {
        ending_in_stages(*cache, seen1, steps2, steps3 + steps4);
    }
    let parents = compare_links(a.get_parent(), b.get_parent(), cache, checked);
    let ghost roots2 = roots1.union(link_pair(a.parent, b.parent));
    let ghost alike2 = a.parent is Some == b.parent is Some;
    proof {
        outcome_of_two(
            *cache,
            start,
            roots1,
            seen1,
            link_pair(a.parent, b.parent),
            alike2,
            parents,
            checked@,
        );
    }
    if !parents {
        proof {
            outcome_of_failure(*cache, start, roots2, all, alike2, alike, checked@);
        }
        return false;
    }
    let ghost seen2 = checked@;
    proof {
        unseen_shrinks(count, start, seen2);
    }

    proof {
        ending_in_stages(*cache, seen2, steps3, steps4);
    }
    let children = compare_links(a.get_child(), b.get_child(), cache, checked);
    let ghost roots3 = roots2.union(link_pair(a.child, b.child));
    let ghost alike3 = a.child is Some == b.child is Some;
    proof {
        outcome_of_two(
            *cache,
            start,
            roots2,
            seen2,
            link_pair(a.child, b.child),
            alike3,
            children,
            checked@,
        );
    }
    if !children {
        proof {
            outcome_of_failure(*cache, start, roots3, all, alike3, alike, checked@);
        }
        return false;
    }
    let ghost seen3 = checked@;
    proof {
        unseen_shrinks(count, start, seen3);
    }

    let neighbors = compare_slots(a.get_neighbors_raw(), b.get_neighbors_raw(), cache, checked);
    proof {
        outcome_of_two(
            *cache,
            start,
            roots3,
            seen3,
            slot_pairs(a.neighbors@, b.neighbors@),
            slots_agree(a.neighbors@, b.neighbors@),
            neighbors,
            checked@,
        );
    }
    neighbors
}

/// Structural comparison through a tester.
pub trait EqualityTest {
    /// Whether the two are alike, links included. Unless a type says otherwise nothing is
    /// compared, and the two pass as alike.
    #[must_use]
    fn assert_eq(&self, _other: &Self, tester: &mut EqualityTester) -> (r: bool)
        ensures
            final(tester).cache() == old(tester).cache(),
            old(tester)@.subset_of(final(tester)@),
        default_ensures
            r,
            *final(tester) == *old(tester),
    {
        true
    }
}

impl EqualityTest for ProbNode {
    fn assert_eq(&self, other: &Self, tester: &mut EqualityTester) -> (r: bool)
        ensures
            outcome(
                old(tester).cache(),
                old(tester)@,
                node_pairs(*self, *other),
                nodes_agree(*self, *other),
                r,
                final(tester)@,
            ),
            (r, final(tester)@) == ending(
                old(tester).cache(),
                old(tester)@,
                node_steps(*self, *other),
            ),
            self.hnsw_level != other.hnsw_level || !self.prop.same_prop(*other.prop)
                || self.versions@.len() != other.versions@.len() ==> final(tester)@ == old(tester)@,
            (forall|p: Pair| #[trigger]
                old(tester)@.contains(p) ==> same_graph(old(tester).cache(), p.0, p.1)) ==> {
                &&& r <==> {
                    &&& nodes_agree(*self, *other)
                    &&& self.parent matches Some(x) ==> same_graph(
                        old(tester).cache(),
                        x,
                        other.parent->0,
                    )
                    &&& self.child matches Some(x) ==> same_graph(
                        old(tester).cache(),
                        x,
                        other.child->0,
                    )
                    &&& forall|i: int|
                        #![trigger self.versions@[i]]
                        0 <= i < self.versions@.len() ==> same_graph(
                            old(tester).cache(),
                            self.versions@[i],
                            other.versions@[i],
                        )
                    &&& forall|i: int|
                        #![trigger self.neighbors@[i]]
                        0 <= i < self.neighbors@.len() ==> (self.neighbors@[i] matches Some((x, _))
                            ==> same_graph(old(tester).cache(), x, (other.neighbors@[i]->0).0))
                }
                &&& r ==> forall|p: Pair| #[trigger]
                    final(tester)@.contains(p) ==> same_graph(old(tester).cache(), p.0, p.1)
            },
    {
        let ghost before = tester@;
        let r = compare_nodes(self, other, &tester.cache, &mut tester.checked);
        proof {
            if forall|p: Pair| #[trigger]
                before.contains(p) ==> same_graph(tester.cache(), p.0, p.1) {
                node_comparisons_decide(tester.cache(), before, *self, *other, r, tester@);
            }
        }
        r
    }
}

impl EqualityTest for Vec<NeighborSlot> {
    fn assert_eq(&self, other: &Self, tester: &mut EqualityTester) -> (r: bool)
        ensures
            outcome(
                old(tester).cache(),
                old(tester)@,
                slot_pairs(self@, other@),
                slots_agree(self@, other@),
                r,
                final(tester)@,
            ),
            (r, final(tester)@) == ending(
                old(tester).cache(),
                old(tester)@,
                row_steps(self@, other@),
            ),
            self@.len() != other@.len() ==> final(tester)@ == old(tester)@,
            forall|k: int|
                0 <= k < self@.len() && k < other@.len() && !slot_agrees(
                    #[trigger] self@[k],
                    other@[k],
                ) ==> final(tester)@.subset_of(
                    old(tester)@.union(
                        reached(
                            old(tester).cache(),
                            old(tester)@,
                            slot_pairs(self@.take(k), other@.take(k)),
                        ),
                    ),
                ),
            (forall|p: Pair| #[trigger]
                old(tester)@.contains(p) ==> same_graph(old(tester).cache(), p.0, p.1)) ==> {
                &&& r <==> slots_agree(self@, other@) && forall|i: int|
                    #![trigger self@[i]]
                    0 <= i < self@.len() ==> (self@[i] matches Some((x, _)) ==> same_graph(
                        old(tester).cache(),
                        x,
                        (other@[i]->0).0,
                    ))
                &&& r ==> forall|p: Pair| #[trigger]
                    final(tester)@.contains(p) ==> same_graph(old(tester).cache(), p.0, p.1)
            },
    {
        let ghost before = tester@;
        let r = compare_slots(self, other, &tester.cache, &mut tester.checked);
        proof {
            if forall|p: Pair| #[trigger]
                before.contains(p) ==> same_graph(tester.cache(), p.0, p.1) {
                row_comparisons_decide(tester.cache(), before, self@, other@, r, tester@);
            }
        }
        r
    }
}

impl<const N: usize> EqualityTest for ProbLazyItemArray<N> {
    fn assert_eq(&self, other: &Self, tester: &mut EqualityTester) -> (r: bool)
        ensures
            outcome(
                old(tester).cache(),
                old(tester)@,
                item_pairs(self@, other@),
                self@.len() == other@.len(),
                r,
                final(tester)@,
            ),
            (r, final(tester)@) == ending(
                old(tester).cache(),
                old(tester)@,
                list_steps(self@, other@),
            ),
            self@.len() != other@.len() ==> final(tester)@ == old(tester)@,
            (forall|p: Pair| #[trigger]
                old(tester)@.contains(p) ==> same_graph(old(tester).cache(), p.0, p.1)) ==> {
                &&& r <==> self@.len() == other@.len() && forall|i: int|
                    #![trigger self@[i]]
                    0 <= i < self@.len() ==> same_graph(old(tester).cache(), self@[i], other@[i])
                &&& r ==> forall|p: Pair| #[trigger]
                    final(tester)@.contains(p) ==> same_graph(old(tester).cache(), p.0, p.1)
            },
    {
        let ghost before = tester@;
        let r = compare_lists(self, other, &tester.cache, &mut tester.checked);
        proof {
            if forall|p: Pair| #[trigger]
                before.contains(p) ==> same_graph(tester.cache(), p.0, p.1) {
                list_comparisons_decide(tester.cache(), before, self@, other@, r, tester@);
            }
        }
        r
    }
}

impl EqualityTest for SharedNode {
    fn assert_eq(&self, other: &Self, tester: &mut EqualityTester) -> (r: bool)
        ensures
            outcome(
                old(tester).cache(),
                old(tester)@,
                Set::empty().insert((*self, *other)),
                true,
                r,
                final(tester)@,
            ),
            (r, final(tester)@) == ending(
                old(tester).cache(),
                old(tester)@,
                seq![Step::Items(*self, *other)],
            ),
            final(tester)@.contains((*self, *other)),
            (forall|p: Pair| #[trigger]
                old(tester)@.contains(p) ==> same_graph(old(tester).cache(), p.0, p.1)) ==> {
                &&& r <==> same_graph(old(tester).cache(), *self, *other)
                &&& r ==> forall|p: Pair| #[trigger]
                    final(tester)@.contains(p) ==> same_graph(old(tester).cache(), p.0, p.1)
            },
    {
        let ghost before = tester@;
        let r = compare_items(*self, *other, &tester.cache, &mut tester.checked);
        proof {
            if forall|p: Pair| #[trigger]
                before.contains(p) ==> same_graph(tester.cache(), p.0, p.1) {
                let roots = Set::<Pair>::empty().insert((*self, *other));
                comparisons_decide_same_graph(tester.cache(), before, roots, true, r, tester@);
                assert(roots.contains((*self, *other)));
            }
        }
        r
    }
}

} // verus!
