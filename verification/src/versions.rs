//! Validation of the version lists of nodes.
//!
//! A node refers to later versions of itself at growing distances: the version at position `i`
//! of its list is `4^i` versions later.

use crate::cache::{LoadError, ProbCache};
use crate::equality_laws::{
    pair_by_link, same_graph, same_graph_symmetric, same_graph_unfolds, target, Link,
};
use crate::node::{ProbNode, SharedNode};
use crate::pairs::{items_agree, successors};
use std::sync::Arc;
use vstd::arithmetic::power::pow;
use vstd::prelude::*;

verus! {

/// The item that a reference stands for: the item itself when it is in memory, else the one that
/// was read from its place in the index files.
pub open spec fn resolved(cache: ProbCache, node: SharedNode) -> Option<SharedNode> {
    match cache.item(node) {
        None => None,
        Some(item) => match (item.data, item.file_index) {
            (Some(_), _) => Some(node),
            (None, None) => None,
            (None, Some(file_index)) => cache.stored(file_index),
        },
    }
}

/// The version at each position `i` of the item's list is `4^i` later than version
/// `version_number`, and the same holds of its own list in turn.
pub open spec fn versions_spaced(cache: ProbCache, node: SharedNode, version_number: u16) -> bool
    decreases 0xffff - version_number,
{
    match cache.node(node) {
        Err(_) => false,
        Ok(data) => forall|i: int|
            #![trigger data.versions@[i]]
            0 <= i < data.versions@.len() ==> {
                &&& resolved(cache, data.versions@[i]) matches Some(version)
                &&& cache.item(version) matches Some(item)
                &&& version_number < item.version_number
                &&& item.version_number - version_number == pow(4, i as nat)
                &&& versions_spaced(cache, version, item.version_number)
            },
    }
}

/// Looks an item up at its place in the index files unless it is in memory.
fn resolve(cache: &ProbCache, node: SharedNode) -> (r: Option<SharedNode>)
    ensures
        r == resolved(*cache, node),
{
    let item = match cache.get(node) {
        Some(item) => item,
        None => return None,
    };
    if item.data.is_some() {
        return Some(node);
    }
    match item.file_index {
        None => None,
        Some(file_index) => match cache.load_item(file_index) {
            Ok(loaded) => Some(loaded),
            Err(_) => None,
        },
    }
}

/// Whether the item, taken as version `version_number`, has its later versions at the distances
/// `1`, `4`, `16` and so on, and each of those has too.
pub fn validate_lazy_item_versions(
    cache: &Arc<ProbCache>,
    lazy_item: SharedNode,
    version_number: u16,
) -> (r: bool)
    ensures
        r == versions_spaced(**cache, lazy_item, version_number),
    decreases 0xffff - version_number,
{
    let data = match lazy_item.try_get_data(cache) {
        Ok(data) => data,
        Err(_) => return false,
    };
    let versions = &data.versions;
    let mut i: usize = 0;
    let mut gap: u32 = 1;
    proof {
        vstd::arithmetic::power::lemma_pow0(4);
    }
    while i < versions.len()
        invariant
            cache.node(lazy_item) == Ok::<ProbNode, LoadError>(*data),
            *versions == data.versions,
            i <= versions@.len(),
            gap == pow(4, i as nat),
            1 <= gap <= 0x4_0000,
            forall|j: int|
                #![trigger data.versions@[j]]
                0 <= j < i ==> {
                    &&& resolved(**cache, data.versions@[j]) matches Some(version)
                    &&& cache.item(version) matches Some(item)
                    &&& version_number < item.version_number
                    &&& item.version_number - version_number == pow(4, j as nat)
                    &&& versions_spaced(**cache, version, item.version_number)
                },
        decreases versions@.len() - i,
    {
        let version = match versions.get(i) {
            Some(version) => version,
            None => return false,
        };
        let version = match resolve(cache, version) {
            Some(version) => version,
            None => return false,
        };
        let current_version_number: u16 = match version.get_current_version_number(cache) {
            Some(number) => number,
            None => return false,
        };
        if current_version_number as u32 != version_number as u32 + gap {
            return false;
        }
        if !validate_lazy_item_versions(cache, version, current_version_number) {
            return false;
        }
        proof {
            vstd::arithmetic::power::lemma_pow_adds(4, i as nat, 1);
            vstd::arithmetic::power::lemma_pow1(4);
        }
        i = i + 1;
        gap = gap * 4;
    }
    true
}

/// The item that is found by taking the version at each of the `positions` in turn.
pub open spec fn nth_version(
    cache: ProbCache,
    node: SharedNode,
    positions: Seq<nat>,
) -> Option<SharedNode>
    decreases positions.len(),
{
    if positions.len() == 0 {
        Some(node)
    } else {
        match nth_version(cache, node, positions.drop_last()) {
            None => None,
            Some(last) => match cache.node(last) {
                Err(_) => None,
                Ok(data) => if positions.last() < data.versions@.len() {
                    resolved(cache, data.versions@[positions.last() as int])
                } else {
                    None
                },
            },
        }
    }
}

/// How many versions later the `positions` lead.
pub open spec fn total_gap(positions: Seq<nat>) -> int
    decreases positions.len(),
{
    if positions.len() == 0 {
        0
    } else {
        total_gap(positions.drop_last()) + pow(4, positions.last())
    }
}

/// In a valid item, following version references leads exactly as many versions on as the
/// positions say, to an item that is valid again.
pub proof fn version_numbers_add_up(
    cache: ProbCache,
    node: SharedNode,
    version_number: u16,
    positions: Seq<nat>,
)
    requires
        versions_spaced(cache, node, version_number),
        positions.len() > 0,
        nth_version(cache, node, positions) is Some,
    ensures
        cache.item(nth_version(cache, node, positions)->0) matches Some(item)
            && item.version_number == version_number + total_gap(positions)
            && versions_spaced(cache, nth_version(cache, node, positions)->0, item.version_number),
    decreases positions.len(),
{
    let shorter = positions.drop_last();
    if shorter.len() == 0 {
        assert(total_gap(shorter) == 0);
        assert(nth_version(cache, node, shorter) == Some(node));
    } else {
        version_numbers_add_up(cache, node, version_number, shorter);
    }
    let last = nth_version(cache, node, shorter)->0;
    let data = cache.node(last)->Ok_0;
    let version = data.versions@[positions.last() as int];
    assert(resolved(cache, version) is Some);
}

/// Following version references leads to ever later versions, so never back to an item of the
/// version that one started from.
pub proof fn version_numbers_increase(
    cache: ProbCache,
    node: SharedNode,
    version_number: u16,
    positions: Seq<nat>,
)
    requires
        versions_spaced(cache, node, version_number),
        positions.len() > 0,
        nth_version(cache, node, positions) is Some,
    ensures
        cache.item(nth_version(cache, node, positions)->0) matches Some(item)
            && item.version_number > version_number,
{
    version_numbers_add_up(cache, node, version_number, positions);
    total_gap_is_positive(positions);
}

proof fn total_gap_is_positive(positions: Seq<nat>)
    requires
        positions.len() > 0,
    ensures
        total_gap(positions) > 0,
    decreases positions.len(),
{
    vstd::arithmetic::power::lemma_pow_positive(4, positions.last());
    if positions.len() > 1 {
        total_gap_is_positive(positions.drop_last());
    } else {
        assert(total_gap(positions.drop_last()) == 0);
    }
}

/// A valid item has at most eight later versions in its list: the next would be `4^8` versions
/// on, past the last version number.
pub proof fn valid_lists_are_short(cache: ProbCache, node: SharedNode, version_number: u16)
    requires
        versions_spaced(cache, node, version_number),
    ensures
        cache.node(node) matches Ok(data) && data.versions@.len() <= 8,
{
    let data = cache.node(node)->Ok_0;
    if data.versions@.len() > 8 {
        let version = data.versions@[8];
        assert(resolved(cache, version) is Some);
        assert(pow(4, 8) == 65536) by {
            reveal_with_fuel(pow, 9);
        }
    }
}

/// Of two items with the same graph, one is valid exactly when the other is.
pub proof fn same_graph_same_validity(
    cache: ProbCache,
    a: SharedNode,
    b: SharedNode,
    version_number: u16,
)
    requires
        cache.inv(),
        same_graph(cache, a, b),
    ensures
        versions_spaced(cache, a, version_number) == versions_spaced(cache, b, version_number),
{
    if versions_spaced(cache, a, version_number) {
        validity_carries_over(cache, a, b, version_number);
    }
    if versions_spaced(cache, b, version_number) {
        same_graph_symmetric(cache, a, b);
        validity_carries_over(cache, b, a, version_number);
    }
}

proof fn validity_carries_over(
    cache: ProbCache,
    a: SharedNode,
    b: SharedNode,
    version_number: u16,
)
    requires
        cache.inv(),
        same_graph(cache, a, b),
        versions_spaced(cache, a, version_number),
    ensures
        versions_spaced(cache, b, version_number),
    decreases 0xffff - version_number,
{
    same_graph_unfolds(cache, (a, b));
    let m = cache.node(a)->Ok_0;
    let n = cache.node(b)->Ok_0;
    assert forall|i: int| #![trigger n.versions@[i]] 0 <= i < n.versions@.len() implies {
        &&& resolved(cache, n.versions@[i]) matches Some(version)
        &&& cache.item(version) matches Some(item)
        &&& version_number < item.version_number
        &&& item.version_number - version_number == pow(4, i as nat)
        &&& versions_spaced(cache, version, item.version_number)
    } by {
        let x = m.versions@[i];
        let y = n.versions@[i];
        pair_by_link(m, n, (x, y));
        assert(target(m, Link::Version(i as nat)) == Some(x));
        assert(successors(cache, (a, b)).contains((x, y)));
        same_graph_unfolds(cache, (x, y));
        resolved_keeps_version_and_node(cache, x);
        resolved_keeps_version_and_node(cache, y);
        let u = resolved(cache, x)->0;
        let v = resolved(cache, y)->0;
        assert(successors(cache, (u, v)) == successors(cache, (x, y)));
        same_graph_unfolds(cache, (u, v));
        validity_carries_over(cache, u, v, cache.item(u)->0.version_number);
    }
}

/// What a reference stands for has the version and the node of the item it points at.
pub proof fn resolved_keeps_version_and_node(cache: ProbCache, node: SharedNode)
    requires
        cache.inv(),
        cache.node(node) is Ok,
    ensures
        resolved(cache, node) matches Some(version) && {
            &&& cache.item(version) matches Some(item)
            &&& item.version_number == cache.item(node)->0.version_number
            &&& item.version_id == cache.item(node)->0.version_id
            &&& cache.node(version) == cache.node(node)
        },
{
    let item = cache.item(node)->0;
    assert(cache.items()[node.ptr as int].pending_inv());
    if item.data is None {
        assert(cache.record_inv(item.file_index->0));
    }
}

/// Loading an item from its place does not change what it compares equal to.
pub proof fn loading_keeps_the_graph(cache: ProbCache, node: SharedNode, other: SharedNode)
    requires
        cache.inv(),
        cache.node(node) is Ok,
    ensures
        resolved(cache, node) matches Some(loaded) && same_graph(cache, loaded, other)
            == same_graph(cache, node, other),
{
    resolved_keeps_version_and_node(cache, node);
    let loaded = resolved(cache, node)->0;
    assert(successors(cache, (loaded, other)) == successors(cache, (node, other)));
    assert(items_agree(cache, (loaded, other)) == items_agree(cache, (node, other)));
    same_graph_unfolds(cache, (node, other));
    same_graph_unfolds(cache, (loaded, other));
}

/// A reference to an item in memory stands for that item; one to an item that is known only by
/// its place stands for what was read from there; any other stands for nothing.
pub proof fn references_resolve(cache: ProbCache, node: SharedNode)
    ensures
        node.ptr >= cache.items().len() ==> resolved(cache, node) is None,
        node.ptr < cache.items().len() && cache.items()[node.ptr as int].data is Some ==> resolved(
            cache,
            node,
        ) == Some(node),
        node.ptr < cache.items().len() && cache.items()[node.ptr as int].data is None ==> (
        match cache.items()[node.ptr as int].file_index {
            None => resolved(cache, node) is None,
            Some(file_index) => resolved(cache, node) == cache.stored(file_index),
        }),
{
}

/// An item is valid if each reference in its list, however long the list, stands for an item that
/// is `4^i` versions later and valid in turn.
pub proof fn well_spaced_items_are_valid(
    cache: ProbCache,
    node: SharedNode,
    version_number: u16,
    data: ProbNode,
)
    requires
        cache.node(node) == Ok::<ProbNode, LoadError>(data),
        forall|i: int|
            #![trigger data.versions@[i]]
            0 <= i < data.versions@.len() ==> {
                &&& resolved(cache, data.versions@[i]) matches Some(version)
                &&& version.ptr < cache.items().len()
                &&& cache.items()[version.ptr as int].version_number == version_number + pow(
                    4,
                    i as nat,
                )
                &&& versions_spaced(
                    cache,
                    version,
                    cache.items()[version.ptr as int].version_number,
                )
            },
    ensures
        versions_spaced(cache, node, version_number),
{
    assert forall|i: int| #![trigger data.versions@[i]] 0 <= i < data.versions@.len() implies {
        &&& resolved(cache, data.versions@[i]) matches Some(version)
        &&& cache.item(version) matches Some(item)
        &&& version_number < item.version_number
        &&& item.version_number - version_number == pow(4, i as nat)
        &&& versions_spaced(cache, version, item.version_number)
    } by {
        vstd::arithmetic::power::lemma_pow_positive(4, i as nat);
    }
}

/// A valid item shows a node, and each reference in its list stands for an item that is `4^i`
/// versions later and valid in turn.
pub proof fn valid_items_are_well_spaced(
    cache: ProbCache,
    node: SharedNode,
    version_number: u16,
)
    requires
        versions_spaced(cache, node, version_number),
    ensures
        cache.node(node) is Ok,
        forall|i: int|
            #![trigger cache.node(node)->Ok_0.versions@[i]]
            0 <= i < cache.node(node)->Ok_0.versions@.len() ==> {
                &&& resolved(cache, cache.node(node)->Ok_0.versions@[i]) matches Some(version)
                &&& version.ptr < cache.items().len()
                &&& cache.items()[version.ptr as int].version_number == version_number + pow(
                    4,
                    i as nat,
                )
                &&& versions_spaced(
                    cache,
                    version,
                    cache.items()[version.ptr as int].version_number,
                )
            },
{
    let data = cache.node(node)->Ok_0;
    assert forall|i: int| #![trigger data.versions@[i]] 0 <= i < data.versions@.len() implies {
        &&& resolved(cache, data.versions@[i]) matches Some(version)
        &&& version.ptr < cache.items().len()
        &&& cache.items()[version.ptr as int].version_number == version_number + pow(4, i as nat)
        &&& versions_spaced(cache, version, cache.items()[version.ptr as int].version_number)
    } by {}
}

/// An item without later versions is valid as any version.
pub proof fn items_without_versions_are_valid(
    cache: ProbCache,
    node: SharedNode,
    version_number: u16,
    data: ProbNode,
)
    requires
        cache.node(node) == Ok::<ProbNode, LoadError>(data),
        data.versions@.len() == 0,
    ensures
        versions_spaced(cache, node, version_number),
{
}

} // verus!
