//! Graph nodes and the links between them.

use crate::types::{FileOffset, HNSWLevel, MetricResult, NodeProp, Storage, VectorId};
use std::sync::Arc;
use vstd::prelude::*;

verus! {

/// How many later versions of itself a node can refer to.
pub const MAX_VERSIONS: usize = 8;

/// How many neighbor slots a node made by [`create_prob_node`] has.
pub const NEIGHBOR_SLOTS: usize = 8;

/// A reference to an item of a [`ProbCache`](crate::cache::ProbCache).
///
/// Two references are the same exactly when they point at the same item, so links may form
/// cycles and items may be shared.
#[derive(Clone, Copy, Debug, PartialEq, Eq, Structural)]
pub struct SharedNode {
    pub ptr: usize,
}

impl SharedNode {
    /// The position of the item in its cache.
    pub fn as_ptr(&self) -> (r: usize)
        ensures
            r == self.ptr,
    {
        self.ptr
    }
}

/// One neighbor slot: empty, or a neighbor and its distance.
pub type NeighborSlot = Option<(SharedNode, MetricResult)>;

/// A list of at most `N` references to items.
#[derive(Clone, Debug)]
pub struct ProbLazyItemArray<const N: usize> {
    items: Vec<SharedNode>,
}

impl<const N: usize> View for ProbLazyItemArray<N> {
    type V = Seq<SharedNode>;

    closed spec fn view(&self) -> Seq<SharedNode> {
        self.items@
    }
}

impl<const N: usize> ProbLazyItemArray<N> {
    /// The list is within its capacity.
    pub open spec fn inv(&self) -> bool {
        self@.len() <= N
    }

    /// An empty list.
    pub fn new() -> (r: Self)
        ensures
            r@ == Seq::<SharedNode>::empty(),
            r.inv(),
    {
        ProbLazyItemArray { items: Vec::new() }
    }

    /// The number of references in the list.
    pub fn len(&self) -> (r: usize)
        ensures
            r == self@.len(),
    {
        self.items.len()
    }

    /// The reference at a position, if the list is that long.
    pub fn get(&self, index: usize) -> (r: Option<SharedNode>)
        ensures
            r == (if index < self@.len() {
                Some(self@[index as int])
            } else {
                None
            }),
    {
        if index < self.items.len() {
            Some(self.items[index])
        } else {
            None
        }
    }

    /// Appends a reference, or hands it back when the list is full.
    pub fn push(&mut self, item: SharedNode) -> (r: Result<(), SharedNode>)
        ensures
            match r {
                Ok(()) => old(self)@.len() < N && final(self)@ == old(self)@.push(item),
                Err(back) => old(self)@.len() >= N && final(self)@ == old(self)@ && back == item,
            },
            old(self).inv() ==> final(self).inv(),
    {
        if self.items.len() < N {
            self.items.push(item);
            Ok(())
        } else {
            Err(item)
        }
    }
}

/// A node of the graph.
#[derive(Clone, Debug)]
pub struct ProbNode {
    pub hnsw_level: HNSWLevel,
    pub prop: Arc<NodeProp>,
    pub versions: ProbLazyItemArray<MAX_VERSIONS>,
    pub parent: Option<SharedNode>,
    pub child: Option<SharedNode>,
    pub neighbors: Vec<NeighborSlot>,
}

impl ProbNode {
    /// A node without versions and with `neighbors_count` empty neighbor slots.
    pub fn new(
        hnsw_level: HNSWLevel,
        prop: Arc<NodeProp>,
        parent: Option<SharedNode>,
        child: Option<SharedNode>,
        neighbors_count: usize,
    ) -> (r: ProbNode)
        ensures
            r.hnsw_level == hnsw_level,
            r.prop == prop,
            r.versions@ == Seq::<SharedNode>::empty(),
            r.versions.inv(),
            r.parent == parent,
            r.child == child,
            r.neighbors@ == Seq::<NeighborSlot>::new(neighbors_count as nat, |i: int| None),
    {
        let mut neighbors: Vec<NeighborSlot> = Vec::new();
        let mut i: usize = 0;
        while i < neighbors_count
            invariant
                i <= neighbors_count,
                neighbors@ == Seq::<NeighborSlot>::new(i as nat, |j: int| None),
            decreases neighbors_count - i,
        {
            neighbors.push(None);
            i = i + 1;
        }
        ProbNode {
            hnsw_level,
            prop,
            versions: ProbLazyItemArray::new(),
            parent,
            child,
            neighbors,
        }
    }

    /// The parent, if the node has one.
    pub fn get_parent(&self) -> (r: Option<SharedNode>)
        ensures
            r == self.parent,
    {
        self.parent
    }

    /// The child, if the node has one.
    pub fn get_child(&self) -> (r: Option<SharedNode>)
        ensures
            r == self.child,
    {
        self.child
    }

    /// The neighbor slots, filled or not.
    pub fn get_neighbors_raw(&self) -> (r: &Vec<NeighborSlot>)
        ensures
            *r == self.neighbors,
    {
        &self.neighbors
    }
}

/// The version list of a node is within its capacity exactly when it names at most eight versions.
pub proof fn nodes_name_eight_versions(node: ProbNode)
    ensures
        node.versions.inv() <==> node.versions@.len() <= 8,
{
}

/// The vector that every node made by [`create_prob_node`] stands for.
pub open spec fn is_sample_storage(value: Storage) -> bool {
    match value {
        Storage::UnsignedByte { mag, quant_vec } => mag == 10 && quant_vec@ == seq![1u8, 2u8, 3u8],
    }
}

/// The value to write to the property file before a node is made of it.
pub fn sample_storage() -> (r: Storage)
    ensures
        is_sample_storage(r),
        r matches Storage::UnsignedByte { mag, quant_vec } && mag == 10 && quant_vec@ == seq![
            1u8,
            2u8,
            3u8,
        ],
{
    let quant_vec: Vec<u8> = vec![1, 2, 3];
    assert(quant_vec@ =~= seq![1u8, 2u8, 3u8]);
    Storage::UnsignedByte { mag: 10, quant_vec }
}

/// An unlinked node for vector `id`, whose property was written at `location`.
pub fn create_prob_node(id: u32, location: FileOffset) -> (r: ProbNode)
    ensures
        r.hnsw_level == HNSWLevel(2),
        r.prop.id == VectorId(id),
        is_sample_storage(*r.prop.value),
        *r.prop.value matches Storage::UnsignedByte { mag, quant_vec } && mag == 10 && quant_vec@
            == seq![1u8, 2u8, 3u8],
        r.prop.location == location,
        r.versions@ == Seq::<SharedNode>::empty(),
        r.versions.inv(),
        r.parent is None,
        r.child is None,
        r.neighbors@ == Seq::<NeighborSlot>::new(NEIGHBOR_SLOTS as nat, |i: int| None),
        r.neighbors@.len() == 8,
        forall|i: int| 0 <= i < 8 ==> (#[trigger] r.neighbors@[i]) is None,
{
    let value = Arc::new(sample_storage());
    let prop = Arc::new(NodeProp { id: VectorId(id), value, location });
    ProbNode::new(HNSWLevel(2), prop, None, None, NEIGHBOR_SLOTS)
}

} // verus!
