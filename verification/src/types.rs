//! Identifiers, positions and values that graph nodes are made of.

use crate::float::{numbers_by_pattern, same_pattern_value, Float32};
use std::sync::Arc;
use vstd::prelude::*;
use vstd::std_specs::cmp::PartialEqSpec;

verus! {

/// The number of a vector inside a collection.
#[derive(Clone, Copy, Debug, PartialEq, Eq, Structural)]
pub struct VectorId(pub u32);

/// The form in which a vector's number travels in requests and replies.
#[derive(Clone, Copy, Debug, PartialEq, Eq, Structural)]
pub struct VectorIdValue(pub u32);

impl From<VectorIdValue> for VectorId {
    fn from(value: VectorIdValue) -> (r: VectorId) {
        VectorId(value.0)
    }
}

impl vstd::std_specs::convert::FromSpecImpl<VectorIdValue> for VectorId {
    open spec fn obeys_from_spec() -> bool {
        true
    }

    open spec fn from_spec(value: VectorIdValue) -> VectorId {
        VectorId(value.0)
    }
}

impl From<VectorId> for VectorIdValue {
    fn from(id: VectorId) -> (r: VectorIdValue) {
        VectorIdValue(id.0)
    }
}

impl vstd::std_specs::convert::FromSpecImpl<VectorId> for VectorIdValue {
    open spec fn obeys_from_spec() -> bool {
        true
    }

    open spec fn from_spec(id: VectorId) -> VectorIdValue {
        VectorIdValue(id.0)
    }
}

/// Converting a vector's number changes its form, not the number.
pub proof fn vector_ids_keep_their_number(id: VectorId, value: VectorIdValue)
    ensures
        <VectorId as vstd::std_specs::convert::FromSpec<VectorIdValue>>::obeys_from_spec(),
        <VectorId as vstd::std_specs::convert::FromSpec<VectorIdValue>>::from_spec(value).0
            == value.0,
        <VectorIdValue as vstd::std_specs::convert::FromSpec<VectorId>>::obeys_from_spec(),
        <VectorIdValue as vstd::std_specs::convert::FromSpec<VectorId>>::from_spec(id).0 == id.0,
{
}

/// A version's identity is the number it is made from.
pub proof fn version_hashes_keep_their_number(value: u32)
    ensures
        <VersionHash as vstd::std_specs::convert::FromSpec<u32>>::obeys_from_spec(),
        <VersionHash as vstd::std_specs::convert::FromSpec<u32>>::from_spec(value).0 == value,
{
}

/// A vector's number survives the way into a reply and back, and the way into a store and back.
pub proof fn vector_ids_round_trip(id: VectorId, value: VectorIdValue)
    ensures
        <VectorId as vstd::std_specs::convert::FromSpec<VectorIdValue>>::from_spec(
            <VectorIdValue as vstd::std_specs::convert::FromSpec<VectorId>>::from_spec(id),
        ) == id,
        <VectorIdValue as vstd::std_specs::convert::FromSpec<VectorId>>::from_spec(
            <VectorId as vstd::std_specs::convert::FromSpec<VectorIdValue>>::from_spec(value),
        ) == value,
{
}

/// The layer of the graph that a node lives on.
#[derive(Clone, Copy, Debug, PartialEq, Eq, Structural)]
pub struct HNSWLevel(pub u8);

/// A byte position in a file.
#[derive(Clone, Copy, Debug, PartialEq, Eq, Structural)]
pub struct FileOffset(pub u32);

/// The identity of a version of a collection.
#[derive(Clone, Copy, Debug, PartialEq, Eq, Structural)]
pub struct VersionHash(pub u32);

impl From<u32> for VersionHash {
    fn from(value: u32) -> (r: VersionHash) {
        VersionHash(value)
    }
}

impl vstd::std_specs::convert::FromSpecImpl<u32> for VersionHash {
    open spec fn obeys_from_spec() -> bool {
        true
    }

    open spec fn from_spec(value: u32) -> VersionHash {
        VersionHash(value)
    }
}

/// Where a persisted item is found: a position in the index file of a version.
#[derive(Clone, Copy, Debug, PartialEq, Eq, Structural)]
pub enum FileIndex {
    Valid { offset: FileOffset, version_number: u16, version_id: VersionHash },
}

/// A similarity by cosine.
#[derive(Clone, Copy, Debug)]
pub struct CosineSimilarity(pub Float32);

/// How far two vectors are apart under a metric.
#[derive(Clone, Copy, Debug)]
pub enum MetricResult {
    CosineSimilarity(CosineSimilarity),
}

impl MetricResult {
    /// The same metric and, as numbers, the same distance.
    pub open spec fn same_distance(self, other: MetricResult) -> bool {
        match (self, other) {
            (
                MetricResult::CosineSimilarity(a),
                MetricResult::CosineSimilarity(b),
            ) => a.0.same_number(b.0),
        }
    }
}

impl PartialEq for MetricResult {
    fn eq(&self, other: &MetricResult) -> (r: bool) {
        match (*self, *other) {
            (MetricResult::CosineSimilarity(a), MetricResult::CosineSimilarity(b)) => a.0 == b.0,
        }
    }
}

impl vstd::std_specs::cmp::PartialEqSpecImpl for MetricResult {
    open spec fn obeys_eq_spec() -> bool {
        true
    }

    open spec fn eq_spec(&self, other: &MetricResult) -> bool {
        self.same_distance(*other)
    }
}

/// A quantized vector and its magnitude.
#[derive(Clone, Debug)]
pub enum Storage {
    UnsignedByte { mag: u32, quant_vec: Vec<u8> },
}

impl Storage {
    /// The same representation, magnitude and components.
    pub open spec fn same_storage(self, other: Storage) -> bool {
        match (self, other) {
            (
                Storage::UnsignedByte { mag: m, quant_vec: v },
                Storage::UnsignedByte { mag: n, quant_vec: w },
            ) => m == n && v@ == w@,
        }
    }

    /// Whether the two hold the same quantized vector.
    pub fn equals(&self, other: &Storage) -> (r: bool)
        ensures
            r == self.same_storage(*other),
            match (*self, *other) {
                (
                    Storage::UnsignedByte { mag: m, quant_vec: v },
                    Storage::UnsignedByte { mag: n, quant_vec: w },
                ) => r <==> m == n && v@.len() == w@.len() && forall|i: int|
                    0 <= i < v@.len() ==> #[trigger] v@[i] == w@[i],
            },
    {
        match (self, other) {
            (
                Storage::UnsignedByte { mag: m, quant_vec: v },
                Storage::UnsignedByte { mag: n, quant_vec: w },
            ) => {
                let same = *m == *n && same_bytes(v, w);
                assert(v@.len() == w@.len() && (forall|i: int|
                    0 <= i < v@.len() ==> #[trigger] v@[i] == w@[i]) ==> v@ =~= w@);
                same
            },
        }
    }
}

/// Whether two byte vectors hold the same bytes in the same order.
fn same_bytes(v: &Vec<u8>, w: &Vec<u8>) -> (r: bool)
    ensures
        r == (v@ == w@),
{
    if v.len() != w.len() {
        return false;
    }
    let mut i: usize = 0;
    while i < v.len()
        invariant
            i <= v@.len(),
            v@.len() == w@.len(),
            forall|j: int| 0 <= j < i ==> v@[j] == w@[j],
        decreases v@.len() - i,
    {
        if v[i] != w[i] {
            return false;
        }
        i = i + 1;
    }
    assert(v@ =~= w@);
    true
}

/// The property of a node: the vector it stands for, and where it is kept in the property file.
#[derive(Clone, Debug)]
pub struct NodeProp {
    pub id: VectorId,
    pub value: Arc<Storage>,
    pub location: FileOffset,
}

impl NodeProp {
    /// The same vector at the same place.
    pub open spec fn same_prop(self, other: NodeProp) -> bool {
        &&& self.id == other.id
        &&& self.value.same_storage(*other.value)
        &&& self.location == other.location
    }

    /// Whether the two describe the same vector at the same place.
    pub fn equals(&self, other: &NodeProp) -> (r: bool)
        ensures
            r == self.same_prop(*other),
            r ==> self.id.0 == other.id.0 && self.location.0 == other.location.0,
    {
        self.id == other.id && self.value.equals(&other.value) && self.location == other.location
    }
}

/// Distances are the same exactly when they are the same number, and `==` says so.
pub proof fn distances_by_number(d: MetricResult, e: MetricResult)
    ensures
        match (d, e) {
            (MetricResult::CosineSimilarity(x), MetricResult::CosineSimilarity(y)) => {
                &&& d.same_distance(e) <==> same_pattern_value(x.0.bits, y.0.bits)
                &&& d.eq_spec(&e) <==> same_pattern_value(x.0.bits, y.0.bits)
            },
        },
        MetricResult::obeys_eq_spec(),
{
    match (d, e) {
        (MetricResult::CosineSimilarity(x), MetricResult::CosineSimilarity(y)) => {
            numbers_by_pattern(x.0, y.0);
        },
    }
}

/// Quantized vectors are the same exactly when their magnitudes are equal, they have as many
/// components, and the components are equal one by one.
pub proof fn storages_by_component(a: &Storage, b: &Storage)
    ensures
        match (*a, *b) {
            (
                Storage::UnsignedByte { mag: m, quant_vec: v },
                Storage::UnsignedByte { mag: n, quant_vec: w },
            ) => a.same_storage(*b) <==> m == n && v@.len() == w@.len() && forall|i: int|
                0 <= i < v@.len() ==> #[trigger] v@[i] == w@[i],
        },
{
    match (*a, *b) {
        (
            Storage::UnsignedByte { mag: m, quant_vec: v },
            Storage::UnsignedByte { mag: n, quant_vec: w },
        ) => {
            if v@.len() == w@.len() && forall|i: int|
                0 <= i < v@.len() ==> #[trigger] v@[i] == w@[i] {
                assert(v@ =~= w@);
            }
        },
    }
}

/// Properties are the same exactly when vector number, place, magnitude and components are.
pub proof fn props_by_field(a: &NodeProp, b: &NodeProp)
    ensures
        match (*a.value, *b.value) {
            (
                Storage::UnsignedByte { mag: m, quant_vec: v },
                Storage::UnsignedByte { mag: n, quant_vec: w },
            ) => a.same_prop(*b) <==> {
                &&& a.id.0 == b.id.0
                &&& a.location.0 == b.location.0
                &&& m == n
                &&& v@.len() == w@.len()
                &&& forall|i: int| 0 <= i < v@.len() ==> #[trigger] v@[i] == w@[i]
            },
        },
{
    storages_by_component(&*a.value, &*b.value);
}

} // verus!
