//! The items of a graph, resident or still to be loaded from an index file.

use crate::node::{ProbNode, SharedNode};
use crate::types::{FileIndex, FileOffset, VersionHash};
use vstd::prelude::*;

verus! {

/// A versioned item: a node that is in memory, or one that is known only by its place in a file.
#[derive(Clone, Debug)]
pub struct ProbLazyItem {
    pub data: Option<ProbNode>,
    pub file_index: Option<FileIndex>,
    pub version_id: VersionHash,
    pub version_number: u16,
}

impl ProbLazyItem {
    /// An item that is not in memory takes its version from its place in a file.
    pub open spec fn pending_inv(self) -> bool {
        self.data is None ==> {
            &&& self.file_index matches Some(file_index)
            &&& self.version_number == number_at(file_index)
            &&& self.version_id == version_at(file_index)
        }
    }
}

/// Why an item has no node to show.
#[derive(Clone, Copy, Debug, PartialEq, Eq, Structural)]
pub enum LoadError {
    /// The reference does not point at an item of this cache.
    UnknownItem,
    /// The item is not in memory and has no place in a file.
    NoFileIndex,
    /// Nothing has been read from the item's place in the file.
    NotStored,
}

/// The items that references point at, and the items that were read from each place in the
/// index files.
#[derive(Clone, Debug)]
pub struct ProbCache {
    items: Vec<ProbLazyItem>,
    records: Vec<(FileIndex, SharedNode)>,
}

/// The item most recently read from a place.
spec fn last_record(records: Seq<(FileIndex, SharedNode)>, file_index: FileIndex) -> Option<
    SharedNode,
>
    decreases records.len(),
{
    if records.len() == 0 {
        None
    } else if records.last().0 == file_index {
        Some(records.last().1)
    } else {
        last_record(records.drop_last(), file_index)
    }
}

/// The version number that a place in a file belongs to.
pub open spec fn number_at(file_index: FileIndex) -> u16 {
    match file_index {
        FileIndex::Valid { version_number, .. } => version_number,
    }
}

/// The version that a place in a file belongs to.
pub open spec fn version_at(file_index: FileIndex) -> VersionHash {
    match file_index {
        FileIndex::Valid { version_id, .. } => version_id,
    }
}

impl ProbCache {
    /// All items, each at the position that references to it name.
    pub closed spec fn items(&self) -> Seq<ProbLazyItem> {
        self.items@
    }

    /// The item that was read from a place in the index files.
    pub closed spec fn stored(&self, file_index: FileIndex) -> Option<SharedNode> {
        last_record(self.records@, file_index)
    }

    /// The item that a reference points at.
    pub open spec fn item(&self, node: SharedNode) -> Option<ProbLazyItem> {
        if node.ptr < self.items().len() {
            Some(self.items()[node.ptr as int])
        } else {
            None
        }
    }

    /// The node of an item: the one in memory, else the one read from the item's place.
    pub open spec fn node(&self, node: SharedNode) -> Result<ProbNode, LoadError> {
        match self.item(node) {
            None => Err(LoadError::UnknownItem),
            Some(item) => match (item.data, item.file_index) {
                (Some(data), _) => Ok(data),
                (None, None) => Err(LoadError::NoFileIndex),
                (None, Some(file_index)) => match self.stored(file_index) {
                    None => Err(LoadError::NotStored),
                    Some(loaded) => match self.item(loaded) {
                        Some(ProbLazyItem { data: Some(data), .. }) => Ok(data),
                        _ => Err(LoadError::NotStored),
                    },
                },
            },
        }
    }

    /// What was read from a place is in memory and has the version of that place.
    pub open spec fn record_inv(&self, file_index: FileIndex) -> bool {
        self.stored(file_index) matches Some(node) ==> {
            &&& self.item(node) matches Some(item)
            &&& item.data is Some
            &&& item.version_number == number_at(file_index)
            &&& item.version_id == version_at(file_index)
        }
    }

    /// An item that is not in memory has the version of its place in a file, and so has every
    /// item that was read from a place.
    pub open spec fn inv(&self) -> bool {
        &&& forall|i: int|
            0 <= i < self.items().len() ==> (#[trigger] self.items()[i]).pending_inv()
        &&& forall|file_index: FileIndex| #[trigger] self.record_inv(file_index)
    }

    /// A cache without items.
    pub fn new() -> (r: ProbCache)
        ensures
            r.inv(),
            r.items() == Seq::<ProbLazyItem>::empty(),
            forall|file_index: FileIndex| (#[trigger] r.stored(file_index)) is None,
    {
        ProbCache { items: Vec::new(), records: Vec::new() }
    }

    /// Adds an item whose node is in memory and that has no place in a file yet.
    pub fn insert(&mut self, node: ProbNode, version_id: VersionHash, version_number: u16) -> (r:
        SharedNode)
        ensures
            old(self).inv() ==> final(self).inv(),
            r.ptr == old(self).items().len(),
            final(self).items() == old(self).items().push(
                ProbLazyItem { data: Some(node), file_index: None, version_id, version_number },
            ),
            forall|file_index: FileIndex| #[trigger]
                final(self).stored(file_index) == old(self).stored(file_index),
    {
        let ptr: usize = self.items.len();
        self.items.push(
            ProbLazyItem { data: Some(node), file_index: None, version_id, version_number },
        );
        proof {
            if old(self).inv() {
                assert forall|file_index: FileIndex| #[trigger] self.record_inv(file_index) by {
                    assert(old(self).record_inv(file_index));
                    assert(self.stored(file_index) == old(self).stored(file_index));
                }
            }
        }
        SharedNode { ptr }
    }

    /// Adds an item that is known only by its place in a file.
    pub fn insert_pending(&mut self, file_index: FileIndex) -> (r: SharedNode)
        ensures
            old(self).inv() ==> final(self).inv(),
            r.ptr == old(self).items().len(),
            final(self).items() == old(self).items().push(
                ProbLazyItem {
                    data: None,
                    file_index: Some(file_index),
                    version_id: version_at(file_index),
                    version_number: number_at(file_index),
                },
            ),
            match file_index {
                FileIndex::Valid { version_number, version_id, .. } => {
                    &&& final(self).items().last().version_number == version_number
                    &&& final(self).items().last().version_id == version_id
                    &&& final(self).items().last().file_index == Some(file_index)
                },
            },
            forall|other: FileIndex| #[trigger]
                final(self).stored(other) == old(self).stored(other),
    {
        let FileIndex::Valid { version_number, version_id, .. } = file_index;
        let ptr: usize = self.items.len();
        self.items.push(
            ProbLazyItem { data: None, file_index: Some(file_index), version_id, version_number },
        );
        proof {
            if old(self).inv() {
                assert forall|place: FileIndex| #[trigger] self.record_inv(place) by {
                    assert(old(self).record_inv(place));
                    assert(self.stored(place) == old(self).stored(place));
                }
            }
        }
        SharedNode { ptr }
    }

    /// Adds an item with the node that was read from a place, which from now on is what
    /// [`load_item`](ProbCache::load_item) finds there.
    pub fn store(&mut self, file_index: FileIndex, node: ProbNode) -> (r: SharedNode)
        ensures
            old(self).inv() ==> final(self).inv(),
            r.ptr == old(self).items().len(),
            final(self).items() == old(self).items().push(
                ProbLazyItem {
                    data: Some(node),
                    file_index: Some(file_index),
                    version_id: version_at(file_index),
                    version_number: number_at(file_index),
                },
            ),
            match file_index {
                FileIndex::Valid { version_number, version_id, .. } => {
                    &&& final(self).items().last().version_number == version_number
                    &&& final(self).items().last().version_id == version_id
                    &&& final(self).items().last().file_index == Some(file_index)
                },
            },
            forall|other: FileIndex| #[trigger]
                final(self).stored(other) == (if other == file_index {
                    Some(r)
                } else {
                    old(self).stored(other)
                }),
            final(self).node(r) == Ok::<ProbNode, LoadError>(node),
    {
        let FileIndex::Valid { version_number, version_id, .. } = file_index;
        let ptr: usize = self.items.len();
        self.items.push(
            ProbLazyItem {
                data: Some(node),
                file_index: Some(file_index),
                version_id,
                version_number,
            },
        );
        self.records.push((file_index, SharedNode { ptr }));
        proof {
            assert(self.records@.drop_last() =~= old(self).records@);
            if old(self).inv() {
                assert forall|place: FileIndex| #[trigger] self.record_inv(place) by {
                    assert(old(self).record_inv(place));
                }
            }
        }
        SharedNode { ptr }
    }

    /// Replaces the node of an item that is in memory; reports whether there was one.
    pub fn set_node(&mut self, item: SharedNode, node: ProbNode) -> (r: bool)
        ensures
            old(self).inv() ==> final(self).inv(),
            r == (old(self).item(item) matches Some(it) && it.data is Some),
            final(self).items() == (if r {
                old(self).items().update(
                    item.ptr as int,
                    ProbLazyItem { data: Some(node), ..old(self).items()[item.ptr as int] },
                )
            } else {
                old(self).items()
            }),
            forall|file_index: FileIndex| #[trigger]
                final(self).stored(file_index) == old(self).stored(file_index),
    {
        if item.ptr >= self.items.len() || self.items[item.ptr].data.is_none() {
            return false;
        }
        let changed = ProbLazyItem {
            data: Some(node),
            file_index: self.items[item.ptr].file_index,
            version_id: self.items[item.ptr].version_id,
            version_number: self.items[item.ptr].version_number,
        };
        self.items.set(item.ptr, changed);
        proof {
            if old(self).inv() {
                assert forall|file_index: FileIndex| #[trigger] self.record_inv(file_index) by {
                    assert(old(self).record_inv(file_index));
                    assert(self.stored(file_index) == old(self).stored(file_index));
                }
            }
        }
        true
    }

    /// The item that a reference points at.
    pub fn get(&self, node: SharedNode) -> (r: Option<&ProbLazyItem>)
        ensures
            match r {
                Some(item) => self.item(node) == Some(*item),
                None => self.item(node) is None,
            },
            r is Some <==> node.ptr < self.items().len(),
            r matches Some(item) ==> *item == self.items()[node.ptr as int],
    {
        if node.ptr < self.items.len() {
            Some(&self.items[node.ptr])
        } else {
            None
        }
    }

    /// The item that was read from a place in the index files.
    pub fn load_item(&self, file_index: FileIndex) -> (r: Result<SharedNode, LoadError>)
        ensures
            r == (match self.stored(file_index) {
                Some(node) => Ok(node),
                None => Err(LoadError::NotStored),
            }),
    {
        let mut i: usize = self.records.len();
        assert(self.records@.take(i as int) =~= self.records@);
        while i > 0
            invariant
                i <= self.records@.len(),
                last_record(self.records@.take(i as int), file_index) == self.stored(file_index),
            decreases i,
        {
            i = i - 1;
            let (place, node) = self.records[i];
            assert(self.records@.take(i + 1).drop_last() =~= self.records@.take(i as int));
            if place == file_index {
                return Ok(node);
            }
        }
        Err(LoadError::NotStored)
    }
}

impl SharedNode {
    /// The version that the item belongs to.
    pub fn get_current_version(&self, cache: &ProbCache) -> (r: Option<VersionHash>)
        ensures
            r == (match cache.item(*self) {
                Some(item) => Some(item.version_id),
                None => None,
            }),
    {
        match cache.get(*self) {
            Some(item) => Some(item.version_id),
            None => None,
        }
    }

    /// The number of the version that the item belongs to.
    pub fn get_current_version_number(&self, cache: &ProbCache) -> (r: Option<u16>)
        ensures
            r == (match cache.item(*self) {
                Some(item) => Some(item.version_number),
                None => None,
            }),
    {
        match cache.get(*self) {
            Some(item) => Some(item.version_number),
            None => None,
        }
    }

    /// The node, if the item is in memory.
    pub fn get_lazy_data<'a>(&self, cache: &'a ProbCache) -> (r: Option<&'a ProbNode>)
        ensures
            match r {
                Some(data) => cache.item(*self) matches Some(item) && item.data == Some(*data),
                None => cache.item(*self) matches Some(item) ==> item.data is None,
            },
    {
        match cache.get(*self) {
            Some(item) => item.data.as_ref(),
            None => None,
        }
    }

    /// The item's place in the index files, if it has one.
    pub fn get_file_index(&self, cache: &ProbCache) -> (r: Option<FileIndex>)
        ensures
            r == (match cache.item(*self) {
                Some(item) => item.file_index,
                None => None,
            }),
    {
        match cache.get(*self) {
            Some(item) => item.file_index,
            None => None,
        }
    }

    /// The item's node, looked up at its place in the index files when it is not in memory.
    pub fn try_get_data<'a>(&self, cache: &'a ProbCache) -> (r: Result<&'a ProbNode, LoadError>)
        ensures
            match r {
                Ok(data) => cache.node(*self) == Ok::<ProbNode, LoadError>(*data),
                Err(error) => cache.node(*self) == Err::<ProbNode, LoadError>(error),
            },
    {
        let item = match cache.get(*self) {
            Some(item) => item,
            None => return Err(LoadError::UnknownItem),
        };
        match &item.data {
            Some(data) => Ok(data),
            None => match item.file_index {
                None => Err(LoadError::NoFileIndex),
                Some(file_index) => match cache.load_item(file_index) {
                    Err(error) => Err(error),
                    Ok(loaded) => match loaded.get_lazy_data(cache) {
                        Some(data) => Ok(data),
                        None => Err(LoadError::NotStored),
                    },
                },
            },
        }
    }
}

/// A place names the version that it belongs to, by number and by identity.
pub proof fn places_name_their_version(offset: FileOffset, number: u16, version: VersionHash)
    ensures
        number_at(
            FileIndex::Valid { offset, version_number: number, version_id: version },
        ) == number,
        version_at(
            FileIndex::Valid { offset, version_number: number, version_id: version },
        ) == version,
{
}

/// An item that is pending on a place, or was read from there, has the version number and the
/// version that the place names.
pub proof fn items_have_the_version_of_their_place(
    cache: ProbCache,
    offset: FileOffset,
    number: u16,
    version: VersionHash,
)
    requires
        cache.inv(),
    ensures
        ({
            let place = FileIndex::Valid { offset, version_number: number, version_id: version };
            &&& forall|i: int|
                #![trigger cache.items()[i]]
                0 <= i < cache.items().len() && cache.items()[i].data is None
                    && cache.items()[i].file_index == Some(place) ==> cache.items()[i].version_number
                    == number && cache.items()[i].version_id.0 == version.0
            &&& cache.stored(place) matches Some(loaded) ==> {
                &&& loaded.ptr < cache.items().len()
                &&& cache.items()[loaded.ptr as int].data is Some
                &&& cache.items()[loaded.ptr as int].version_number == number
                &&& cache.items()[loaded.ptr as int].version_id.0 == version.0
            }
        }),
{
    let place = FileIndex::Valid { offset, version_number: number, version_id: version };
    assert(cache.record_inv(place));
    assert forall|i: int|
        #![trigger cache.items()[i]]
        0 <= i < cache.items().len() && cache.items()[i].data is None
            && cache.items()[i].file_index == Some(place) implies cache.items()[i].version_number
        == number && cache.items()[i].version_id.0 == version.0 by {
        assert(cache.items()[i].pending_inv());
    }
}

/// A reference points at the item at its position, and at nothing past the last item.
pub proof fn items_by_position(cache: ProbCache, node: SharedNode)
    ensures
        node.ptr < cache.items().len() ==> cache.item(node) == Some(
            cache.items()[node.ptr as int],
        ),
        node.ptr >= cache.items().len() ==> cache.item(node) is None,
{
}

/// An item that is in memory shows that node, wherever else it may be kept.
pub proof fn resident_nodes_are_found(cache: ProbCache, node: SharedNode, data: ProbNode)
    requires
        node.ptr < cache.items().len(),
        cache.items()[node.ptr as int].data == Some(data),
    ensures
        cache.node(node) == Ok::<ProbNode, LoadError>(data),
{
}

/// An item that is known only by its place shows the node that was read from there.
pub proof fn pending_nodes_are_loaded(
    cache: ProbCache,
    node: SharedNode,
    file_index: FileIndex,
    loaded: SharedNode,
    data: ProbNode,
)
    requires
        node.ptr < cache.items().len(),
        cache.items()[node.ptr as int].data is None,
        cache.items()[node.ptr as int].file_index == Some(file_index),
        cache.stored(file_index) == Some(loaded),
        loaded.ptr < cache.items().len(),
        cache.items()[loaded.ptr as int].data == Some(data),
    ensures
        cache.node(node) == Ok::<ProbNode, LoadError>(data),
        cache.node(loaded) == cache.node(node),
{
}

/// An item shows no node exactly when it does not exist, is neither in memory nor has a place, or
/// nothing that is in memory was read from its place; the error tells which.
pub proof fn missing_nodes_are_reported(cache: ProbCache, node: SharedNode)
    ensures
        cache.node(node) == Err::<ProbNode, LoadError>(LoadError::UnknownItem) <==> node.ptr
            >= cache.items().len(),
        cache.node(node) == Err::<ProbNode, LoadError>(LoadError::NoFileIndex) <==> {
            &&& node.ptr < cache.items().len()
            &&& cache.items()[node.ptr as int].data is None
            &&& cache.items()[node.ptr as int].file_index is None
        },
        cache.node(node) == Err::<ProbNode, LoadError>(LoadError::NotStored) <==> {
            &&& node.ptr < cache.items().len()
            &&& cache.items()[node.ptr as int].data is None
            &&& cache.items()[node.ptr as int].file_index matches Some(file_index)
            &&& (cache.stored(file_index) matches Some(loaded) ==> loaded.ptr
                >= cache.items().len() || cache.items()[loaded.ptr as int].data is None)
        },
{
}

} // verus!
