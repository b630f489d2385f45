use std::sync::Arc;
use vectordb::cache::{LoadError, ProbCache};
use vectordb::equality::{EqualityTest, EqualityTester};
use vectordb::float::Float32;
use vectordb::node::{create_prob_node, NeighborSlot, ProbLazyItemArray, ProbNode, SharedNode};
use vectordb::types::{
    CosineSimilarity, FileIndex, FileOffset, HNSWLevel, MetricResult, NodeProp, Storage, VectorId,
    VersionHash,
};
use vectordb::versions::validate_lazy_item_versions;

fn distance(value: f32) -> MetricResult {
    MetricResult::CosineSimilarity(CosineSimilarity(Float32 { bits: value.to_bits() }))
}

fn number(distance: MetricResult) -> f32 {
    let MetricResult::CosineSimilarity(CosineSimilarity(value)) = distance;
    f32::from_bits(value.bits)
}

/// A node whose property is found at a place that depends on its number.
fn sample(id: u32) -> ProbNode {
    create_prob_node(id, FileOffset(id * 32))
}

fn node_of(cache: &ProbCache, item: SharedNode) -> ProbNode {
    item.get_lazy_data(cache).unwrap().clone()
}

/// Fills a free slot, or takes the place of the least similar neighbor.
fn add_neighbor(node: &mut ProbNode, neighbor: SharedNode, dist: MetricResult) {
    let mut worst = 0;
    for i in 0..node.neighbors.len() {
        match node.neighbors[i] {
            None => {
                node.neighbors[i] = Some((neighbor, dist));
                return;
            }
            Some((_, other)) => {
                if let Some((_, low)) = node.neighbors[worst] {
                    if number(other) < number(low) {
                        worst = i;
                    }
                }
            }
        }
    }
    node.neighbors[worst] = Some((neighbor, dist));
}

/// Follows the widest step that does not overshoot, and appends where there is none yet.
fn add_version(cache: &mut ProbCache, node: SharedNode, number: u16, version: SharedNode, later: u16) {
    let mut index = 0;
    while 4_u32.pow(index + 1) <= (later - number) as u32 {
        index += 1;
    }
    let mut data = node_of(cache, node);
    match data.versions.get(index as usize) {
        Some(next) => {
            let next_number = next.get_current_version_number(cache).unwrap();
            add_version(cache, next, next_number, version, later);
        }
        None => {
            data.versions.push(version).unwrap();
            assert!(cache.set_node(node, data));
        }
    }
}

fn place(ptr: usize, version_number: u16, version_id: VersionHash) -> FileIndex {
    FileIndex::Valid { offset: FileOffset(ptr as u32 * 64), version_number, version_id }
}

fn relinked(node: &ProbNode, to: &[SharedNode]) -> ProbNode {
    let mut versions = ProbLazyItemArray::new();
    for i in 0..node.versions.len() {
        versions.push(to[node.versions.get(i).unwrap().as_ptr()]).unwrap();
    }
    ProbNode {
        hnsw_level: node.hnsw_level,
        prop: node.prop.clone(),
        versions,
        parent: node.parent.map(|n| to[n.as_ptr()]),
        child: node.child.map(|n| to[n.as_ptr()]),
        neighbors: node.neighbors.iter().map(|s| s.map(|(n, d)| (to[n.as_ptr()], d))).collect(),
    }
}

/// Puts a copy of every item at a place of its own. The links of a copy lead to items that are
/// known only by their places. Returns those items, in the order of the items copied.
fn save_all(cache: &mut ProbCache) -> Vec<SharedNode> {
    let mut places = Vec::new();
    let mut nodes = Vec::new();
    while let Some(item) = cache.get(SharedNode { ptr: nodes.len() }) {
        nodes.push(item.data.clone().unwrap());
        places.push(place(nodes.len(), item.version_number, item.version_id));
    }
    let pending: Vec<SharedNode> = places.iter().map(|p| cache.insert_pending(*p)).collect();
    for (node, place) in nodes.iter().zip(&places) {
        cache.store(*place, relinked(node, &pending));
    }
    pending
}

fn loaded(cache: &ProbCache, pending: SharedNode) -> SharedNode {
    cache.load_item(pending.get_file_index(cache).unwrap()).unwrap()
}

fn compare(cache: &Arc<ProbCache>, a: SharedNode, b: SharedNode) -> bool {
    let mut tester = EqualityTester::new(cache.clone());
    a.assert_eq(&b, &mut tester)
}

#[test]
fn test_lazy_item_serialization() {
    let root_version_number = 0;
    let root_version_id = VersionHash::from(0);
    let mut cache = ProbCache::new();
    let node = sample(0);

    let lazy_item = cache.insert(node, root_version_id, root_version_number);

    let saved = save_all(&mut cache);
    let deserialized = loaded(&cache, saved[lazy_item.as_ptr()]);

    let mut tester = EqualityTester::new(Arc::new(cache));
    assert!(lazy_item.assert_eq(&deserialized, &mut tester));
}

#[test]
fn test_prob_node_acyclic_serialization() {
    let mut cache = ProbCache::new();
    let node = sample(0);
    let item = cache.insert(node.clone(), VersionHash::from(0), 0);

    let saved = save_all(&mut cache);
    let deserialized: ProbNode = saved[item.as_ptr()].try_get_data(&cache).unwrap().clone();

    let mut tester = EqualityTester::new(Arc::new(cache));
    assert!(node.assert_eq(&deserialized, &mut tester));
}

#[test]
fn test_prob_lazy_item_array_serialization() {
    let root_version_id = VersionHash::from(0);
    let root_version_number = 0;
    let mut cache = ProbCache::new();
    let mut array = ProbLazyItemArray::<8>::new();

    for i in 0..5 {
        let lazy_item = cache.insert(sample(i), root_version_id, root_version_number);
        array.push(lazy_item).unwrap();
    }

    let saved = save_all(&mut cache);
    let mut deserialized = ProbLazyItemArray::<8>::new();
    for i in 0..5 {
        deserialized.push(loaded(&cache, saved[i])).unwrap();
    }

    let mut tester = EqualityTester::new(Arc::new(cache));
    assert!(array.assert_eq(&deserialized, &mut tester));
}

#[test]
fn test_prob_node_serialization_with_neighbors() {
    let root_version_id = VersionHash::from(0);
    let root_version_number = 0;
    let mut cache = ProbCache::new();

    let mut node = sample(0);
    for i in 0..10 {
        let lazy_item = cache.insert(sample(i), root_version_id, root_version_number);
        add_neighbor(&mut node, lazy_item, distance((i as f32) / 5.0));
    }
    let item = cache.insert(node.clone(), root_version_id, root_version_number);

    let saved = save_all(&mut cache);
    let deserialized: ProbNode = saved[item.as_ptr()].try_get_data(&cache).unwrap().clone();

    let mut tester = EqualityTester::new(Arc::new(cache));
    assert!(node.assert_eq(&deserialized, &mut tester));
}

#[test]
fn test_prob_lazy_item_cyclic_serialization() {
    let root_version_id = VersionHash::from(0);
    let root_version_number = 0;
    let mut cache = ProbCache::new();

    let lazy0 = cache.insert(sample(0), root_version_id, root_version_number);
    let lazy1 = cache.insert(sample(1), root_version_id, root_version_number);

    let mut node0 = node_of(&cache, lazy0);
    node0.parent = Some(lazy1);
    assert!(cache.set_node(lazy0, node0));
    let mut node1 = node_of(&cache, lazy1);
    node1.child = Some(lazy0);
    assert!(cache.set_node(lazy1, node1));

    let saved = save_all(&mut cache);
    let deserialized = loaded(&cache, saved[lazy0.as_ptr()]);

    let mut tester = EqualityTester::new(Arc::new(cache));
    assert!(lazy0.assert_eq(&deserialized, &mut tester));
}

#[test]
fn test_prob_lazy_item_with_versions_serialization_and_validation() {
    let v0_hash = VersionHash::from(0);
    let mut cache = ProbCache::new();
    let root = cache.insert(sample(0), v0_hash, 0);

    for i in 1..=100 {
        let hash = VersionHash::from(i as u32);
        let next_version = cache.insert(sample(0), hash, i);
        add_version(&mut cache, root, 0, next_version, i);
    }

    assert!(validate_lazy_item_versions(&Arc::new(cache.clone()), root, 0));

    let saved = save_all(&mut cache);
    let deserialized = loaded(&cache, saved[root.as_ptr()]);
    let cache = Arc::new(cache);

    assert!(validate_lazy_item_versions(&cache, deserialized, 0));

    let mut tester = EqualityTester::new(cache.clone());
    assert!(root.assert_eq(&deserialized, &mut tester));
}

/// Compares the sample item with one that differs as `change` says.
fn accepts(change: fn(&mut ProbNode)) -> bool {
    let mut cache = ProbCache::new();
    let other = cache.insert(sample(7), VersionHash::from(0), 0);
    let mut node = sample(0);
    node.parent = Some(other);
    node.neighbors[1] = Some((other, distance(0.5)));
    node.versions.push(other).unwrap();
    let mut changed = node.clone();
    change(&mut changed);
    let a = cache.insert(node, VersionHash::from(0), 0);
    let b = cache.insert(changed, VersionHash::from(0), 0);
    let cache = Arc::new(cache);
    let forth = compare(&cache, a, b);
    assert_eq!(forth, compare(&cache, b, a));
    forth
}

#[test]
fn every_difference_is_found() {
    assert!(accepts(|_| {}));
    assert!(!accepts(|n| n.hnsw_level = HNSWLevel(3)));
    assert!(!accepts(|n| n.prop = sample(1).prop));
    assert!(!accepts(|n| {
        n.prop = Arc::new(NodeProp { location: FileOffset(1), ..(*n.prop).clone() })
    }));
    assert!(!accepts(|n| {
        n.prop = Arc::new(NodeProp { id: VectorId(5), ..(*n.prop).clone() })
    }));
    assert!(!accepts(|n| {
        let value = Arc::new(Storage::UnsignedByte { mag: 11, quant_vec: vec![1, 2, 3] });
        n.prop = Arc::new(NodeProp { value, ..(*n.prop).clone() })
    }));
    assert!(!accepts(|n| {
        let value = Arc::new(Storage::UnsignedByte { mag: 10, quant_vec: vec![1, 2, 4] });
        n.prop = Arc::new(NodeProp { value, ..(*n.prop).clone() })
    }));
    assert!(!accepts(|n| {
        let value = Arc::new(Storage::UnsignedByte { mag: 10, quant_vec: vec![1, 2] });
        n.prop = Arc::new(NodeProp { value, ..(*n.prop).clone() })
    }));
    assert!(!accepts(|n| n.parent = None));
    assert!(!accepts(|n| n.child = n.parent));
    assert!(!accepts(|n| n.versions = ProbLazyItemArray::new()));
    assert!(!accepts(|n| n.neighbors[1] = None));
    assert!(!accepts(|n| n.neighbors[2] = n.neighbors[1]));
    assert!(!accepts(|n| n.neighbors.swap(0, 1)));
    assert!(!accepts(|n| n.neighbors.push(None)));
    assert!(!accepts(|n| n.neighbors[1] = Some((n.parent.unwrap(), distance(0.25)))));
}

#[test]
fn differences_behind_links_are_found() {
    let mut cache = ProbCache::new();
    let far_a = cache.insert(sample(1), VersionHash::from(0), 0);
    let far_b = cache.insert(sample(2), VersionHash::from(0), 0);
    let mut near = sample(0);
    near.child = Some(far_a);
    let a = cache.insert(near.clone(), VersionHash::from(0), 0);
    near.child = Some(far_b);
    let b = cache.insert(near, VersionHash::from(0), 0);
    assert!(!compare(&Arc::new(cache), a, b));
}

#[test]
fn versions_of_items_are_compared() {
    let mut cache = ProbCache::new();
    let a = cache.insert(sample(0), VersionHash::from(3), 1);
    let b = cache.insert(sample(0), VersionHash::from(4), 1);
    let c = cache.insert(sample(0), VersionHash::from(3), 2);
    let d = cache.insert(sample(0), VersionHash::from(3), 1);
    let cache = Arc::new(cache);
    assert!(!compare(&cache, a, b));
    assert!(!compare(&cache, a, c));
    assert!(compare(&cache, a, d));
}

#[test]
fn nan_distances_never_agree() {
    let mut cache = ProbCache::new();
    let other = cache.insert(sample(1), VersionHash::from(0), 0);
    let mut node = sample(0);
    node.neighbors[0] = Some((other, distance(f32::NAN)));
    let item = cache.insert(node.clone(), VersionHash::from(0), 0);
    node.neighbors[0] = Some((other, distance(0.0)));
    let plus = cache.insert(node.clone(), VersionHash::from(0), 0);
    node.neighbors[0] = Some((other, distance(-0.0)));
    let minus = cache.insert(node, VersionHash::from(0), 0);
    let cache = Arc::new(cache);
    assert!(!compare(&cache, item, item));
    assert!(compare(&cache, plus, minus));
}

#[test]
fn equal_items_form_an_equivalence() {
    let mut cache = ProbCache::new();
    let items: Vec<SharedNode> =
        (0..6).map(|i| cache.insert(sample(i % 2), VersionHash::from(0), 0)).collect();
    let cache = Arc::new(cache);
    for a in 0..6 {
        for b in 0..6 {
            assert_eq!(compare(&cache, items[a], items[b]), a % 2 == b % 2);
        }
    }
}

#[test]
fn a_cycle_unrolled_compares_equal() {
    let mut cache = ProbCache::new();
    let one = cache.insert(sample(0), VersionHash::from(0), 0);
    let mut node = sample(0);
    node.parent = Some(one);
    assert!(cache.set_node(one, node.clone()));
    let first = cache.insert(sample(0), VersionHash::from(0), 0);
    node.parent = Some(first);
    let second = cache.insert(node.clone(), VersionHash::from(0), 0);
    node.parent = Some(second);
    assert!(cache.set_node(first, node));
    assert!(compare(&Arc::new(cache), one, first));
}

#[test]
fn a_pair_is_compared_once() {
    let mut cache = ProbCache::new();
    let a = cache.insert(sample(0), VersionHash::from(0), 0);
    let b = cache.insert(sample(1), VersionHash::from(0), 0);
    let mut tester = EqualityTester::new(Arc::new(cache));
    assert!(!a.assert_eq(&b, &mut tester));
    assert!(a.assert_eq(&b, &mut tester));
    assert!(!b.assert_eq(&a, &mut tester));
}

/// Two items that differ, and a tester that has not seen them. A comparison of the two fails
/// unless the pair has been marked.
fn different_items() -> (SharedNode, SharedNode, EqualityTester) {
    let mut cache = ProbCache::new();
    let a = cache.insert(sample(0), VersionHash::from(0), 0);
    let b = cache.insert(sample(1), VersionHash::from(0), 0);
    (a, b, EqualityTester::new(Arc::new(cache)))
}

#[test]
fn a_pair_is_marked_before_its_versions_are_compared() {
    let mut cache = ProbCache::new();
    let a = cache.insert(sample(0), VersionHash::from(0), 0);
    let b = cache.insert(sample(0), VersionHash::from(0), 1);
    let nowhere = SharedNode { ptr: 7 };
    let mut tester = EqualityTester::new(Arc::new(cache));
    assert!(!a.assert_eq(&b, &mut tester));
    assert!(a.assert_eq(&b, &mut tester));
    assert!(!a.assert_eq(&nowhere, &mut tester));
    assert!(a.assert_eq(&nowhere, &mut tester));
}

#[test]
fn a_pair_stays_marked_whatever_is_compared_next() {
    let mut cache = ProbCache::new();
    let items: Vec<SharedNode> =
        (0..4).map(|i| cache.insert(sample(i), VersionHash::from(0), 0)).collect();
    let mut tester = EqualityTester::new(Arc::new(cache));
    for a in &items {
        for b in &items {
            assert_eq!(a.assert_eq(b, &mut tester), a == b);
        }
    }
    for a in &items {
        for b in &items {
            assert!(a.assert_eq(b, &mut tester));
        }
    }
}

#[test]
fn distances_are_compared_before_neighbors() {
    let mut cache = ProbCache::new();
    let n = cache.insert(sample(0), VersionHash::from(0), 0);
    let cache = Arc::new(cache);
    let left: Vec<NeighborSlot> = vec![None, Some((n, distance(0.5)))];
    let right: Vec<NeighborSlot> = vec![None, Some((n, distance(0.25)))];
    assert!(!left.assert_eq(&right, &mut EqualityTester::new(cache)));

    let (a, b, mut tester) = different_items();
    let left: Vec<NeighborSlot> = vec![None, Some((a, distance(0.5)))];
    let right: Vec<NeighborSlot> = vec![None, Some((b, distance(0.25)))];
    assert!(!left.assert_eq(&right, &mut tester));
    assert!(!a.assert_eq(&b, &mut tester));
}

#[test]
fn slots_before_a_difference_are_marked() {
    let (a, b, mut tester) = different_items();
    let left: Vec<NeighborSlot> = vec![Some((a, distance(0.5))), None];
    let right: Vec<NeighborSlot> = vec![Some((b, distance(0.5))), Some((b, distance(0.5)))];
    assert!(!left.assert_eq(&right, &mut tester));
    assert!(a.assert_eq(&b, &mut tester));
}

#[test]
fn lengths_are_compared_before_items() {
    let (a, b, mut tester) = different_items();
    let left: Vec<NeighborSlot> = vec![Some((a, distance(0.5))), None];
    let right: Vec<NeighborSlot> = vec![Some((b, distance(0.5)))];
    assert!(!left.assert_eq(&right, &mut tester));
    let mut one = ProbLazyItemArray::<8>::new();
    one.push(a).unwrap();
    let mut two = ProbLazyItemArray::<8>::new();
    two.push(b).unwrap();
    two.push(b).unwrap();
    assert!(!one.assert_eq(&two, &mut tester));
    assert!(!a.assert_eq(&b, &mut tester));
}

#[test]
fn nodes_compare_their_values_before_their_links() {
    let (a, b, mut tester) = different_items();
    let mut left = sample(5);
    left.parent = Some(a);
    left.versions.push(a).unwrap();
    let mut right = left.clone();
    right.parent = Some(b);

    let mut other = right.clone();
    other.hnsw_level = HNSWLevel(9);
    assert!(!left.assert_eq(&other, &mut tester));
    other = right.clone();
    other.prop = sample(6).prop;
    assert!(!left.assert_eq(&other, &mut tester));
    other = right.clone();
    other.versions = ProbLazyItemArray::new();
    assert!(!left.assert_eq(&other, &mut tester));
    assert!(!a.assert_eq(&b, &mut tester));
}

#[test]
fn a_tester_serves_several_comparisons() {
    let mut cache = ProbCache::new();
    let a = cache.insert(sample(0), VersionHash::from(0), 0);
    let b = cache.insert(sample(0), VersionHash::from(0), 0);
    let c = cache.insert(sample(1), VersionHash::from(0), 0);
    let mut tester = EqualityTester::new(Arc::new(cache));
    assert!(a.assert_eq(&b, &mut tester));
    assert!(!a.assert_eq(&c, &mut tester));
    assert!(b.assert_eq(&a, &mut tester));
}

#[test]
fn rows_of_slots_are_compared() {
    let mut cache = ProbCache::new();
    let a = cache.insert(sample(0), VersionHash::from(0), 0);
    let b = cache.insert(sample(0), VersionHash::from(0), 0);
    let cache = Arc::new(cache);
    let left: Vec<NeighborSlot> = vec![None, Some((a, distance(1.5)))];
    let right: Vec<NeighborSlot> = vec![None, Some((b, distance(1.5)))];
    let mut tester = EqualityTester::new(cache.clone());
    assert!(left.assert_eq(&right, &mut tester));
    assert!(!left.assert_eq(&vec![None], &mut tester));
    assert!(!left.assert_eq(&vec![None, None], &mut tester));
    assert!(!left.assert_eq(&vec![None, Some((b, distance(1.25)))], &mut tester));
}

struct Plain;

impl EqualityTest for Plain {}

#[test]
fn types_are_alike_unless_they_say_otherwise() {
    let mut tester = EqualityTester::new(Arc::new(ProbCache::new()));
    assert!(Plain.assert_eq(&Plain, &mut tester));
}

#[test]
fn items_without_a_node_are_reported() {
    let mut cache = ProbCache::new();
    let a = cache.insert(sample(0), VersionHash::from(9), 4);
    let file_index = place(1, 4, VersionHash::from(9));
    let pending = cache.insert_pending(file_index);
    let nowhere = SharedNode { ptr: 50 };

    assert_eq!(cache.load_item(file_index), Err(LoadError::NotStored));
    assert!(matches!(pending.try_get_data(&cache), Err(LoadError::NotStored)));
    assert!(matches!(nowhere.try_get_data(&cache), Err(LoadError::UnknownItem)));
    assert_eq!(pending.get_current_version(&cache), Some(VersionHash(9)));
    assert_eq!(pending.get_current_version_number(&cache), Some(4));
    assert_eq!(pending.get_file_index(&cache), Some(file_index));
    assert_eq!(a.get_file_index(&cache), None);
    assert!(!cache.set_node(pending, sample(0)));
    assert!(!cache.set_node(nowhere, sample(0)));
    assert!(!compare(&Arc::new(cache.clone()), a, pending));
    assert!(!compare(&Arc::new(cache.clone()), a, nowhere));

    let stored = cache.store(file_index, sample(0));
    assert_eq!(cache.load_item(file_index), Ok(stored));
    assert!(compare(&Arc::new(cache.clone()), a, pending));
    assert!(compare(&Arc::new(cache.clone()), stored, pending));

    let newer = cache.store(file_index, sample(1));
    assert_eq!(cache.load_item(file_index), Ok(newer));
    assert!(!compare(&Arc::new(cache), a, pending));
}

#[test]
fn lists_hand_back_what_does_not_fit() {
    let mut list = ProbLazyItemArray::<2>::new();
    let node = |ptr| SharedNode { ptr };
    assert_eq!(list.push(node(1)), Ok(()));
    assert_eq!(list.push(node(2)), Ok(()));
    assert_eq!(list.push(node(3)), Err(node(3)));
    assert_eq!(list.len(), 2);
    assert_eq!(list.get(1), Some(node(2)));
    assert_eq!(list.get(2), None);
}

#[test]
fn sample_nodes_are_unlinked() {
    let node = create_prob_node(3, FileOffset(96));
    assert_eq!(node.hnsw_level, HNSWLevel(2));
    assert_eq!(node.prop.id, VectorId(3));
    assert_eq!(node.prop.location, FileOffset(96));
    let Storage::UnsignedByte { mag, quant_vec } = &*node.prop.value;
    assert_eq!(*mag, 10);
    assert_eq!(*quant_vec, vec![1, 2, 3]);
    assert_eq!(node.get_parent(), None);
    assert_eq!(node.get_child(), None);
    assert_eq!(node.versions.len(), 0);
    assert_eq!(node.get_neighbors_raw().len(), 8);
    assert!(node.get_neighbors_raw().iter().all(|slot| slot.is_none()));
}
