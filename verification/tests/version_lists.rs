use std::sync::Arc;
use vectordb::cache::ProbCache;
use vectordb::node::{create_prob_node, SharedNode};
use vectordb::types::{FileIndex, FileOffset, VersionHash};
use vectordb::versions::validate_lazy_item_versions;

fn item(cache: &mut ProbCache, number: u16) -> SharedNode {
    cache.insert(create_prob_node(0, FileOffset(0)), VersionHash::from(number as u32), number)
}

/// An item whose list holds an item of each of the numbers.
fn item_with(cache: &mut ProbCache, number: u16, versions: &[u16]) -> SharedNode {
    let mut node = create_prob_node(0, FileOffset(0));
    for version in versions {
        let version = item(cache, *version);
        node.versions.push(version).unwrap();
    }
    cache.insert(node, VersionHash::from(number as u32), number)
}

fn valid(number: u16, versions: &[u16]) -> bool {
    let mut cache = ProbCache::new();
    let item = item_with(&mut cache, number, versions);
    validate_lazy_item_versions(&Arc::new(cache), item, number)
}

#[test]
fn distances_are_powers_of_four() {
    assert!(valid(0, &[]));
    assert!(valid(0, &[1]));
    assert!(valid(0, &[1, 4, 16, 64, 256, 1024, 4096, 16384]));
    assert!(valid(10, &[11, 14, 26]));
    assert!(!valid(0, &[0]));
    assert!(!valid(0, &[2]));
    assert!(!valid(0, &[1, 5]));
    assert!(!valid(0, &[4, 1]));
    assert!(!valid(10, &[9]));
}

#[test]
fn the_last_version_numbers_are_reached() {
    assert!(valid(65534, &[65535]));
    assert!(!valid(65535, &[0]));
    assert!(valid(49151, &[49152, 49155, 49167, 49215, 49407, 50175, 53247, 65535]));
}

#[test]
fn the_number_is_the_callers() {
    let mut cache = ProbCache::new();
    let node = item_with(&mut cache, 7, &[4]);
    let cache = Arc::new(cache);
    assert!(validate_lazy_item_versions(&cache, node, 3));
    assert!(!validate_lazy_item_versions(&cache, node, 7));
}

#[test]
fn lists_of_versions_are_validated_too() {
    let mut cache = ProbCache::new();
    let good = item_with(&mut cache, 1, &[2, 5]);
    let bad = item_with(&mut cache, 1, &[2, 6]);
    let mut node = create_prob_node(0, FileOffset(0));
    node.versions.push(good).unwrap();
    let with_good = cache.insert(node, VersionHash::from(0), 0);
    let mut node = create_prob_node(0, FileOffset(0));
    node.versions.push(bad).unwrap();
    let with_bad = cache.insert(node, VersionHash::from(0), 0);
    let cache = Arc::new(cache);
    assert!(validate_lazy_item_versions(&cache, with_good, 0));
    assert!(!validate_lazy_item_versions(&cache, with_bad, 0));
}

#[test]
fn a_version_that_is_its_own_successor_is_refused() {
    let mut cache = ProbCache::new();
    let own = item(&mut cache, 1);
    let mut node = create_prob_node(0, FileOffset(0));
    node.versions.push(own).unwrap();
    assert!(cache.set_node(own, node));
    let cache = Arc::new(cache);
    assert!(!validate_lazy_item_versions(&cache, own, 1));
    assert!(!validate_lazy_item_versions(&cache, own, 0));
}

#[test]
fn versions_are_loaded_from_their_places() {
    let file_index = FileIndex::Valid {
        offset: FileOffset(128),
        version_number: 1,
        version_id: VersionHash(1),
    };
    let mut cache = ProbCache::new();
    let pending = cache.insert_pending(file_index);
    let mut node = create_prob_node(0, FileOffset(0));
    node.versions.push(pending).unwrap();
    let root = cache.insert(node, VersionHash(0), 0);
    assert!(!validate_lazy_item_versions(&Arc::new(cache.clone()), root, 0));

    cache.store(file_index, create_prob_node(0, FileOffset(0)));
    assert!(validate_lazy_item_versions(&Arc::new(cache.clone()), root, 0));
    assert!(!validate_lazy_item_versions(&Arc::new(cache), SharedNode { ptr: 99 }, 0));
}
