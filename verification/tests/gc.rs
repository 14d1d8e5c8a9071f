//! Which records a compaction keeps.
use std::sync::{Arc, RwLock};

use gamestore::engine::encoding::{meta_key, subkey, zscore_key};
use gamestore::engine::gc::VersionMap;

#[test]
fn keeps_metadata_records() {
    let vm = VersionMap::new();
    assert!(vm.should_keep(&meta_key(b"k")));
}

#[test]
fn keeps_current_version_drops_stale_and_orphans() {
    let mut vm = VersionMap::new();
    vm.set(b"k", 5);

    let current = subkey(b"k", 5, b"f");
    let stale = subkey(b"k", 4, b"f");
    let orphan = subkey(b"other", 1, b"f");

    assert!(vm.should_keep(&current), "current version kept");
    assert!(!vm.should_keep(&stale), "stale version dropped");
    assert!(!vm.should_keep(&orphan), "orphan (unknown owner) dropped");
}

#[test]
fn zscore_index_records_follow_the_same_lifecycle() {
    let mut vm = VersionMap::new();
    vm.set(b"lb", 5);

    let current = zscore_key(b"lb", 5, 1.5f64.to_bits(), b"m");
    let stale = zscore_key(b"lb", 4, 1.5f64.to_bits(), b"m");
    let orphan = zscore_key(b"gone", 1, 1.5f64.to_bits(), b"m");

    assert!(vm.should_keep(&current), "current score index kept");
    assert!(!vm.should_keep(&stale), "stale score index dropped");
    assert!(!vm.should_keep(&orphan), "orphan score index dropped");
}

#[test]
fn removing_owner_orphans_its_subkeys() {
    let mut vm = VersionMap::new();
    vm.set(b"k", 9);
    let sk = subkey(b"k", 9, b"f");
    assert!(vm.should_keep(&sk));
    vm.remove(b"k");
    assert!(!vm.should_keep(&sk));
}

/// Two holders of one map, as an engine that compacts on another thread has them: what one of them
/// sets or forgets, the other sees.
#[test]
fn clone_shares_state() {
    let vm = Arc::new(RwLock::new(VersionMap::new()));
    let clone = vm.clone();
    vm.write().unwrap().set(b"k", 1);
    assert_eq!(clone.read().unwrap().get(b"k"), Some(1));
    assert_eq!(clone.read().unwrap().len(), 1);
    assert!(!clone.read().unwrap().is_empty());
    clone.write().unwrap().clear();
    assert!(vm.read().unwrap().is_empty());
}
