//! The loadable registry and the change-tracking cache: registration,
//! reload diffs, and unbinding.

use cob_core::cache::{CobwebAssetCache, LoadAction, SceneRef};
use cob_core::registry::LoaderCallbacks;

fn scene(file: &[u8], path: &[u8]) -> SceneRef {
    SceneRef { file: file.to_vec(), path: path.to_vec() }
}

fn is_apply(a: &LoadAction, id: u64) -> bool {
    matches!(a, LoadAction::Apply { loadable, .. } if *loadable == id)
}

fn is_update(a: &LoadAction, id: u64) -> bool {
    matches!(a, LoadAction::Update { loadable, .. } if *loadable == id)
}

fn is_revert(a: &LoadAction, id: u64) -> bool {
    matches!(a, LoadAction::Revert { loadable } if *loadable == id)
}

#[test]
fn registry_reports_duplicates_and_keeps_newest() {
    let mut reg = LoaderCallbacks::new();
    assert!(!reg.register_command(7, 100));
    assert!(reg.register_command(7, 101));
    assert_eq!(reg.get_for_command(7), Some(101));
    assert_eq!(reg.get_for_command(8), None);
}

#[test]
fn registry_node_registration_binds_applier_and_reverter() {
    let mut reg = LoaderCallbacks::new();
    assert!(!reg.register_node(3, 30, 31));
    assert_eq!(reg.get_for_node(3), Some(30));
    assert_eq!(reg.get_for_revert(3), Some(31));
    assert_eq!(reg.get_for_command(3), None);
    assert!(reg.register_node(3, 40, 41));
    assert_eq!(reg.get_for_node(3), Some(40));
    assert_eq!(reg.get_for_revert(3), Some(41));
}

#[test]
fn first_reload_applies_every_declared_loadable() {
    let mut cache = CobwebAssetCache::new();
    cache.track_entity(1, scene(b"menu.cob", b"root"));
    let declared = vec![(10u64, b"a".to_vec()), (11u64, b"b".to_vec())];
    let actions = cache.reload_target(1, &declared);
    assert_eq!(actions.len(), 2);
    assert!(is_apply(&actions[0], 10));
    assert!(is_apply(&actions[1], 11));
    assert_eq!(cache.targets[0].applied, declared);
}

#[test]
fn reload_swaps_declared_loadable_sets() {
    let mut cache = CobwebAssetCache::new();
    cache.track_entity(1, scene(b"menu.cob", b"root"));
    let first = vec![(10u64, b"x".to_vec())];
    cache.reload_target(1, &first);
    // The document now declares a different loadable at the same reference.
    let second = vec![(20u64, b"y".to_vec())];
    let actions = cache.reload_target(1, &second);
    assert_eq!(actions.len(), 2);
    assert!(actions.iter().any(|a| is_apply(a, 20)));
    assert!(actions.iter().any(|a| is_revert(a, 10)));
    // The applied set equals exactly the new declared set.
    assert_eq!(cache.targets[0].applied, second);
}

#[test]
fn reload_with_changed_value_updates_in_place() {
    let mut cache = CobwebAssetCache::new();
    cache.track_entity(1, scene(b"menu.cob", b"root"));
    cache.reload_target(1, &vec![(10u64, b"old".to_vec()), (11u64, b"same".to_vec())]);
    let next = vec![(10u64, b"new".to_vec()), (11u64, b"same".to_vec())];
    let actions = cache.reload_target(1, &next);
    // Only the changed loadable produces an action; the unchanged one is
    // left alone.
    assert_eq!(actions.len(), 1);
    assert!(is_update(&actions[0], 10));
    assert_eq!(cache.targets[0].applied, next);
}

#[test]
fn reload_of_untracked_target_does_nothing() {
    let mut cache = CobwebAssetCache::new();
    let actions = cache.reload_target(99, &vec![(10u64, b"x".to_vec())]);
    assert!(actions.is_empty());
    assert!(cache.targets.is_empty());
}

#[test]
fn unbind_reverts_all_three_applied_loadables() {
    let mut cache = CobwebAssetCache::new();
    cache.track_entity(5, scene(b"hud.cob", b"bar"));
    let declared = vec![
        (10u64, b"a".to_vec()),
        (11u64, b"b".to_vec()),
        (12u64, b"c".to_vec()),
    ];
    cache.reload_target(5, &declared);
    let actions = cache.unbind(5);
    assert_eq!(actions.len(), 3);
    assert!(actions.iter().any(|a| is_revert(a, 10)));
    assert!(actions.iter().any(|a| is_revert(a, 11)));
    assert!(actions.iter().any(|a| is_revert(a, 12)));
    // No residual record of the target remains.
    assert!(cache.targets.is_empty());
}

#[test]
fn unbind_of_untracked_target_does_nothing() {
    let mut cache = CobwebAssetCache::new();
    cache.track_entity(1, scene(b"a.cob", b"n"));
    let actions = cache.unbind(2);
    assert!(actions.is_empty());
    assert_eq!(cache.targets.len(), 1);
}

#[test]
fn rebinding_moves_the_scene_and_keeps_the_applied_set() {
    let mut cache = CobwebAssetCache::new();
    cache.track_entity(1, scene(b"a.cob", b"n"));
    cache.reload_target(1, &vec![(10u64, b"x".to_vec())]);
    cache.track_entity(1, scene(b"b.cob", b"m"));
    assert_eq!(cache.targets.len(), 1);
    assert_eq!(cache.targets[0].scene.file, b"b.cob".to_vec());
    assert_eq!(cache.targets[0].applied, vec![(10u64, b"x".to_vec())]);
}
