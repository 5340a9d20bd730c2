use loro_internal::dead_containers_cache::DeadContainersCache;
use loro_internal::doc_state::{Change, ContainerState, DocState, Op, OpLog};
use loro_internal::map_state::MapState;
use loro_internal::types::{ContainerID, ContainerType, IdLp};
use loro_internal::value::{LoroValue, MapValue};

fn root_map(name: &str) -> ContainerID {
    ContainerID::Root { name: name.to_string(), container_type: ContainerType::MapContainer }
}

/// A document with the root map `state`, which has a map state.
fn doc_with_root() -> (DocState, ContainerID, u32) {
    let mut d = DocState::new();
    let root = root_map("state");
    let pi = d.arena.register_container(&root);
    d.set_container_state(pi, ContainerState::Mapping(MapState::new(pi)));
    (d, root, pi)
}

fn change(peer: u64, counter: i32, lamport: u32, containers: &[u32]) -> Change {
    let ops = containers.iter().enumerate().map(|(i, c)| Op { container: *c, counter: counter + i as i32 }).collect();
    Change { peer, counter, lamport, ops }
}

fn parent_map(d: &DocState, pi: u32) -> &MapState {
    d.get_container(pi).unwrap().as_map_state().unwrap()
}

#[test]
fn mergeable_first_op_idlp_lookup() {
    let (mut d, root, _) = doc_with_root();
    let cid = ContainerID::new_mergeable(&root, "revision", ContainerType::Counter);
    let ci = d.arena.register_container(&cid);
    let mut log = OpLog { changes: Vec::new() };
    assert_eq!(d.mergeable_first_op_idlp(&log, &cid), None);
    log.changes.push(change(1, 0, 0, &[ci]));
    let post = d.mergeable_first_op_idlp(&log, &cid).unwrap();
    assert_eq!(post.peer, 1);
    assert_eq!(post.lamport, 0);
    log.changes.push(change(1, 1, 1, &[ci]));
    assert_eq!(d.mergeable_first_op_idlp(&log, &cid), Some(post));
}

#[test]
fn mergeable_max_op_idlp_lookup() {
    let (mut d, root, _) = doc_with_root();
    let cid = ContainerID::new_mergeable(&root, "revision", ContainerType::Counter);
    let ci = d.arena.register_container(&cid);
    let mut log = OpLog { changes: Vec::new() };
    assert_eq!(d.mergeable_max_op_idlp(&log, &cid), None);
    log.changes.push(change(1, 0, 0, &[ci]));
    let first = d.mergeable_max_op_idlp(&log, &cid).unwrap();
    log.changes.push(change(1, 1, 1, &[ci]));
    let second = d.mergeable_max_op_idlp(&log, &cid).unwrap();
    assert!(second > first);
    assert_eq!(second, IdLp { lamport: 1, peer: 1 });
}

#[test]
fn op_stamps_follow_counters_within_a_change() {
    let (mut d, root, _) = doc_with_root();
    let cid = ContainerID::new_mergeable(&root, "notes", ContainerType::Text);
    let ci = d.arena.register_container(&cid);
    let log = OpLog { changes: vec![change(4, 10, 100, &[ci, 0, ci])] };
    assert_eq!(d.mergeable_first_op_idlp(&log, &cid), Some(IdLp { lamport: 100, peer: 4 }));
    assert_eq!(d.mergeable_max_op_idlp(&log, &cid), Some(IdLp { lamport: 102, peer: 4 }));
    // an identifier that is not mergeable has no stamps
    assert_eq!(d.mergeable_first_op_idlp(&log, &root), None);
}

#[test]
fn lww_resolves_different_type_collision_at_import() {
    let (mut d, root, pi) = doc_with_root();
    let text = ContainerID::new_mergeable(&root, "k", ContainerType::Text);
    let map = ContainerID::new_mergeable(&root, "k", ContainerType::MapContainer);
    let ti = d.arena.register_container(&text);
    let mi = d.arena.register_container(&map);
    let log = OpLog { changes: vec![change(1, 0, 0, &[ti]), change(2, 0, 5, &[mi])] };
    d.register_mergeable_children(&log, vec![text.clone(), map.clone()]);
    assert_eq!(parent_map(&d, pi).mergeable_child_ids_for_key("k"), vec![map.clone()]);
    // registering again changes nothing
    d.register_mergeable_children(&log, vec![text.clone(), map.clone()]);
    assert_eq!(parent_map(&d, pi).mergeable_child_ids_for_key("k"), vec![map]);
}

#[test]
fn registration_order_does_not_change_the_winner() {
    let build = |order: &[usize]| {
        let (mut d, root, pi) = doc_with_root();
        let ids = vec![
            ContainerID::new_mergeable(&root, "k", ContainerType::Text),
            ContainerID::new_mergeable(&root, "k", ContainerType::MapContainer),
            ContainerID::new_mergeable(&root, "k", ContainerType::Counter),
        ];
        let idx: Vec<u32> = ids.iter().map(|c| d.arena.register_container(c)).collect();
        let log = OpLog { changes: vec![change(1, 0, 3, &[idx[0]]), change(2, 0, 1, &[idx[1]]), change(3, 0, 2, &[idx[2]])] };
        d.register_mergeable_children(&log, order.iter().map(|i| ids[*i].clone()).collect());
        (parent_map(&d, pi).mergeable_child_ids_for_key("k"), ids)
    };
    let (first, ids) = build(&[0, 1, 2]);
    let (second, _) = build(&[2, 0, 1, 0]);
    // the latest first operation wins, whatever the order of registration
    assert_eq!(first, vec![ids[0].clone()]);
    assert_eq!(second, first);
}

#[test]
fn lww_unmutated_competitors_defer_resolution() {
    let (mut d, root, pi) = doc_with_root();
    let text = ContainerID::new_mergeable(&root, "k", ContainerType::Text);
    let map = ContainerID::new_mergeable(&root, "k", ContainerType::MapContainer);
    let ti = d.arena.register_container(&text);
    d.arena.register_container(&map);
    let mut log = OpLog { changes: Vec::new() };
    d.register_mergeable_children(&log, vec![text.clone(), map.clone()]);
    assert!(parent_map(&d, pi).mergeable_child_ids_for_key("k").is_empty());
    log.changes.push(change(1, 0, 0, &[ti]));
    d.register_mergeable_children(&log, vec![text.clone(), map]);
    assert_eq!(parent_map(&d, pi).mergeable_child_ids_for_key("k"), vec![text]);
}

#[test]
fn tombstone_gates_registration() {
    let (mut d, root, pi) = doc_with_root();
    let counter = ContainerID::new_mergeable(&root, "rev", ContainerType::Counter);
    let ci = d.arena.register_container(&counter);
    let mut m = MapState::new(pi);
    m.set_mergeable_tombstone("rev".to_string(), IdLp { lamport: 10, peer: 1 });
    d.set_container_state(pi, ContainerState::Mapping(m));
    let mut log = OpLog { changes: vec![change(2, 0, 3, &[ci])] };
    d.register_mergeable_children(&log, vec![counter.clone()]);
    assert_eq!(parent_map(&d, pi).get_mergeable_child_id("rev"), None);
    log.changes.push(change(2, 1, 11, &[ci]));
    d.register_mergeable_children(&log, vec![counter.clone()]);
    assert_eq!(parent_map(&d, pi).get_mergeable_child_id("rev"), Some(&counter));
}

#[test]
fn snapshot_recovery_seeds_tombstone_even_without_existing_child() {
    let (mut d, _root, pi) = doc_with_root();
    let mut m = MapState::new(pi);
    m.insert("gone".to_string(), MapValue { value: None, lamp: 42, peer: 7 });
    m.insert("kept".to_string(), MapValue { value: Some(LoroValue::I64(1)), lamp: 43, peer: 7 });
    d.set_container_state(pi, ContainerState::Mapping(m));
    let log = OpLog { changes: Vec::new() };
    d.repopulate_mergeable_child_side_tables(&log);
    let pm = parent_map(&d, pi);
    assert_eq!(pm.mergeable_tombstone("gone"), Some(IdLp { lamport: 42, peer: 7 }));
    assert_eq!(pm.mergeable_tombstone("kept"), None);
}

#[test]
fn snapshot_recovery_registers_mutated_children_and_respects_tombstones() {
    let (mut d, root, pi) = doc_with_root();
    let live = ContainerID::new_mergeable(&root, "live", ContainerType::Counter);
    let dead = ContainerID::new_mergeable(&root, "dead", ContainerType::Counter);
    let li = d.arena.register_container(&live);
    let di = d.arena.register_container(&dead);
    let mut m = MapState::new(pi);
    m.insert("dead".to_string(), MapValue { value: None, lamp: 50, peer: 1 });
    d.set_container_state(pi, ContainerState::Mapping(m));
    d.set_container_state(li, ContainerState::Mapping(MapState::new(li)));
    d.set_container_state(di, ContainerState::Mapping(MapState::new(di)));
    let log = OpLog { changes: vec![change(1, 0, 5, &[li, di])] };
    d.repopulate_mergeable_child_side_tables(&log);
    let pm = parent_map(&d, pi);
    assert_eq!(pm.get_mergeable_child_id("live"), Some(&live));
    assert_eq!(pm.get_mergeable_child_id("dead"), None);
    assert_eq!(d.collect_mergeable_children_of(pi), vec![("live".to_string(), live)]);
}

#[test]
fn reconcile_evicts_only_dominated_children() {
    let (mut d, root, pi) = doc_with_root();
    let counter = ContainerID::new_mergeable(&root, "k", ContainerType::Counter);
    let text = ContainerID::new_mergeable(&root, "k", ContainerType::Text);
    let ci = d.arena.register_container(&counter);
    let ti = d.arena.register_container(&text);
    let mut m = MapState::new(pi);
    m.register_mergeable_child("k".to_string(), counter.clone());
    m.register_mergeable_child("k".to_string(), text.clone());
    m.set_mergeable_tombstone("k".to_string(), IdLp { lamport: 10, peer: 1 });
    d.set_container_state(pi, ContainerState::Mapping(m));
    let log = OpLog { changes: vec![change(1, 0, 4, &[ci]), change(2, 0, 20, &[ti])] };
    d.reconcile_mergeable_tombstones_for(&log, &[pi]);
    assert_eq!(parent_map(&d, pi).mergeable_child_ids_for_key("k"), vec![text.clone()]);
    d.reconcile_mergeable_tombstones(&log);
    assert_eq!(parent_map(&d, pi).mergeable_child_ids_for_key("k"), vec![text]);
}

#[test]
fn deletion_follows_parent_edges_and_is_cached() {
    let (mut d, root, pi) = doc_with_root();
    assert!(!d.is_deleted(pi));
    // a child container recorded by its parent map is alive
    let child = ContainerID::Normal { peer: 1, counter: 0, container_type: ContainerType::List };
    let ci = d.arena.register_container(&child);
    d.arena.set_parent(ci, Some(pi));
    let mut m = MapState::new(pi);
    m.insert("l".to_string(), MapValue { value: Some(LoroValue::Container(child.clone())), lamp: 1, peer: 1 });
    d.set_container_state(pi, ContainerState::Mapping(m));
    assert!(!d.is_deleted(ci));
    // once the key is overwritten the child is deleted, and cached as such
    let mut m = MapState::new(pi);
    m.insert("l".to_string(), MapValue { value: None, lamp: 2, peer: 1 });
    d.set_container_state(pi, ContainerState::Mapping(m));
    assert!(d.is_deleted(ci));
    assert!(d.dead_containers_cache.contains(ci));
    assert!(d.is_deleted(ci));
    let _ = root;
}

#[test]
fn detached_mergeable_child_with_tombstone_is_not_deleted() {
    let (mut d, root, pi) = doc_with_root();
    let counter = ContainerID::new_mergeable(&root, "rev", ContainerType::Counter);
    let ci = d.arena.register_container(&counter);
    let mut m = MapState::new(pi);
    m.set_mergeable_tombstone("rev".to_string(), IdLp { lamport: 1, peer: 1 });
    d.set_container_state(pi, ContainerState::Mapping(m));
    assert!(!d.is_deleted(ci));
    // without the tombstone the unrecorded child is deleted
    d.set_container_state(pi, ContainerState::Mapping(MapState::new(pi)));
    assert!(d.is_deleted(ci));
}

#[test]
fn dead_containers_cache_clear_and_clear_alive() {
    let mut c = DeadContainersCache::new();
    c.mark_deleted(1);
    c.set_all(&vec![2, 3], true);
    assert!(c.contains(1) && c.contains(2) && c.contains(3));
    c.clear_alive();
    assert!(c.contains(1) && c.contains(2));
    c.forget(2);
    assert!(!c.contains(2));
    c.set_all(&vec![1], false);
    assert!(!c.contains(1));
    c.clear();
    assert!(!c.contains(3));
}
