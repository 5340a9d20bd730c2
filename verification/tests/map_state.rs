use loro_internal::map_state::{DiffMode, Index, MapDelta, MapSet, MapState, RawOp, RawOpContent};
use loro_internal::types::{ContainerID, ContainerType, IdLp};
use loro_internal::value::{LoroValue, MapValue};

fn reg(value: Option<LoroValue>, lamp: u32, peer: u64) -> MapValue {
    MapValue { value, lamp, peer }
}

fn normal(peer: u64, counter: i32, container_type: ContainerType) -> ContainerID {
    ContainerID::Normal { peer, counter, container_type }
}

#[test]
fn insert_get_len_and_last_edit_peer() {
    let mut m = MapState::new(7);
    assert_eq!(m.container_idx(), 7);
    assert!(m.is_state_empty());
    assert_eq!(m.insert("a".to_string(), reg(Some(LoroValue::I64(1)), 1, 10)), None);
    m.insert("b".to_string(), reg(None, 2, 11));
    assert_eq!(m.len(), 1);
    assert!(!m.is_state_empty());
    assert_eq!(m.get("a"), Some(&LoroValue::I64(1)));
    assert_eq!(m.get("b"), None);
    assert_eq!(m.get("c"), None);
    assert_eq!(m.get_last_edit_peer("b"), Some(11));
    assert_eq!(m.get_last_edit_peer("c"), None);
    let old = m.insert("a".to_string(), reg(Some(LoroValue::I64(2)), 3, 12));
    assert_eq!(old, Some(reg(Some(LoroValue::I64(1)), 1, 10)));
    assert_eq!(m.get("a"), Some(&LoroValue::I64(2)));
    m.remove("a");
    assert_eq!(m.get("a"), None);
    assert_eq!(m.len(), 0);
    assert!(!m.is_state_empty());
}

#[test]
fn iter_is_in_key_order() {
    let mut m = MapState::new(0);
    m.insert("b".to_string(), reg(Some(LoroValue::Null), 1, 1));
    m.insert("a".to_string(), reg(Some(LoroValue::Bool(true)), 2, 1));
    m.insert("ab".to_string(), reg(None, 3, 1));
    let keys: Vec<&str> = m.iter().iter().map(|(k, _)| k.as_str()).collect();
    assert_eq!(keys, vec!["a", "ab", "b"]);
}

#[test]
fn container_value_registers_child_and_index() {
    let mut m = MapState::new(0);
    let child = normal(1, 0, ContainerType::List);
    m.insert("list".to_string(), reg(Some(LoroValue::Container(child.clone())), 1, 1));
    assert!(m.contains_child(&child));
    assert_eq!(m.get_child_index(&child), Some(Index::Key("list".to_string())));
    assert_eq!(m.get_child_containers(), vec![child.clone()]);
    // overwriting the key drops the child
    m.insert("list".to_string(), reg(Some(LoroValue::I64(0)), 2, 1));
    assert!(!m.contains_child(&child));
    assert_eq!(m.get_child_index(&child), None);
    assert!(m.get_child_containers().is_empty());
}

#[test]
fn import_keeps_later_write_and_checkout_overwrites() {
    let mut m = MapState::new(0);
    m.insert("k".to_string(), reg(Some(LoroValue::I64(5)), 10, 1));
    let older = MapDelta { updated: vec![("k".to_string(), Some(reg(Some(LoroValue::I64(1)), 5, 1)))] };
    let r = m.apply_diff_and_convert(older, DiffMode::Import);
    assert!(r.updated.is_empty());
    assert_eq!(m.get("k"), Some(&LoroValue::I64(5)));
    let newer = MapDelta { updated: vec![("k".to_string(), Some(reg(Some(LoroValue::I64(9)), 11, 1)))] };
    let r = m.apply_diff_and_convert(newer, DiffMode::Import);
    assert_eq!(r.updated.len(), 1);
    assert_eq!(r.updated[0].0, "k");
    assert_eq!(r.updated[0].1.idlp, IdLp { lamport: 11, peer: 1 });
    assert_eq!(m.get("k"), Some(&LoroValue::I64(9)));
    let forced = MapDelta { updated: vec![("k".to_string(), Some(reg(Some(LoroValue::I64(0)), 1, 1)))] };
    assert_eq!(m.apply_diff(forced, DiffMode::Checkout), Ok(()));
    assert_eq!(m.get("k"), Some(&LoroValue::I64(0)));
}

#[test]
fn same_lamport_breaks_tie_by_peer() {
    let mut m = MapState::new(0);
    m.insert("k".to_string(), reg(Some(LoroValue::I64(1)), 4, 2));
    let lower_peer = MapDelta { updated: vec![("k".to_string(), Some(reg(Some(LoroValue::I64(2)), 4, 1)))] };
    m.apply_diff(lower_peer, DiffMode::Import).unwrap();
    assert_eq!(m.get("k"), Some(&LoroValue::I64(1)));
    let higher_peer = MapDelta { updated: vec![("k".to_string(), Some(reg(Some(LoroValue::I64(3)), 4, 3)))] };
    m.apply_diff(higher_peer, DiffMode::Import).unwrap();
    assert_eq!(m.get("k"), Some(&LoroValue::I64(3)));
}

#[test]
fn diff_with_absent_value_removes_the_key() {
    let mut m = MapState::new(0);
    m.insert("k".to_string(), reg(Some(LoroValue::I64(1)), 1, 1));
    let r = m.apply_diff_and_convert(MapDelta { updated: vec![("k".to_string(), None)] }, DiffMode::Checkout);
    assert_eq!(r.updated.len(), 1);
    assert_eq!(r.updated[0].1.value, None);
    assert_eq!(r.updated[0].1.idlp, IdLp { lamport: 0, peer: 0 });
    assert_eq!(m.get("k"), None);
    assert!(m.is_state_empty());
}

#[test]
fn local_op_reports_replaced_container() {
    let mut m = MapState::new(0);
    let child = normal(3, 4, ContainerType::Text);
    m.insert("t".to_string(), reg(Some(LoroValue::Container(child.clone())), 1, 1));
    let op = RawOp {
        peer: 9,
        counter: 0,
        lamport: 20,
        container: 0,
        content: RawOpContent::MapOp(MapSet { key: "t".to_string(), value: None }),
    };
    let ret = m.apply_local_op(&op).unwrap();
    assert_eq!(ret.deleted_containers, vec![child]);
    assert_eq!(m.get("t"), None);
    assert_eq!(m.get_last_edit_peer("t"), Some(9));
}

#[test]
fn to_diff_and_value_list_present_entries() {
    let mut m = MapState::new(0);
    m.insert("x".to_string(), reg(Some(LoroValue::I64(1)), 1, 1));
    m.insert("y".to_string(), reg(None, 2, 2));
    let d = m.to_diff();
    assert_eq!(d.updated.len(), 2);
    assert_eq!(d.updated[0].0, "x");
    assert_eq!(d.updated[1].1.value, None);
    assert_eq!(d.updated[1].1.idlp, IdLp { lamport: 2, peer: 2 });
    assert_eq!(m.to_map(), vec![("x".to_string(), LoroValue::I64(1))]);
    assert_eq!(m.get_value(), LoroValue::Dict(vec![("x".to_string(), LoroValue::I64(1))]));
}

#[test]
fn tombstone_keeps_the_later_delete() {
    let mut m = MapState::new(0);
    assert_eq!(m.mergeable_tombstone("k"), None);
    m.set_mergeable_tombstone("k".to_string(), IdLp { lamport: 5, peer: 1 });
    m.set_mergeable_tombstone("k".to_string(), IdLp { lamport: 3, peer: 9 });
    assert_eq!(m.mergeable_tombstone("k"), Some(IdLp { lamport: 5, peer: 1 }));
    m.set_mergeable_tombstone("k".to_string(), IdLp { lamport: 5, peer: 2 });
    assert_eq!(m.mergeable_tombstone("k"), Some(IdLp { lamport: 5, peer: 2 }));
    assert_eq!(m.iter_mergeable_tombstones().len(), 1);
}

#[test]
fn one_mergeable_child_per_key_after_replace() {
    let mut m = MapState::new(0);
    let parent = ContainerID::Root { name: "state".to_string(), container_type: ContainerType::MapContainer };
    let counter = ContainerID::new_mergeable(&parent, "rev", ContainerType::Counter);
    let text = ContainerID::new_mergeable(&parent, "rev", ContainerType::Text);
    m.register_mergeable_child("rev".to_string(), counter.clone());
    m.register_mergeable_child("rev".to_string(), text.clone());
    assert_eq!(m.mergeable_child_ids_for_key("rev").len(), 2);
    m.replace_mergeable_child_for_key("rev".to_string(), counter.clone());
    assert_eq!(m.mergeable_child_ids_for_key("rev"), vec![counter.clone()]);
    assert_eq!(m.get_mergeable_child_id("rev"), Some(&counter));
    assert_eq!(m.iter_mergeable_children(), vec![("rev".to_string(), counter.clone())]);
    assert!(m.evict_mergeable_child_cid(&counter));
    assert!(!m.evict_mergeable_child_cid(&counter));
    assert_eq!(m.get_mergeable_child_id("rev"), None);
}

#[test]
fn fork_copies_everything() {
    let mut m = MapState::new(3);
    m.insert("a".to_string(), reg(Some(LoroValue::String("s".to_string())), 1, 1));
    m.set_mergeable_tombstone("b".to_string(), IdLp { lamport: 1, peer: 1 });
    let f = m.fork();
    assert_eq!(f.container_idx(), 3);
    assert_eq!(f.get("a"), Some(&LoroValue::String("s".to_string())));
    assert_eq!(f.mergeable_tombstone("b"), Some(IdLp { lamport: 1, peer: 1 }));
}

#[test]
fn rewriting_the_same_container_keeps_it_recorded() {
    let mut m = MapState::new(0);
    let child = normal(1, 0, ContainerType::List);
    m.insert("list".to_string(), reg(Some(LoroValue::Container(child.clone())), 1, 1));
    m.insert("list".to_string(), reg(Some(LoroValue::Container(child.clone())), 2, 1));
    assert!(m.contains_child(&child));
    assert_eq!(m.get_child_index(&child), Some(Index::Key("list".to_string())));
    let other = normal(2, 0, ContainerType::Text);
    m.insert("list".to_string(), reg(Some(LoroValue::Container(other.clone())), 3, 1));
    assert!(!m.contains_child(&child));
    assert!(m.contains_child(&other));
}
