use loro_internal::map_state::{LoroError, MapState};
use loro_internal::snapshot::decode_snapshot_tail;
use loro_internal::value::{LoroValue, MapValue};

fn reg(value: Option<LoroValue>, lamp: u32, peer: u64) -> MapValue {
    MapValue { value, lamp, peer }
}

fn sample() -> MapState {
    let mut map = MapState::new(0);
    map.insert("1".to_string(), reg(None, 1, 1));
    map.insert("2".to_string(), reg(Some(LoroValue::I64(0)), 2, 2));
    map.insert("3".to_string(), reg(Some(LoroValue::Double(1.0f64.to_bits())), 3, 3));
    map
}

fn le(p: u64) -> Vec<u8> {
    p.to_le_bytes().to_vec()
}

// The value section (the present values, serialized with postcard) is
// written by the application; the library writes and reads what follows.
#[test]
fn map_fast_snapshot() {
    let map = sample();
    let mut bytes = Vec::new();
    map.encode_snapshot_fast(&mut bytes);
    assert!(bytes.len() <= 50);

    let value = map.get_value();
    match &value {
        LoroValue::Dict(entries) => {
            assert_eq!(entries.len(), 2);
            assert_eq!(entries[0], ("2".to_string(), LoroValue::I64(0)));
            assert_eq!(entries[1], ("3".to_string(), LoroValue::Double(1.0f64.to_bits())));
        }
        _ => panic!("the value of a map state is a dictionary"),
    }

    let new_map = MapState::decode_snapshot_fast(0, value, &bytes).unwrap();
    let regs = new_map.iter();
    assert_eq!(regs[1], ("2".to_string(), reg(Some(LoroValue::I64(0)), 2, 2)));
    assert_eq!(regs[0], ("1".to_string(), reg(None, 1, 1)));
}

#[test]
fn snapshot_meta_bytes_are_exact() {
    let map = sample();
    let mut bytes = vec![0xAA];
    map.encode_snapshot_fast(&mut bytes);
    let mut expected = vec![0xAA, 1, 1, b'1', 3];
    expected.extend(le(1));
    expected.extend(le(2));
    expected.extend(le(3));
    expected.extend([0, 1, 1, 2, 2, 3]);
    assert_eq!(bytes, expected);
}

#[test]
fn snapshot_roundtrip_restores_every_register() {
    let mut map = MapState::new(4);
    map.insert("b".to_string(), reg(Some(LoroValue::String("x".to_string())), 300, 1 << 40));
    map.insert("a".to_string(), reg(None, 7, 5));
    map.insert("c".to_string(), reg(Some(LoroValue::Bool(false)), 0, 5));
    let mut bytes = Vec::new();
    map.encode_snapshot_fast(&mut bytes);
    let decoded = MapState::try_decode_snapshot_fast(4, map.get_value(), &bytes).unwrap().unwrap();
    assert_eq!(decoded.container_idx(), 4);
    assert_eq!(decoded.iter(), map.iter());
}

#[test]
fn snapshot_peers_are_listed_once() {
    let mut map = MapState::new(0);
    map.insert("a".to_string(), reg(Some(LoroValue::I64(1)), 1, 9));
    map.insert("b".to_string(), reg(Some(LoroValue::I64(2)), 2, 9));
    let mut bytes = Vec::new();
    map.encode_snapshot_fast(&mut bytes);
    let mut expected = vec![0, 1];
    expected.extend(le(9));
    expected.extend([0, 1, 0, 2]);
    assert_eq!(bytes, expected);
}

#[test]
fn unreadable_deleted_keys_are_a_decode_error() {
    let expected = LoroError::DecodeError("Decode map keys_with_none_value failed".to_string());
    match MapState::decode_snapshot_fast(0, LoroValue::Dict(Vec::new()), &[]) {
        Err(e) => assert_eq!(e, expected),
        Ok(_) => panic!("an empty snapshot has no deleted keys to read"),
    }
    match MapState::try_decode_snapshot_fast(0, LoroValue::Dict(Vec::new()), &[0x80]) {
        Some(Err(e)) => assert_eq!(e, expected),
        _ => panic!("a cut-short count of deleted keys is a decode error"),
    }
}

#[test]
fn malformed_snapshots_are_refused_where_reading_would_panic() {
    // not a dictionary
    assert!(MapState::try_decode_snapshot_fast(0, LoroValue::Null, &[0, 0]).is_none());
    // a key that names no peer
    let value = LoroValue::Dict(vec![("k".to_string(), LoroValue::I64(1))]);
    assert!(MapState::try_decode_snapshot_fast(0, value, &[0, 0, 5, 1]).is_none());
    // peers cut short
    assert!(MapState::try_decode_snapshot_fast(0, LoroValue::Dict(Vec::new()), &[0, 1, 1, 2]).is_none());
    // repeated dictionary keys
    let twice = LoroValue::Dict(vec![("k".to_string(), LoroValue::Null), ("k".to_string(), LoroValue::Null)]);
    assert!(MapState::try_decode_snapshot_fast(0, twice, &[0, 0]).is_none());
}

#[test]
fn key_both_present_and_deleted_reads_twice_and_is_deleted() {
    let value = LoroValue::Dict(vec![("k".to_string(), LoroValue::I64(1))]);
    let mut bytes = vec![1, 1, b'k', 2];
    bytes.extend(le(10));
    bytes.extend(le(20));
    bytes.extend([0, 5, 1, 6]);
    let m = MapState::try_decode_snapshot_fast(0, value, &bytes).unwrap().unwrap();
    assert_eq!(m.iter(), &[("k".to_string(), reg(None, 6, 20))][..]);
}

#[test]
fn non_canonical_numbers_are_read() {
    let value = LoroValue::Dict(vec![("k".to_string(), LoroValue::I64(1))]);
    let mut bytes = vec![0, 0x81, 0x00];
    bytes.extend(le(3));
    bytes.extend([0x80, 0x00, 0x82, 0x01]);
    let m = MapState::try_decode_snapshot_fast(0, value, &bytes).unwrap().unwrap();
    assert_eq!(m.iter(), &[("k".to_string(), reg(Some(LoroValue::I64(1)), 130, 3))][..]);
}

#[test]
fn snapshot_tail_reads_registers_after_the_value_section() {
    let dict = vec![("b".to_string(), LoroValue::I64(2))];
    let deleted = vec!["a".to_string()];
    let mut rest = vec![2];
    rest.extend(le(5));
    rest.extend(le(6));
    rest.extend([1, 4, 0, 9]);
    let st = decode_snapshot_tail(7, &dict, &deleted, &rest).unwrap();
    assert_eq!(st.container_idx(), 7);
    let regs = st.iter();
    assert_eq!(regs.len(), 2);
    assert_eq!(regs[0], ("a".to_string(), reg(None, 4, 6)));
    assert_eq!(regs[1], ("b".to_string(), reg(Some(LoroValue::I64(2)), 9, 5)));
}

#[test]
fn snapshot_tail_refuses_bad_peer_index_and_short_input() {
    let dict = vec![("k".to_string(), LoroValue::I64(1))];
    let mut bad_peer = vec![1];
    bad_peer.extend(le(3));
    bad_peer.extend([1, 7]);
    assert!(decode_snapshot_tail(0, &dict, &Vec::new(), &bad_peer).is_none());
    assert!(decode_snapshot_tail(0, &dict, &Vec::new(), &[1, 0, 0]).is_none());
    let mut good = vec![1];
    good.extend(le(3));
    good.extend([0, 7]);
    let st = decode_snapshot_tail(0, &dict, &Vec::new(), &good).unwrap();
    let regs = st.iter();
    assert_eq!(regs.len(), 1);
    assert_eq!(regs[0], ("k".to_string(), reg(Some(LoroValue::I64(1)), 7, 3)));
}
