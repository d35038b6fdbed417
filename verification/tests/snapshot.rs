//! Runtime checks of the snapshot codec: building, serializing, parsing,
//! loading and instantiating snapshots.

use room_replication::codec::{
    build_snapshot, instantiate, load_snapshot, parse_snapshot, serialize, Bundle, Snapshot,
    SnapshotError, TypeRegistry,
};
use room_replication::config::SharedPlugin;
use room_replication::registry::{CarrierId, ComponentA, Registry};

fn registry_with_kinds() -> TypeRegistry {
    SharedPlugin.build_registry()
}

#[test]
fn serialize_writes_the_textual_format() {
    let snapshot = Snapshot {
        bundles: vec![Bundle {
            payload: Some(ComponentA(2)),
            carrier: Some(CarrierId(7)),
            label: Some(b"Replicated entity".to_vec()),
        }],
    };
    let bytes = serialize(&snapshot, &registry_with_kinds()).expect("serializable");
    assert_eq!(
        bytes,
        b"payload =2\ncarrier =7\nlabel =Replicated entity\nend\n".to_vec()
    );
}

#[test]
fn absent_components_are_written_as_dashes() {
    let snapshot = Snapshot {
        bundles: vec![Bundle { payload: None, carrier: None, label: None }],
    };
    let bytes = serialize(&snapshot, &registry_with_kinds()).expect("serializable");
    assert_eq!(bytes, b"payload -\ncarrier -\nlabel -\nend\n".to_vec());
}

#[test]
fn snapshot_round_trips_through_bytes() {
    let snapshot = Snapshot {
        bundles: vec![
            Bundle {
                payload: Some(ComponentA(2)),
                carrier: Some(CarrierId(7)),
                label: Some(b"Replicated entity".to_vec()),
            },
            Bundle { payload: Some(ComponentA(0)), carrier: None, label: Some(b"".to_vec()) },
            Bundle { payload: None, carrier: Some(CarrierId(u64::MAX)), label: None },
        ],
    };
    let bytes = serialize(&snapshot, &registry_with_kinds()).expect("serializable");
    let reparsed = parse_snapshot(&bytes).expect("well-formed bytes");
    assert_eq!(reparsed.bundles.len(), snapshot.bundles.len());
    for (a, b) in reparsed.bundles.iter().zip(snapshot.bundles.iter()) {
        assert_eq!(a.payload, b.payload);
        assert_eq!(a.carrier, b.carrier);
        assert_eq!(a.label, b.label);
    }
}

#[test]
fn empty_snapshot_round_trips() {
    let snapshot = Snapshot { bundles: Vec::new() };
    let bytes = serialize(&snapshot, &registry_with_kinds()).expect("serializable");
    assert_eq!(bytes, Vec::<u8>::new());
    let reparsed = parse_snapshot(&bytes).expect("well-formed bytes");
    assert!(reparsed.bundles.is_empty());
}

#[test]
fn serialization_fails_without_registered_kinds() {
    let snapshot = Snapshot { bundles: Vec::new() };
    let empty_registry = TypeRegistry { kinds: Vec::new() };
    let err = serialize(&snapshot, &empty_registry).expect_err("kinds unregistered");
    assert_eq!(err, SnapshotError::Serialization);
}

#[test]
fn serialization_fails_on_unrepresentable_label() {
    let snapshot = Snapshot {
        bundles: vec![Bundle {
            payload: None,
            carrier: None,
            label: Some(b"line\nbreak".to_vec()),
        }],
    };
    let err = serialize(&snapshot, &registry_with_kinds()).expect_err("newline in label");
    assert_eq!(err, SnapshotError::Serialization);
}

fn decode_error_of(bytes: &[u8]) -> SnapshotError {
    match parse_snapshot(&bytes.to_vec()) {
        Ok(_) => panic!("expected a decode error"),
        Err(e) => e,
    }
}

#[test]
fn malformed_bytes_are_a_decode_error() {
    assert_eq!(decode_error_of(b"payload ?\n"), SnapshotError::Decode);
    assert_eq!(decode_error_of(b"payload =2\ncarrier -\n"), SnapshotError::Decode);
    assert_eq!(
        decode_error_of(b"payload =2\ncarrier =99999999999999999999999\nlabel -\nend\n"),
        SnapshotError::Decode,
    );
}

#[test]
fn parser_accepts_redundant_leading_zeros() {
    let bytes = b"payload =007\ncarrier -\nlabel -\nend\n".to_vec();
    let snapshot = parse_snapshot(&bytes).expect("well-formed bytes");
    assert_eq!(snapshot.bundles[0].payload, Some(ComponentA(7)));
}

#[test]
fn load_of_absent_resource_is_empty_and_not_an_error() {
    let (snapshot, fault) = load_snapshot(None, &registry_with_kinds());
    assert!(snapshot.bundles.is_empty());
    assert!(fault.is_none());
}

#[test]
fn load_of_malformed_resource_degrades_to_empty() {
    let garbage = b"not a snapshot".to_vec();
    let (snapshot, fault) = load_snapshot(Some(&garbage), &registry_with_kinds());
    assert!(snapshot.bundles.is_empty());
    assert_eq!(fault, Some(SnapshotError::Decode));
}

#[test]
fn load_without_registered_kinds_degrades_to_empty() {
    let bytes = b"payload -\ncarrier -\nlabel -\nend\n".to_vec();
    let empty_registry = TypeRegistry { kinds: Vec::new() };
    let (snapshot, fault) = load_snapshot(Some(&bytes), &empty_registry);
    assert!(snapshot.bundles.is_empty());
    assert_eq!(fault, Some(SnapshotError::Decode));
}

#[test]
fn build_selects_payload_bearing_entities_only() {
    let mut reg = Registry::new();
    reg.spawn(Some(ComponentA(2)), Some(CarrierId(7)), Some(b"kept".to_vec()));
    reg.spawn(None, Some(CarrierId(8)), Some(b"skipped".to_vec()));
    reg.spawn(Some(ComponentA(5)), None, None);
    let snapshot = build_snapshot(&reg);
    assert_eq!(snapshot.bundles.len(), 2);
    assert_eq!(snapshot.bundles[0].payload, Some(ComponentA(2)));
    assert_eq!(snapshot.bundles[0].carrier, Some(CarrierId(7)));
    assert_eq!(snapshot.bundles[0].label, Some(b"kept".to_vec()));
    assert_eq!(snapshot.bundles[1].payload, Some(ComponentA(5)));
    assert_eq!(snapshot.bundles[1].carrier, None);
}

#[test]
fn full_cold_start_round_trip_reproduces_component_values() {
    // build -> serialize -> (persist/load elsewhere) -> parse -> instantiate
    let mut source = Registry::new();
    source.spawn(Some(ComponentA(2)), Some(CarrierId(7)), Some(b"Replicated entity".to_vec()));
    let snapshot = build_snapshot(&source);
    let bytes = serialize(&snapshot, &registry_with_kinds()).expect("serializable");
    let (loaded, fault) = load_snapshot(Some(&bytes), &registry_with_kinds());
    assert!(fault.is_none());
    let mut cold = Registry::new();
    if !cold.has_capacity_for(loaded.bundles.len()) {
        panic!("identifier space exhausted");
    }
    let ids = instantiate(&mut cold, &loaded);
    assert_eq!(ids.len(), 1);
    let e = &cold.entities[0];
    assert_eq!(e.id, ids[0]);
    assert_eq!(e.payload, Some(ComponentA(2)));
    assert_eq!(e.carrier, Some(CarrierId(7)));
    assert_eq!(e.label, Some(b"Replicated entity".to_vec()));
    assert!(e.child_payload.is_none());
    assert!(e.target.is_none());
}
