use spanish_tiles::inventory::{RecordIdentity, TileInventory};
use spanish_tiles::map_view::{MapView, MarkerOp, MarkerStyle};

fn record(id: u32, sign: &str, addr: &str, coords: Option<(&str, &str)>) -> TileInventory {
    TileInventory {
        id,
        street_sign: sign.to_string(),
        street_address: addr.to_string(),
        sign_condition: None,
        number_of_tiles_damaged: None,
        photo_1: None,
        photo_2: None,
        photo_3: None,
        photo_4: None,
        photo_5: None,
        latitude: coords.map(|c| c.0.to_string()),
        longitude: coords.map(|c| c.1.to_string()),
    }
}

fn identity_of_record(r: &TileInventory) -> RecordIdentity {
    RecordIdentity {
        id: r.id,
        street_sign: r.street_sign.clone(),
        street_address: r.street_address.clone(),
    }
}

#[test]
fn reconciliation_scenario() {
    let a = record(1, "A", "1 A St", Some(("10", "10")));
    let b = record(2, "B", "2 B St", Some(("20", "20")));
    let c = record(3, "C", "3 C St", Some(("30", "30")));

    let mut view = MapView::create();
    let ops = view.on_dataset_changed(&vec![a.duplicate(), b.duplicate()]);
    assert_eq!(ops.len(), 2);
    match &ops[0] {
        MarkerOp::Create { identity, lat, lon, style } => {
            assert_eq!(identity.id, 1);
            assert_eq!(lat, "10");
            assert_eq!(lon, "10");
            assert_eq!(*style, MarkerStyle::Default);
        },
        other => panic!("expected a creation for A, got {:?}", other),
    }
    match &ops[1] {
        MarkerOp::Create { identity, .. } => assert_eq!(identity.id, 2),
        other => panic!("expected a creation for B, got {:?}", other),
    }

    // B leaves, C arrives; A is untouched.
    let ops = view.on_dataset_changed(&vec![a.duplicate(), c.duplicate()]);
    assert_eq!(ops.len(), 2);
    match &ops[0] {
        MarkerOp::Remove { identity } => assert_eq!(identity.id, 2),
        other => panic!("expected the removal of B, got {:?}", other),
    }
    match &ops[1] {
        MarkerOp::Create { identity, lat, lon, .. } => {
            assert_eq!(identity.id, 3);
            assert_eq!(lat, "30");
            assert_eq!(lon, "30");
        },
        other => panic!("expected the creation of C, got {:?}", other),
    }
    for op in &ops {
        let ident = match op {
            MarkerOp::Create { identity, .. } => identity,
            MarkerOp::Move { identity, .. } => identity,
            MarkerOp::Remove { identity } => identity,
            MarkerOp::SetStyle { identity, .. } => identity,
        };
        assert_ne!(ident.id, 1, "the unchanged marker of A must not be touched");
    }

    // Selecting C highlights only C's marker.
    let ops = view.on_selection_changed(Some(identity_of_record(&c)));
    assert_eq!(ops.len(), 1);
    match &ops[0] {
        MarkerOp::SetStyle { identity, style } => {
            assert_eq!(identity.id, 3);
            assert_eq!(*style, MarkerStyle::Highlighted);
        },
        other => panic!("expected C's highlight, got {:?}", other),
    }
}

#[test]
fn moved_record_moves_marker_in_place() {
    let a = record(1, "A", "1 A St", Some(("10", "10")));
    let mut moved = a.duplicate();
    moved.latitude = Some("11".to_string());
    moved.longitude = Some("12".to_string());

    let mut view = MapView::create();
    let _ = view.on_dataset_changed(&vec![a]);
    let ops = view.on_dataset_changed(&vec![moved]);
    assert_eq!(ops.len(), 1);
    match &ops[0] {
        MarkerOp::Move { identity, lat, lon } => {
            assert_eq!(identity.id, 1);
            assert_eq!(lat, "11");
            assert_eq!(lon, "12");
        },
        other => panic!("expected an in-place move, got {:?}", other),
    }
}

#[test]
fn record_without_coordinates_never_gets_a_marker() {
    let unresolved = record(4, "D", "4 D St", None);
    let mut view = MapView::create();
    let ops = view.on_dataset_changed(&vec![unresolved.duplicate()]);
    assert!(ops.is_empty());

    // Selecting it is valid and touches no marker.
    let ops = view.on_selection_changed(Some(identity_of_record(&unresolved)));
    assert!(ops.is_empty());
}

#[test]
fn reselection_restyles_exactly_two_markers() {
    let a = record(1, "A", "1 A St", Some(("10", "10")));
    let b = record(2, "B", "2 B St", Some(("20", "20")));
    let mut view = MapView::create();
    let _ = view.on_dataset_changed(&vec![a.duplicate(), b.duplicate()]);

    let ops = view.on_selection_changed(Some(identity_of_record(&a)));
    assert_eq!(ops.len(), 1);

    let ops = view.on_selection_changed(Some(identity_of_record(&b)));
    assert_eq!(ops.len(), 2);
    match &ops[0] {
        MarkerOp::SetStyle { identity, style } => {
            assert_eq!(identity.id, 1);
            assert_eq!(*style, MarkerStyle::Default);
        },
        other => panic!("expected A's revert, got {:?}", other),
    }
    match &ops[1] {
        MarkerOp::SetStyle { identity, style } => {
            assert_eq!(identity.id, 2);
            assert_eq!(*style, MarkerStyle::Highlighted);
        },
        other => panic!("expected B's highlight, got {:?}", other),
    }

    // Selecting an identity not in the dataset clears the highlight only.
    let ops = view.on_selection_changed(Some(RecordIdentity {
        id: 99,
        street_sign: "Z".to_string(),
        street_address: "9 Z St".to_string(),
    }));
    assert_eq!(ops.len(), 1);
    match &ops[0] {
        MarkerOp::SetStyle { identity, style } => {
            assert_eq!(identity.id, 2);
            assert_eq!(*style, MarkerStyle::Default);
        },
        other => panic!("expected B's revert, got {:?}", other),
    }
}

#[test]
fn selection_survives_dataset_change() {
    let a = record(1, "A", "1 A St", Some(("10", "10")));
    let b = record(2, "B", "2 B St", None);
    let mut view = MapView::create();
    let _ = view.on_dataset_changed(&vec![a.duplicate(), b.duplicate()]);
    let _ = view.on_selection_changed(Some(identity_of_record(&b)));

    // B gains coordinates: its new marker must come up highlighted.
    let mut b2 = b.duplicate();
    b2.latitude = Some("20".to_string());
    b2.longitude = Some("20".to_string());
    let ops = view.on_dataset_changed(&vec![a, b2]);
    assert_eq!(ops.len(), 1);
    match &ops[0] {
        MarkerOp::Create { identity, style, .. } => {
            assert_eq!(identity.id, 2);
            assert_eq!(*style, MarkerStyle::Highlighted);
        },
        other => panic!("expected B's highlighted creation, got {:?}", other),
    }
}
