use spanish_tiles::geocoding::{
    build_geocode_url, build_query, geocode_inventory, geocode_result_from_response,
    pending_count, EnrichAction, EnrichmentRun, GeocodeResult, GeocodingError,
};
use spanish_tiles::csv_parser::write_csv_str;
use spanish_tiles::inventory::TileInventory;

fn record(id: u32, sign: &str, addr: &str, coords: Option<(&str, &str)>) -> TileInventory {
    TileInventory {
        id,
        street_sign: sign.to_string(),
        street_address: addr.to_string(),
        sign_condition: None,
        number_of_tiles_damaged: None,
        photo_1: None,
        photo_2: None,
        photo_3: None,
        photo_4: None,
        photo_5: None,
        latitude: coords.map(|c| c.0.to_string()),
        longitude: coords.map(|c| c.1.to_string()),
    }
}

#[test]
fn query_and_url_are_built_exactly() {
    let q = build_query("700 Royal St");
    assert_eq!(q, "700 Royal St, New Orleans");
    let url = build_geocode_url(&q);
    assert_eq!(
        url,
        "https://nominatim.openstreetmap.org/search?format=json&q=\
700%20Royal%20St%2C%20New%20Orleans&limit=1"
    );
}

#[test]
fn response_interpretation() {
    match geocode_result_from_response(None) {
        Ok(GeocodeResult::NotFound) => {},
        other => panic!("expected NotFound, got {:?}", other),
    }
    match geocode_result_from_response(Some(("29.9584".to_string(), "-90.0644".to_string()))) {
        Ok(GeocodeResult::Found { lat, lon }) => {
            assert_eq!(lat, "29.9584");
            assert_eq!(lon, "-90.0644");
        },
        other => panic!("expected Found, got {:?}", other),
    }
    match geocode_result_from_response(Some(("not a number".to_string(), "2.0".to_string()))) {
        Err(GeocodingError::ParseCoordinate) => {},
        other => panic!("expected ParseCoordinate, got {:?}", other),
    }
}

#[test]
fn enrich_applies_outcomes_in_order() {
    let mut inventory = vec![
        record(1, "Royal", "700 Royal St", None),
        record(2, "Bourbon", "300 Bourbon St", Some(("29.1", "-90.1"))),
        record(3, "Chartres", "500 Chartres St", None),
    ];
    assert_eq!(pending_count(&inventory), 2);
    let outcomes = vec![
        Ok(GeocodeResult::Found { lat: "29.9".to_string(), lon: "-90.9".to_string() }),
        Ok(GeocodeResult::NotFound),
    ];
    let failures = geocode_inventory(&mut inventory, &outcomes);
    assert!(failures.is_empty());
    assert_eq!(inventory[0].latitude, Some("29.9".to_string()));
    assert_eq!(inventory[0].longitude, Some("-90.9".to_string()));
    assert_eq!(inventory[1].latitude, Some("29.1".to_string()));
    assert_eq!(inventory[2].latitude, None);
    assert_eq!(inventory[2].longitude, None);
}

#[test]
fn enrich_collects_failures_and_continues() {
    let mut inventory = vec![
        record(1, "Royal", "700 Royal St", None),
        record(2, "Bourbon", "300 Bourbon St", None),
    ];
    let outcomes = vec![
        Err(GeocodingError::Request { message: "timeout".to_string() }),
        Ok(GeocodeResult::Found { lat: "29.9".to_string(), lon: "-90.9".to_string() }),
    ];
    let failures = geocode_inventory(&mut inventory, &outcomes);
    assert_eq!(failures.len(), 1);
    assert_eq!(failures[0].identity.id, 1);
    assert_eq!(failures[0].identity.street_address, "700 Royal St");
    match &failures[0].cause {
        GeocodingError::Request { message } => assert_eq!(message, "timeout"),
        other => panic!("expected a request failure, got {:?}", other),
    }
    assert_eq!(inventory[0].latitude, None);
    assert_eq!(inventory[1].latitude, Some("29.9".to_string()));
}

#[test]
fn enrich_skips_coordinated_records() {
    let mut inventory = vec![
        record(1, "Royal", "700 Royal St", Some(("29.1", "-90.1"))),
        record(2, "Bourbon", "300 Bourbon St", Some(("29.2", "-90.2"))),
    ];
    assert_eq!(pending_count(&inventory), 0);
    let outcomes: Vec<Result<GeocodeResult, GeocodingError>> = vec![];
    let failures = geocode_inventory(&mut inventory, &outcomes);
    assert!(failures.is_empty());
    assert_eq!(inventory[0].latitude, Some("29.1".to_string()));
    assert_eq!(inventory[1].latitude, Some("29.2".to_string()));
}

#[test]
fn enrich_twice_makes_no_second_calls() {
    let mut inventory = vec![
        record(1, "Royal", "700 Royal St", None),
        record(2, "Bourbon", "300 Bourbon St", None),
    ];
    let outcomes = vec![
        Ok(GeocodeResult::Found { lat: "29.9".to_string(), lon: "-90.9".to_string() }),
        Ok(GeocodeResult::Found { lat: "29.8".to_string(), lon: "-90.8".to_string() }),
    ];
    let failures = geocode_inventory(&mut inventory, &outcomes);
    assert!(failures.is_empty());
    let lat_after_first: Vec<Option<String>> =
        inventory.iter().map(|r| r.latitude.clone()).collect();
    assert_eq!(pending_count(&inventory), 0);
    let no_outcomes: Vec<Result<GeocodeResult, GeocodingError>> = vec![];
    let failures2 = geocode_inventory(&mut inventory, &no_outcomes);
    assert!(failures2.is_empty());
    let lat_after_second: Vec<Option<String>> =
        inventory.iter().map(|r| r.latitude.clone()).collect();
    assert_eq!(lat_after_first, lat_after_second);
}

#[test]
fn machine_demands_pause_between_calls() {
    let inventory = vec![
        record(1, "Royal", "700 Royal St", None),
        record(2, "Bourbon", "300 Bourbon St", None),
    ];
    let mut run = EnrichmentRun::start(inventory);
    let url1 = match run.next_action() {
        EnrichAction::Geocode { index, url } => {
            assert_eq!(index, 0);
            url
        },
        other => panic!("expected a geocode action, got pause or done: {:?}", kind(&other)),
    };
    assert!(url1.contains("700%20Royal%20St%2C%20New%20Orleans"));
    run.report_outcome(Ok(GeocodeResult::Found {
        lat: "29.9".to_string(),
        lon: "-90.9".to_string(),
    }));
    match run.next_action() {
        EnrichAction::Pause => {},
        other => panic!("expected the pause before the next call, got {:?}", kind(&other)),
    }
    run.acknowledge_pause();
    match run.next_action() {
        EnrichAction::Geocode { index, .. } => assert_eq!(index, 1),
        other => panic!("expected the second geocode, got {:?}", kind(&other)),
    }
    run.report_outcome(Ok(GeocodeResult::NotFound));
    match run.next_action() {
        EnrichAction::Pause | EnrichAction::Done => {},
        EnrichAction::Geocode { .. } => panic!("two geocode actions without a pause between"),
    }
    let (records, failures) = run.finish();
    assert!(failures.is_empty());
    assert_eq!(records[0].latitude, Some("29.9".to_string()));
    assert_eq!(records[1].latitude, None);
}

fn kind(a: &EnrichAction) -> &'static str {
    match a {
        EnrichAction::Geocode { .. } => "geocode",
        EnrichAction::Pause => "pause",
        EnrichAction::Done => "done",
    }
}

#[test]
fn machine_run_abandoned_keeps_partial_results() {
    let inventory = vec![
        record(1, "Royal", "700 Royal St", None),
        record(2, "Bourbon", "300 Bourbon St", None),
    ];
    let mut run = EnrichmentRun::start(inventory);
    match run.next_action() {
        EnrichAction::Geocode { .. } => {},
        other => panic!("expected a geocode action, got {:?}", kind(&other)),
    }
    run.report_outcome(Ok(GeocodeResult::Found {
        lat: "29.9".to_string(),
        lon: "-90.9".to_string(),
    }));
    let (records, failures) = run.finish();
    assert!(failures.is_empty());
    assert_eq!(records[0].latitude, Some("29.9".to_string()));
    assert_eq!(records[1].latitude, None);
}

#[test]
fn not_found_record_stays_empty_in_output() {
    let mut inventory = vec![record(5, "Esplanade", "1200 Esplanade Ave", None)];
    let outcomes = vec![Ok(GeocodeResult::NotFound)];
    let failures = geocode_inventory(&mut inventory, &outcomes);
    assert!(failures.is_empty());
    assert_eq!(inventory[0].latitude, None);
    assert_eq!(inventory[0].longitude, None);
    let text = write_csv_str(&inventory);
    let data_line = text.lines().nth(1).expect("one data row");
    assert!(data_line.ends_with(",,"));
}
