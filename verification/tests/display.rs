use spanish_tiles::analysis::analyze_inventory;
use spanish_tiles::analysis_display::{
    addresses_for_street, find_by_streets, get_photos, street_signs, AnalysisDisplay, Msg,
};
use spanish_tiles::app::{App, Msg as AppMsg};
use spanish_tiles::inventory::TileInventory;
use spanish_tiles::text::{is_decimal_str, parse_u32_str, u32_to_string};

fn record(id: u32, sign: &str, addr: &str, damaged: Option<u32>) -> TileInventory {
    TileInventory {
        id,
        street_sign: sign.to_string(),
        street_address: addr.to_string(),
        sign_condition: None,
        number_of_tiles_damaged: damaged,
        photo_1: None,
        photo_2: None,
        photo_3: None,
        photo_4: None,
        photo_5: None,
        latitude: None,
        longitude: None,
    }
}

#[test]
fn analysis_totals() {
    let inventory = vec![
        record(1, "Royal", "700 Royal St", Some(3)),
        record(2, "Bourbon", "300 Bourbon St", None),
        record(3, "Chartres", "500 Chartres St", Some(2)),
    ];
    let a = analyze_inventory(&inventory);
    assert_eq!(a.total_items, 3);
    assert_eq!(a.total_damaged_tiles, 5);
}

#[test]
fn street_sign_dropdown_is_deduplicated_in_order() {
    let inventory = vec![
        record(1, "Royal", "700 Royal St", None),
        record(2, "Bourbon", "300 Bourbon St", None),
        record(3, "Royal", "900 Royal St", None),
    ];
    let signs = street_signs(&inventory);
    assert_eq!(signs, vec!["Royal".to_string(), "Bourbon".to_string()]);
    let addrs = addresses_for_street(&inventory, "Royal");
    assert_eq!(addrs, vec!["700 Royal St".to_string(), "900 Royal St".to_string()]);
}

#[test]
fn selection_resolves_first_match() {
    let inventory = vec![
        record(1, "Royal", "700 Royal St", None),
        record(2, "Royal", "900 Royal St", None),
    ];
    assert_eq!(find_by_streets(&inventory, "Royal", "900 Royal St"), Some(1));
    assert_eq!(find_by_streets(&inventory, "Royal", "1 Nowhere St"), None);

    let mut display = AnalysisDisplay::create();
    let (redraw, emitted) =
        display.update(&inventory, &None, Msg::StreetSelected("Royal".to_string()));
    assert!(redraw);
    assert_eq!(emitted, Some(None));
    let (redraw, emitted) =
        display.update(&inventory, &None, Msg::AddressSelected("900 Royal St".to_string()));
    assert!(redraw);
    assert_eq!(emitted, Some(Some(1)));
}

#[test]
fn photo_viewer_cycles() {
    let mut item = record(1, "Royal", "700 Royal St", None);
    item.photo_1 = Some("a.jpg".to_string());
    item.photo_3 = Some("b.jpg".to_string());
    item.photo_5 = Some("c.jpg".to_string());
    let photos = get_photos(&item);
    assert_eq!(
        photos,
        vec!["a.jpg".to_string(), "b.jpg".to_string(), "c.jpg".to_string()]
    );

    let inventory = vec![item.duplicate()];
    let selected = Some(item);
    let mut display = AnalysisDisplay::create();
    let (r, _) = display.update(&inventory, &selected, Msg::NextPhoto);
    assert!(r);
    assert_eq!(display.current_photo_index, 1);
    let (r, _) = display.update(&inventory, &selected, Msg::NextPhoto);
    assert!(r);
    let (r, _) = display.update(&inventory, &selected, Msg::NextPhoto);
    assert!(r);
    assert_eq!(display.current_photo_index, 0);
    let (r, _) = display.update(&inventory, &selected, Msg::PreviousPhoto);
    assert!(r);
    assert_eq!(display.current_photo_index, 2);
}

#[test]
fn photo_viewer_without_photos_does_nothing() {
    let item = record(1, "Royal", "700 Royal St", None);
    let inventory = vec![item.duplicate()];
    let selected = Some(item);
    let mut display = AnalysisDisplay::create();
    let (r, emitted) = display.update(&inventory, &selected, Msg::NextPhoto);
    assert!(!r);
    assert_eq!(emitted, None);
    assert_eq!(display.current_photo_index, 0);
    let (r, _) = display.update(&inventory, &None, Msg::PreviousPhoto);
    assert!(!r);
}

#[test]
fn selection_change_fills_dropdowns() {
    let item = record(7, "Royal", "700 Royal St", None);
    let mut display = AnalysisDisplay::create();
    display.current_photo_index = 4;
    assert!(display.changed(&Some(item)));
    assert_eq!(display.selected_street, Some("Royal".to_string()));
    assert_eq!(display.selected_address, Some("700 Royal St".to_string()));
    assert_eq!(display.current_photo_index, 0);
    assert!(!display.changed(&None));
    assert_eq!(display.selected_street, Some("Royal".to_string()));
}

#[test]
fn app_selects_first_item_on_load() {
    let mut app = App::create();
    assert!(app.selected_item.is_none());
    let inventory = vec![
        record(1, "Royal", "700 Royal St", None),
        record(2, "Bourbon", "300 Bourbon St", None),
    ];
    assert!(app.update(AppMsg::InventoryLoaded(inventory)));
    assert_eq!(app.inventory.len(), 2);
    assert_eq!(app.selected_item.as_ref().map(|r| r.id), Some(1));

    assert!(app.update(AppMsg::ItemSelected(None)));
    assert!(app.selected_item.is_none());
    let pick = record(2, "Bourbon", "300 Bourbon St", None);
    assert!(app.update(AppMsg::ItemSelected(Some(pick))));
    assert_eq!(app.selected_item.as_ref().map(|r| r.id), Some(2));
}

#[test]
fn numeral_parsing_and_rendering() {
    assert_eq!(parse_u32_str("0"), Some(0));
    assert_eq!(parse_u32_str("4294967295"), Some(u32::MAX));
    assert_eq!(parse_u32_str("4294967296"), None);
    assert_eq!(parse_u32_str(""), None);
    assert_eq!(parse_u32_str("12a"), None);
    assert_eq!(parse_u32_str("-1"), None);
    assert_eq!(u32_to_string(0), "0");
    assert_eq!(u32_to_string(40567), "40567");
    assert_eq!(u32_to_string(u32::MAX), "4294967295");
}

#[test]
fn decimal_shape() {
    assert!(is_decimal_str("29.9584"));
    assert!(is_decimal_str("-90.0644"));
    assert!(is_decimal_str("0"));
    assert!(is_decimal_str("-7"));
    assert!(!is_decimal_str(""));
    assert!(!is_decimal_str("."));
    assert!(!is_decimal_str("12."));
    assert!(!is_decimal_str(".5"));
    assert!(!is_decimal_str("1e5"));
    assert!(!is_decimal_str("1.2.3"));
    assert!(!is_decimal_str("--1"));
}
