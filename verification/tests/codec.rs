use spanish_tiles::csv_parser::{parse_csv_str, write_csv_str, CsvError, ParseCause};
use spanish_tiles::inventory::TileInventory;

fn full_record() -> TileInventory {
    TileInventory {
        id: 1,
        street_sign: "Royal".to_string(),
        street_address: "700 Royal St".to_string(),
        sign_condition: Some("good".to_string()),
        number_of_tiles_damaged: Some(3),
        photo_1: Some("img/royal_1.jpg".to_string()),
        photo_2: Some("img/royal_2.jpg".to_string()),
        photo_3: None,
        photo_4: None,
        photo_5: None,
        latitude: Some("29.9584".to_string()),
        longitude: Some("-90.0644".to_string()),
    }
}

fn bare_record() -> TileInventory {
    TileInventory {
        id: 2,
        street_sign: "Bourbon".to_string(),
        street_address: "300 Bourbon St".to_string(),
        sign_condition: None,
        number_of_tiles_damaged: None,
        photo_1: None,
        photo_2: None,
        photo_3: None,
        photo_4: None,
        photo_5: None,
        latitude: None,
        longitude: None,
    }
}

fn assert_same_fields(a: &TileInventory, b: &TileInventory) {
    assert_eq!(a.id, b.id);
    assert_eq!(a.street_sign, b.street_sign);
    assert_eq!(a.street_address, b.street_address);
    assert_eq!(a.sign_condition, b.sign_condition);
    assert_eq!(a.number_of_tiles_damaged, b.number_of_tiles_damaged);
    assert_eq!(a.photo_1, b.photo_1);
    assert_eq!(a.photo_2, b.photo_2);
    assert_eq!(a.photo_3, b.photo_3);
    assert_eq!(a.photo_4, b.photo_4);
    assert_eq!(a.photo_5, b.photo_5);
    assert_eq!(a.latitude, b.latitude);
    assert_eq!(a.longitude, b.longitude);
}

#[test]
fn roundtrip_simple() {
    let data = vec![full_record(), bare_record()];
    let text = write_csv_str(&data);
    let parsed = parse_csv_str(&text).expect("roundtrip parse");
    assert_eq!(parsed.len(), 2);
    assert_same_fields(&parsed[0], &data[0]);
    assert_same_fields(&parsed[1], &data[1]);
}

#[test]
fn roundtrip_quoting() {
    let mut tricky = full_record();
    tricky.street_sign = "Rue \"Royale\", the old one".to_string();
    tricky.street_address = "line one\nline two".to_string();
    tricky.sign_condition = Some("cracked, faded".to_string());
    let data = vec![tricky];
    let text = write_csv_str(&data);
    let parsed = parse_csv_str(&text).expect("roundtrip parse with quoting");
    assert_eq!(parsed.len(), 1);
    assert_same_fields(&parsed[0], &data[0]);
}

#[test]
fn serialize_exact_text() {
    let data = vec![full_record()];
    let text = write_csv_str(&data);
    let expected = "ID,Street Sign,Street Address,Sign Condition,Number of Tiles Damaged,\
Photo 1,Photo 2,Photo 3,Photo 4,Photo 5,latitude,longitude\n\
1,Royal,700 Royal St,good,3,img/royal_1.jpg,img/royal_2.jpg,,,,29.9584,-90.0644\n";
    assert_eq!(text, expected);
}

#[test]
fn parse_exact_document() {
    let text = "ID,Street Sign,Street Address,Sign Condition,Number of Tiles Damaged,\
Photo 1,Photo 2,Photo 3,Photo 4,Photo 5,latitude,longitude\n\
7,Chartres,500 Chartres St,,2,,,,,,29.95,-90.06\n";
    let parsed = parse_csv_str(text).expect("parse");
    assert_eq!(parsed.len(), 1);
    assert_eq!(parsed[0].id, 7);
    assert_eq!(parsed[0].street_sign, "Chartres");
    assert_eq!(parsed[0].street_address, "500 Chartres St");
    assert_eq!(parsed[0].sign_condition, None);
    assert_eq!(parsed[0].number_of_tiles_damaged, Some(2));
    assert_eq!(parsed[0].photo_1, None);
    assert_eq!(parsed[0].latitude, Some("29.95".to_string()));
    assert_eq!(parsed[0].longitude, Some("-90.06".to_string()));
}

#[test]
fn parse_reordered_and_unknown_columns() {
    let text = "Street Address,Comment,ID,Street Sign\n10 Decatur St,old tile,9,Decatur\n";
    let parsed = parse_csv_str(text).expect("parse with reordered header");
    assert_eq!(parsed.len(), 1);
    assert_eq!(parsed[0].id, 9);
    assert_eq!(parsed[0].street_sign, "Decatur");
    assert_eq!(parsed[0].street_address, "10 Decatur St");
    assert_eq!(parsed[0].latitude, None);
    assert_eq!(parsed[0].longitude, None);
}

#[test]
fn parse_error_bad_number_reports_row() {
    let text = "ID,Street Sign,Street Address\n1,Royal,700 Royal St\nx,Bourbon,300 Bourbon St\n";
    let err = parse_csv_str(text).unwrap_err();
    assert_eq!(
        err,
        CsvError::Row { row_number: 2, cause: ParseCause::BadNumber }
    );
}

#[test]
fn parse_error_number_too_large() {
    let text = "ID,Street Sign,Street Address\n4294967296,Royal,700 Royal St\n";
    let err = parse_csv_str(text).unwrap_err();
    assert_eq!(err, CsvError::Row { row_number: 1, cause: ParseCause::BadNumber });
}

#[test]
fn parse_largest_id_accepted() {
    let text = "ID,Street Sign,Street Address\n4294967295,Royal,700 Royal St\n";
    let parsed = parse_csv_str(text).expect("largest id");
    assert_eq!(parsed[0].id, u32::MAX);
}

#[test]
fn parse_error_wrong_arity() {
    let text = "ID,Street Sign,Street Address\n1,Royal\n";
    let err = parse_csv_str(text).unwrap_err();
    assert_eq!(err, CsvError::Row { row_number: 1, cause: ParseCause::WrongArity });
}

#[test]
fn parse_error_unterminated_quote() {
    let text = "ID,Street Sign,Street Address\n1,\"Royal,700 Royal St\n";
    let err = parse_csv_str(text).unwrap_err();
    assert_eq!(err, CsvError::Row { row_number: 1, cause: ParseCause::BadQuoting });
}

#[test]
fn parse_error_unpaired_coordinate() {
    let text = "ID,Street Sign,Street Address,latitude,longitude\n1,Royal,700 Royal St,29.95,\n";
    let err = parse_csv_str(text).unwrap_err();
    assert_eq!(err, CsvError::Row { row_number: 1, cause: ParseCause::UnpairedCoordinate });
}

#[test]
fn parse_error_bad_coordinate() {
    let text = "ID,Street Sign,Street Address,latitude,longitude\n1,Royal,700 Royal St,1e5,2.0\n";
    let err = parse_csv_str(text).unwrap_err();
    assert_eq!(err, CsvError::Row { row_number: 1, cause: ParseCause::BadCoordinate });
}

#[test]
fn parse_error_empty_required() {
    let text = "ID,Street Sign,Street Address\n1,,700 Royal St\n";
    let err = parse_csv_str(text).unwrap_err();
    assert_eq!(err, CsvError::Row { row_number: 1, cause: ParseCause::EmptyRequired });
}

#[test]
fn parse_error_missing_column() {
    let text = "Street Sign,Street Address\nRoyal,700 Royal St\n";
    let err = parse_csv_str(text).unwrap_err();
    assert_eq!(err, CsvError::Row { row_number: 1, cause: ParseCause::MissingColumn });
}

#[test]
fn parse_empty_input_is_missing_header() {
    let err = parse_csv_str("").unwrap_err();
    assert_eq!(err, CsvError::Header { cause: ParseCause::MissingHeader });
}

#[test]
fn parse_header_only_gives_empty_dataset() {
    let text = "ID,Street Sign,Street Address\n";
    let parsed = parse_csv_str(text).expect("header only");
    assert!(parsed.is_empty());
}

#[test]
fn duplicate_identity_keeps_first_occurrence() {
    let text = "ID,Street Sign,Street Address,Sign Condition\n\
1,Royal,700 Royal St,first\n\
1,Royal,700 Royal St,second\n\
1,Royal,701 Royal St,different address\n";
    let parsed = parse_csv_str(text).expect("dedup parse");
    assert_eq!(parsed.len(), 2);
    assert_eq!(parsed[0].sign_condition, Some("first".to_string()));
    assert_eq!(parsed[1].street_address, "701 Royal St");
}

#[test]
fn identity_equality_uses_the_triple() {
    let mut a = full_record();
    let mut b = full_record();
    b.sign_condition = None;
    b.number_of_tiles_damaged = None;
    assert_eq!(a, b);
    b.street_address = "701 Royal St".to_string();
    assert_ne!(a, b);
    a.street_address = "701 Royal St".to_string();
    a.id = 99;
    assert_ne!(a, b);
}
