use foodloss::record::{derive_key, parse_record};

const GOOD_LINE: &[u8] = b"010,Afghanistan,,0111,Wheat,2016,12.5,Harvesting,Farm,Pests,,,";

#[test]
fn parses_a_full_line() {
    let rec = parse_record(GOOD_LINE).expect("the line satisfies the schema");
    assert_eq!(rec.m49code, b"010".to_vec());
    assert_eq!(rec.country, b"Afghanistan".to_vec());
    assert_eq!(rec.region, None);
    assert_eq!(rec.cpc_code, b"0111".to_vec());
    assert_eq!(rec.commodity, b"Wheat".to_vec());
    assert_eq!(rec.year, 2016);
    assert_eq!(rec.loss_percentage, b"12.5".to_vec());
    assert_eq!(rec.activity, Some(b"Harvesting".to_vec()));
    assert_eq!(rec.food_supply_stage, Some(b"Farm".to_vec()));
    assert_eq!(rec.cause_of_loss, Some(b"Pests".to_vec()));
}

#[test]
fn derives_the_grouping_key() {
    let rec = parse_record(GOOD_LINE).unwrap();
    assert_eq!(derive_key(&rec), b"0111 Wheat".to_vec());
}

#[test]
fn rejects_any_arity_but_thirteen() {
    for n in 1..20 {
        let mut cells: Vec<&[u8]> = vec![b"010", b"Afghanistan", b"", b"0111", b"Wheat", b"2016", b"12.5", b"", b"", b""];
        cells.resize(n, b"");
        let line = cells.join(&b","[..]);
        assert_eq!(parse_record(&line).is_some(), n == 13, "arity {}", n);
    }
}

#[test]
fn empty_optional_cells_become_absent() {
    let line = b"010,Afghanistan,,0111,Wheat,2016,12.5,,,,,,";
    let rec = parse_record(line).unwrap();
    assert_eq!(rec.region, None);
    assert_eq!(rec.activity, None);
    assert_eq!(rec.food_supply_stage, None);
    assert_eq!(rec.cause_of_loss, None);
}

#[test]
fn nonempty_optional_cells_are_kept() {
    let line = b"010,Afghanistan,Southern Asia,0111,Wheat,2016,12.5,Harvesting,Farm,Pests,,,";
    let rec = parse_record(line).unwrap();
    assert_eq!(rec.region, Some(b"Southern Asia".to_vec()));
}

#[test]
fn empty_required_text_cells_reject() {
    assert!(parse_record(b",Afghanistan,,0111,Wheat,2016,12.5,,,,,,").is_none());
    assert!(parse_record(b"010,,,0111,Wheat,2016,12.5,,,,,,").is_none());
    assert!(parse_record(b"010,Afghanistan,,,Wheat,2016,12.5,,,,,,").is_none());
    assert!(parse_record(b"010,Afghanistan,,0111,,2016,12.5,,,,,,").is_none());
}

#[test]
fn nonnumeric_year_rejects_the_record() {
    assert!(parse_record(b"010,Afghanistan,,0111,Wheat,abc,12.5,,,,,,").is_none());
    assert!(parse_record(b"010,Afghanistan,,0111,Wheat,2020x,12.5,,,,,,").is_none());
    assert!(parse_record(b"010,Afghanistan,,0111,Wheat,,12.5,,,,,,").is_none());
    assert!(parse_record(b"010,Afghanistan,,0111,Wheat,+2016,12.5,,,,,,").is_some());
}

#[test]
fn malformed_loss_percentage_rejects_the_record() {
    assert!(parse_record(b"010,Afghanistan,,0111,Wheat,2016,12.5.6,,,,,,").is_none());
    assert!(parse_record(b"010,Afghanistan,,0111,Wheat,2016,,,,,,,").is_none());
    assert!(parse_record(b"010,Afghanistan,,0111,Wheat,2016,x,,,,,,").is_none());
    assert!(parse_record(b"010,Afghanistan,,0111,Wheat,2016,1e3,,,,,,").is_some());
    assert!(parse_record(b"010,Afghanistan,,0111,Wheat,2016,NaN,,,,,,").is_some());
}

#[test]
fn quoted_cells_take_part_in_records() {
    let line = b"010,\"Afghanistan\",,0111,\"Wheat, hard\",2016,12.5,,,,,,";
    let rec = parse_record(line).unwrap();
    assert_eq!(rec.country, b"Afghanistan".to_vec());
    assert_eq!(rec.commodity, b"Wheat, hard".to_vec());
}

#[test]
fn malformed_quoting_rejects_the_record() {
    assert!(parse_record(b"010,\"Afghanistan,,0111,Wheat,2016,12.5,,,,,,").is_none());
    assert!(parse_record(b"010,\"Afghanistan\"x,,0111,Wheat,2016,12.5,,,,,,").is_none());
}
