use foodloss::aggregate::Aggregator;
use foodloss::record::{derive_key, parse_record};

#[test]
fn new_aggregator_is_empty() {
    let agg = Aggregator::new();
    assert_eq!(agg.keys(), Vec::<Vec<u8>>::new());
    assert_eq!(agg.get_count(b"0111 Wheat"), 0);
}

#[test]
fn repeated_key_counts_up_without_a_second_entry() {
    let mut agg = Aggregator::new();
    agg.add(b"0111 Wheat".to_vec());
    agg.add(b"0111 Wheat".to_vec());
    assert_eq!(agg.get_count(b"0111 Wheat"), 2);
    assert_eq!(agg.keys(), vec![b"0111 Wheat".to_vec()]);
}

#[test]
fn distinct_keys_are_kept_apart_in_first_seen_order() {
    let mut agg = Aggregator::new();
    agg.add(b"0111 Wheat".to_vec());
    agg.add(b"0112 Maize".to_vec());
    agg.add(b"0111 Wheat".to_vec());
    assert_eq!(agg.get_count(b"0111 Wheat"), 2);
    assert_eq!(agg.get_count(b"0112 Maize"), 1);
    assert_eq!(agg.get_count(b"0113 Rice"), 0);
    assert_eq!(agg.keys(), vec![b"0111 Wheat".to_vec(), b"0112 Maize".to_vec()]);
}

#[test]
fn two_lines_with_one_commodity_share_one_key() {
    let first = b"010,Afghanistan,,0111,Wheat,2016,12.5,Harvesting,Farm,Pests,,,";
    let second = b"004,Albania,,0111,Wheat,2017,3.25,Storage,Farm,Mould,,,";
    let mut agg = Aggregator::new();
    for line in [&first[..], &second[..]] {
        let rec = parse_record(line).expect("both lines satisfy the schema");
        agg.add(derive_key(&rec));
    }
    assert_eq!(agg.keys(), vec![b"0111 Wheat".to_vec()]);
    assert_eq!(agg.get_count(b"0111 Wheat"), 2);
}
