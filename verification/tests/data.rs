use mwi_planner::data::{item_key_from_hrid, market_key, summarize_market_snapshot, MarketSnapshotSummary, QuotePresence};

#[test]
fn item_keys_drop_the_items_prefix() {
    assert_eq!(item_key_from_hrid("/items/egg"), "egg");
    assert_eq!(item_key_from_hrid("egg"), "egg");
    assert_eq!(item_key_from_hrid("/item/egg"), "/item/egg");
}

#[test]
fn official_levels_become_key_suffixes() {
    assert_eq!(market_key("/items/egg", "0"), "egg");
    assert_eq!(market_key("/items/acrobatic_hood", "10"), "acrobatic_hood:10");
    assert_eq!(market_key("/items/acrobatic_hood", "00"), "acrobatic_hood:00");
}

#[test]
fn snapshot_summary_counts_base_items_and_optional_fields() {
    let quote = |key: &str, has_average: bool, has_volume: bool| QuotePresence {
        key: key.to_string(),
        has_average,
        has_volume,
    };
    let quotes = vec![
        quote("egg", true, true),
        quote("acrobatic_hood", false, false),
        quote("acrobatic_hood:10", false, true),
    ];
    assert_eq!(
        summarize_market_snapshot(&quotes),
        MarketSnapshotSummary { item_count: 2, quote_count: 3, quotes_with_average: 1, quotes_with_volume: 2 }
    );
    assert_eq!(
        summarize_market_snapshot(&Vec::new()),
        MarketSnapshotSummary { item_count: 0, quote_count: 0, quotes_with_average: 0, quotes_with_volume: 0 }
    );
}

#[test]
fn keys_and_identifiers_round_trip() {
    use_round_trip("egg");
    use_round_trip("acrobatic_hood");
    use_round_trip("");
}

fn use_round_trip(key: &str) {
    let hrid = mwi_planner::history::item_hrid_from_key(key);
    assert_eq!(item_key_from_hrid(&hrid), key);
    assert_eq!(mwi_planner::history::item_key_from_input(&hrid), key);
}

#[test]
fn snapshot_keys_name_the_history_they_need() {
    let base = market_key("/items/egg", "0");
    assert_eq!(
        mwi_planner::history::parse_market_key(&base),
        Some(mwi_planner::history::MarketHistoryTarget { item: "egg".to_string(), level: 0 })
    );
    let enhanced = market_key("/items/acrobatic_hood", "10");
    assert_eq!(mwi_planner::history::parse_market_key(&enhanced), None);
    assert_eq!(mwi_planner::wealth::item_key_from_hrid("/items/acrobatic_hood", 10), enhanced);
    assert_eq!(mwi_planner::wealth::item_key_from_hrid("/items/egg", 0), base);
}
