use mwi_planner::history::{
    has_plus_level, history_cache_file_name, history_targets, item_hrid_from_key, item_key_from_input,
    parse_market_key, should_use_cache, source_url, validate_history_request, FetchAllHistoryReport,
    FetchHistoryFailure, HistoryFetchResult, HistoryRequestError, MarketHistoryTarget, CACHE_TTL_SECS,
};

fn target(item: &str) -> MarketHistoryTarget {
    MarketHistoryTarget { item: item.to_string(), level: 0 }
}

#[test]
fn derives_base_history_targets_from_snapshot() {
    let keys: Vec<String> = [
        "egg",
        "acrobatic_hood:10",
        "azure_enhancer",
        "advanced_enhancing_charm",
        "enchanted_essence",
        "test_item+1",
        "acrobatic_hood",
    ]
    .iter()
    .map(|key| key.to_string())
    .collect();

    let targets = history_targets(&keys);

    assert_eq!(
        targets,
        vec![
            MarketHistoryTarget { item: "acrobatic_hood".to_string(), level: 0 },
            MarketHistoryTarget { item: "advanced_enhancing_charm".to_string(), level: 0 },
            MarketHistoryTarget { item: "azure_enhancer".to_string(), level: 0 },
            MarketHistoryTarget { item: "egg".to_string(), level: 0 },
            MarketHistoryTarget { item: "enchanted_essence".to_string(), level: 0 },
        ]
    );
}

#[test]
fn targets_are_deduplicated_and_sorted_by_byte_order() {
    let keys: Vec<String> = ["egg:0", "Zebra", "egg", "apple", "egg:+0", "b:x"]
        .iter()
        .map(|key| key.to_string())
        .collect();
    assert_eq!(history_targets(&keys), vec![target("Zebra"), target("apple"), target("egg")]);
    assert_eq!(history_targets(&Vec::new()), Vec::<MarketHistoryTarget>::new());
}

#[test]
fn market_keys_read_as_base_targets_only() {
    assert_eq!(parse_market_key("egg"), Some(target("egg")));
    assert_eq!(parse_market_key("egg:0"), Some(target("egg")));
    assert_eq!(parse_market_key("egg:00"), Some(target("egg")));
    assert_eq!(parse_market_key("egg:+0"), Some(target("egg")));
    assert_eq!(parse_market_key("a:b:0"), Some(target("a:b")));
    assert_eq!(parse_market_key("acrobatic_hood:10"), None);
    assert_eq!(parse_market_key("egg:"), None);
    assert_eq!(parse_market_key("egg:x"), None);
    assert_eq!(parse_market_key("egg:-0"), None);
    assert_eq!(parse_market_key("egg:99999999999"), None);
    assert_eq!(parse_market_key("sword+2"), None);
    assert_eq!(parse_market_key("sword+"), Some(target("sword+")));
    assert_eq!(parse_market_key("ÿ+3é"), None);
    assert_eq!(parse_market_key("ÿé"), Some(target("ÿé")));
}

#[test]
fn plus_levels_need_a_digit_after_the_plus() {
    assert!(has_plus_level("test_item+1"));
    assert!(has_plus_level("+9"));
    assert!(!has_plus_level("test_item+"));
    assert!(!has_plus_level("a+b"));
    assert!(!has_plus_level(""));
}

#[test]
fn item_input_is_trimmed_and_stripped_of_the_items_prefix() {
    assert_eq!(item_key_from_input("  /items/egg\n"), "egg");
    assert_eq!(item_key_from_input("egg"), "egg");
    assert_eq!(item_key_from_input("\u{3000}milk\t"), "milk");
    assert_eq!(item_key_from_input("/items/"), "");
    assert_eq!(item_key_from_input("   "), "");
    assert_eq!(item_hrid_from_key("egg"), "/items/egg");
}

#[test]
fn source_url_escapes_the_item_identifier() {
    assert_eq!(
        source_url("/items/egg", 0, 30),
        "https://q7.nainai.eu.org/api/market/history?item_id=%2Fitems%2Fegg&variant=0&days=30"
    );
    assert_eq!(
        source_url("/items/sword", 12, 7),
        "https://q7.nainai.eu.org/api/market/history?item_id=%2Fitems%2Fsword&variant=12&days=7"
    );
}

#[test]
fn cache_file_names_mark_enhancement_levels() {
    assert_eq!(history_cache_file_name("egg", 0), "egg.json");
    assert_eq!(history_cache_file_name("sword", 5), "sword__plus5.json");
}

#[test]
fn zero_day_history_requests_are_refused() {
    assert_eq!(validate_history_request(0), Err(HistoryRequestError::ZeroDays));
    assert_eq!(validate_history_request(1), Ok(()));
    assert_eq!(validate_history_request(30), Ok(()));
    assert_eq!(HistoryRequestError::ZeroDays.message(), "days must be greater than 0");
}

#[test]
fn caches_younger_than_a_week_are_kept_unless_forced() {
    assert_eq!(CACHE_TTL_SECS, 7 * 24 * 60 * 60);
    assert!(should_use_cache(false, Some(0)));
    assert!(should_use_cache(false, Some(CACHE_TTL_SECS - 1)));
    assert!(!should_use_cache(false, Some(CACHE_TTL_SECS)));
    assert!(!should_use_cache(false, None));
    assert!(!should_use_cache(true, Some(0)));
}

#[test]
fn fetch_report_tallies_every_outcome() {
    let mut report = FetchAllHistoryReport::new(3);
    assert!(report.record(&target("egg"), HistoryFetchResult::Fetched));
    assert!(!report.record(&target("milk"), HistoryFetchResult::Cached));
    assert!(report.record(&target("tea"), HistoryFetchResult::Failed("timeout".to_string())));
    assert_eq!(report.requested, 3);
    assert_eq!(report.fetched, 1);
    assert_eq!(report.cached, 1);
    assert_eq!(report.failed, 1);
    assert_eq!(
        report.failures,
        vec![FetchHistoryFailure { item: "tea".to_string(), level: 0, error: "timeout".to_string() }]
    );
}
