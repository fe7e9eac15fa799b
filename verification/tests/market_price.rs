use mwi_planner::market_price::{bin_market_price, checked_bin_market_price, market_price_step, PriceBinDirection};

#[test]
fn matches_client_price_bins() {
    assert_eq!(bin_market_price(1, PriceBinDirection::Up, 0), 2);
    assert_eq!(bin_market_price(49, PriceBinDirection::Up, 0), 49);
    assert_eq!(bin_market_price(51, PriceBinDirection::Down, 0), 50);
    assert_eq!(bin_market_price(51, PriceBinDirection::Up, 0), 52);
    assert_eq!(bin_market_price(246, PriceBinDirection::Down, 0), 245);
    assert_eq!(bin_market_price(246, PriceBinDirection::Up, 0), 250);
    assert_eq!(bin_market_price(541, PriceBinDirection::Up, 0), 560);
    assert_eq!(bin_market_price(1_251, PriceBinDirection::Up, 0), 1_300);
}

#[test]
fn rounds_up_when_the_lower_bin_is_below_vendor_price() {
    assert_eq!(bin_market_price(246, PriceBinDirection::Down, 248), 250);
}

#[test]
fn step_widens_at_each_leading_digit_band() {
    assert_eq!(market_price_step(0), 1);
    assert_eq!(market_price_step(1), 1);
    assert_eq!(market_price_step(9), 1);
    assert_eq!(market_price_step(49), 1);
    assert_eq!(market_price_step(50), 2);
    assert_eq!(market_price_step(99), 2);
    assert_eq!(market_price_step(100), 5);
    assert_eq!(market_price_step(299), 5);
    assert_eq!(market_price_step(300), 10);
    assert_eq!(market_price_step(499), 10);
    assert_eq!(market_price_step(500), 20);
    assert_eq!(market_price_step(999), 20);
    assert_eq!(market_price_step(1_000), 50);
    assert_eq!(market_price_step(3_000), 100);
    assert_eq!(market_price_step(7_500), 200);
    assert_eq!(market_price_step(62_000_000), 2_000_000);
    assert_eq!(market_price_step(u64::MAX), 500_000_000_000_000_000);
}

#[test]
fn prices_below_two_snap_to_two() {
    assert_eq!(bin_market_price(0, PriceBinDirection::Down, 0), 2);
    assert_eq!(bin_market_price(1, PriceBinDirection::Down, 100), 2);
}

#[test]
fn prices_on_the_grid_are_kept_in_both_directions() {
    for price in [2u64, 49, 50, 52, 245, 250, 560, 1_300, 3_000, 10_000] {
        assert_eq!(bin_market_price(price, PriceBinDirection::Down, 0), price);
        assert_eq!(bin_market_price(price, PriceBinDirection::Up, 0), price);
        assert_eq!(bin_market_price(price, PriceBinDirection::Down, price + 1_000), price);
    }
}

#[test]
fn binning_twice_changes_nothing() {
    for price in [3u64, 51, 99, 101, 246, 299, 541, 999, 1_251, 2_999, 98_765] {
        for direction in [PriceBinDirection::Down, PriceBinDirection::Up] {
            let once = bin_market_price(price, direction, 0);
            assert_eq!(bin_market_price(once, PriceBinDirection::Down, 0), once);
            assert_eq!(bin_market_price(once, PriceBinDirection::Up, 0), once);
        }
    }
}

#[test]
fn rounding_up_at_the_top_of_a_band_reaches_the_next_band() {
    assert_eq!(bin_market_price(999, PriceBinDirection::Up, 0), 1_000);
    assert_eq!(bin_market_price(99, PriceBinDirection::Up, 0), 100);
    assert_eq!(bin_market_price(2_999, PriceBinDirection::Up, 0), 3_000);
}

#[test]
fn vendor_price_at_or_below_the_lower_bin_keeps_rounding_down() {
    assert_eq!(bin_market_price(246, PriceBinDirection::Down, 245), 245);
}

#[test]
fn checked_binning_reports_results_that_do_not_fit() {
    assert_eq!(checked_bin_market_price(246, PriceBinDirection::Up, 0), Some(250));
    assert_eq!(checked_bin_market_price(u64::MAX, PriceBinDirection::Down, 0), Some(18_000_000_000_000_000_000));
    assert_eq!(checked_bin_market_price(u64::MAX, PriceBinDirection::Up, 0), None);
}
