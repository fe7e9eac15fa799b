use mwi_planner::wealth::{item_key_from_hrid, WealthSource};

#[test]
fn inventory_keys_carry_nonzero_enhancement_levels() {
    assert_eq!(item_key_from_hrid("/items/egg", 0), "egg");
    assert_eq!(item_key_from_hrid("/items/acrobatic_hood", 10), "acrobatic_hood:10");
    assert_eq!(item_key_from_hrid("coin", 0), "coin");
    assert_ne!(WealthSource::Inventory, WealthSource::SellOrder);
}
