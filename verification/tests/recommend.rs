use mwi_planner::domain::OrderSide;
use mwi_planner::recommend::{inventory_quantities, sell_quantities, ItemStack, OrderQuantity};

fn stack(item: &str, quantity: u64) -> ItemStack {
    ItemStack { item: item.to_string(), quantity }
}

fn sorted(mut stacks: Vec<ItemStack>) -> Vec<ItemStack> {
    stacks.sort_by(|left, right| left.item.cmp(&right.item));
    stacks
}

#[test]
fn sell_quantities_subtract_existing_sell_orders() {
    let inventory = vec![stack("Egg", 100), stack("Milk", 5)];
    let production = vec![stack("Egg", 50)];
    let orders = vec![OrderQuantity { item: "Egg".to_string(), side: OrderSide::Sell, quantity: 25 }];

    let free = sell_quantities(&inventory, &production, &orders).unwrap();

    assert_eq!(free.len(), 2);
    assert_eq!(sorted(free), vec![stack("Egg", 125), stack("Milk", 5)]);
}

#[test]
fn buy_orders_and_oversold_items_leave_nothing_to_subtract_or_sell() {
    let inventory = vec![stack("Egg", 10), stack("Milk", 3), stack("Tea", 0)];
    let orders = vec![
        OrderQuantity { item: "Egg".to_string(), side: OrderSide::Buy, quantity: 100 },
        OrderQuantity { item: "Milk".to_string(), side: OrderSide::Sell, quantity: 2 },
        OrderQuantity { item: "Milk".to_string(), side: OrderSide::Sell, quantity: 2 },
        OrderQuantity { item: "Salt".to_string(), side: OrderSide::Sell, quantity: 1 },
    ];

    let free = sell_quantities(&inventory, &Vec::new(), &orders).unwrap();

    assert_eq!(free, vec![stack("Egg", 10)]);
}

#[test]
fn stock_that_overflows_is_reported() {
    let inventory = vec![stack("Egg", u64::MAX)];
    let production = vec![stack("Egg", 1)];
    assert_eq!(sell_quantities(&inventory, &production, &Vec::new()), None);
    assert_eq!(sell_quantities(&inventory, &Vec::new(), &Vec::new()), Some(vec![stack("Egg", u64::MAX)]));
}

#[test]
fn inventory_quantities_sum_each_item_once() {
    let stacks = vec![stack("Egg", 1), stack("Milk", 2), stack("Egg", 3), stack("Tea", 0)];
    assert_eq!(
        sorted(inventory_quantities(&stacks).unwrap()),
        vec![stack("Egg", 4), stack("Milk", 2), stack("Tea", 0)]
    );
    assert_eq!(inventory_quantities(&vec![stack("a", u64::MAX), stack("a", 1)]), None);
}
