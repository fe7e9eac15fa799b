//! How much of each item is still free to be offered for sale.
use vstd::prelude::*;

use crate::domain::OrderSide;
use crate::text::{TextOrder, compare_text};

verus! {

/// A quantity of one item.
#[derive(Debug, Clone, PartialEq, Eq)]
pub struct ItemStack {
    pub item: String,
    pub quantity: u64,
}

/// What the sale accounting reads of an open order: its item, side and
/// remaining quantity.
#[derive(Debug, Clone, PartialEq, Eq)]
pub struct OrderQuantity {
    pub item: String,
    pub side: OrderSide,
    pub quantity: u64,
}

/// The total quantity of `item` over `stacks`.
pub open spec fn stack_total(stacks: Seq<ItemStack>, item: Seq<char>) -> nat
    decreases stacks.len(),
{
    if stacks.len() == 0 {
        0
    } else {
        stack_total(stacks.drop_last(), item) + (if stacks.last().item@ == item {
            stacks.last().quantity as nat
        } else {
            0nat
        })
    }
}

/// The total quantity of `item` that open sell orders already offer.
pub open spec fn sell_order_total(orders: Seq<OrderQuantity>, item: Seq<char>) -> nat
    decreases orders.len(),
{
    if orders.len() == 0 {
        0
    } else {
        sell_order_total(orders.drop_last(), item) + (if orders.last().item@ == item
            && orders.last().side == OrderSide::Sell {
            orders.last().quantity as nat
        } else {
            0nat
        })
    }
}

/// What is left of `item` to sell: the stock of it less what sell orders
/// already offer, and never below zero.
pub open spec fn free_to_sell(stock: Seq<ItemStack>, orders: Seq<OrderQuantity>, item: Seq<char>) -> nat {
    if stack_total(stock, item) >= sell_order_total(orders, item) {
        (stack_total(stock, item) - sell_order_total(orders, item)) as nat
    } else {
        0
    }
}

/// No item appears twice.
pub open spec fn distinct_items(stacks: Seq<ItemStack>) -> bool {
    forall|i: int, j: int|
        0 <= i < j < stacks.len() ==> (#[trigger] stacks[i]).item@ != (#[trigger] stacks[j]).item@
}

/// Some entry of `stacks` is for `item`.
pub open spec fn lists_item(stacks: Seq<ItemStack>, item: Seq<char>) -> bool {
    exists|i: int| 0 <= i < stacks.len() && #[trigger] stacks[i].item@ == item
}

proof fn lemma_stack_total_absent(stacks: Seq<ItemStack>, item: Seq<char>)
    requires
        !lists_item(stacks, item),
    ensures
        stack_total(stacks, item) == 0,
    decreases stacks.len(),
{
    if stacks.len() > 0 {
        let t = stacks.drop_last();
        assert(!lists_item(t, item)) by {
            if lists_item(t, item) {
                let i = choose|i: int| 0 <= i < t.len() && #[trigger] t[i].item@ == item;
                assert(stacks[i] == t[i]);
            }
        }
        assert(stacks[stacks.len() - 1].item@ != item);
        lemma_stack_total_absent(t, item);
    }
}

proof fn lemma_stack_total_prefix(stacks: Seq<ItemStack>, k: int, item: Seq<char>)
    requires
        0 <= k <= stacks.len(),
    ensures
        stack_total(stacks.subrange(0, k), item) <= stack_total(stacks, item),
    decreases stacks.len() - k,
{
    if k < stacks.len() {
        lemma_stack_total_prefix(stacks, k + 1, item);
        assert(stacks.subrange(0, k + 1).drop_last() =~= stacks.subrange(0, k));
    } else {
        assert(stacks.subrange(0, k) =~= stacks);
    }
}

/// The position of the entry for `item`, if there is one.
fn find_stack(stacks: &Vec<ItemStack>, item: &str) -> (found: Option<usize>)
    requires
        distinct_items(stacks@),
    ensures
        match found {
            Some(j) => j < stacks@.len() && stacks@[j as int].item@ == item@,
            None => !lists_item(stacks@, item@),
        },
{
    let mut j: usize = 0;
    while j < stacks.len()
        invariant
            j <= stacks@.len(),
            forall|i: int| 0 <= i < j ==> (#[trigger] stacks@[i]).item@ != item@,
        decreases stacks@.len() - j,
    {
        if compare_text(stacks[j].item.as_str(), item) == TextOrder::Equal {
            return Some(j);
        }
        j = j + 1;
    }
    None
}

/// Sums the quantities of each item: one entry per item listed in `stacks`.
///
/// Returns `None` exactly when the total of some item does not fit in a
/// `u64`.
pub fn inventory_quantities(stacks: &Vec<ItemStack>) -> (totals: Option<Vec<ItemStack>>)
    ensures
        match totals {
            Some(t) => {
                &&& distinct_items(t@)
                &&& forall|j: int|
                    0 <= j < t@.len() ==> (#[trigger] t@[j]).quantity == stack_total(
                        stacks@,
                        t@[j].item@,
                    )
                &&& forall|item: Seq<char>| #[trigger]
                    lists_item(t@, item) <==> lists_item(stacks@, item)
                &&& forall|item: Seq<char>| #[trigger] stack_total(stacks@, item) <= u64::MAX
            },
            None => exists|item: Seq<char>| #[trigger] stack_total(stacks@, item) > u64::MAX,
        },
{
    let mut totals: Vec<ItemStack> = Vec::new();
    let mut k: usize = 0;
    while k < stacks.len()
        invariant
            k <= stacks@.len(),
            distinct_items(totals@),
            forall|j: int|
                0 <= j < totals@.len() ==> (#[trigger] totals@[j]).quantity == stack_total(
                    stacks@.subrange(0, k as int),
                    totals@[j].item@,
                ),
            forall|item: Seq<char>| #[trigger]
                lists_item(totals@, item) <==> lists_item(stacks@.subrange(0, k as int), item),
        decreases stacks@.len() - k,
    {
        let ghost before = stacks@.subrange(0, k as int);
        let ghost after = stacks@.subrange(0, k + 1);
        assert(after.drop_last() =~= before);
        let ghost old_totals = totals@;
        let stack = &stacks[k];
        assert(after.last() == *stack);
        match find_stack(&totals, stack.item.as_str()) {
            Some(j) => {
                let current = totals[j].quantity;
                match current.checked_add(stack.quantity) {
                    Some(sum) => {
                        let entry = ItemStack { item: totals[j].item.clone(), quantity: sum };
                        totals.set(j, entry);
                        assert forall|i: int|
                            0 <= i < totals@.len() implies (#[trigger] totals@[i]).quantity
                            == stack_total(after, totals@[i].item@) by {
                            if i != j {
                                assert(totals@[i] == old_totals[i]);
                                assert(old_totals[i].item@ != old_totals[j as int].item@);
                            }
                        }
                        assert forall|a: int, b: int|
                            0 <= a < b < totals@.len() implies (#[trigger] totals@[a]).item@
                            != (#[trigger] totals@[b]).item@ by {
                            assert(old_totals[a].item@ != old_totals[b].item@);
                        }
                        assert forall|item: Seq<char>| #[trigger]
                            lists_item(totals@, item) <==> lists_item(after, item) by {
                            if lists_item(totals@, item) {
                                let i = choose|i: int| 0 <= i < totals@.len() && #[trigger] totals@[i].item@ == item;
                                assert(old_totals[i].item@ == item);
                                assert(lists_item(old_totals, item));
                                let b = choose|b: int| 0 <= b < before.len() && #[trigger] before[b].item@ == item;
                                assert(after[b] == before[b]);
                            }
                            if lists_item(after, item) {
                                let b = choose|b: int| 0 <= b < after.len() && #[trigger] after[b].item@ == item;
                                if b < k {
                                    assert(before[b] == after[b]);
                                    assert(lists_item(before, item));
                                    assert(lists_item(old_totals, item));
                                    let i = choose|i: int| 0 <= i < old_totals.len() && #[trigger] old_totals[i].item@ == item;
                                    assert(totals@[i].item@ == item);
                                } else {
                                    assert(totals@[j as int].item@ == item);
                                }
                            }
                        }
                    },
                    None => {
                        proof {
                            let item = stack.item@;
                            lemma_stack_total_prefix(stacks@, k + 1, item);
                            assert(stack_total(after, item) > u64::MAX);
                        }
                        return None;
                    },
                }
            },
            None => {
                proof {
                    lemma_stack_total_absent(before, stack.item@);
                    assert(!lists_item(before, stack.item@));
                }
                let entry = ItemStack { item: stack.item.clone(), quantity: stack.quantity };
                totals.push(entry);
                assert forall|i: int|
                    0 <= i < totals@.len() implies (#[trigger] totals@[i]).quantity == stack_total(
                        after,
                        totals@[i].item@,
                    ) by {
                    if i < old_totals.len() {
                        assert(totals@[i] == old_totals[i]);
                        assert(lists_item(old_totals, old_totals[i].item@));
                        assert(old_totals[i].item@ != stack.item@);
                    }
                }
                assert forall|a: int, b: int|
                    0 <= a < b < totals@.len() implies (#[trigger] totals@[a]).item@
                    != (#[trigger] totals@[b]).item@ by {
                    if b == old_totals.len() {
                        assert(lists_item(old_totals, old_totals[a].item@));
                    } else {
                        assert(old_totals[a].item@ != old_totals[b].item@);
                    }
                }
                assert forall|item: Seq<char>| #[trigger]
                    lists_item(totals@, item) <==> lists_item(after, item) by {
                    if lists_item(totals@, item) {
                        let i = choose|i: int| 0 <= i < totals@.len() && #[trigger] totals@[i].item@ == item;
                        if i < old_totals.len() {
                            assert(old_totals[i].item@ == item);
                            assert(lists_item(old_totals, item));
                            let b = choose|b: int| 0 <= b < before.len() && #[trigger] before[b].item@ == item;
                            assert(after[b] == before[b]);
                        } else {
                            assert(after[k as int].item@ == item);
                        }
                    }
                    if lists_item(after, item) {
                        let b = choose|b: int| 0 <= b < after.len() && #[trigger] after[b].item@ == item;
                        if b < k {
                            assert(before[b] == after[b]);
                            assert(lists_item(before, item));
                            assert(lists_item(old_totals, item));
                            let i = choose|i: int| 0 <= i < old_totals.len() && #[trigger] old_totals[i].item@ == item;
                            assert(totals@[i].item@ == item);
                        } else {
                            assert(totals@[old_totals.len() as int].item@ == item);
                        }
                    }
                }
            },
        }
        k = k + 1;
    }
    assert(stacks@.subrange(0, k as int) =~= stacks@);
    assert forall|item: Seq<char>| #[trigger] stack_total(stacks@, item) <= u64::MAX by {
        if lists_item(totals@, item) {
            let i = choose|i: int| 0 <= i < totals@.len() && #[trigger] totals@[i].item@ == item;
            assert(totals@[i].quantity == stack_total(stacks@, item));
        } else {
            lemma_stack_total_absent(stacks@, item);
        }
    }
    Some(totals)
}


/// How much of each item can still be offered for sale: the current inventory
/// plus the expected production, less what open sell orders already offer.
/// Only items with something left are listed, once each.
///
/// Returns `None` exactly when the stock of some item (inventory plus
/// production) does not fit in a `u64`.
pub fn sell_quantities(
    inventory: &Vec<ItemStack>,
    production: &Vec<ItemStack>,
    open_orders: &Vec<OrderQuantity>,
) -> (free: Option<Vec<ItemStack>>)
    ensures
        match free {
            Some(f) => {
                &&& distinct_items(f@)
                &&& forall|j: int|
                    0 <= j < f@.len() ==> (#[trigger] f@[j]).quantity == free_to_sell(
                        inventory@ + production@,
                        open_orders@,
                        f@[j].item@,
                    ) && f@[j].quantity > 0
                &&& forall|item: Seq<char>|
                    #![trigger free_to_sell(inventory@ + production@, open_orders@, item)]
                    free_to_sell(inventory@ + production@, open_orders@, item) > 0 ==> lists_item(
                        f@,
                        item,
                    )
            },
            None => exists|item: Seq<char>| #[trigger]
                stack_total(inventory@ + production@, item) > u64::MAX,
        },
{
    let ghost stock_view = inventory@ + production@;
    let mut stock: Vec<ItemStack> = Vec::new();
    let mut i: usize = 0;
    while i < inventory.len()
        invariant
            i <= inventory@.len(),
            stock@ == inventory@.subrange(0, i as int),
        decreases inventory@.len() - i,
    {
        stock.push(ItemStack { item: inventory[i].item.clone(), quantity: inventory[i].quantity });
        assert(stock@ =~= inventory@.subrange(0, i + 1));
        i = i + 1;
    }
    let mut i: usize = 0;
    while i < production.len()
        invariant
            i <= production@.len(),
            stock@ == inventory@ + production@.subrange(0, i as int),
        decreases production@.len() - i,
    {
        stock.push(ItemStack { item: production[i].item.clone(), quantity: production[i].quantity });
        assert(stock@ =~= inventory@ + production@.subrange(0, i + 1));
        i = i + 1;
    }
    assert(stock@ =~= stock_view);
    let mut totals = match inventory_quantities(&stock) {
        Some(totals) => totals,
        None => return None,
    };
    let mut k: usize = 0;
    while k < open_orders.len()
        invariant
            k <= open_orders@.len(),
            stock@ == stock_view,
            distinct_items(totals@),
            forall|j: int|
                0 <= j < totals@.len() ==> (#[trigger] totals@[j]).quantity == free_to_sell(
                    stock_view,
                    open_orders@.subrange(0, k as int),
                    totals@[j].item@,
                ),
            forall|item: Seq<char>| #[trigger] lists_item(totals@, item) <==> lists_item(stock_view, item),
        decreases open_orders@.len() - k,
    {
        let ghost before = open_orders@.subrange(0, k as int);
        let ghost after = open_orders@.subrange(0, k + 1);
        assert(after.drop_last() =~= before);
        let ghost old_totals = totals@;
        let order = &open_orders[k];
        if order.side == OrderSide::Sell {
            match find_stack(&totals, order.item.as_str()) {
                Some(j) => {
                    let left = totals[j].quantity.saturating_sub(order.quantity);
                    let entry = ItemStack { item: totals[j].item.clone(), quantity: left };
                    totals.set(j, entry);
                    assert forall|a: int|
                        0 <= a < totals@.len() implies (#[trigger] totals@[a]).quantity
                        == free_to_sell(stock_view, after, totals@[a].item@) by {
                        if a != j {
                            assert(totals@[a] == old_totals[a]);
                            assert(old_totals[a].item@ != old_totals[j as int].item@);
                        }
                    }
                    assert forall|a: int, b: int|
                        0 <= a < b < totals@.len() implies (#[trigger] totals@[a]).item@
                        != (#[trigger] totals@[b]).item@ by {
                        assert(old_totals[a].item@ != old_totals[b].item@);
                    }
                    assert forall|item: Seq<char>| #[trigger]
                        lists_item(totals@, item) <==> lists_item(stock_view, item) by {
                        if lists_item(totals@, item) {
                            let a = choose|a: int| 0 <= a < totals@.len() && #[trigger] totals@[a].item@ == item;
                            assert(old_totals[a].item@ == item);
                            assert(lists_item(old_totals, item));
                        }
                        if lists_item(stock_view, item) {
                            assert(lists_item(old_totals, item));
                            let a = choose|a: int| 0 <= a < old_totals.len() && #[trigger] old_totals[a].item@ == item;
                            assert(totals@[a].item@ == item);
                        }
                    }
                },
                None => {
                    assert forall|a: int|
                        0 <= a < totals@.len() implies (#[trigger] totals@[a]).quantity
                        == free_to_sell(stock_view, after, totals@[a].item@) by {
                        assert(lists_item(totals@, totals@[a].item@));
                    }
                },
            }
        }
        k = k + 1;
    }
    assert(open_orders@.subrange(0, k as int) =~= open_orders@);
    let mut free: Vec<ItemStack> = Vec::new();
    let mut j: usize = 0;
    while j < totals.len()
        invariant
            j <= totals@.len(),
            distinct_items(totals@),
            distinct_items(free@),
            forall|a: int|
                0 <= a < totals@.len() ==> (#[trigger] totals@[a]).quantity == free_to_sell(
                    stock_view,
                    open_orders@,
                    totals@[a].item@,
                ),
            forall|a: int|
                0 <= a < free@.len() ==> (#[trigger] free@[a]).quantity == free_to_sell(
                    stock_view,
                    open_orders@,
                    free@[a].item@,
                ) && free@[a].quantity > 0,
            forall|a: int| 0 <= a < free@.len() ==> lists_item(totals@.subrange(0, j as int), (#[trigger] free@[a]).item@),
            forall|a: int|
                0 <= a < j && (#[trigger] totals@[a]).quantity > 0 ==> lists_item(free@, totals@[a].item@),
        decreases totals@.len() - j,
    {
        let ghost old_free = free@;
        if totals[j].quantity > 0 {
            free.push(ItemStack { item: totals[j].item.clone(), quantity: totals[j].quantity });
            assert forall|a: int, b: int|
                0 <= a < b < free@.len() implies (#[trigger] free@[a]).item@
                != (#[trigger] free@[b]).item@ by {
                if b == old_free.len() {
                    assert(lists_item(totals@.subrange(0, j as int), old_free[a].item@));
                    let c = choose|c: int| 0 <= c < j && #[trigger] totals@.subrange(0, j as int)[c].item@ == old_free[a].item@;
                    assert(totals@[c].item@ == old_free[a].item@);
                } else {
                    assert(old_free[a].item@ != old_free[b].item@);
                }
            }
            assert forall|a: int|
                0 <= a < j + 1 && (#[trigger] totals@[a]).quantity > 0 implies lists_item(free@, totals@[a].item@) by {
                if a < j {
                    assert(lists_item(old_free, totals@[a].item@));
                    let c = choose|c: int| 0 <= c < old_free.len() && #[trigger] old_free[c].item@ == totals@[a].item@;
                    assert(free@[c] == old_free[c]);
                } else {
                    assert(free@[old_free.len() as int].item@ == totals@[a].item@);
                }
            }
        }
        assert forall|a: int| 0 <= a < free@.len() implies lists_item(totals@.subrange(0, j + 1), (#[trigger] free@[a]).item@) by {
            if a < old_free.len() {
                assert(free@[a] == old_free[a]);
                assert(lists_item(totals@.subrange(0, j as int), old_free[a].item@));
                let c = choose|c: int| 0 <= c < j && #[trigger] totals@.subrange(0, j as int)[c].item@ == old_free[a].item@;
                assert(totals@.subrange(0, j + 1)[c] == totals@.subrange(0, j as int)[c]);
            } else {
                assert(totals@.subrange(0, j + 1)[j as int] == totals@[j as int]);
            }
        }
        j = j + 1;
    }
    assert forall|item: Seq<char>|
        #![trigger free_to_sell(stock_view, open_orders@, item)]
        free_to_sell(stock_view, open_orders@, item) > 0 implies lists_item(free@, item) by {
        if !lists_item(stock_view, item) {
            lemma_stack_total_absent(stock_view, item);
        }
        assert(lists_item(totals@, item));
        let a = choose|a: int| 0 <= a < totals@.len() && #[trigger] totals@[a].item@ == item;
        assert(totals@[a].quantity > 0);
    }
    Some(free)
}

} // verus!
