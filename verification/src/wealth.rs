//! Where wealth comes from, and how exported inventory is keyed.
use vstd::prelude::*;

use crate::data::{item_key, item_key_from_hrid as base_item_key, market_key_of};
use crate::text::{decimal, decimal_string};

verus! {

/// Where an item whose value could not be read was held.
#[derive(Debug, Clone, Copy, PartialEq, Eq, Structural)]
pub enum WealthSource {
    Inventory,
    SellOrder,
}

/// The market key of an inventory entry: the item key, followed by `:` and the
/// enhancement level when that level is not zero.
pub open spec fn inventory_key(item_hrid: Seq<char>, enhancement_level: u32) -> Seq<char> {
    if enhancement_level == 0 {
        item_key(item_hrid)
    } else {
        item_key(item_hrid) + seq![':'] + decimal(enhancement_level as nat)
    }
}

/// The market key under which an inventory entry is priced.
pub fn item_key_from_hrid(item_hrid: &str, enhancement_level: u32) -> (key: String)
    ensures
        key@ == inventory_key(item_hrid@, enhancement_level),
{
    let mut key = base_item_key(item_hrid);
    if enhancement_level != 0 {
        proof {
            reveal_strlit(":");
        }
        assert(":"@ =~= seq![':']);
        key.append(":");
        let level = decimal_string(enhancement_level as u64);
        key.append(level.as_str());
    }
    key
}

/// An inventory entry is priced under the same key as the marketplace lists
/// the item at that enhancement level.
pub proof fn law_inventory_key_is_market_key(item_hrid: Seq<char>, enhancement_level: u32)
    ensures
        inventory_key(item_hrid, enhancement_level) == market_key_of(
            item_hrid,
            decimal(enhancement_level as nat),
        ),
{
    if enhancement_level != 0 {
        crate::text::lemma_decimal_value(enhancement_level as nat);
        let d = decimal(enhancement_level as nat);
        if d == seq!['0'] {
            assert(d.drop_last() =~= Seq::<char>::empty());
            assert(crate::text::digits_value(Seq::<char>::empty()) == 0);
        }
    } else {
        assert(decimal(0) =~= seq!['0']);
    }
}

} // verus!
