//! Market snapshots: item keys and what a snapshot contains.
use vstd::prelude::*;

use crate::text::{find_last_char, has_prefix, starts_with, strip_prefix_or_keep, without_prefix};

verus! {

/// The prefix of the game's item identifiers.
pub open spec fn items_prefix() -> Seq<char> {
    seq!['/', 'i', 't', 'e', 'm', 's', '/']
}

/// The market key of an item: its identifier without the `/items/` prefix.
pub open spec fn item_key(item_hrid: Seq<char>) -> Seq<char> {
    without_prefix(item_hrid, items_prefix())
}

/// The key under which a snapshot lists an item at an enhancement level given
/// as text: the item key for level `"0"`, the item key, `:` and the level
/// otherwise.
pub open spec fn market_key_of(item_hrid: Seq<char>, level: Seq<char>) -> Seq<char> {
    if level == seq!['0'] {
        item_key(item_hrid)
    } else {
        item_key(item_hrid) + seq![':'] + level
    }
}

/// Turns an item identifier such as `/items/egg` into its market key `egg`;
/// an identifier without the prefix is kept as it is.
pub fn item_key_from_hrid(item_hrid: &str) -> (key: String)
    ensures
        key@ == item_key(item_hrid@),
{
    proof {
        reveal_strlit("/items/");
    }
    assert("/items/"@ =~= items_prefix());
    strip_prefix_or_keep(item_hrid, "/items/")
}

/// The snapshot key for an item identifier and the enhancement level the
/// official marketplace lists it under.
pub fn market_key(item_hrid: &str, level: &str) -> (key: String)
    ensures
        key@ == market_key_of(item_hrid@, level@),
{
    let item_key = item_key_from_hrid(item_hrid);
    proof {
        reveal_strlit("0");
        reveal_strlit(":");
    }
    assert("0"@ =~= seq!['0']);
    assert(":"@ =~= seq![':']);
    if starts_with(level, "0") && level.unicode_len() == 1 {
        assert(level@ =~= seq!['0']);
        item_key
    } else {
        assert(level@ != seq!['0']) by {
            if level@ == seq!['0'] {
                assert(level@.subrange(0, 1) =~= "0"@);
                assert(has_prefix(level@, "0"@));
            }
        }
        let mut key = item_key;
        key.append(":");
        key.append(level);
        key
    }
}

/// What the summary of a snapshot reads of one quote: its key and whether it
/// carries an average price and a volume.
#[derive(Debug, Clone)]
pub struct QuotePresence {
    pub key: String,
    pub has_average: bool,
    pub has_volume: bool,
}

/// Counts of what a market snapshot contains.
#[derive(Debug, Clone, Copy, PartialEq, Eq, Structural)]
pub struct MarketSnapshotSummary {
    /// Quotes for base items: keys without an enhancement level.
    pub item_count: usize,
    pub quote_count: usize,
    pub quotes_with_average: usize,
    pub quotes_with_volume: usize,
}

/// The key names a base item: it carries no `:level` suffix.
pub open spec fn is_base_key(key: Seq<char>) -> bool {
    forall|i: int| 0 <= i < key.len() ==> key[i] != ':'
}

/// The number of quotes with a base-item key.
pub open spec fn count_base_keys(quotes: Seq<QuotePresence>) -> nat
    decreases quotes.len(),
{
    if quotes.len() == 0 {
        0
    } else {
        count_base_keys(quotes.drop_last()) + (if is_base_key(quotes.last().key@) {
            1nat
        } else {
            0nat
        })
    }
}

/// The number of quotes that carry an average price.
pub open spec fn count_with_average(quotes: Seq<QuotePresence>) -> nat
    decreases quotes.len(),
{
    if quotes.len() == 0 {
        0
    } else {
        count_with_average(quotes.drop_last()) + (if quotes.last().has_average {
            1nat
        } else {
            0nat
        })
    }
}

/// The number of quotes that carry a volume.
pub open spec fn count_with_volume(quotes: Seq<QuotePresence>) -> nat
    decreases quotes.len(),
{
    if quotes.len() == 0 {
        0
    } else {
        count_with_volume(quotes.drop_last()) + (if quotes.last().has_volume {
            1nat
        } else {
            0nat
        })
    }
}

/// Each count counts exactly the quotes with its own property: quotes with a
/// base-item key, quotes with an average, quotes with a volume.
pub proof fn law_summary_counts_each_property(quotes: Seq<QuotePresence>)
    ensures
        count_base_keys(quotes) == quotes.filter(|q: QuotePresence| is_base_key(q.key@)).len(),
        count_with_average(quotes) == quotes.filter(|q: QuotePresence| q.has_average).len(),
        count_with_volume(quotes) == quotes.filter(|q: QuotePresence| q.has_volume).len(),
        (forall|i: int| 0 <= i < quotes.len() ==> !(#[trigger] quotes[i]).has_volume)
            ==> count_with_volume(quotes) == 0,
        (forall|i: int| 0 <= i < quotes.len() ==> !(#[trigger] quotes[i]).has_average)
            ==> count_with_average(quotes) == 0,
    decreases quotes.len(),
{
    let base = |q: QuotePresence| is_base_key(q.key@);
    let avg = |q: QuotePresence| q.has_average;
    let vol = |q: QuotePresence| q.has_volume;
    if quotes.len() == 0 {
        reveal(Seq::filter);
    } else {
        let t = quotes.drop_last();
        law_summary_counts_each_property(t);
        assert(quotes =~= t.push(quotes.last()));
        t.lemma_filter_push(quotes.last(), base);
        t.lemma_filter_push(quotes.last(), avg);
        t.lemma_filter_push(quotes.last(), vol);
        if forall|i: int| 0 <= i < quotes.len() ==> !(#[trigger] quotes[i]).has_volume {
            assert(!quotes[quotes.len() - 1].has_volume);
            assert forall|i: int| 0 <= i < t.len() implies !(#[trigger] t[i]).has_volume by {
                assert(t[i] == quotes[i]);
            }
        }
        if forall|i: int| 0 <= i < quotes.len() ==> !(#[trigger] quotes[i]).has_average {
            assert(!quotes[quotes.len() - 1].has_average);
            assert forall|i: int| 0 <= i < t.len() implies !(#[trigger] t[i]).has_average by {
                assert(t[i] == quotes[i]);
            }
        }
    }
}

proof fn lemma_counts_bounded(quotes: Seq<QuotePresence>)
    ensures
        count_base_keys(quotes) <= quotes.len(),
        count_with_average(quotes) <= quotes.len(),
        count_with_volume(quotes) <= quotes.len(),
    decreases quotes.len(),
{
    if quotes.len() > 0 {
        lemma_counts_bounded(quotes.drop_last());
    }
}

/// Summarizes the quotes of a market snapshot.
pub fn summarize_market_snapshot(quotes: &Vec<QuotePresence>) -> (summary: MarketSnapshotSummary)
    ensures
        summary.item_count == count_base_keys(quotes@),
        summary.quote_count == quotes@.len(),
        summary.quotes_with_average == count_with_average(quotes@),
        summary.quotes_with_volume == count_with_volume(quotes@),
{
    let mut item_count: usize = 0;
    let mut quotes_with_average: usize = 0;
    let mut quotes_with_volume: usize = 0;
    let mut i: usize = 0;
    while i < quotes.len()
        invariant
            i <= quotes@.len(),
            item_count == count_base_keys(quotes@.subrange(0, i as int)),
            quotes_with_average == count_with_average(quotes@.subrange(0, i as int)),
            quotes_with_volume == count_with_volume(quotes@.subrange(0, i as int)),
        decreases quotes@.len() - i,
    {
        let ghost before = quotes@.subrange(0, i as int);
        let ghost after = quotes@.subrange(0, i + 1);
        assert(after.drop_last() =~= before);
        proof {
            lemma_counts_bounded(before);
        }
        let quote = &quotes[i];
        let colon = find_last_char(quote.key.as_str(), ':');
        if colon.is_none() {
            item_count = item_count + 1;
        } else {
            assert(!is_base_key(quote.key@));
        }
        if quote.has_average {
            quotes_with_average = quotes_with_average + 1;
        }
        if quote.has_volume {
            quotes_with_volume = quotes_with_volume + 1;
        }
        i = i + 1;
    }
    assert(quotes@.subrange(0, i as int) =~= quotes@);
    MarketSnapshotSummary {
        item_count,
        quote_count: quotes.len(),
        quotes_with_average,
        quotes_with_volume,
    }
}

} // verus!
