//! Which market histories to fetch, where they are cached, and how a fetch run
//! is reported.
use vstd::prelude::*;

use crate::data::{is_base_key, item_key, items_prefix, market_key_of};
use crate::text::{
    TextOrder, compare_text, decimal, decimal_string, digits_value, escape_slashes,
    find_last_char, has_prefix, is_digit, last_index_of, law_decimal_round_trip, lemma_decimal_value,
    lemma_last_index_of, lemma_seq_less_irreflexive, lemma_seq_less_transitive,
    lemma_seq_less_trichotomy, parse_u32, parsed_u32, seq_less, slashes_escaped,
    strip_prefix_or_keep, substring, trim, trimmed, without_prefix,
};

verus! {

/// The endpoint that serves an item's market history.
pub open spec fn mooket_history_url() -> Seq<char> {
    "https://q7.nainai.eu.org/api/market/history"@
}

/// How long a cached history file stays fresh: seven days, in seconds.
pub const CACHE_TTL_SECS: u64 = 604800;

/// One item history to fetch: an item key and an enhancement level.
#[derive(Debug, Clone, PartialEq, Eq)]
pub struct MarketHistoryTarget {
    pub item: String,
    pub level: u32,
}

impl View for MarketHistoryTarget {
    type V = (Seq<char>, u32);

    open spec fn view(&self) -> (Seq<char>, u32) {
        (self.item@, self.level)
    }
}

/// The order of history targets: by item key, then by level.
pub open spec fn target_less(a: (Seq<char>, u32), b: (Seq<char>, u32)) -> bool {
    seq_less(a.0, b.0) || (a.0 == b.0 && a.1 < b.1)
}

/// `item` carries an enhancement marker: a `+` followed by a digit.
pub open spec fn has_plus_marker(item: Seq<char>) -> bool {
    exists|i: int| 0 <= i < item.len() - 1 && item[i] == '+' && is_digit(#[trigger] item[i + 1])
}

/// Whether `item` carries an enhancement marker such as `+1`.
pub fn has_plus_level(item: &str) -> (b: bool)
    ensures
        b == has_plus_marker(item@),
{
    let n = item.unicode_len();
    if n < 2 {
        return false;
    }
    let mut i: usize = 0;
    while i + 1 < n
        invariant
            n == item@.len(),
            n >= 2,
            i + 1 <= n,
            forall|j: int| 0 <= j < i ==> !(item@[j] == '+' && is_digit(#[trigger] item@[j + 1])),
        decreases n - i,
    {
        let c = item.get_char(i + 1);
        if item.get_char(i) == '+' && '0' <= c && c <= '9' {
            return true;
        }
        i = i + 1;
    }
    false
}

/// The history target that a snapshot key stands for.
///
/// A key is an item key, optionally followed by `:` and an enhancement level.
/// Only base items are fetched: a key whose level does not read as 0, or whose
/// item carries an enhancement marker, stands for no target.
pub open spec fn target_of_key(key: Seq<char>) -> Option<(Seq<char>, u32)> {
    let colon = last_index_of(key, ':');
    let item = if colon >= 0 {
        key.subrange(0, colon)
    } else {
        key
    };
    let level = if colon >= 0 {
        parsed_u32(key.subrange(colon + 1, key.len() as int))
    } else {
        Some(0u32)
    };
    match level {
        Some(l) => if l != 0 || has_plus_marker(item) {
            None
        } else {
            Some((item, 0u32))
        },
        None => None,
    }
}

/// Reads the history target of a snapshot key.
pub fn parse_market_key(key: &str) -> (target: Option<MarketHistoryTarget>)
    ensures
        match target {
            Some(t) => target_of_key(key@) == Some(t@),
            None => target_of_key(key@) is None,
        },
{
    let n = key.unicode_len();
    let colon = find_last_char(key, ':');
    let (item, level) = match colon {
        Some(i) => {
            let level = parse_u32(&substring(key, i + 1, n));
            match level {
                Some(level) => (substring(key, 0, i), level),
                None => return None,
            }
        },
        None => (String::from_str(key), 0),
    };
    if level != 0 || has_plus_level(item.as_str()) {
        return None;
    }
    Some(MarketHistoryTarget { item, level })
}

/// Orders two history targets.
fn compare_targets(a: &MarketHistoryTarget, b: &MarketHistoryTarget) -> (o: TextOrder)
    ensures
        o == TextOrder::Less <==> target_less(a@, b@),
        o == TextOrder::Equal <==> a@ == b@,
        o == TextOrder::Greater <==> target_less(b@, a@),
{
    proof {
        lemma_seq_less_trichotomy(a.item@, b.item@);
        lemma_seq_less_irreflexive(a.item@);
    }
    match compare_text(a.item.as_str(), b.item.as_str()) {
        TextOrder::Less => TextOrder::Less,
        TextOrder::Greater => TextOrder::Greater,
        TextOrder::Equal => if a.level < b.level {
            TextOrder::Less
        } else if a.level == b.level {
            TextOrder::Equal
        } else {
            TextOrder::Greater
        },
    }
}

proof fn lemma_target_less_transitive(a: (Seq<char>, u32), b: (Seq<char>, u32), c: (Seq<char>, u32))
    requires
        target_less(a, b),
        target_less(b, c),
    ensures
        target_less(a, c),
{
    if seq_less(a.0, b.0) && seq_less(b.0, c.0) {
        lemma_seq_less_transitive(a.0, b.0, c.0);
    }
}

proof fn lemma_target_less_trichotomy(a: (Seq<char>, u32), b: (Seq<char>, u32))
    ensures
        !(target_less(a, b) && target_less(b, a)),
        !target_less(a, a),
        a != b ==> target_less(a, b) || target_less(b, a),
{
    lemma_seq_less_trichotomy(a.0, b.0);
    lemma_seq_less_irreflexive(a.0);
}

/// `targets` holds a target with the view `t`.
pub open spec fn holds_target(targets: Seq<MarketHistoryTarget>, t: (Seq<char>, u32)) -> bool {
    exists|i: int| 0 <= i < targets.len() && #[trigger] targets[i]@ == t
}

/// One of the first `n` keys stands for the target `t`.
pub open spec fn some_key_targets(keys: Seq<String>, n: int, t: (Seq<char>, u32)) -> bool {
    exists|j: int| 0 <= j < n && #[trigger] target_of_key(keys[j]@) == Some(t)
}

/// The targets are in strictly increasing order.
pub open spec fn strictly_sorted(targets: Seq<MarketHistoryTarget>) -> bool {
    forall|i: int, j: int|
        0 <= i < j < targets.len() ==> target_less(#[trigger] targets[i]@, #[trigger] targets[j]@)
}

/// Adds `target` to a strictly sorted list unless it is already there.
fn insert_sorted(targets: &mut Vec<MarketHistoryTarget>, target: MarketHistoryTarget)
    requires
        strictly_sorted(old(targets)@),
    ensures
        strictly_sorted(final(targets)@),
        forall|t: (Seq<char>, u32)|
            #[trigger] holds_target(final(targets)@, t) <==> (t == target@ || holds_target(
                old(targets)@,
                t,
            )),
{
    let ghost before = targets@;
    let mut i: usize = 0;
    while i < targets.len() && compare_targets(&targets[i], &target) == TextOrder::Less
        invariant
            targets@ == before,
            i <= targets@.len(),
            forall|k: int| 0 <= k < i ==> target_less(#[trigger] targets@[k]@, target@),
        decreases targets@.len() - i,
    {
        i = i + 1;
    }
    if i < targets.len() && compare_targets(&targets[i], &target) == TextOrder::Equal {
        assert forall|t: (Seq<char>, u32)|
            #[trigger] holds_target(targets@, t) <==> (t == target@ || holds_target(before, t)) by {
            if t == target@ {
                assert(targets@[i as int]@ == t);
            }
        }
        return;
    }
    proof {
        if i < targets@.len() {
            lemma_target_less_trichotomy(targets@[i as int]@, target@);
        }
    }
    targets.insert(i, target);
    let ghost after = targets@;
    assert forall|a: int, b: int| 0 <= a < b < after.len() implies target_less(
        #[trigger] after[a]@,
        #[trigger] after[b]@,
    ) by {
        if b < i {
            assert(after[a] == before[a] && after[b] == before[b]);
        } else if b == i {
            assert(after[a] == before[a]);
        } else if a == i {
            assert(after[b] == before[b - 1]);
            if b - 1 > i {
                assert(target_less(before[i as int]@, before[b - 1]@));
                lemma_target_less_transitive(target@, before[i as int]@, before[b - 1]@);
            }
        } else if a < i {
            assert(after[a] == before[a] && after[b] == before[b - 1]);
            lemma_target_less_transitive(before[a]@, target@, before[i as int]@);
            if b - 1 > i {
                lemma_target_less_transitive(before[a]@, before[i as int]@, before[b - 1]@);
            }
        } else {
            assert(after[a] == before[a - 1] && after[b] == before[b - 1]);
        }
    }
    assert forall|t: (Seq<char>, u32)|
        #[trigger] holds_target(after, t) <==> (t == target@ || holds_target(before, t)) by {
        if holds_target(after, t) {
            let k = choose|k: int| 0 <= k < after.len() && #[trigger] after[k]@ == t;
            if k < i {
                assert(after[k] == before[k]);
            } else if k > i {
                assert(after[k] == before[k - 1]);
            }
        }
        if holds_target(before, t) {
            let k = choose|k: int| 0 <= k < before.len() && #[trigger] before[k]@ == t;
            if k < i {
                assert(after[k] == before[k]);
            } else {
                assert(after[k + 1] == before[k]);
            }
        }
        if t == target@ {
            assert(after[i as int]@ == t);
        }
    }
}

/// The base-item histories to fetch for a snapshot with the given keys:
/// each target that some key stands for, once, in order of item key.
pub fn history_targets(keys: &Vec<String>) -> (targets: Vec<MarketHistoryTarget>)
    ensures
        strictly_sorted(targets@),
        forall|i: int| 0 <= i < targets@.len() ==> (#[trigger] targets@[i]).level == 0,
        forall|t: (Seq<char>, u32)|
            #[trigger] holds_target(targets@, t) <==> some_key_targets(
                keys@,
                keys@.len() as int,
                t,
            ),
{
    let mut targets: Vec<MarketHistoryTarget> = Vec::new();
    let mut k: usize = 0;
    while k < keys.len()
        invariant
            k <= keys@.len(),
            strictly_sorted(targets@),
            forall|i: int| 0 <= i < targets@.len() ==> (#[trigger] targets@[i]).level == 0,
            forall|t: (Seq<char>, u32)|
                #[trigger] holds_target(targets@, t) <==> some_key_targets(keys@, k as int, t),
        decreases keys@.len() - k,
    {
        let ghost before = targets@;
        match parse_market_key(keys[k].as_str()) {
            Some(target) => {
                let ghost t0 = target@;
                assert(target_of_key(keys@[k as int]@) == Some(t0));
                insert_sorted(&mut targets, target);
                assert forall|i: int| 0 <= i < targets@.len() implies (#[trigger] targets@[i]).level
                    == 0 by {
                    assert(holds_target(targets@, targets@[i]@));
                    if targets@[i]@ != t0 {
                        assert(holds_target(before, targets@[i]@));
                        let j = choose|j: int| 0 <= j < before.len() && #[trigger] before[j]@ == targets@[i]@;
                    }
                }
                assert forall|t: (Seq<char>, u32)|
                    #[trigger] holds_target(targets@, t) <==> some_key_targets(keys@, k + 1, t) by {
                    if t == t0 {
                        assert(target_of_key(keys@[k as int]@) == Some(t));
                    }
                    if some_key_targets(keys@, k + 1, t) {
                        let j = choose|j: int| 0 <= j < k + 1 && #[trigger] target_of_key(keys@[j]@) == Some(t);
                        if j < k {
                            assert(some_key_targets(keys@, k as int, t));
                        }
                    }
                    if some_key_targets(keys@, k as int, t) {
                        let j = choose|j: int| 0 <= j < k && #[trigger] target_of_key(keys@[j]@) == Some(t);
                        assert(some_key_targets(keys@, k + 1, t));
                    }
                }
            },
            None => {
                assert forall|t: (Seq<char>, u32)|
                    #[trigger] holds_target(targets@, t) <==> some_key_targets(keys@, k + 1, t) by {
                    if some_key_targets(keys@, k + 1, t) {
                        let j = choose|j: int| 0 <= j < k + 1 && #[trigger] target_of_key(keys@[j]@) == Some(t);
                        assert(j != k);
                        assert(some_key_targets(keys@, k as int, t));
                    }
                    if some_key_targets(keys@, k as int, t) {
                        let j = choose|j: int| 0 <= j < k && #[trigger] target_of_key(keys@[j]@) == Some(t);
                        assert(some_key_targets(keys@, k + 1, t));
                    }
                }
            },
        }
        k = k + 1;
    }
    targets
}


/// The item key that a user-supplied item names: the input without
/// surrounding white space and without a leading `/items/`.
pub open spec fn item_key_of_input(item: Seq<char>) -> Seq<char> {
    without_prefix(trimmed(item), items_prefix())
}

/// Reads an item key from user input such as ` /items/egg `.
pub fn item_key_from_input(item: &str) -> (key: String)
    ensures
        key@ == item_key_of_input(item@),
{
    let trimmed_item = trim(item);
    proof {
        reveal_strlit("/items/");
    }
    assert("/items/"@ =~= items_prefix());
    strip_prefix_or_keep(trimmed_item.as_str(), "/items/")
}

/// The item identifier for an item key: `/items/` followed by the key.
pub fn item_hrid_from_key(item: &str) -> (item_hrid: String)
    ensures
        item_hrid@ == items_prefix() + item@,
{
    proof {
        reveal_strlit("/items/");
    }
    assert("/items/"@ =~= items_prefix());
    let mut item_hrid = String::from_str("/items/");
    item_hrid.append(item);
    item_hrid
}

/// The address of the history of one item at one level over `days` days.
pub open spec fn history_source_url(item_hrid: Seq<char>, level: u32, days: u32) -> Seq<char> {
    mooket_history_url() + "?item_id="@ + slashes_escaped(item_hrid) + "&variant="@ + decimal(
        level as nat,
    ) + "&days="@ + decimal(days as nat)
}

/// The history address recorded with a cached history, with the item
/// identifier's slashes escaped.
pub fn source_url(item_hrid: &str, level: u32, days: u32) -> (url: String)
    ensures
        url@ == history_source_url(item_hrid@, level, days),
{
    let mut url = String::from_str("https://q7.nainai.eu.org/api/market/history");
    url.append("?item_id=");
    let escaped = escape_slashes(item_hrid);
    url.append(escaped.as_str());
    url.append("&variant=");
    let level_text = decimal_string(level as u64);
    url.append(level_text.as_str());
    url.append("&days=");
    let days_text = decimal_string(days as u64);
    url.append(days_text.as_str());
    url
}

/// The history address ends with the level and the number of days as they
/// were asked for: the text after its last `=` reads back as `days`, and the
/// text before its last `&` ends with `=` followed by text that reads back as
/// `level`. The address starts with the history endpoint.
pub proof fn law_source_url_carries_level_and_days(item_hrid: Seq<char>, level: u32, days: u32)
    ensures
        ({
            let url = history_source_url(item_hrid, level, days);
            let eq = last_index_of(url, '=');
            let amp = last_index_of(url, '&');
            let head = url.subrange(0, amp);
            let eq2 = last_index_of(head, '=');
            &&& has_prefix(url, mooket_history_url() + "?item_id="@ + slashes_escaped(item_hrid))
            &&& 0 <= eq < url.len()
            &&& parsed_u32(url.subrange(eq + 1, url.len() as int)) == Some(days)
            &&& 0 <= amp < eq
            &&& 0 <= eq2 < amp
            &&& parsed_u32(head.subrange(eq2 + 1, amp)) == Some(level)
        }),
{
    let d = decimal(days as nat);
    let l = decimal(level as nat);
    lemma_decimal_value(days as nat);
    lemma_decimal_value(level as nat);
    law_decimal_round_trip(days);
    law_decimal_round_trip(level);
    reveal_strlit("&variant=");
    reveal_strlit("&days=");
    let x = mooket_history_url() + "?item_id="@ + slashes_escaped(item_hrid);
    let v = "&variant="@;
    let ds = "&days="@;
    let url = history_source_url(item_hrid, level, days);
    assert(url =~= x + v + l + ds + d);
    let e_pos = (x.len() + v.len() + l.len() + ds.len() - 1) as int;
    let a_pos = (x.len() + v.len() + l.len()) as int;
    assert(url[e_pos] == '=');
    assert forall|j: int| e_pos < j < url.len() implies url[j] != '=' by {
        assert(url[j] == d[j - e_pos - 1]);
        assert(is_digit(d[j - e_pos - 1]));
    }
    lemma_last_index_of(url, '=', e_pos);
    assert(url.subrange(e_pos + 1, url.len() as int) =~= d);
    assert(url[a_pos] == '&');
    assert forall|j: int| a_pos < j < url.len() implies url[j] != '&' by {
        if j <= e_pos {
            assert(url[j] == ds[j - a_pos]);
        } else {
            assert(url[j] == d[j - e_pos - 1]);
            assert(is_digit(d[j - e_pos - 1]));
        }
    }
    lemma_last_index_of(url, '&', a_pos);
    let head = url.subrange(0, a_pos);
    let e2 = (x.len() + v.len() - 1) as int;
    assert(head[e2] == '=');
    assert forall|j: int| e2 < j < head.len() implies head[j] != '=' by {
        assert(head[j] == l[j - e2 - 1]);
        assert(is_digit(l[j - e2 - 1]));
    }
    lemma_last_index_of(head, '=', e2);
    assert(head.subrange(e2 + 1, a_pos) =~= l);
    assert(url.subrange(0, x.len() as int) =~= x);
}

/// The name of the cache file for an item's history at a level:
/// `item.json` for the base level, `item__plusN.json` otherwise.
pub open spec fn cache_file_name(item: Seq<char>, level: u32) -> Seq<char> {
    if level == 0 {
        item + ".json"@
    } else {
        item + "__plus"@ + decimal(level as nat) + ".json"@
    }
}

/// A cache file name is the item key followed by `.json`, with `__plus` and
/// the level in between when the level is not zero; the text between
/// `__plus` and `.json` reads back as the level.
pub proof fn law_cache_file_name_shows_item_and_level(item: Seq<char>, level: u32)
    ensures
        ({
            let name = cache_file_name(item, level);
            &&& has_prefix(name, item)
            &&& name.len() >= item.len() + 5
            &&& name.subrange(name.len() - 5, name.len() as int) == ".json"@
            &&& level == 0 ==> name.len() == item.len() + 5
            &&& level != 0 ==> name.subrange(item.len() as int, (item.len() + 6) as int) == "__plus"@
                && parsed_u32(name.subrange((item.len() + 6) as int, name.len() - 5)) == Some(level)
        }),
{
    reveal_strlit(".json");
    reveal_strlit("__plus");
    let name = cache_file_name(item, level);
    let j = ".json"@;
    if level == 0 {
        assert(name =~= item + j);
        assert(name.subrange(0, item.len() as int) =~= item);
        assert(name.subrange(name.len() - 5, name.len() as int) =~= j);
    } else {
        let d = decimal(level as nat);
        law_decimal_round_trip(level);
        let p = "__plus"@;
        assert(name =~= item + p + d + j);
        assert(name.subrange(0, item.len() as int) =~= item);
        assert(name.subrange(name.len() - 5, name.len() as int) =~= j);
        assert(name.subrange(item.len() as int, (item.len() + 6) as int) =~= p);
        assert(name.subrange((item.len() + 6) as int, name.len() - 5) =~= d);
    }
}

/// The file, inside the history directory, that caches an item's history.
pub fn history_cache_file_name(item: &str, level: u32) -> (name: String)
    ensures
        name@ == cache_file_name(item@, level),
{
    let mut name = String::from_str(item);
    if level != 0 {
        name.append("__plus");
        let level_text = decimal_string(level as u64);
        name.append(level_text.as_str());
    }
    name.append(".json");
    name
}

/// Why a history request was refused.
#[derive(Debug, Clone, Copy, PartialEq, Eq, Structural)]
pub enum HistoryRequestError {
    /// The request asked for zero days of history.
    ZeroDays,
}

impl HistoryRequestError {
    /// The message shown for the error.
    pub fn message(&self) -> (text: String)
        ensures
            text@ == "days must be greater than 0"@,
    {
        match self {
            HistoryRequestError::ZeroDays => String::from_str("days must be greater than 0"),
        }
    }
}

/// Checks a history request: it must ask for at least one day.
pub fn validate_history_request(days: u32) -> (checked: Result<(), HistoryRequestError>)
    ensures
        checked is Err <==> days == 0,
        checked is Err ==> checked == Err::<(), HistoryRequestError>(HistoryRequestError::ZeroDays),
{
    if days == 0 {
        return Err(HistoryRequestError::ZeroDays);
    }
    Ok(())
}

/// Whether a cached history file of the given age (in seconds; `None` when
/// there is no cache file) is used instead of fetching the history again.
///
/// A cache younger than seven days is kept, unless a refresh is forced.
pub fn should_use_cache(force: bool, cache_age_secs: Option<u64>) -> (use_cache: bool)
    ensures
        use_cache <==> !force && cache_age_secs is Some && cache_age_secs->0 < CACHE_TTL_SECS,
{
    if force {
        return false;
    }
    match cache_age_secs {
        Some(age) => age < CACHE_TTL_SECS,
        None => false,
    }
}

/// A history target that could not be fetched, and why.
#[derive(Debug, Clone, PartialEq)]
pub struct FetchHistoryFailure {
    pub item: String,
    pub level: u32,
    pub error: String,
}

/// What happened to one history target during a fetch run.
#[derive(Debug, Clone, PartialEq)]
pub enum HistoryFetchResult {
    /// The history was downloaded and written to the cache.
    Fetched,
    /// A fresh cache file was kept.
    Cached,
    /// The fetch failed with the given message.
    Failed(String),
}

/// The tally of a run that fetches every history target.
#[derive(Debug, Clone, PartialEq)]
pub struct FetchAllHistoryReport {
    pub requested: usize,
    pub fetched: usize,
    pub cached: usize,
    pub failed: usize,
    pub failures: Vec<FetchHistoryFailure>,
}

impl FetchAllHistoryReport {
    /// The number of targets recorded so far.
    pub open spec fn processed(&self) -> int {
        self.fetched + self.cached + self.failed
    }

    /// The report is consistent: no more targets recorded than requested, and
    /// one failure entry per failed target.
    pub open spec fn consistent(&self) -> bool {
        &&& self.processed() <= self.requested
        &&& self.failures@.len() == self.failed
    }

    /// An empty report for a run over `requested` targets.
    pub fn new(requested: usize) -> (report: Self)
        ensures
            report.requested == requested,
            report.fetched == 0,
            report.cached == 0,
            report.failed == 0,
            report.failures@.len() == 0,
            report.consistent(),
    {
        FetchAllHistoryReport { requested, fetched: 0, cached: 0, failed: 0, failures: Vec::new() }
    }

    /// Records what happened to one target. Returns whether the run pauses
    /// before the next target: it does after every network attempt, that is,
    /// after everything but a kept cache.
    pub fn record(&mut self, target: &MarketHistoryTarget, result: HistoryFetchResult) -> (pause: bool)
        requires
            old(self).consistent(),
            old(self).processed() < old(self).requested,
        ensures
            final(self).consistent(),
            final(self).requested == old(self).requested,
            final(self).processed() == old(self).processed() + 1,
            pause == !(result is Cached),
            final(self).fetched == old(self).fetched + (if result is Fetched { 1int } else { 0 }),
            final(self).cached == old(self).cached + (if result is Cached { 1int } else { 0 }),
            final(self).failed == old(self).failed + (if result is Failed { 1int } else { 0 }),
            result is Failed ==> final(self).failures@ == old(self).failures@.push(
                FetchHistoryFailure {
                    item: target.item,
                    level: target.level,
                    error: result->Failed_0,
                },
            ),
            !(result is Failed) ==> final(self).failures@ == old(self).failures@,
    {
        match result {
            HistoryFetchResult::Fetched => {
                self.fetched = self.fetched + 1;
                true
            },
            HistoryFetchResult::Cached => {
                self.cached = self.cached + 1;
                false
            },
            HistoryFetchResult::Failed(error) => {
                self.failed = self.failed + 1;
                self.failures.push(
                    FetchHistoryFailure { item: target.item.clone(), level: target.level, error },
                );
                true
            },
        }
    }
}


/// History is only ever requested for base items: every target that a key
/// stands for has level 0 and no enhancement marker such as `+1`.
pub proof fn law_targets_are_base_items(key: Seq<char>)
    ensures
        target_of_key(key) matches Some(t) ==> t.1 == 0 && !has_plus_marker(t.0),
{
}

/// The snapshot key of an item at level `"0"` stands for the base-level
/// history of that item, provided the item key itself holds no `:` and no
/// enhancement marker.
pub proof fn law_base_key_names_its_target(item_hrid: Seq<char>)
    requires
        is_base_key(item_key(item_hrid)),
        !has_plus_marker(item_key(item_hrid)),
    ensures
        target_of_key(market_key_of(item_hrid, seq!['0'])) == Some((item_key(item_hrid), 0u32)),
{
    lemma_last_index_of(item_key(item_hrid), ':', -1);
}

/// The snapshot key of an item at a nonzero enhancement level stands for no
/// history target.
pub proof fn law_enhanced_key_names_no_target(item_hrid: Seq<char>, level: u32)
    requires
        level > 0,
    ensures
        target_of_key(market_key_of(item_hrid, decimal(level as nat))) is None,
{
    let d = decimal(level as nat);
    lemma_decimal_value(level as nat);
    law_decimal_round_trip(level);
    assert(d != seq!['0']) by {
        if d == seq!['0'] {
            assert(d.drop_last() =~= Seq::<char>::empty());
            assert(digits_value(Seq::<char>::empty()) == 0);
        }
    }
    let k = item_key(item_hrid);
    let key = k + seq![':'] + d;
    assert(market_key_of(item_hrid, d) == key);
    assert forall|j: int| k.len() < j < key.len() implies key[j] != ':' by {
        assert(key[j] == d[j - k.len() - 1]);
        assert(is_digit(d[j - k.len() - 1]));
    }
    lemma_last_index_of(key, ':', k.len() as int);
    assert(key.subrange((k.len() + 1) as int, key.len() as int) =~= d);
}


/// The identifier built from an item key gives that key back.
pub proof fn law_item_hrid_round_trip(key: Seq<char>)
    ensures
        item_key(items_prefix() + key) == key,
{
    let hrid = items_prefix() + key;
    assert(hrid.subrange(0, items_prefix().len() as int) =~= items_prefix());
    assert(hrid.subrange(items_prefix().len() as int, hrid.len() as int) =~= key);
}

} // verus!
