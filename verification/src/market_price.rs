//! The game's discrete market-price bins.
//!
//! Prices on the marketplace are integers that must lie on a grid whose spacing
//! (the "step") widens as the price grows, with a different multiplier for each
//! leading digit. Listing prices are snapped onto that grid.
use vstd::prelude::*;

verus! {

/// Which way a price is snapped onto the grid when it falls between two bins.
#[derive(Debug, Clone, Copy, PartialEq, Eq, Structural)]
pub enum PriceBinDirection {
    Down,
    Up,
}

/// `10^n`.
pub open spec fn pow10(n: nat) -> nat
    decreases n,
{
    if n == 0 {
        1
    } else {
        10 * pow10((n - 1) as nat)
    }
}

/// The number of decimal digits of `p` (at least one).
pub open spec fn num_digits(p: nat) -> nat
    decreases p,
{
    if p < 10 {
        1
    } else {
        1 + num_digits(p / 10)
    }
}

/// `10^(digits - 1)`: the place value of the leading digit of `p`.
pub open spec fn magnitude(p: nat) -> nat {
    pow10((num_digits(p) - 1) as nat)
}

/// The leading decimal digit of `p`.
pub open spec fn leading_digit(p: nat) -> nat {
    p / magnitude(p)
}

/// The bin width the client uses around `price`.
pub open spec fn price_step(price: nat) -> nat {
    if price <= 1 {
        1
    } else {
        let d = num_digits(price);
        let lead = leading_digit(price);
        if (lead == 1 || lead == 2) && d >= 3 {
            5 * pow10((d - 3) as nat)
        } else if (lead == 3 || lead == 4) && d >= 2 {
            pow10((d - 2) as nat)
        } else if 5 <= lead <= 9 && d >= 2 {
            2 * pow10((d - 2) as nat)
        } else {
            1
        }
    }
}

/// The bin at or below `price`.
pub open spec fn lower_bin(price: nat) -> nat {
    (price - price % price_step(price)) as nat
}

/// The price that `bin_market_price` snaps `price` to.
///
/// Prices of 0 and 1 become 2. Otherwise the price is kept when it is on the
/// grid; between two bins it goes down, unless the direction is `Up` or the
/// lower bin would fall below the vendor price, in which case it goes up.
pub open spec fn binned_price(price: nat, direction: PriceBinDirection, vendor_price: nat) -> nat {
    if price <= 1 {
        2
    } else {
        let step = price_step(price);
        let remainder = price % step;
        let lower = lower_bin(price);
        let round_up = direction == PriceBinDirection::Up || lower < vendor_price;
        if round_up && remainder > 0 {
            lower + step
        } else {
            lower
        }
    }
}

pub proof fn lemma_pow10_positive(n: nat)
    ensures
        pow10(n) >= 1,
    decreases n,
{
    if n > 0 {
        lemma_pow10_positive((n - 1) as nat);
    }
}

pub proof fn lemma_pow10_monotone(a: nat, b: nat)
    requires
        a <= b,
    ensures
        pow10(a) <= pow10(b),
    decreases b,
{
    if a < b {
        lemma_pow10_monotone(a, (b - 1) as nat);
        lemma_pow10_positive((b - 1) as nat);
    }
}

/// A number lies in `[10^k, 10^(k+1))` exactly when it has `k + 1` digits.
pub proof fn lemma_digits_of_range(x: nat, k: nat)
    requires
        pow10(k) <= x < pow10(k + 1),
    ensures
        num_digits(x) == k + 1,
    decreases k,
{
    if k == 0 {
        assert(pow10(1) == 10) by {
            reveal_with_fuel(pow10, 2);
        }
    } else {
        let km1 = (k - 1) as nat;
        assert(pow10(k) == 10 * pow10(km1));
        assert(pow10(k + 1) == 10 * pow10(k));
        lemma_pow10_positive(km1);
        assert(x >= 10);
        assert(pow10(km1) <= x / 10) by (nonlinear_arith)
            requires
                10 * pow10(km1) <= x,
        ;
        assert(x / 10 < pow10(k)) by (nonlinear_arith)
            requires
                x < 10 * pow10(k),
        ;
        lemma_digits_of_range(x / 10, km1);
    }
}

/// Every positive number lies between its magnitude and ten times it.
pub proof fn lemma_magnitude_bounds(p: nat)
    requires
        p >= 1,
    ensures
        num_digits(p) >= 1,
        magnitude(p) <= p < 10 * magnitude(p),
        1 <= leading_digit(p) <= 9,
        leading_digit(p) * magnitude(p) <= p < (leading_digit(p) + 1) * magnitude(p),
    decreases p,
{
    if p < 10 {
        assert(magnitude(p) == 1);
    } else {
        lemma_magnitude_bounds(p / 10);
        let q = p / 10;
        assert(num_digits(p) == 1 + num_digits(q));
        assert(magnitude(p) == 10 * magnitude(q));
        let mq = magnitude(q);
        assert(mq <= q < 10 * mq);
        assert(10 * mq <= p < 100 * mq) by (nonlinear_arith)
            requires
                mq <= q < 10 * mq,
                q == p / 10,
        ;
    }
    let m = magnitude(p);
    lemma_pow10_positive((num_digits(p) - 1) as nat);
    let lead = leading_digit(p);
    assert(lead * m <= p < (lead + 1) * m && 1 <= lead <= 9) by (nonlinear_arith)
        requires
            m >= 1,
            m <= p < 10 * m,
            lead == p / m,
    ;
}


/// The bin width that the game client uses for prices around `price`.
///
/// Bins widen as prices grow: 1 below 50, 2 up to 99, then 5, 10 and 20 for
/// the hundreds led by 1-2, 3-4 and 5-9, and so on for each further digit.
pub fn market_price_step(price: u64) -> (step: u64)
    ensures
        step == price_step(price as nat),
        step >= 1,
{
    if price <= 1 {
        return 1;
    }
    let mut place: u64 = 1;
    let mut digits: u64 = 1;
    while price / place >= 10
        invariant
            1 <= digits <= place,
            place == pow10((digits - 1) as nat),
            1 <= place <= price,
        decreases price - place,
    {
        proof {
            assert(price >= 10 * place) by (nonlinear_arith)
                requires
                    price / place >= 10,
                    place >= 1,
            ;
            assert(pow10(digits as nat) == 10 * pow10((digits - 1) as nat));
        }
        place = place * 10;
        digits = digits + 1;
    }
    proof {
        assert(price < 10 * place) by (nonlinear_arith)
            requires
                price / place < 10,
                place >= 1,
        ;
        assert(pow10(digits as nat) == 10 * pow10((digits - 1) as nat));
        lemma_digits_of_range(price as nat, (digits - 1) as nat);
        assert(place == magnitude(price as nat));
    }
    let leading_digit = price / place;
    proof {
        lemma_magnitude_bounds(price as nat);
    }
    if (leading_digit == 1 || leading_digit == 2) && digits >= 3 {
        proof {
            let d3 = (digits - 3) as nat;
            assert(pow10((digits - 1) as nat) == 10 * pow10((digits - 2) as nat));
            assert(pow10((digits - 2) as nat) == 10 * pow10(d3));
            lemma_pow10_positive(d3);
        }
        5 * (place / 100)
    } else if (leading_digit == 3 || leading_digit == 4) && digits >= 2 {
        proof {
            assert(pow10((digits - 1) as nat) == 10 * pow10((digits - 2) as nat));
        }
        place / 10
    } else if 5 <= leading_digit && leading_digit <= 9 && digits >= 2 {
        proof {
            assert(pow10((digits - 1) as nat) == 10 * pow10((digits - 2) as nat));
            lemma_pow10_positive((digits - 2) as nat);
        }
        2 * (place / 10)
    } else {
        1
    }
}

/// Snaps an integer price onto the game's price grid.
///
/// `vendor_price` is the price the game's vendor pays for the item: a price
/// between two bins is never rounded down below it.
pub fn bin_market_price(price: u64, direction: PriceBinDirection, vendor_price: u64) -> (binned: u64)
    requires
        binned_price(price as nat, direction, vendor_price as nat) <= u64::MAX,
    ensures
        binned == binned_price(price as nat, direction, vendor_price as nat),
{
    if price <= 1 {
        return 2;
    }
    let step = market_price_step(price);
    let remainder = price % step;
    proof {
        assert(remainder <= price) by (nonlinear_arith)
            requires
                remainder == price % step,
                step >= 1,
        ;
    }
    let lower = price - remainder;
    let round_up = direction == PriceBinDirection::Up || lower < vendor_price;
    if round_up && remainder > 0 {
        lower + step
    } else {
        lower
    }
}

/// `bin_market_price` for every input: `None` exactly when the snapped price
/// does not fit in a `u64`.
pub fn checked_bin_market_price(price: u64, direction: PriceBinDirection, vendor_price: u64) -> (binned: Option<u64>)
    ensures
        binned == (if binned_price(price as nat, direction, vendor_price as nat) <= u64::MAX {
            Some(binned_price(price as nat, direction, vendor_price as nat) as u64)
        } else {
            None
        }),
{
    if price <= 1 {
        return Some(2);
    }
    let step = market_price_step(price);
    let remainder = price % step;
    proof {
        assert(remainder <= price) by (nonlinear_arith)
            requires
                remainder == price % step,
                step >= 1,
        ;
    }
    let lower = price - remainder;
    let round_up = direction == PriceBinDirection::Up || lower < vendor_price;
    if round_up && remainder > 0 {
        lower.checked_add(step)
    } else {
        Some(lower)
    }
}


/// The bin width is at least one, and the magnitude of the price is a whole
/// number of bins.
pub proof fn lemma_step_divides_magnitude(p: nat)
    requires
        p >= 2,
    ensures
        price_step(p) >= 1,
        magnitude(p) % price_step(p) == 0,
{
    lemma_magnitude_bounds(p);
    let d = num_digits(p);
    let lead = leading_digit(p);
    let m = magnitude(p);
    if (lead == 1 || lead == 2) && d >= 3 {
        let k = (d - 3) as nat;
        assert(pow10((d - 1) as nat) == 10 * pow10((d - 2) as nat));
        assert(pow10((d - 2) as nat) == 10 * pow10(k));
        lemma_pow10_positive(k);
        assert(m == (5 * pow10(k)) * 20);
        vstd::arithmetic::div_mod::lemma_mod_multiples_basic(20, 5 * pow10(k) as int);
    } else if (lead == 3 || lead == 4) && d >= 2 {
        let k = (d - 2) as nat;
        assert(pow10((d - 1) as nat) == 10 * pow10(k));
        lemma_pow10_positive(k);
        vstd::arithmetic::div_mod::lemma_mod_multiples_basic(10, pow10(k) as int);
    } else if 5 <= lead <= 9 && d >= 2 {
        let k = (d - 2) as nat;
        assert(pow10((d - 1) as nat) == 10 * pow10(k));
        lemma_pow10_positive(k);
        assert(m == (2 * pow10(k)) * 5);
        vstd::arithmetic::div_mod::lemma_mod_multiples_basic(5, 2 * pow10(k) as int);
    }
}

/// Every price has a bin width of at least one.
pub proof fn lemma_step_positive(p: nat)
    ensures
        price_step(p) >= 1,
{
    if p >= 2 {
        lemma_step_divides_magnitude(p);
    }
}

/// A number between `lead * m` and `(lead + 1) * m` shares the digit count and
/// leading digit (hence the bin width) of `p`.
pub proof fn lemma_same_band(p: nat, x: nat)
    requires
        p >= 1,
        leading_digit(p) * magnitude(p) <= x < (leading_digit(p) + 1) * magnitude(p),
    ensures
        num_digits(x) == num_digits(p),
        magnitude(x) == magnitude(p),
        leading_digit(x) == leading_digit(p),
        p >= 2 ==> price_step(x) == price_step(p),
{
    lemma_magnitude_bounds(p);
    let d = num_digits(p);
    let m = magnitude(p);
    let lead = leading_digit(p);
    lemma_pow10_positive((d - 1) as nat);
    assert(m <= x < 10 * m) by (nonlinear_arith)
        requires
            1 <= lead <= 9,
            m >= 1,
            lead * m <= x < (lead + 1) * m,
    ;
    assert(pow10(d) == 10 * pow10((d - 1) as nat));
    lemma_digits_of_range(x, (d - 1) as nat);
    assert(x / m == lead) by (nonlinear_arith)
        requires
            m >= 1,
            lead * m <= x < (lead + 1) * m,
    ;
    if p >= 2 {
        if d == 1 {
            assert(m == 1);
            assert(p / 1 == p) by (nonlinear_arith);
            assert(lead == p);
        } else {
            assert(m >= 10) by {
                lemma_pow10_positive((d - 2) as nat);
                assert(pow10((d - 1) as nat) == 10 * pow10((d - 2) as nat));
            }
        }
        assert(x >= 2) by (nonlinear_arith)
            requires
                lead * m <= x,
                lead >= 1,
                m >= 1,
                m == 1 ==> lead == p,
                p >= 2,
                m != 1 ==> m >= 10,
        ;
    }
}

/// A price that is a whole number of its magnitude is on its own grid.
pub proof fn lemma_multiple_of_magnitude_on_grid(x: nat)
    requires
        x >= 2,
        x % magnitude(x) == 0,
    ensures
        x % price_step(x) == 0,
{
    lemma_step_divides_magnitude(x);
    lemma_magnitude_bounds(x);
    let m = magnitude(x);
    let s = price_step(x);
    assert(x % s == 0) by (nonlinear_arith)
        requires
            m >= 1,
            s >= 1,
            x % m == 0,
            m % s == 0,
    {
        vstd::arithmetic::div_mod::lemma_fundamental_div_mod(x as int, m as int);
        vstd::arithmetic::div_mod::lemma_fundamental_div_mod(m as int, s as int);
        assert(x == s * ((m / s) * (x / m)));
        vstd::arithmetic::div_mod::lemma_mod_multiples_basic(((m / s) * (x / m)) as int, s as int);
    }
}

/// A multiple of `s` that does not exceed `p` does not exceed the largest
/// multiple of `s` at or below `p`, and the next multiple above that one does
/// not pass any multiple of `s` that lies above `p`.
proof fn lemma_multiples_around(p: nat, s: nat, c: nat, u: nat)
    requires
        s >= 1,
        c % s == 0,
        u % s == 0,
        c <= p < u,
    ensures
        c <= p - p % s,
        (p - p % s) as nat % s == 0,
        p - p % s + s <= u,
{
    vstd::arithmetic::div_mod::lemma_fundamental_div_mod(p as int, s as int);
    vstd::arithmetic::div_mod::lemma_fundamental_div_mod(c as int, s as int);
    vstd::arithmetic::div_mod::lemma_fundamental_div_mod(u as int, s as int);
    let q = p / s;
    let r = p % s;
    assert(p - r == s * q);
    vstd::arithmetic::div_mod::lemma_mod_multiples_basic(q as int, s as int);
    assert(c <= p - r) by (nonlinear_arith)
        requires
            c == s * (c / s),
            p == s * q + r,
            0 <= r < s,
            c <= p,
            s >= 1,
    ;
    assert(p - r + s <= u) by (nonlinear_arith)
        requires
            u == s * (u / s),
            p == s * q + r,
            0 <= r < s,
            p < u,
            s >= 1,
    ;
}

/// Every snapped price lies on its own grid: it is at least 2 and a whole
/// number of its own bin width.
pub proof fn law_binned_price_is_on_grid(price: nat, direction: PriceBinDirection, vendor_price: nat)
    ensures
        binned_price(price, direction, vendor_price) >= 2,
        binned_price(price, direction, vendor_price) % price_step(
            binned_price(price, direction, vendor_price),
        ) == 0,
{
    let r = binned_price(price, direction, vendor_price);
    if price <= 1 {
        assert(num_digits(2) == 1);
        assert(magnitude(2) == 1);
        assert(price_step(2) == 1);
        return;
    }
    let p = price;
    lemma_magnitude_bounds(p);
    lemma_step_divides_magnitude(p);
    let s = price_step(p);
    let m = magnitude(p);
    let lead = leading_digit(p);
    let c = lead * m;
    let u = (lead + 1) * m;
    assert(c % s == 0 && u % s == 0) by (nonlinear_arith)
        requires
            m % s == 0,
            s >= 1,
            m >= 1,
            c == lead * m,
            u == (lead + 1) * m,
    {
        vstd::arithmetic::div_mod::lemma_fundamental_div_mod(m as int, s as int);
        assert(c == s * (lead * (m / s)));
        assert(u == s * ((lead + 1) * (m / s)));
        vstd::arithmetic::div_mod::lemma_mod_multiples_basic((lead * (m / s)) as int, s as int);
        vstd::arithmetic::div_mod::lemma_mod_multiples_basic(((lead + 1) * (m / s)) as int, s as int);
    }
    lemma_multiples_around(p, s, c, u);
    let lower = lower_bin(p);
    lemma_same_band(p, lower);
    if r == lower {
        return;
    }
    let up = lower + s;
    assert(r == up);
    if up < u {
        lemma_same_band(p, up);
        vstd::arithmetic::div_mod::lemma_mod_add_multiples_vanish(lower as int, s as int);
    } else {
        assert(up == u);
        let d = num_digits(p);
        if lead <= 8 {
            lemma_same_band(p, lead * m);
            assert(m <= u < 10 * m) by (nonlinear_arith)
                requires
                    1 <= lead <= 8,
                    u == (lead + 1) * m,
                    m >= 1,
            ;
            assert(pow10(d) == 10 * m);
            lemma_digits_of_range(u, (d - 1) as nat);
            assert(magnitude(u) == m);
            vstd::arithmetic::div_mod::lemma_mod_multiples_basic((lead + 1) as int, m as int);
            lemma_multiple_of_magnitude_on_grid(u);
        } else {
            assert(u == pow10(d));
            assert(pow10(d + 1) == 10 * pow10(d));
            lemma_pow10_positive(d);
            lemma_digits_of_range(u, d);
            assert(magnitude(u) == u);
            vstd::arithmetic::div_mod::lemma_mod_self_0(u as int);
            lemma_multiple_of_magnitude_on_grid(u);
        }
    }
}

/// Snapping is idempotent: a price that has been snapped onto the grid stays
/// where it is when it is snapped again, in either direction and for any
/// vendor price.
pub proof fn law_binning_is_idempotent(
    price: nat,
    direction: PriceBinDirection,
    vendor_price: nat,
    again: PriceBinDirection,
    again_vendor_price: nat,
)
    ensures
        binned_price(binned_price(price, direction, vendor_price), again, again_vendor_price)
            == binned_price(price, direction, vendor_price),
{
    law_binned_price_is_on_grid(price, direction, vendor_price);
}

/// A price of at least 2 is snapped to one of the two bins around it: down to
/// the bin at or below it, or up to the bin after that one. Snapping up never
/// lowers the price; snapping down never raises it unless the lower bin would
/// fall below the vendor price.
pub proof fn law_binned_price_brackets(price: nat, direction: PriceBinDirection, vendor_price: nat)
    requires
        price >= 2,
    ensures
        lower_bin(price) <= price < lower_bin(price) + price_step(price),
        lower_bin(price) % price_step(price) == 0,
        binned_price(price, direction, vendor_price) == lower_bin(price)
            || binned_price(price, direction, vendor_price) == lower_bin(price) + price_step(price),
        direction == PriceBinDirection::Up ==> binned_price(price, direction, vendor_price) >= price,
        direction == PriceBinDirection::Down && lower_bin(price) >= vendor_price
            ==> binned_price(price, direction, vendor_price) == lower_bin(price),
        lower_bin(price) < vendor_price ==> binned_price(price, direction, vendor_price) >= price,
{
    lemma_step_positive(price);
    let s = price_step(price);
    vstd::arithmetic::div_mod::lemma_fundamental_div_mod(price as int, s as int);
    let q = price / s;
    let r = price % s;
    let l = lower_bin(price);
    assert(l == price - r);
    assert(price == s * q + r);
    assert(l == q * s) by (nonlinear_arith)
        requires
            price == s * q + r,
            l == price - r,
    ;
    vstd::arithmetic::div_mod::lemma_mod_multiples_basic(q as int, s as int);
}

/// Prices of 0 and 1 have bins of width 1 and snap to the same price as 2,
/// the smallest price on the grid.
pub proof fn law_tiny_prices_snap_like_two(price: nat, direction: PriceBinDirection, vendor_price: nat)
    requires
        price <= 1,
    ensures
        price_step(price) == 1,
        binned_price(price, direction, vendor_price) == binned_price(2, direction, vendor_price),
        binned_price(2, direction, vendor_price) == 2,
{
    law_binned_price_is_on_grid(2, direction, vendor_price);
    assert(num_digits(2) == 1);
    assert(magnitude(2) == 1);
    assert(price_step(2) == 1);
}

/// Bins never narrow as prices grow.
pub proof fn law_step_widens_with_price(p: nat, q: nat)
    requires
        p <= q,
    ensures
        price_step(p) <= price_step(q),
{
    lemma_step_positive(q);
    if p <= 1 {
        return;
    }
    lemma_magnitude_bounds(p);
    lemma_magnitude_bounds(q);
    let dp = num_digits(p);
    let dq = num_digits(q);
    let mp = magnitude(p);
    let mq = magnitude(q);
    if dp > dq {
        lemma_pow10_monotone(dq, (dp - 1) as nat);
        assert(pow10(dq) == 10 * mq);
        assert(false);
    }
    if dp == dq {
        assert(leading_digit(p) <= leading_digit(q)) by (nonlinear_arith)
            requires
                p <= q,
                mp == mq,
                mp >= 1,
                leading_digit(p) == p / mp,
                leading_digit(q) == q / mq,
        {
            vstd::arithmetic::div_mod::lemma_div_is_ordered(p as int, q as int, mp as int);
        }
        return;
    }
    // Fewer digits: compare the widest bin of p with the narrowest bin of q.
    if dp == 1 {
        return;
    }
    if dp == 2 {
        assert(pow10(0) == 1);
        assert(price_step(p) <= 2);
        let k = (dq - 3) as nat;
        lemma_pow10_positive(k);
        assert(price_step(q) >= 5) by {
            assert(pow10((dq - 1) as nat) == 10 * pow10((dq - 2) as nat));
            assert(pow10((dq - 2) as nat) == 10 * pow10(k));
        }
        return;
    }
    let kp = (dp - 3) as nat;
    let kq = (dq - 3) as nat;
    lemma_pow10_positive(kp);
    lemma_pow10_monotone(kp + 1, kq);
    assert(pow10(kp + 1) == 10 * pow10(kp));
    assert(pow10((dp - 2) as nat) == 10 * pow10(kp));
    assert(price_step(p) <= 20 * pow10(kp));
    assert(price_step(q) >= 5 * pow10(kq));
}


/// The bin width of a price, told by its leading digit and place value: for a
/// price between `lead * 10^k` and `(lead + 1) * 10^k`, prices led by 1 or 2
/// use bins of `5 * 10^(k-2)` from the hundreds up, prices led by 3 or 4 use
/// `10^(k-1)` and prices led by 5 to 9 use `2 * 10^(k-1)` from the tens up, and
/// every other price uses bins of 1.
pub proof fn law_step_per_leading_digit(price: nat, lead: nat, k: nat)
    requires
        price >= 2,
        1 <= lead <= 9,
        lead * pow10(k) <= price < (lead + 1) * pow10(k),
    ensures
        (lead == 1 || lead == 2) && k >= 2 ==> price_step(price) == 5 * pow10((k - 2) as nat),
        (lead == 3 || lead == 4) && k >= 1 ==> price_step(price) == pow10((k - 1) as nat),
        5 <= lead && k >= 1 ==> price_step(price) == 2 * pow10((k - 1) as nat),
        k == 0 || (k == 1 && lead <= 2) ==> price_step(price) == 1,
{
    lemma_pow10_positive(k);
    let m = pow10(k);
    assert(pow10(k + 1) == 10 * m);
    assert(m <= price < 10 * m) by (nonlinear_arith)
        requires
            1 <= lead <= 9,
            m >= 1,
            lead * m <= price < (lead + 1) * m,
    ;
    lemma_digits_of_range(price, k);
    assert(magnitude(price) == m);
    assert(price / m == lead) by (nonlinear_arith)
        requires
            m >= 1,
            lead * m <= price < (lead + 1) * m,
    ;
    assert(leading_digit(price) == lead);
    assert(num_digits(price) == k + 1);
}

} // verus!
