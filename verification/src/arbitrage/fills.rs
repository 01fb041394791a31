//! What holds of the fills of orders against a book: an order takes from each level no more than the
//! level offers and no more than it still needs.
use crate::accuracy::{
    counted, lemma_difference_near, lemma_difference_shrinks, lemma_difference_sign, lemma_plain, lemma_product_monotone,
    lemma_product_near, lemma_quotient_near, lemma_sum_counted, lemma_sum_finite, lemma_sum_grows_counted,
    lemma_vast, plain, unit, vast,
};
use crate::arbitrage::graph::moderate;
use crate::arbitrage::risk::{
    bid_depth, bought_through, is_void, leg, levels_of, no_fill, or_nothing, sold_through, value_usd, Fill,
    REST_BITS,
};
use crate::arbitrage::simulate::dust;
use crate::arbitrage::spread::{lemma_finite_below, lemma_there_and_back};
use crate::domain::{BookView, MarketView, TradeView};
use crate::double::{
    at_most, difference, lemma_sum_error, lemma_sum_with_zero, lemma_units_increase, lemma_value_bounds, less, product,
    quotient, smaller, sum, zero, Double,
};
use crate::rounding::{FRACTION_RANGE, INFINITY_MAGNITUDE};
use crate::store::TickerStoreView;
use vstd::arithmetic::power2::{
    lemma2_to64, lemma2_to64_rest, lemma_pow2_adds, lemma_pow2_pos, pow2,
};
use vstd::prelude::*;

verus! {

/// Whether all prices and quantities are finite.
pub open spec fn finite_levels(levels: Seq<(Double, Double)>) -> bool {
    forall|i: int| 0 <= i < levels.len() ==> (#[trigger] levels[i]).0.finite() && levels[i].1.finite()
}

/// Whether a level has no price or no quantity above zero.
pub open spec fn offers_nothing(level: (Double, Double)) -> bool {
    level.0.value() <= 0 || level.1.value() <= 0
}

/// Whether a number is above one part in `parts`, by more than rounding.
pub open spec fn above_part(x: Double, parts: int) -> bool {
    0x100_0000_0000 * (parts * x.value()) >= 0x100_0000_0001 * unit()
}

/// Whether a number is below one part in `parts`, by more than rounding.
pub open spec fn below_part(x: Double, parts: int) -> bool {
    0x100_0000_0000 * (parts * x.value()) <= 0xff_ffff_ffff * unit()
}

/// Whether of two fills the second took `x` of the base currency from a level of the bids beyond the
/// first, which is what the level holds or what was left to sell, whichever is less.
pub open spec fn sells_part(
    a: Fill,
    b: Fill,
    level: (Double, Double),
    left: Double,
    x: Double,
) -> bool {
    &&& x == left || x == level.1
    &&& at_most(x, left)
    &&& at_most(x, level.1)
    &&& b.used == sum(a.used, x)
    &&& b.taken == sum(a.taken, product(x, level.0))
}

/// Whether of two fills the second took `x` of the base currency from a level of the asks beyond the
/// first, which is what the level holds or what the rest buys there, whichever is less.
pub open spec fn buys_part(
    a: Fill,
    b: Fill,
    level: (Double, Double),
    left: Double,
    x: Double,
) -> bool {
    &&& x == quotient(left, level.0) || x == level.1
    &&& at_most(x, quotient(left, level.0))
    &&& at_most(x, level.1)
    &&& b.taken == sum(a.taken, x)
    &&& b.used == sum(a.used, product(x, level.0))
}

/// The bounds below which a rest is left alone, in units.
proof fn lemma_rest_bounds()
    ensures
        plain(dust()),
        dust().value() > 0,
        unit() > 0,
        0x1000_0000_0000_0000_0000_0000 * dust().value() == 0x11_9799_812d_ea11 * unit(),
        plain(Double { bits: REST_BITS }),
        (Double { bits: REST_BITS }).value() > 0,
        0x4_0000_0000_0000_0000_0000 * (Double { bits: REST_BITS }).value() == 0x11_2e0b_e826_d695
            * unit(),
{
    let fr = FRACTION_RANGE as nat;
    let m = dust().magnitude();
    assert(m / fr == 983 && m % fr == 0x1_9799_812d_ea11);
    let k = (Double { bits: REST_BITS }).magnitude();
    assert(k / fr == 993 && k % fr == 0x1_2e0b_e826_d695);
    lemma2_to64();
    lemma2_to64_rest();
    lemma_pow2_adds(64, 28);
    lemma_pow2_adds(64, 18);
    lemma_pow2_adds(92, 982);
    lemma_pow2_adds(82, 992);
    lemma_pow2_pos(982);
    lemma_pow2_pos(992);
    let (s, t) = (pow2(982), pow2(992));
    let (v, w) = (dust().value(), (Double { bits: REST_BITS }).value());
    assert(v == 0x11_9799_812d_ea11 * s);
    assert(w == 0x11_2e0b_e826_d695 * t);
    assert(0x1000_0000_0000_0000_0000_0000 * v == 0x11_9799_812d_ea11 * unit())
        by (nonlinear_arith)
        requires
            v == 0x11_9799_812d_ea11 * s,
            unit() == 0x1000_0000_0000_0000_0000_0000 * s,
    ;
    assert(0x4_0000_0000_0000_0000_0000 * w == 0x11_2e0b_e826_d695 * unit()) by (nonlinear_arith)
        requires
            w == 0x11_2e0b_e826_d695 * t,
            unit() == 0x4_0000_0000_0000_0000_0000 * t,
    ;
}

/// A number well above or below the bounds, against them.
pub proof fn lemma_against_bounds(x: Double)
    ensures
        above_part(x, 1_000_000_000_000) ==> !at_most(x, dust()),
        !x.nan() && below_part(x, 1_000_000_000_000) ==> less(x, dust()),
        above_part(x, 1_000_000_000) ==> !at_most(x, Double { bits: REST_BITS }),
        !x.nan() && below_part(x, 1_000_000_000) ==> at_most(x, Double { bits: REST_BITS }),
{
    lemma_rest_bounds();
}

/// What is left of an amount: a number, and where it is above zero a finite one that is no more than
/// the amount.
proof fn lemma_left(whole: Double, used: Double)
    requires
        plain(whole),
        counted(used),
    ensures
        !difference(whole, used).nan(),
        difference(whole, used).value() > 0 ==> plain(used) && plain(difference(whole, used))
            && difference(whole, used).value() <= whole.value() && used.value() < whole.value(),
{
    if used.finite() {
        lemma_difference_shrinks(whole, used);
        lemma_difference_sign(whole, used);
        lemma_plain(difference(whole, used));
    } else {
        lemma_units_increase(0, INFINITY_MAGNITUDE as nat);
    }
}

/// What one more level of the bids changes, by the rest that was left before it.
spec fn sale_extended(
    a: Fill,
    b: Fill,
    level: (Double, Double),
    sell: Double,
    base: Seq<char>,
    store: TickerStoreView,
) -> bool {
    let left = difference(sell, a.used);
    &&& counted(a.used) && counted(a.taken)
    &&& offers_nothing(level) ==> b == a
    &&& at_most(left, dust()) ==> b.used == a.used && b.taken == a.taken
    &&& !offers_nothing(level) && !at_most(left, dust()) ==> sells_part(
        a,
        b,
        level,
        left,
        smaller(left, level.1),
    ) && b.depth == sum(a.depth, bid_depth(level, base, store))
}

/// The part of a level that a sale takes.
proof fn lemma_sale_part(f: Fill, l: (Double, Double), sell: Double)
    requires
        plain(sell),
        counted(f.used),
        counted(f.taken),
        l.0.finite(),
        l.1.finite(),
        !offers_nothing(l),
        !at_most(difference(sell, f.used), dust()),
    ensures
        ({
            let rest = difference(sell, f.used);
            let part = smaller(rest, l.1);
            &&& plain(part)
            &&& at_most(part, rest)
            &&& at_most(part, l.1)
            &&& part == rest || part == l.1
            &&& counted(sum(f.used, part))
            &&& counted(sum(f.taken, product(part, l.0)))
        }),
{
    lemma_rest_bounds();
    lemma_left(sell, f.used);
    lemma_plain(l.0);
    lemma_plain(l.1);
    let part = smaller(difference(sell, f.used), l.1);
    lemma_product_near(part, l.0);
    lemma_sum_counted(f.taken, product(part, l.0));
    lemma_sum_counted(f.used, part);
}

proof fn lemma_sale_extended(
    bids: Seq<(Double, Double)>,
    level: (Double, Double),
    i: nat,
    f: Fill,
    sell: Double,
    base: Seq<char>,
    store: TickerStoreView,
)
    requires
        i <= bids.len(),
        finite_levels(bids.push(level)),
        plain(sell),
        counted(f.used),
        counted(f.taken),
    ensures
        sale_extended(
            sold_through(bids, i, f, sell, base, store),
            sold_through(bids.push(level), i, f, sell, base, store),
            level,
            sell,
            base,
            store,
        ),
    decreases bids.len() - i,
{
    let all = bids.push(level);
    let l = all[i as int];
    assert(l.0.finite() && l.1.finite());
    let rest = difference(sell, f.used);
    let part = smaller(rest, l.1);
    let next = Fill {
        taken: sum(f.taken, product(part, l.0)),
        used: sum(f.used, part),
        depth: sum(f.depth, bid_depth(l, base, store)),
    };
    assert(zero().value() == 0);
    assert(is_void(l) == offers_nothing(l));
    if !is_void(l) && !at_most(rest, dust()) {
        lemma_sale_part(f, l, sell);
    }
    if i < bids.len() {
        assert(l == bids[i as int]);
        if is_void(l) {
            lemma_sale_extended(bids, level, i + 1, f, sell, base, store);
        } else if !at_most(rest, dust()) {
            lemma_sale_extended(bids, level, i + 1, next, sell, base, store);
        }
    } else {
        assert(sold_through(all, i + 1, f, sell, base, store) == f);
        assert(sold_through(all, i + 1, next, sell, base, store) == next);
    }
}

/// One more level of the bids: a level without price or quantity changes nothing; where nothing is
/// left to sell nothing more is sold; and else the level takes what is left or what it holds,
/// whichever is less, at its own price.
pub proof fn lemma_sale_level(
    bids: Seq<(Double, Double)>,
    level: (Double, Double),
    sell: Double,
    base: Seq<char>,
    store: TickerStoreView,
)
    requires
        finite_levels(bids.push(level)),
        plain(sell),
    ensures
        ({
            let a = sold_through(bids, 0, no_fill(), sell, base, store);
            let b = sold_through(bids.push(level), 0, no_fill(), sell, base, store);
            let left = difference(sell, a.used);
            &&& counted(a.used) && counted(a.taken)
            &&& offers_nothing(level) ==> b == a
            &&& below_part(left, 1_000_000_000_000) ==> b.used == a.used && b.taken == a.taken
            &&& !offers_nothing(level) && above_part(left, 1_000_000_000_000) ==> exists|x: Double| #[trigger]
                sells_part(a, b, level, left, x)
            &&& b.used == a.used && b.taken == a.taken || exists|x: Double| #[trigger]
                sells_part(a, b, level, left, x)
        }),
{
    lemma_sale_extended(bids, level, 0, no_fill(), sell, base, store);
    let a = sold_through(bids, 0, no_fill(), sell, base, store);
    let b = sold_through(bids.push(level), 0, no_fill(), sell, base, store);
    let left = difference(sell, a.used);
    lemma_left(sell, a.used);
    lemma_against_bounds(left);
    if !offers_nothing(level) && !at_most(left, dust()) {
        assert(sells_part(a, b, level, left, smaller(left, level.1)));
    }
}

/// What one more level of the asks changes, by the rest that was left before it.
spec fn purchase_extended(
    a: Fill,
    b: Fill,
    level: (Double, Double),
    spend: Double,
    quote: Seq<char>,
    store: TickerStoreView,
) -> bool {
    let left = difference(spend, a.used);
    &&& counted(a.used) && counted(a.taken)
    &&& offers_nothing(level) ==> b == a
    &&& at_most(left, Double { bits: REST_BITS }) ==> b.used == a.used && b.taken == a.taken
    &&& !offers_nothing(level) && !at_most(left, Double { bits: REST_BITS }) ==> buys_part(
        a,
        b,
        level,
        left,
        smaller(quotient(left, level.0), level.1),
    ) && b.depth == sum(
        a.depth,
        or_nothing(value_usd(quote, product(level.0, level.1), store)),
    )
}

/// The part of a level that a purchase takes.
proof fn lemma_purchase_part(f: Fill, l: (Double, Double), spend: Double)
    requires
        plain(spend),
        counted(f.used),
        counted(f.taken),
        l.0.finite(),
        l.1.finite(),
        !offers_nothing(l),
        !at_most(difference(spend, f.used), Double { bits: REST_BITS }),
    ensures
        ({
            let most = quotient(difference(spend, f.used), l.0);
            let part = smaller(most, l.1);
            &&& plain(part)
            &&& at_most(part, most)
            &&& at_most(part, l.1)
            &&& part == most || part == l.1
            &&& counted(sum(f.taken, part))
            &&& counted(sum(f.used, product(part, l.0)))
        }),
{
    lemma_rest_bounds();
    lemma_left(spend, f.used);
    lemma_plain(l.0);
    lemma_plain(l.1);
    let most = quotient(difference(spend, f.used), l.0);
    let part = smaller(most, l.1);
    lemma_quotient_near(difference(spend, f.used), l.0);
    if most.infinite() {
        lemma_units_increase(l.1.magnitude(), most.magnitude());
    }
    lemma_product_near(part, l.0);
    lemma_sum_counted(f.taken, part);
    lemma_sum_counted(f.used, product(part, l.0));
}

proof fn lemma_purchase_extended(
    asks: Seq<(Double, Double)>,
    level: (Double, Double),
    i: nat,
    f: Fill,
    spend: Double,
    quote: Seq<char>,
    store: TickerStoreView,
)
    requires
        i <= asks.len(),
        finite_levels(asks.push(level)),
        plain(spend),
        counted(f.used),
        counted(f.taken),
    ensures
        purchase_extended(
            bought_through(asks, i, f, spend, quote, store),
            bought_through(asks.push(level), i, f, spend, quote, store),
            level,
            spend,
            quote,
            store,
        ),
    decreases asks.len() - i,
{
    let all = asks.push(level);
    let l = all[i as int];
    assert(l.0.finite() && l.1.finite());
    let rest = difference(spend, f.used);
    let bits = Double { bits: REST_BITS };
    let part = smaller(quotient(rest, l.0), l.1);
    let next = Fill {
        taken: sum(f.taken, part),
        used: sum(f.used, product(part, l.0)),
        depth: sum(f.depth, or_nothing(value_usd(quote, product(l.0, l.1), store))),
    };
    assert(zero().value() == 0);
    assert(is_void(l) == offers_nothing(l));
    if !is_void(l) && !at_most(rest, bits) {
        lemma_purchase_part(f, l, spend);
    }
    if i < asks.len() {
        assert(l == asks[i as int]);
        if is_void(l) {
            lemma_purchase_extended(asks, level, i + 1, f, spend, quote, store);
        } else if !at_most(rest, bits) {
            lemma_purchase_extended(asks, level, i + 1, next, spend, quote, store);
        }
    } else {
        assert(bought_through(all, i + 1, f, spend, quote, store) == f);
        assert(bought_through(all, i + 1, next, spend, quote, store) == next);
    }
}

/// One more level of the asks: a level without price or quantity changes nothing; where nothing is
/// left to spend nothing more is bought; and else the level gives what the rest buys at its price or
/// what it holds, whichever is less.
pub proof fn lemma_purchase_level(
    asks: Seq<(Double, Double)>,
    level: (Double, Double),
    spend: Double,
    quote: Seq<char>,
    store: TickerStoreView,
)
    requires
        finite_levels(asks.push(level)),
        plain(spend),
    ensures
        ({
            let a = bought_through(asks, 0, no_fill(), spend, quote, store);
            let b = bought_through(asks.push(level), 0, no_fill(), spend, quote, store);
            let left = difference(spend, a.used);
            &&& counted(a.used) && counted(a.taken)
            &&& offers_nothing(level) ==> b == a
            &&& below_part(left, 1_000_000_000) ==> b.used == a.used && b.taken == a.taken
            &&& !offers_nothing(level) && above_part(left, 1_000_000_000) ==> exists|x: Double| #[trigger]
                buys_part(a, b, level, left, x)
            &&& b.used == a.used && b.taken == a.taken || exists|x: Double| #[trigger]
                buys_part(a, b, level, left, x)
        }),
{
    lemma_purchase_extended(asks, level, 0, no_fill(), spend, quote, store);
    let a = bought_through(asks, 0, no_fill(), spend, quote, store);
    let b = bought_through(asks.push(level), 0, no_fill(), spend, quote, store);
    let left = difference(spend, a.used);
    lemma_left(spend, a.used);
    lemma_against_bounds(left);
    if !offers_nothing(level) && !at_most(left, Double { bits: REST_BITS }) {
        assert(buys_part(a, b, level, left, smaller(quotient(left, level.0), level.1)));
    }
}

/// The quantities of the levels, added one by one.
pub open spec fn offered(levels: Seq<(Double, Double)>) -> Double
    decreases levels.len(),
{
    if levels.len() == 0 {
        zero()
    } else if offers_nothing(levels.last()) {
        offered(levels.drop_last())
    } else {
        sum(offered(levels.drop_last()), levels.last().1)
    }
}

/// What the quantities of the levels are worth at their prices, added one by one.
pub open spec fn worth(levels: Seq<(Double, Double)>) -> Double
    decreases levels.len(),
{
    if levels.len() == 0 {
        zero()
    } else if offers_nothing(levels.last()) {
        worth(levels.drop_last())
    } else {
        sum(worth(levels.drop_last()), product(levels.last().1, levels.last().0))
    }
}

/// An order that takes a part of one level, against the sums of all levels.
proof fn lemma_part_bound(a: Double, b: Double, x: Double, level: (Double, Double), of: Double, w: Double)
    requires
        counted(a),
        counted(b),
        counted(of),
        counted(w),
        level.0.finite(),
        level.1.finite(),
        !offers_nothing(level),
        at_most(a, of),
        at_most(b, w),
        counted(x),
        at_most(x, level.1),
    ensures
        at_most(sum(a, x), sum(of, level.1)),
        at_most(sum(b, product(x, level.0)), sum(w, product(level.1, level.0))),
        counted(sum(of, level.1)),
        counted(sum(w, product(level.1, level.0))),
        at_most(of, sum(of, level.1)),
        at_most(w, sum(w, product(level.1, level.0))),
{
    lemma_plain(level.0);
    lemma_plain(level.1);
    if x.infinite() {
        lemma_units_increase(level.1.magnitude(), x.magnitude());
    }
    lemma_product_near(x, level.0);
    lemma_product_near(level.1, level.0);
    lemma_product_monotone(x, level.1, level.0);
    lemma_sum_grows_counted(a, of, x, level.1);
    lemma_sum_grows_counted(b, w, product(x, level.0), product(level.1, level.0));
    lemma_sum_counted(of, level.1);
    lemma_sum_counted(w, product(level.1, level.0));
}

/// A sale uses no more of the base currency than the bids ask for, and brings no more than the bids
/// are worth; without bids it does neither.
pub proof fn lemma_sale_within_book(
    bids: Seq<(Double, Double)>,
    sell: Double,
    base: Seq<char>,
    store: TickerStoreView,
)
    requires
        finite_levels(bids),
        plain(sell),
    ensures
        ({
            let f = sold_through(bids, 0, no_fill(), sell, base, store);
            &&& counted(f.used) && counted(f.taken)
            &&& counted(offered(bids)) && counted(worth(bids))
            &&& at_most(f.used, offered(bids))
            &&& at_most(f.taken, worth(bids))
        }),
    decreases bids.len(),
{
    assert(zero().value() == 0);
    if bids.len() > 0 {
        let init = bids.drop_last();
        let level = bids.last();
        assert(bids =~= init.push(level));
        assert(bids[bids.len() - 1].0.finite() && bids[bids.len() - 1].1.finite());
        assert forall|i: int| 0 <= i < init.len() implies (#[trigger] init[i]).0.finite()
            && init[i].1.finite() by {
            assert(bids[i].0.finite());
        }
        lemma_sale_within_book(init, sell, base, store);
        lemma_sale_extended(init, level, 0, no_fill(), sell, base, store);
        let a = sold_through(init, 0, no_fill(), sell, base, store);
        let left = difference(sell, a.used);
        if !offers_nothing(level) {
            if at_most(left, dust()) {
                lemma_part_bound(a.used, a.taken, zero(), level, offered(init), worth(init));
            } else {
                lemma_sale_part(a, level, sell);
                let x = smaller(left, level.1);
                lemma_part_bound(a.used, a.taken, x, level, offered(init), worth(init));
            }
        }
    }
}

/// A purchase takes no more of the base currency than the asks offer, and uses no more than the asks
/// are worth; without asks it does neither.
pub proof fn lemma_purchase_within_book(
    asks: Seq<(Double, Double)>,
    spend: Double,
    quote: Seq<char>,
    store: TickerStoreView,
)
    requires
        finite_levels(asks),
        plain(spend),
    ensures
        ({
            let f = bought_through(asks, 0, no_fill(), spend, quote, store);
            &&& counted(f.used) && counted(f.taken)
            &&& counted(offered(asks)) && counted(worth(asks))
            &&& at_most(f.taken, offered(asks))
            &&& at_most(f.used, worth(asks))
        }),
    decreases asks.len(),
{
    assert(zero().value() == 0);
    if asks.len() > 0 {
        let init = asks.drop_last();
        let level = asks.last();
        assert(asks =~= init.push(level));
        assert(asks[asks.len() - 1].0.finite() && asks[asks.len() - 1].1.finite());
        assert forall|i: int| 0 <= i < init.len() implies (#[trigger] init[i]).0.finite()
            && init[i].1.finite() by {
            assert(asks[i].0.finite());
        }
        lemma_purchase_within_book(init, spend, quote, store);
        lemma_purchase_extended(init, level, 0, no_fill(), spend, quote, store);
        let a = bought_through(init, 0, no_fill(), spend, quote, store);
        let left = difference(spend, a.used);
        if !offers_nothing(level) {
            if at_most(left, Double { bits: REST_BITS }) {
                lemma_part_bound(a.taken, a.used, zero(), level, offered(init), worth(init));
            } else {
                lemma_purchase_part(a, level, spend);
                let x = smaller(quotient(left, level.0), level.1);
                lemma_part_bound(a.taken, a.used, x, level, offered(init), worth(init));
            }
        }
    }
}

/// A first level that can take a sale whole, against that sale.
proof fn lemma_top_part(sell: Double, l: (Double, Double))
    requires
        plain(sell),
        above_part(sell, 1_000_000_000_000),
        l.0.finite(),
        l.1.finite(),
        !offers_nothing(l),
        sell.value() <= l.1.value(),
    ensures
        !is_void(l),
        difference(sell, zero()) == sell,
        !at_most(sell, dust()),
        smaller(sell, l.1) == sell,
        sum(zero(), sell) == sell,
        sum(zero(), product(sell, l.0)) == product(sell, l.0),
        at_most(difference(sell, sell), dust()),
{
    assert(zero().value() == 0);
    lemma_rest_bounds();
    lemma_against_bounds(sell);
    lemma_plain(l.0);
    lemma_plain(l.1);
    lemma_plain(sell);
    assert(sell.value() > 0);
    lemma_minus_nothing(sell);
    lemma_nothing_plus(sell);
    lemma_product_near(sell, l.0);
    lemma_plain(product(sell, l.0));
    if product(sell, l.0).finite() {
        lemma_nothing_plus(product(sell, l.0));
    }
    lemma_difference_sign(sell, sell);
}

/// A sale that the first level can take whole is made there: it uses up just what is to be sold, and
/// brings that at the price of the level.
pub proof fn lemma_sale_at_top(
    bids: Seq<(Double, Double)>,
    sell: Double,
    base: Seq<char>,
    store: TickerStoreView,
)
    requires
        finite_levels(bids),
        bids.len() > 0,
        plain(sell),
        above_part(sell, 1_000_000_000_000),
        !offers_nothing(bids[0]),
        sell.value() <= bids[0].1.value(),
    ensures
        sold_through(bids, 0, no_fill(), sell, base, store).used == sell,
        sold_through(bids, 0, no_fill(), sell, base, store).taken == product(sell, bids[0].0),
{
    let l = bids[0];
    assert(l.0.finite() && l.1.finite());
    lemma_top_part(sell, l);
    let next = Fill {
        taken: product(sell, l.0),
        used: sell,
        depth: sum(zero(), bid_depth(l, base, store)),
    };
    assert(sold_through(bids, 0, no_fill(), sell, base, store) == sold_through(
        bids,
        1,
        next,
        sell,
        base,
        store,
    ));
    lemma_sale_over(bids, 1, next, sell, base, store);
}

/// Where nothing is left to sell the fill stays as it is.
proof fn lemma_sale_over(
    bids: Seq<(Double, Double)>,
    i: nat,
    f: Fill,
    sell: Double,
    base: Seq<char>,
    store: TickerStoreView,
)
    requires
        at_most(difference(sell, f.used), dust()),
    ensures
        sold_through(bids, i, f, sell, base, store).used == f.used,
        sold_through(bids, i, f, sell, base, store).taken == f.taken,
    decreases bids.len() - i,
{
    if i < bids.len() && is_void(bids[i as int]) {
        lemma_sale_over(bids, i + 1, f, sell, base, store);
    }
}

/// Numbers without a minus sign and of the same value are the same.
proof fn lemma_same_value(a: Double, b: Double)
    requires
        plain(a),
        plain(b),
        a.value() == b.value(),
    ensures
        a == b,
{
    if a.magnitude() < b.magnitude() {
        lemma_units_increase(a.magnitude(), b.magnitude());
    } else if b.magnitude() < a.magnitude() {
        lemma_units_increase(b.magnitude(), a.magnitude());
    }
}

/// Nothing added to a number leaves it.
proof fn lemma_nothing_plus(a: Double)
    requires
        plain(a),
        a.value() > 0 || a.zero(),
    ensures
        sum(zero(), a) == a,
{
    lemma_sum_with_zero(a);
    lemma_plain(a);
    assert(sum(zero(), a).value() == sum(a, zero()).value());
    lemma_sum_counted(zero(), a);
    lemma_value_bounds(sum(zero(), a));
    if sum(zero(), a).finite() {
        lemma_same_value(sum(zero(), a), a);
    } else {
        lemma_units_increase(a.magnitude(), INFINITY_MAGNITUDE as nat);
    }
}

/// Nothing taken from a number leaves it.
pub proof fn lemma_minus_nothing(a: Double)
    requires
        plain(a),
        a.value() > 0,
    ensures
        difference(a, zero()) == a,
{
    lemma_difference_shrinks(a, zero());
    lemma_difference_sign(a, zero());
    assert(zero().value() == 0);
    lemma_sum_with_zero(a);
    assert(difference(a, zero()).value() == sum(a, zero()).value());
    lemma_same_value(difference(a, zero()), a);
}

/// What a trade against a book brings is what its fill takes.
proof fn lemma_leg_executed(
    t: TradeView,
    book: BookView,
    amount: Double,
    minima: (Double, Double),
    market: MarketView,
    store: TickerStoreView,
)
    ensures
        t.kind == "BUY"@ ==> leg(t, book, amount, minima, market, store).executed == bought_through(
            book.asks,
            0,
            no_fill(),
            amount,
            market.quote,
            store,
        ).taken,
        t.kind == "SELL"@ ==> leg(t, book, amount, minima, market, store).executed == sold_through(
            book.bids,
            0,
            no_fill(),
            amount,
            market.base,
            store,
        ).taken,
{
    reveal_strlit("BUY");
    reveal_strlit("SELL");
    assert("BUY"@.len() != "SELL"@.len());
}

/// What a trade against a book brings is within what the book holds: a purchase gets no more than the
/// asks offer, and a sale no more than the bids are worth.
pub proof fn lemma_leg_within_book(
    t: TradeView,
    book: BookView,
    amount: Double,
    minima: (Double, Double),
    market: MarketView,
    store: TickerStoreView,
)
    requires
        finite_levels(book.bids),
        finite_levels(book.asks),
        plain(amount),
    ensures
        ({
            let l = leg(t, book, amount, minima, market, store);
            &&& t.kind == "BUY"@ ==> at_most(l.executed, offered(book.asks))
            &&& t.kind == "SELL"@ ==> at_most(l.executed, worth(book.bids))
        }),
{
    lemma_leg_executed(t, book, amount, minima, market, store);
    lemma_purchase_within_book(book.asks, amount, market.quote, store);
    lemma_sale_within_book(book.bids, amount, market.base, store);
}

/// Whether what was used is no more than what was given, up to one part in two to the power of 50.
pub open spec fn keeps_to(used: Double, given: Double) -> bool {
    plain(used) && 0x4_0000_0000_0000 * used.value() <= 0x4_0000_0000_0001 * given.value()
}

/// A part of what is left added to what was used, against what was given.
proof fn lemma_part_added(given: Double, used: Double, part: Double)
    requires
        plain(given),
        plain(used),
        plain(part),
        given.value() <= vast(),
        used.value() < given.value(),
        0x8_0000_0000_0000 * part.value() <= 0x8_0000_0000_0001 * (given.value() - used.value()),
    ensures
        keeps_to(sum(used, part), given),
{
    lemma_plain(used);
    lemma_plain(part);
    lemma_vast();
    let exact = used.value() + part.value();
    lemma_sum_finite(used, part);
    lemma_sum_error(used, part);
    assert(sum(used, part).finite());
}

/// A sale uses no more than is to be sold, up to rounding, whatever the bids are.
pub proof fn lemma_sale_keeps_to_amount(
    bids: Seq<(Double, Double)>,
    sell: Double,
    base: Seq<char>,
    store: TickerStoreView,
)
    requires
        finite_levels(bids),
        plain(sell),
        sell.value() <= vast(),
    ensures
        keeps_to(sold_through(bids, 0, no_fill(), sell, base, store).used, sell),
    decreases bids.len(),
{
    assert(zero().value() == 0);
    lemma_plain(sell);
    if bids.len() > 0 {
        let init = bids.drop_last();
        let level = bids.last();
        assert(bids =~= init.push(level));
        assert(bids[bids.len() - 1].0.finite() && bids[bids.len() - 1].1.finite());
        assert forall|i: int| 0 <= i < init.len() implies (#[trigger] init[i]).0.finite()
            && init[i].1.finite() by {
            assert(bids[i].0.finite());
        }
        lemma_sale_keeps_to_amount(init, sell, base, store);
        lemma_sale_extended(init, level, 0, no_fill(), sell, base, store);
        let a = sold_through(init, 0, no_fill(), sell, base, store);
        let left = difference(sell, a.used);
        if !offers_nothing(level) && !at_most(left, dust()) {
            lemma_sale_part(a, level, sell);
            lemma_rest_bounds();
            lemma_left(sell, a.used);
            lemma_difference_near(sell, a.used);
            lemma_part_added(sell, a.used, smaller(left, level.1));
        }
    }
}

/// What the rest buys at a price costs no more than the rest, up to rounding.
proof fn lemma_cost_of_part(left: Double, price: Double, part: Double)
    requires
        plain(left),
        plain(price),
        plain(part),
        moderate(left.value()),
        moderate(price.value()),
        at_most(part, quotient(left, price)),
    ensures
        plain(product(part, price)),
        0x4_0000_0000_0000 * product(part, price).value() <= 0x4_0000_0000_0001 * left.value(),
{
    lemma_there_and_back(left, price);
    lemma_product_monotone(part, quotient(left, price), price);
    lemma_product_near(part, price);
    lemma_finite_below(product(part, price), product(quotient(left, price), price));
}

/// A purchase uses no more than is to be spent, up to rounding, whatever the asks are.
pub proof fn lemma_purchase_keeps_to_amount(
    asks: Seq<(Double, Double)>,
    spend: Double,
    quote: Seq<char>,
    store: TickerStoreView,
)
    requires
        finite_levels(asks),
        forall|i: int|
            0 <= i < asks.len() && !offers_nothing(#[trigger] asks[i]) ==> moderate(
                asks[i].0.value(),
            ),
        plain(spend),
        moderate(spend.value()),
    ensures
        plain(bought_through(asks, 0, no_fill(), spend, quote, store).used),
        0x1_0000_0000_0000 * bought_through(asks, 0, no_fill(), spend, quote, store).used.value()
            <= 0x1_0000_0000_0001 * spend.value(),
    decreases asks.len(),
{
    assert(zero().value() == 0);
    lemma_plain(spend);
    if asks.len() > 0 {
        let init = asks.drop_last();
        let level = asks.last();
        assert(asks =~= init.push(level));
        assert(asks[asks.len() - 1].0.finite() && asks[asks.len() - 1].1.finite());
        assert forall|i: int| 0 <= i < init.len() implies (#[trigger] init[i]).0.finite()
            && init[i].1.finite() by {
            assert(asks[i].0.finite());
        }
        assert forall|i: int|
            0 <= i < init.len() && !offers_nothing(#[trigger] init[i]) implies moderate(
            init[i].0.value(),
        ) by {
            assert(init[i] == asks[i]);
        }
        lemma_purchase_keeps_to_amount(init, spend, quote, store);
        lemma_purchase_extended(init, level, 0, no_fill(), spend, quote, store);
        let a = bought_through(init, 0, no_fill(), spend, quote, store);
        let left = difference(spend, a.used);
        if !offers_nothing(level) && !at_most(left, Double { bits: REST_BITS }) {
            assert(!offers_nothing(asks[asks.len() - 1]));
            lemma_purchase_part(a, level, spend);
            let x = smaller(quotient(left, level.0), level.1);
            lemma_rest_bounds();
            lemma_left(spend, a.used);
            lemma_difference_near(spend, a.used);
            lemma_plain(level.0);
            lemma_cost_of_part(left, level.0, x);
            lemma_cost_added(spend, a.used, product(x, level.0), left);
        }
    }
}

/// A cost that is covered by what is left, added to what was used, against what was given.
proof fn lemma_cost_added(given: Double, used: Double, cost: Double, left: Double)
    requires
        plain(given),
        plain(used),
        plain(cost),
        moderate(given.value()),
        used.value() < given.value(),
        0x20_0000_0000_0000 * left.value() <= 0x20_0000_0000_0001 * (given.value() - used.value()),
        0x4_0000_0000_0000 * cost.value() <= 0x4_0000_0000_0001 * left.value(),
    ensures
        plain(sum(used, cost)),
        0x1_0000_0000_0000 * sum(used, cost).value() <= 0x1_0000_0000_0001 * given.value(),
{
    lemma_plain(used);
    lemma_plain(cost);
    lemma_vast();
    let (u, g, k) = (unit(), given.value(), pow2(900) as int);
    assert(4 * g <= vast()) by (nonlinear_arith)
        requires
            g <= 1_000_000_000_000_000_000_000_000_000_000 * u,
            vast() == u * k,
            k >= 4_000_000_000_000_000_000_000_000_000_000,
            u > 0,
    ;
    lemma_sum_finite(used, cost);
    lemma_sum_error(used, cost);
}

/// The levels that are read of a book are those whose price and quantity are finite and above zero, in
/// their order: each of them is one, and a level that is one more of them at the end is the last one.
pub proof fn lemma_levels_read(
    levels: Seq<(Option<Double>, Option<Double>)>,
    last: (Option<Double>, Option<Double>),
)
    ensures
        finite_levels(levels_of(levels)),
        forall|i: int|
            0 <= i < levels_of(levels).len() ==> !offers_nothing(#[trigger] levels_of(levels)[i]),
        levels_of(levels.push(last)) == (match last {
            (Some(price), Some(amount)) => if price.finite() && amount.finite() && price.value() > 0
                && amount.value() > 0 {
                levels_of(levels).push((price, amount))
            } else {
                levels_of(levels)
            },
            _ => levels_of(levels),
        }),
    decreases levels.len(),
{
    assert(zero().value() == 0);
    assert(levels.push(last).drop_last() =~= levels);
    if levels.len() > 0 {
        lemma_levels_read(levels.drop_last(), levels.last());
        assert(levels.drop_last().push(levels.last()) =~= levels);
    }
}

} // verus!
