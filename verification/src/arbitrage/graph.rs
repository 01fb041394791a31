//! The graph of currencies: two edges for each pair, weighted by what a trade along them costs.
use crate::accuracy::{
    lemma_difference_near, lemma_kept, lemma_one, lemma_plain, lemma_product_finite, lemma_product_grows, lemma_product_monotone,
    lemma_product_near, lemma_quotient_antitone, lemma_quotient_finite, lemma_quotient_near,
    lemma_quotient_then_product, lemma_vast, plain, unit, vast,
};
use crate::decimal::{stands_for, Amount};
use crate::domain::{sound_quote, MarketView, Markets, Ticker};
use crate::double::{at_most, difference, invalid, negated, one, product, quotient, Double};
use crate::names::{in_order, insert_name, lemma_with_name, with_name};
use crate::store::{is_valid_ticker, TickerStore};
use crate::text::{before, lemma_before_irreflexive, texts};
use vstd::arithmetic::power2::pow2;
use vstd::hash_map::StringHashMap;
use vstd::prelude::*;

verus! {

broadcast use vstd::string::group_string_axioms;

/// The bits of 1e-15: rates up to this one have no weight.
pub const LOG_EPS_BITS: u64 = 0x3cd2_03af_9ee7_5616;

/// The direction of a trade on its pair.
#[derive(Clone, Copy, Debug, PartialEq, Eq, Structural)]
pub enum EdgeKind {
    Buy,
    Sell,
}

/// A trade from one currency to another.
#[derive(Clone, Copy, Debug)]
pub struct Edge {
    pub from: usize,
    pub to: usize,
    pub pair_id: usize,
    pub kind: EdgeKind,
    /// The negative logarithm of what one of `from` brings of `to`; NaN where that is not known.
    pub weight: Double,
}

/// Why no graph was built.
#[derive(Clone, Copy, Debug, PartialEq, Eq, Structural)]
pub enum GraphError {
    /// There is no market for the pair at this place.
    MissingMarket(usize),
}

/// Currencies and the trades between them.
pub struct Graph {
    pub nodes: Vec<String>,
    pub edges: Vec<Edge>,
    /// For each node the edges that leave it.
    pub adjacency: Vec<Vec<usize>>,
    pub currency_to_index: StringHashMap<usize>,
    /// For each pair its buying and its selling edge.
    pub pair_edges: Vec<(usize, usize)>,
    pub fee_multiplier: Double,
    /// Whether the weights are to be computed anew.
    pub rebuild_all: bool,
}

/// The edges that leave a node, in their order.
pub open spec fn leaving(edges: Seq<Edge>, node: int) -> Seq<usize>
    decreases edges.len(),
{
    if edges.len() == 0 {
        Seq::empty()
    } else if edges.last().from == node {
        leaving(edges.drop_last(), node).push((edges.len() - 1) as usize)
    } else {
        leaving(edges.drop_last(), node)
    }
}

/// The edges that leave a node are just those whose origin it is.
pub proof fn lemma_leaving(edges: Seq<Edge>, node: int)
    requires
        edges.len() <= usize::MAX,
    ensures
        forall|k: int|
            0 <= k < leaving(edges, node).len() ==> (#[trigger] leaving(edges, node)[k])
                < edges.len() && edges[leaving(edges, node)[k] as int].from == node,
        forall|i: int|
            0 <= i < edges.len() && (#[trigger] edges[i]).from == node ==> leaving(
                edges,
                node,
            ).contains(i as usize),
    decreases edges.len(),
{
    if edges.len() > 0 {
        let rest = edges.drop_last();
        lemma_leaving(rest, node);
        let all = leaving(edges, node);
        assert forall|k: int| 0 <= k < all.len() implies (#[trigger] all[k]) < edges.len()
            && edges[all[k] as int].from == node by {
            if k < leaving(rest, node).len() {
                assert(all[k] == leaving(rest, node)[k]);
                assert(rest[all[k] as int] == edges[all[k] as int]);
            }
        }
        assert forall|i: int| 0 <= i < edges.len() && (#[trigger] edges[i]).from == node implies
            all.contains(i as usize) by {
            if i < rest.len() {
                assert(rest[i] == edges[i]);
                let k = choose|k: int|
                    0 <= k < leaving(rest, node).len() && leaving(rest, node)[k] == i as usize;
                assert(all[k] == i as usize);
            } else {
                assert(all[all.len() - 1] == i as usize);
            }
        }
    }
}

impl Graph {
    /// Every index leads somewhere: edges to nodes, adjacency and pairs to edges.
    pub open spec fn wf(&self) -> bool {
        &&& self.adjacency@.len() == self.nodes@.len()
        &&& forall|u: int|
            0 <= u < self.adjacency@.len() ==> (#[trigger] self.adjacency@[u])@ == leaving(
                self.edges@,
                u,
            )
        &&& forall|i: int|
            0 <= i < self.edges@.len() ==> (#[trigger] self.edges@[i]).from < self.nodes@.len()
                && self.edges@[i].to < self.nodes@.len()
        &&& 2 * self.pair_edges@.len() == self.edges@.len()
        &&& forall|k: int|
            0 <= k < self.pair_edges@.len() ==> (#[trigger] self.pair_edges@[k]).0 == 2 * k
                && self.pair_edges@[k].1 == 2 * k + 1
    }

    /// Whether two graphs differ in weights, fee and the mark to rebuild only.
    pub open spec fn same_shape(&self, other: &Graph) -> bool {
        &&& self.nodes == other.nodes
        &&& self.adjacency == other.adjacency
        &&& self.currency_to_index == other.currency_to_index
        &&& self.pair_edges == other.pair_edges
        &&& self.edges@.len() == other.edges@.len()
        &&& forall|i: int|
            0 <= i < self.edges@.len() ==> same_trade(#[trigger] self.edges@[i], other.edges@[i])
    }
}

/// Whether two edges differ in weight only.
pub open spec fn same_trade(a: Edge, b: Edge) -> bool {
    a.from == b.from && a.to == b.to && a.pair_id == b.pair_id && a.kind == b.kind
}

/// Which edges leave a node does not depend on weights.
pub proof fn lemma_leaving_same(a: Seq<Edge>, b: Seq<Edge>, node: int)
    requires
        a.len() == b.len(),
        forall|i: int| 0 <= i < a.len() ==> same_trade(#[trigger] a[i], b[i]),
    ensures
        leaving(a, node) == leaving(b, node),
    decreases a.len(),
{
    if a.len() > 0 {
        assert(same_trade(a[a.len() - 1], b[a.len() - 1]));
        assert forall|i: int| 0 <= i < a.drop_last().len() implies same_trade(
            #[trigger] a.drop_last()[i],
            b.drop_last()[i],
        ) by {
            assert(same_trade(a[i], b[i]));
        }
        lemma_leaving_same(a.drop_last(), b.drop_last(), node);
    }
}

/// What one unit of the quote currency brings of the base at an ask price, where it is known.
pub open spec fn buy_rate(ask: Double, fee_multiplier: Double) -> Option<Double> {
    if ask.finite() && ask.value() > 0 && fee_multiplier.finite() {
        known_rate(product(quotient(one(), ask), fee_multiplier))
    } else {
        None
    }
}

/// What one unit of the base currency brings of the quote at a bid price, where it is known.
pub open spec fn sell_rate(bid: Double, fee_multiplier: Double) -> Option<Double> {
    if bid.finite() && bid.value() > 0 && fee_multiplier.finite() {
        known_rate(product(bid, fee_multiplier))
    } else {
        None
    }
}

/// A rate, unless it is too small to take the logarithm of.
pub open spec fn known_rate(rate: Double) -> Option<Double> {
    if at_most(rate, Double { bits: LOG_EPS_BITS }) {
        None
    } else {
        Some(rate)
    }
}

/// How a rate, a price and a multiplier in units lie to each other where the rate is the multiplier
/// by the price, up to one part in two to the power of 50.
pub open spec fn near_quotient(rate: int, price: int, multiplier: int) -> bool {
    let exact = multiplier * unit();
    -exact <= 0x4_0000_0000_0000 * (rate * price - exact) <= exact
}

/// How a rate, a price and a multiplier in units lie to each other where the rate is the multiplier
/// times the price, up to one part in two to the power of 50.
pub open spec fn near_product(rate: int, price: int, multiplier: int) -> bool {
    let exact = multiplier * price;
    -exact <= 0x4_0000_0000_0000 * (rate * unit() - exact) <= exact
}

/// Whether a number in units is far from the ends of the range: from 1e-30 to 1e30.
pub open spec fn moderate(x: int) -> bool {
    unit() <= 1_000_000_000_000_000_000_000_000_000_000 * x
        && x <= 1_000_000_000_000_000_000_000_000_000_000 * unit()
}

/// What a purchase brings is the fee multiplier by the ask: with prices and multipliers that are far
/// from the ends of the range the rate of buying at an ask is that quotient up to rounding, and it is
/// known where, up to rounding, it is above 1e-15 and not known where it is below.
pub proof fn lemma_buy_rate(ask: Double, fee_multiplier: Double)
    requires
        plain(ask),
        plain(fee_multiplier),
        moderate(ask.value()),
        moderate(fee_multiplier.value()),
        fee_multiplier.value() <= unit(),
    ensures
        buy_rate(ask, fee_multiplier) matches Some(r) ==> plain(r) && near_quotient(
            r.value(),
            ask.value(),
            fee_multiplier.value(),
        ),
        0x100_0000_0000 * (1_000_000_000_000_000 * fee_multiplier.value()) >= 0x100_0000_0001
            * ask.value() ==> buy_rate(ask, fee_multiplier) is Some,
        0x100_0000_0000 * (1_000_000_000_000_000 * fee_multiplier.value()) <= 0xff_ffff_ffff
            * ask.value() ==> buy_rate(ask, fee_multiplier) is None,
{
    lemma_one();
    lemma_vast();
    let (u, a, f) = (unit(), ask.value(), fee_multiplier.value());
    let big: int = 1_000_000_000_000_000_000_000_000_000_000;
    assert(a > 0 && f > 0);
    let q = quotient(one(), ask);
    let r = product(q, fee_multiplier);
    assert(u * u <= a * vast()) by (nonlinear_arith)
        requires
            u <= big * a,
            vast() == u * pow2(900),
            big <= pow2(900),
            u > 0,
            a > 0,
    {
        assert(a * vast() == (a * pow2(900)) * u);
        assert(a * pow2(900) >= a * big);
    }
    lemma_quotient_finite(one(), ask);
    lemma_quotient_near(one(), ask);
    lemma_plain(q);
    assert(vast() >= u) by (nonlinear_arith)
        requires
            vast() == u * pow2(900),
            pow2(900) >= big,
            big == 1_000_000_000_000_000_000_000_000_000_000,
            u > 0,
    ;
    assert(q.value() <= vast()) by (nonlinear_arith)
        requires
            0x20_0000_0000_0000 * (q.value() * a - u * u) <= u * u + 0x10_0000_0000_0000 * a,
            u * u <= a * vast(),
            vast() >= u,
            u >= 0x10_0000_0000_0000,
            a > 0,
            u <= big * a,
            vast() == u * pow2(900),
            pow2(900) >= 4 * big,
            big == 1_000_000_000_000_000_000_000_000_000_000,
    {
        assert(2 * (u * u) <= a * vast()) by {
            assert(a * vast() == (a * pow2(900)) * u);
            assert(a * pow2(900) >= a * (4 * big));
        }
        assert(a <= a * vast());
        assert(0x20_0000_0000_0000 * (q.value() * a) <= 0x20_0000_0000_0000 * (a * vast()));
    }
    assert(q.value() * f <= u * vast()) by (nonlinear_arith)
        requires
            0 <= q.value() <= vast(),
            0 < f <= u,
    ;
    lemma_product_finite(q, fee_multiplier);
    lemma_product_near(q, fee_multiplier);
    lemma_quotient_then_product(u, u, a, f, q.value(), r.value());
    lemma_eps();
    lemma_threshold(r.value(), a, f);
}

/// The bound below which rates have no weight, in units.
proof fn lemma_eps()
    ensures
        plain(Double { bits: LOG_EPS_BITS }),
        0x40_0000_0000_0000_0000_0000_0000 * (Double { bits: LOG_EPS_BITS }).value()
            == 0x12_03af_9ee7_5616 * unit(),
{
    let m = (Double { bits: LOG_EPS_BITS }).magnitude();
    let fr = crate::rounding::FRACTION_RANGE as nat;
    assert(m / fr == 973 && m % fr == 0x2_03af_9ee7_5616);
    vstd::arithmetic::power2::lemma2_to64();
    vstd::arithmetic::power2::lemma2_to64_rest();
    vstd::arithmetic::power2::lemma_pow2_adds(64, 38);
    vstd::arithmetic::power2::lemma_pow2_adds(102, 972);
    assert(pow2(102) == 0x40_0000_0000_0000_0000_0000_0000);
    let s = pow2(972);
    let v = (Double { bits: LOG_EPS_BITS }).value();
    assert(v == 0x12_03af_9ee7_5616 * s);
    assert(0x40_0000_0000_0000_0000_0000_0000 * v == 0x12_03af_9ee7_5616 * unit())
        by (nonlinear_arith)
        requires
            v == 0x12_03af_9ee7_5616 * s,
            unit() == 0x40_0000_0000_0000_0000_0000_0000 * s,
    ;
}

/// A rate near a quotient against the bound.
proof fn lemma_threshold(r: int, a: int, f: int)
    requires
        a > 0,
        f > 0,
        near_quotient(r, a, f),
        unit() > 0,
        0x40_0000_0000_0000_0000_0000_0000 * (Double { bits: LOG_EPS_BITS }).value()
            == 0x12_03af_9ee7_5616 * unit(),
    ensures
        0x100_0000_0000 * (1_000_000_000_000_000 * f) >= 0x100_0000_0001 * a ==> r > (Double {
            bits: LOG_EPS_BITS,
        }).value(),
        0x100_0000_0000 * (1_000_000_000_000_000 * f) <= 0xff_ffff_ffff * a ==> r <= (Double {
            bits: LOG_EPS_BITS,
        }).value(),
{
    let u = unit();
    let l = (Double { bits: LOG_EPS_BITS }).value();
    let fu = f * u;
    let au = a * u;
    assert(0x40_0000_0000_0000_0000_0000_0000 * (l * a) == 0x12_03af_9ee7_5616 * au)
        by (nonlinear_arith)
        requires
            0x40_0000_0000_0000_0000_0000_0000 * l == 0x12_03af_9ee7_5616 * u,
            au == a * u,
    ;
    assert(au > 0 && fu > 0) by (nonlinear_arith)
        requires
            a > 0,
            f > 0,
            u > 0,
            au == a * u,
            fu == f * u,
    ;
    if 0x100_0000_0000 * (1_000_000_000_000_000 * f) >= 0x100_0000_0001 * a {
        assert(0x100_0000_0000 * (1_000_000_000_000_000 * fu) >= 0x100_0000_0001 * au)
            by (nonlinear_arith)
            requires
                0x100_0000_0000 * (1_000_000_000_000_000 * f) >= 0x100_0000_0001 * a,
                u > 0,
                au == a * u,
                fu == f * u,
        ;
        assert(r * a > l * a);
        assert(r > l) by (nonlinear_arith)
            requires
                r * a > l * a,
                a > 0,
        ;
    }
    if 0x100_0000_0000 * (1_000_000_000_000_000 * f) <= 0xff_ffff_ffff * a {
        assert(0x100_0000_0000 * (1_000_000_000_000_000 * fu) <= 0xff_ffff_ffff * au)
            by (nonlinear_arith)
            requires
                0x100_0000_0000 * (1_000_000_000_000_000 * f) <= 0xff_ffff_ffff * a,
                u > 0,
                au == a * u,
                fu == f * u,
        ;
        assert(r * a <= l * a);
        assert(r <= l) by (nonlinear_arith)
            requires
                r * a <= l * a,
                a > 0,
        ;
    }
}

/// What a sale brings is the bid times the fee multiplier: with prices and multipliers that are far
/// from the ends of the range the rate of selling at a bid is that product up to rounding, and it is
/// known where, up to rounding, it is above 1e-15 and not known where it is below.
pub proof fn lemma_sell_rate(bid: Double, fee_multiplier: Double)
    requires
        plain(bid),
        plain(fee_multiplier),
        moderate(bid.value()),
        moderate(fee_multiplier.value()),
        fee_multiplier.value() <= unit(),
    ensures
        sell_rate(bid, fee_multiplier) matches Some(r) ==> plain(r) && near_product(
            r.value(),
            bid.value(),
            fee_multiplier.value(),
        ),
        0x100_0000_0000 * (1_000_000_000_000_000 * (bid.value() * fee_multiplier.value()))
            >= 0x100_0000_0001 * (unit() * unit()) ==> sell_rate(bid, fee_multiplier) is Some,
        0x100_0000_0000 * (1_000_000_000_000_000 * (bid.value() * fee_multiplier.value()))
            <= 0xff_ffff_ffff * (unit() * unit()) ==> sell_rate(bid, fee_multiplier) is None,
{
    lemma_one();
    lemma_vast();
    let (u, b, f) = (unit(), bid.value(), fee_multiplier.value());
    let big: int = 1_000_000_000_000_000_000_000_000_000_000;
    assert(b > 0 && f > 0);
    let r = product(bid, fee_multiplier);
    assert(b * f <= u * vast()) by (nonlinear_arith)
        requires
            0 < b <= big * u,
            0 < f <= u,
            vast() == u * pow2(900),
            big <= pow2(900),
            u > 0,
    {
        assert(b * f <= (big * u) * u);
        assert(u * vast() == (u * u) * pow2(900));
        assert((u * u) * big <= (u * u) * pow2(900));
    }
    lemma_product_finite(bid, fee_multiplier);
    lemma_product_near(bid, fee_multiplier);
    let bf = b * f;
    assert(f * b == bf) by (nonlinear_arith)
        requires
            bf == b * f,
    ;
    assert(0x10_0000_0000_0000 * u <= bf) by {
        assert(big * big * bf >= u * u) by (nonlinear_arith)
            requires
                u <= big * b,
                u <= big * f,
                bf == b * f,
                u > 0,
                big == 1_000_000_000_000_000_000_000_000_000_000,
        {
            assert((big * b) * (big * f) >= u * u);
            assert((big * b) * (big * f) == big * big * (b * f));
        }
        assert(u * u >= (0x10_0000_0000_0000 * big * big) * u) by (nonlinear_arith)
            requires
                u >= 0x10_0000_0000_0000 * big * big,
        ;
        assert(0x10_0000_0000_0000 * u <= bf) by (nonlinear_arith)
            requires
                big * big * bf >= (0x10_0000_0000_0000 * big * big) * u,
                big == 1_000_000_000_000_000_000_000_000_000_000,
        ;
    }
    lemma_eps();
    let l = (Double { bits: LOG_EPS_BITS }).value();
    let uu = u * u;
    let rv = r.value();
    assert(0x40_0000_0000_0000_0000_0000_0000 * (l * u) == 0x12_03af_9ee7_5616 * uu)
        by (nonlinear_arith)
        requires
            0x40_0000_0000_0000_0000_0000_0000 * l == 0x12_03af_9ee7_5616 * u,
            uu == u * u,
    ;
    assert(uu > 0) by (nonlinear_arith)
        requires
            u > 0,
            uu == u * u,
    ;
    if 0x100_0000_0000 * (1_000_000_000_000_000 * bf) >= 0x100_0000_0001 * uu {
        assert(rv * u > l * u);
        assert(rv > l) by (nonlinear_arith)
            requires
                rv * u > l * u,
                u > 0,
        ;
    }
    if 0x100_0000_0000 * (1_000_000_000_000_000 * bf) <= 0xff_ffff_ffff * uu {
        assert(rv * u <= l * u);
        assert(rv <= l) by (nonlinear_arith)
            requires
                rv * u <= l * u,
                u > 0,
        ;
    }
}

/// Whether a call of `f` with `x` can return `y`.
pub open spec fn gives<F: Fn(Double) -> Double>(f: F, x: Double, y: Double) -> bool {
    call_ensures(f, (x,), y)
}

/// Whether `weight` is the weight of a rate under the logarithm `ln`.
pub open spec fn weighs<L: Fn(Double) -> Double>(ln: L, rate: Option<Double>, weight: Double) -> bool {
    &&& rate is None ==> weight == invalid()
    &&& rate is Some ==> exists|l: Double|
        #[trigger] gives(ln, rate->0, l) && weight == finite_or_nan(negated(l))
}

/// The number, or NaN in place of an infinite one.
pub open spec fn finite_or_nan(x: Double) -> Double {
    if x.finite() {
        x
    } else {
        invalid()
    }
}

/// Whether two weights are those of a pair with the given quote: NaN both without a sound quote.
pub open spec fn pair_weighs<L: Fn(Double) -> Double>(
    ln: L,
    fee_multiplier: Double,
    quote: Option<Ticker>,
    buy: Double,
    sell: Double,
) -> bool {
    match quote {
        Some(t) => weighs(ln, buy_rate(t.ask, fee_multiplier), buy) && weighs(
            ln,
            sell_rate(t.bid, fee_multiplier),
            sell,
        ),
        None => buy == invalid() && sell == invalid(),
    }
}

/// A sound quote has weights where the logarithm is finite: an ask of up to 1e14 has a rate of buying
/// and a bid of at least 1e-14 a rate of selling, at a fee multiplier from one half to one.
pub proof fn lemma_quote_has_rates(bid: Double, ask: Double, fee_multiplier: Double)
    requires
        sound_quote(bid, ask),
        plain(fee_multiplier),
        unit() <= 2 * fee_multiplier.value(),
        fee_multiplier.value() <= unit(),
    ensures
        unit() <= 1_000_000_000_000_000_000_000_000_000_000 * ask.value() && ask.value()
            <= 100_000_000_000_000 * unit() ==> buy_rate(ask, fee_multiplier) is Some,
        unit() <= 100_000_000_000_000 * bid.value() && bid.value()
            <= 1_000_000_000_000_000_000_000_000_000_000 * unit() ==> sell_rate(
            bid,
            fee_multiplier,
        ) is Some,
{
    lemma_plain(bid);
    lemma_plain(ask);
    lemma_one();
    let (u, b, f) = (unit(), bid.value(), fee_multiplier.value());
    if moderate(ask.value()) {
        lemma_buy_rate(ask, fee_multiplier);
    }
    if unit() <= 100_000_000_000_000 * bid.value() && moderate(bid.value()) {
        lemma_sell_rate(bid, fee_multiplier);
        assert(200_000_000_000_000 * (b * f) >= u * u) by (nonlinear_arith)
            requires
                u <= 100_000_000_000_000 * b,
                u <= 2 * f,
                u > 0,
        {
            assert((100_000_000_000_000 * b) * (2 * f) >= u * u);
        }
        assert(u * u > 0) by (nonlinear_arith)
            requires
                u > 0,
        ;
    }
}

/// Whether a logarithm is finite on every number above zero.
pub open spec fn finite_logarithm<L: Fn(Double) -> Double>(ln: L) -> bool {
    forall|x: Double, y: Double|
        x.finite() && x.value() > 0 && #[trigger] gives(ln, x, y) ==> y.finite()
}

/// Whether a logarithm gives the larger number the larger result, and each number one result.
pub open spec fn increasing_logarithm<L: Fn(Double) -> Double>(ln: L) -> bool {
    forall|x: Double, y: Double, lx: Double, ly: Double|
        at_most(x, y) && #[trigger] gives(ln, x, lx) && #[trigger] gives(ln, y, ly) ==> at_most(
            lx,
            ly,
        )
}

/// A known rate without a minus sign has a weight where the logarithm is finite.
proof fn lemma_known_weight<L: Fn(Double) -> Double>(ln: L, rate: Option<Double>, w: Double)
    requires
        finite_logarithm(ln),
        rate matches Some(r) && plain(r) && known_rate(r) is Some,
        weighs(ln, rate, w),
    ensures
        w.finite(),
{
    let r = rate->0;
    lemma_eps();
    lemma_plain(r);
    let l = choose|l: Double| #[trigger] gives(ln, r, l) && w == finite_or_nan(negated(l));
    assert(gives(ln, r, l));
    assert(l.finite());
}

/// Both weights of a sound quote in the usual range are numbers, so that both of its trades can
/// stand in a cycle.
pub proof fn lemma_quote_has_weights<L: Fn(Double) -> Double>(
    ln: L,
    fee_multiplier: Double,
    quote: Ticker,
    buy: Double,
    sell: Double,
)
    requires
        finite_logarithm(ln),
        sound_quote(quote.bid, quote.ask),
        plain(fee_multiplier),
        unit() <= 2 * fee_multiplier.value(),
        fee_multiplier.value() <= unit(),
        unit() <= 100_000_000_000_000 * quote.bid.value(),
        quote.ask.value() <= 100_000_000_000_000 * unit(),
        pair_weighs(ln, fee_multiplier, Some(quote), buy, sell),
    ensures
        buy.finite(),
        sell.finite(),
{
    let (bid, ask) = (quote.bid, quote.ask);
    lemma_one();
    lemma_plain(bid);
    lemma_plain(ask);
    lemma_quote_has_rates(bid, ask, fee_multiplier);
    lemma_buy_rate(ask, fee_multiplier);
    lemma_sell_rate(bid, fee_multiplier);
    lemma_known_weight(ln, buy_rate(ask, fee_multiplier), buy);
    lemma_known_weight(ln, sell_rate(bid, fee_multiplier), sell);
}

/// A weight is the opposite of a logarithm: a rate whose logarithm is above zero, which gains, has a
/// weight below zero, and the two cancel each other. A rate that is not known has no weight.
pub proof fn lemma_weight_opposes_logarithm<L: Fn(Double) -> Double>(
    ln: L,
    rate: Option<Double>,
    w: Double,
)
    requires
        weighs(ln, rate, w),
    ensures
        rate is None ==> w.nan(),
        rate is Some && !w.nan() ==> w.finite() && exists|l: Double| #[trigger]
            gives(ln, rate->0, l) && w.value() + l.value() == 0,
{
    assert(invalid().nan());
    if rate is Some {
        let l = choose|l: Double|
            #[trigger] gives(ln, rate->0, l) && w == finite_or_nan(negated(l));
        assert(gives(ln, rate->0, l));
        assert(negated(l).value() == -l.value());
    }
}

/// The larger of two rates weighs no more.
proof fn lemma_larger_rate_weighs_less<L: Fn(Double) -> Double>(
    ln: L,
    rate: Double,
    other: Double,
    w: Double,
    v: Double,
)
    requires
        increasing_logarithm(ln),
        at_most(other, rate),
        weighs(ln, known_rate(rate), w),
        weighs(ln, known_rate(other), v),
    ensures
        w.finite() && v.finite() ==> at_most(w, v),
        known_rate(other) is Some ==> known_rate(rate) is Some,
{
    lemma_known_order(rate, other);
    if w.finite() && v.finite() {
        assert(invalid().nan());
        lemma_weight_opposes_logarithm(ln, known_rate(rate), w);
        lemma_weight_opposes_logarithm(ln, known_rate(other), v);
        let l = choose|l: Double| #[trigger] gives(ln, rate, l) && w.value() + l.value() == 0;
        let m = choose|m: Double| #[trigger] gives(ln, other, m) && v.value() + m.value() == 0;
        assert(gives(ln, rate, l) && gives(ln, other, m));
        assert(at_most(m, l));
    }
}

/// The larger of two rates is known where the other is.
proof fn lemma_known_order(rate: Double, other: Double)
    requires
        at_most(other, rate),
    ensures
        known_rate(other) is Some ==> known_rate(rate) is Some,
{
    lemma_eps();
}

/// Better prices have lower weights: of two quotes of a pair the one with the lower ask weighs no
/// more for a purchase, and the one with the higher bid no more for a sale, at any fee that
/// leaves something.
pub proof fn lemma_better_prices_weigh_less<L: Fn(Double) -> Double>(
    ln: L,
    fee_multiplier: Double,
    better: Ticker,
    worse: Ticker,
    weights: (Double, Double),
    others: (Double, Double),
)
    requires
        increasing_logarithm(ln),
        sound_quote(better.bid, better.ask),
        sound_quote(worse.bid, worse.ask),
        plain(fee_multiplier),
        fee_multiplier.value() > 0,
        better.ask.value() <= worse.ask.value(),
        worse.bid.value() <= better.bid.value(),
        pair_weighs(ln, fee_multiplier, Some(better), weights.0, weights.1),
        pair_weighs(ln, fee_multiplier, Some(worse), others.0, others.1),
    ensures
        weights.0.finite() && others.0.finite() ==> at_most(weights.0, others.0),
        weights.1.finite() && others.1.finite() ==> at_most(weights.1, others.1),
        buy_rate(worse.ask, fee_multiplier) is Some ==> buy_rate(better.ask, fee_multiplier) is Some,
        sell_rate(worse.bid, fee_multiplier) is Some ==> sell_rate(
            better.bid,
            fee_multiplier,
        ) is Some,
{
    lemma_one();
    lemma_plain(better.bid);
    lemma_plain(better.ask);
    lemma_plain(worse.bid);
    lemma_plain(worse.ask);
    lemma_product_monotone(worse.bid, better.bid, fee_multiplier);
    lemma_quotient_antitone(one(), better.ask, worse.ask);
    let (q, p) = (quotient(one(), better.ask), quotient(one(), worse.ask));
    lemma_quotient_near(one(), better.ask);
    lemma_quotient_near(one(), worse.ask);
    lemma_product_grows(p, q, fee_multiplier);
    lemma_larger_rate_weighs_less(
        ln,
        product(q, fee_multiplier),
        product(p, fee_multiplier),
        weights.0,
        others.0,
    );
    lemma_larger_rate_weighs_less(
        ln,
        product(better.bid, fee_multiplier),
        product(worse.bid, fee_multiplier),
        weights.1,
        others.1,
    );
}

/// A bid and an ask as a quote, if they are sound.
pub open spec fn as_quote(bid: Double, ask: Double) -> Option<Ticker> {
    if sound_quote(bid, ask) {
        Some(Ticker { bid, ask })
    } else {
        None
    }
}

/// The weight of a rate.
fn weight_of<L: Fn(Double) -> Double>(rate: Double, ln: &L) -> (w: Double)
    requires
        forall|x: Double| call_requires(*ln, (x,)),
    ensures
        weighs(*ln, known_rate(rate), w),
{
    if rate.le(Double { bits: LOG_EPS_BITS }) {
        return Double::nan_value();
    }
    let l: Double = ln(rate);
    let w: Double = l.neg();
    let r: Double = if w.is_finite() {
        w
    } else {
        Double::nan_value()
    };
    assert(gives(*ln, rate, l) && r == finite_or_nan(negated(l)));
    assert(known_rate(rate)->0 == rate);
    r
}

/// The weight of buying at an ask price; NaN where it has none.
pub fn compute_buy_weight<L: Fn(Double) -> Double>(
    ask: Double,
    fee_multiplier: Double,
    ln: &L,
) -> (w: Double)
    requires
        forall|x: Double| call_requires(*ln, (x,)),
    ensures
        weighs(*ln, buy_rate(ask, fee_multiplier), w),
{
    if !(ask.is_finite() && ask.gt(Double::zero_value()) && fee_multiplier.is_finite()) {
        return Double::nan_value();
    }
    weight_of(Double::one_value().over(ask).times(fee_multiplier), ln)
}

/// The weight of selling at a bid price; NaN where it has none.
pub fn compute_sell_weight<L: Fn(Double) -> Double>(
    bid: Double,
    fee_multiplier: Double,
    ln: &L,
) -> (w: Double)
    requires
        forall|x: Double| call_requires(*ln, (x,)),
    ensures
        weighs(*ln, sell_rate(bid, fee_multiplier), w),
{
    if !(bid.is_finite() && bid.gt(Double::zero_value()) && fee_multiplier.is_finite()) {
        return Double::nan_value();
    }
    weight_of(bid.times(fee_multiplier), ln)
}

/// What is left of one after a fee.
pub fn fee_multiplier_from_fee(fee: Double) -> (r: Double)
    ensures
        r == difference(one(), fee),
{
    Double::one_value().minus(fee)
}

impl Graph {
    /// Sets the fee, and marks the weights to be computed anew.
    pub fn set_fee_rate(&mut self, taker_fee_rate: &Amount)
        requires
            old(self).wf(),
        ensures
            final(self).wf(),
            final(self).same_shape(old(self)),
            final(self).edges == old(self).edges,
            final(self).rebuild_all,
            exists|fee: Double|
                #[trigger] stands_for(fee, taker_fee_rate@) && final(self).fee_multiplier == difference(one(), fee),
    {
        let fee: Double = taker_fee_rate.to_double();
        self.set_fee(fee);
    }

    /// Sets the fee given as a number, and marks the weights to be computed anew.
    pub fn set_fee(&mut self, fee: Double)
        requires
            old(self).wf(),
        ensures
            final(self).wf(),
            final(self).same_shape(old(self)),
            final(self).edges == old(self).edges,
            final(self).rebuild_all,
            final(self).fee_multiplier == difference(one(), fee),
    {
        self.fee_multiplier = fee_multiplier_from_fee(fee);
        self.rebuild_all = true;
    }

    /// Puts a weight on an edge.
    fn set_weight(&mut self, edge_idx: usize, weight: Double)
        requires
            old(self).wf(),
            edge_idx < old(self).edges@.len(),
        ensures
            final(self).wf(),
            final(self).same_shape(old(self)),
            final(self).fee_multiplier == old(self).fee_multiplier,
            final(self).rebuild_all == old(self).rebuild_all,
            final(self).edges@[edge_idx as int].weight == weight,
            forall|i: int|
                0 <= i < final(self).edges@.len() && i != edge_idx ==> #[trigger] final(self).edges@[i] == old(self).edges@[i],
    {
        let mut edge: Edge = self.edges[edge_idx];
        edge.weight = weight;
        self.edges.set(edge_idx, edge);
        proof {
            assert forall|u: int| 0 <= u < self.adjacency@.len() implies (
            #[trigger] self.adjacency@[u])@ == leaving(self.edges@, u) by {
                lemma_leaving_same(self.edges@, old(self).edges@, u);
            }
        }
    }

    /// Takes the weights of a pair from its best prices; does nothing for a pair without edges.
    pub fn update_pair_weights<L: Fn(Double) -> Double>(
        &mut self,
        pair_id: usize,
        bid: Double,
        ask: Double,
        ln: &L,
    )
        requires
            old(self).wf(),
            forall|x: Double| call_requires(*ln, (x,)),
        ensures
            final(self).wf(),
            final(self).same_shape(old(self)),
            final(self).fee_multiplier == old(self).fee_multiplier,
            final(self).rebuild_all == old(self).rebuild_all,
            pair_id < old(self).pair_edges@.len() ==> pair_weighs(
                *ln,
                old(self).fee_multiplier,
                as_quote(bid, ask),
                final(self).edges@[2 * pair_id].weight,
                final(self).edges@[2 * pair_id + 1].weight,
            ),
            forall|i: int|
                0 <= i < final(self).edges@.len() && i != 2 * pair_id && i != 2 * pair_id + 1
                    ==> #[trigger] final(self).edges@[i] == old(self).edges@[i],
    {
        if pair_id >= self.pair_edges.len() {
            return;
        }
        if !is_valid_ticker(bid, ask) {
            self.invalidate_pair(pair_id);
            return;
        }
        let fee_multiplier: Double = self.fee_multiplier;
        let (buy_idx, sell_idx) = self.pair_edges[pair_id];

        let buy_w: Double = compute_buy_weight(ask, fee_multiplier, ln);
        self.set_weight(buy_idx, buy_w);

        let sell_w: Double = compute_sell_weight(bid, fee_multiplier, ln);
        self.set_weight(sell_idx, sell_w);
    }

    /// The weight of an edge.
    pub fn edge_weight(&self, edge_idx: usize) -> (r: Double)
        requires
            edge_idx < self.edges@.len(),
        ensures
            r == self.edges@[edge_idx as int].weight,
    {
        self.edges[edge_idx].weight
    }

    /// Takes the weights of a pair away; does nothing for a pair without edges.
    pub fn invalidate_pair(&mut self, pair_id: usize)
        requires
            old(self).wf(),
        ensures
            final(self).wf(),
            final(self).same_shape(old(self)),
            final(self).fee_multiplier == old(self).fee_multiplier,
            final(self).rebuild_all == old(self).rebuild_all,
            pair_id < old(self).pair_edges@.len() ==> final(self).edges@[2 * pair_id].weight
                == invalid() && final(self).edges@[2 * pair_id + 1].weight == invalid(),
            forall|i: int|
                0 <= i < final(self).edges@.len() && i != 2 * pair_id && i != 2 * pair_id + 1
                    ==> #[trigger] final(self).edges@[i] == old(self).edges@[i],
    {
        if pair_id >= self.pair_edges.len() {
            return;
        }
        let (buy_idx, sell_idx) = self.pair_edges[pair_id];
        self.set_weight(buy_idx, Double::nan_value());
        self.set_weight(sell_idx, Double::nan_value());
    }

    /// Computes all weights anew from the quotes, if they are marked for it, and takes the mark
    /// away.
    pub fn maybe_rebuild_all_weights<L: Fn(Double) -> Double>(&mut self, store: &TickerStore, ln: &L)
        requires
            old(self).wf(),
            store.wf(),
            forall|x: Double| call_requires(*ln, (x,)),
        ensures
            final(self).wf(),
            final(self).same_shape(old(self)),
            final(self).fee_multiplier == old(self).fee_multiplier,
            !final(self).rebuild_all,
            !old(self).rebuild_all ==> final(self).edges == old(self).edges,
            old(self).rebuild_all ==> forall|k: int|
                0 <= k < final(self).pair_edges@.len() ==> pair_weighs(
                    *ln,
                    old(self).fee_multiplier,
                    #[trigger] store@.quote_at(k),
                    final(self).edges@[2 * k].weight,
                    final(self).edges@[2 * k + 1].weight,
                ),
    {
        if !self.rebuild_all {
            return;
        }
        self.rebuild_all = false;
        let count: usize = self.pair_edges.len();
        let mut pair_id: usize = 0;
        while pair_id < count
            invariant
                pair_id <= count,
                count == self.pair_edges@.len(),
                self.wf(),
                store.wf(),
                forall|x: Double| call_requires(*ln, (x,)),
                self.same_shape(old(self)),
                self.fee_multiplier == old(self).fee_multiplier,
                !self.rebuild_all,
                forall|k: int|
                    0 <= k < pair_id ==> pair_weighs(
                        *ln,
                        old(self).fee_multiplier,
                        #[trigger] store@.quote_at(k),
                        self.edges@[2 * k].weight,
                        self.edges@[2 * k + 1].weight,
                    ),
            decreases count - pair_id,
        {
            let ghost before = *self;
            match store.get_by_id(pair_id) {
                Some(t) => {
                    self.update_pair_weights(pair_id, t.bid, t.ask, ln);
                },
                None => {
                    self.invalidate_pair(pair_id);
                },
            }
            proof {
                assert forall|k: int| 0 <= k < pair_id + 1 implies pair_weighs(
                    *ln,
                    old(self).fee_multiplier,
                    #[trigger] store@.quote_at(k),
                    self.edges@[2 * k].weight,
                    self.edges@[2 * k + 1].weight,
                ) by {
                    if k < pair_id {
                        assert(self.edges@[2 * k] == before.edges@[2 * k]);
                        assert(self.edges@[2 * k + 1] == before.edges@[2 * k + 1]);
                    }
                }
            }
            pair_id = pair_id + 1;
        }
    }
}

/// The currencies of the active spot markets among the pairs, in order, each once.
pub open spec fn node_names(
    markets: Map<Seq<char>, MarketView>,
    pairs: Seq<Seq<char>>,
) -> Seq<Seq<char>>
    decreases pairs.len(),
{
    if pairs.len() == 0 {
        Seq::empty()
    } else {
        let rest = node_names(markets, pairs.drop_last());
        let m = markets[pairs.last()];
        if m.active && m.spot {
            with_name(with_name(rest, m.base), m.quote)
        } else {
            rest
        }
    }
}

/// The nodes of a graph are in order, they are the currencies of the active spot markets, and
/// there are at most two for each pair.
pub proof fn lemma_node_names(markets: Map<Seq<char>, MarketView>, pairs: Seq<Seq<char>>)
    ensures
        in_order(node_names(markets, pairs)),
        node_names(markets, pairs).len() <= 2 * pairs.len(),
        forall|x: Seq<char>|
            node_names(markets, pairs).contains(x) <==> exists|i: int|
                0 <= i < pairs.len() && names_currency(markets[#[trigger] pairs[i]], x),
    decreases pairs.len(),
{
    if pairs.len() > 0 {
        let init = pairs.drop_last();
        let rest = node_names(markets, init);
        let m = markets[pairs.last()];
        lemma_node_names(markets, init);
        lemma_with_name(rest, m.base);
        lemma_with_name(with_name(rest, m.base), m.quote);
        assert forall|x: Seq<char>|
            node_names(markets, pairs).contains(x) <==> exists|i: int|
                0 <= i < pairs.len() && names_currency(markets[#[trigger] pairs[i]], x) by {
            if exists|i: int|
                0 <= i < pairs.len() && names_currency(markets[#[trigger] pairs[i]], x) {
                let i = choose|i: int|
                    0 <= i < pairs.len() && names_currency(markets[#[trigger] pairs[i]], x);
                if i < init.len() {
                    assert(init[i] == pairs[i]);
                    assert(names_currency(markets[init[i]], x));
                }
            }
            if rest.contains(x) {
                let i = choose|i: int|
                    0 <= i < init.len() && names_currency(markets[#[trigger] init[i]], x);
                assert(names_currency(markets[pairs[i]], x));
            }
            if m.active && m.spot && (x == m.base || x == m.quote) {
                assert(names_currency(markets[pairs[pairs.len() - 1]], x));
            }
        }
    }
}

/// Whether a currency is one of the two of an active spot market.
pub open spec fn names_currency(m: MarketView, currency: Seq<char>) -> bool {
    m.active && m.spot && (currency == m.base || currency == m.quote)
}

/// Whether every pair has a market.
pub open spec fn all_listed(markets: Map<Seq<char>, MarketView>, pairs: Seq<Seq<char>>) -> bool {
    forall|i: int| 0 <= i < pairs.len() ==> markets.contains_key(#[trigger] pairs[i])
}

/// Whether every pair trades currencies that are nodes.
pub open spec fn placeable(markets: Map<Seq<char>, MarketView>, pairs: Seq<Seq<char>>) -> bool {
    let names = node_names(markets, pairs);
    forall|i: int|
        0 <= i < pairs.len() ==> names.contains((#[trigger] markets[pairs[i]]).base)
            && names.contains(markets[pairs[i]].quote)
}

/// Pairs whose markets are all active spot markets can be placed in a graph.
pub proof fn lemma_active_placeable(markets: Map<Seq<char>, MarketView>, pairs: Seq<Seq<char>>)
    requires
        forall|i: int|
            0 <= i < pairs.len() ==> (#[trigger] markets[pairs[i]]).active && markets[pairs[i]].spot,
    ensures
        placeable(markets, pairs),
{
    lemma_node_names(markets, pairs);
    let names = node_names(markets, pairs);
    assert forall|i: int| 0 <= i < pairs.len() implies names.contains(
        (#[trigger] markets[pairs[i]]).base,
    ) && names.contains(markets[pairs[i]].quote) by {
        let m = markets[pairs[i]];
        assert(names_currency(m, m.base) && names_currency(m, m.quote));
        assert(names_currency(markets[pairs[i]], m.base));
        assert(names_currency(markets[pairs[i]], m.quote));
    }
}

/// Whether an edge leads from one name to another, for a pair, in a direction, without a weight.
pub open spec fn connects(
    edge: Edge,
    names: Seq<Seq<char>>,
    from: Seq<char>,
    to: Seq<char>,
    pair_id: int,
    kind: EdgeKind,
) -> bool {
    &&& edge.from < names.len() && names[edge.from as int] == from
    &&& edge.to < names.len() && names[edge.to as int] == to
    &&& edge.pair_id == pair_id
    &&& edge.kind == kind
    &&& edge.weight == invalid()
}

/// Whether two edges are those of a pair: the first buys its base, the second sells it.
pub open spec fn pair_connected(
    edges: Seq<Edge>,
    names: Seq<Seq<char>>,
    m: MarketView,
    pair_id: int,
) -> bool {
    &&& connects(edges[2 * pair_id], names, m.quote, m.base, pair_id, EdgeKind::Buy)
    &&& connects(edges[2 * pair_id + 1], names, m.base, m.quote, pair_id, EdgeKind::Sell)
}

/// Whether a map leads from each name to its place.
pub open spec fn indexes(map: Map<Seq<char>, usize>, names: Seq<Seq<char>>) -> bool {
    &&& forall|i: int| 0 <= i < names.len() ==> map.contains_key(#[trigger] names[i]) && map[names[i]] == i
    &&& forall|x: Seq<char>| #[trigger] map.contains_key(x) ==> names.contains(x)
}

/// The names that become nodes: none where there are fewer than two.
pub open spec fn graph_nodes(
    markets: Map<Seq<char>, MarketView>,
    pairs: Seq<Seq<char>>,
) -> Seq<Seq<char>> {
    if node_names(markets, pairs).len() < 2 {
        Seq::empty()
    } else {
        node_names(markets, pairs)
    }
}

/// Whether a graph is that of the pairs at a fee: its nodes in order, two edges without weight for
/// each pair, and the mark to compute the weights; nothing at all with fewer than two currencies.
pub open spec fn is_graph_of(
    g: Graph,
    markets: Map<Seq<char>, MarketView>,
    pairs: Seq<Seq<char>>,
    fee: Double,
) -> bool {
    let names = graph_nodes(markets, pairs);
    &&& g.wf()
    &&& texts(g.nodes@) == names
    &&& indexes(g.currency_to_index@, names)
    &&& g.pair_edges@.len() == (if names.len() == 0 {
        0
    } else {
        pairs.len()
    })
    &&& forall|k: int|
        0 <= k < g.pair_edges@.len() ==> pair_connected(
            g.edges@,
            names,
            #[trigger] markets[pairs[k]],
            k,
        )
    &&& g.rebuild_all == (names.len() > 0)
    &&& g.fee_multiplier == difference(one(), fee)
}

/// The result of building a graph: the graph, or the first pair without a market.
pub open spec fn built(
    r: Result<Graph, GraphError>,
    markets: Map<Seq<char>, MarketView>,
    pairs: Seq<Seq<char>>,
    fee: Double,
) -> bool {
    match r {
        Ok(g) => all_listed(markets, pairs) && is_graph_of(g, markets, pairs, fee),
        Err(GraphError::MissingMarket(i)) => {
            &&& i < pairs.len()
            &&& !markets.contains_key(pairs[i as int])
            &&& all_listed(markets, pairs.take(i as int))
        },
    }
}

/// The graph of the given pairs at a fee.
pub fn build_static_graph(
    markets: &Markets,
    pairs: &Vec<String>,
    taker_fee_rate: &Amount,
) -> (r: Result<Graph, GraphError>)
    requires
        all_listed(markets@, texts(pairs@)) && node_names(markets@, texts(pairs@)).len() >= 2
            ==> placeable(markets@, texts(pairs@)),
        2 * pairs@.len() <= usize::MAX,
    ensures
        exists|fee: Double|
            #[trigger] stands_for(fee, taker_fee_rate@) && built(r, markets@, texts(pairs@), fee),
{
    let fee: Double = taker_fee_rate.to_double();
    build_graph(markets, pairs, fee)
}

/// The graph of the given pairs at a fee given as a number.
pub fn build_graph(markets: &Markets, pairs: &Vec<String>, fee: Double) -> (r: Result<
    Graph,
    GraphError,
>)
    requires
        all_listed(markets@, texts(pairs@)) && node_names(markets@, texts(pairs@)).len() >= 2
            ==> placeable(markets@, texts(pairs@)),
        2 * pairs@.len() <= usize::MAX,
    ensures
        built(r, markets@, texts(pairs@), fee),
{
    let fee_multiplier: Double = fee_multiplier_from_fee(fee);
    let ghost all = texts(pairs@);
    let mut nodes: Vec<String> = Vec::new();
    let mut i: usize = 0;
    assert(all.take(0) == Seq::<Seq<char>>::empty());
    while i < pairs.len()
        invariant
            i <= pairs.len(),
            all == texts(pairs@),
            all_listed(markets@, all.take(i as int)),
            texts(nodes@) == node_names(markets@, all.take(i as int)),
            in_order(texts(nodes@)),
        decreases pairs.len() - i,
    {
        let ghost next = all.take(i + 1);
        assert(all[i as int] == pairs@[i as int]@);
        assert(next.drop_last() == all.take(i as int) && next.last() == all[i as int]);
        match markets.get(pairs[i].as_str()) {
            None => {
                return Err(GraphError::MissingMarket(i));
            },
            Some(m) => {
                if m.active && m.spot {
                    insert_name(&mut nodes, &m.base);
                    insert_name(&mut nodes, &m.quote);
                }
            },
        }
        assert forall|j: int| 0 <= j < next.len() implies markets@.contains_key(
            #[trigger] next[j],
        ) by {
            if j < i {
                assert(next[j] == all.take(i as int)[j]);
            }
        }
        i = i + 1;
    }
    assert(all.take(all.len() as int) == all);
    let ghost names = texts(nodes@);
    if nodes.len() < 2 || pairs.len() == 0 {
        let g = Graph {
            nodes: Vec::new(),
            edges: Vec::new(),
            adjacency: Vec::new(),
            currency_to_index: StringHashMap::new(),
            pair_edges: Vec::new(),
            fee_multiplier,
            rebuild_all: false,
        };
        assert(texts(g.nodes@) == Seq::<Seq<char>>::empty());
        return Ok(g);
    }
    let mut currency_to_index: StringHashMap<usize> = StringHashMap::new();
    let mut adjacency: Vec<Vec<usize>> = Vec::new();
    let mut k: usize = 0;
    while k < nodes.len()
        invariant
            k <= nodes.len(),
            names == texts(nodes@),
            in_order(names),
            indexes(currency_to_index@, names.take(k as int)),
            adjacency@.len() == k,
            forall|u: int| 0 <= u < k ==> (#[trigger] adjacency@[u])@ == Seq::<usize>::empty(),
        decreases nodes.len() - k,
    {
        let ghost old_map = currency_to_index@;
        currency_to_index.insert(nodes[k].clone(), k);
        adjacency.push(Vec::new());
        proof {
            let so_far = names.take(k as int);
            let next = names.take(k + 1);
            assert(nodes@[k as int]@ == names[k as int]);
            assert forall|j: int| 0 <= j < next.len() implies currency_to_index@.contains_key(
                #[trigger] next[j],
            ) && currency_to_index@[next[j]] == j by {
                if j < k {
                    assert(next[j] == so_far[j]);
                    assert(before(names[j], names[k as int]));
                    lemma_before_irreflexive(names[k as int]);
                }
            }
            assert forall|x: Seq<char>| #[trigger]
                currency_to_index@.contains_key(x) implies next.contains(x) by {
                if old_map.contains_key(x) {
                    let j = choose|j: int| 0 <= j < so_far.len() && so_far[j] == x;
                    assert(next[j] == x);
                } else {
                    assert(next[k as int] == x);
                }
            }
        }
        k = k + 1;
    }
    assert(names.take(names.len() as int) == names);

    let mut edges: Vec<Edge> = Vec::new();
    let mut pair_edges: Vec<(usize, usize)> = Vec::new();
    let mut pair_id: usize = 0;
    assert forall|u: int| 0 <= u < adjacency@.len() implies (#[trigger] adjacency@[u])@ == leaving(
        edges@,
        u,
    ) by {}
    while pair_id < pairs.len()
        invariant
            pair_id <= pairs.len(),
            2 * pairs@.len() <= usize::MAX,
            all == texts(pairs@),
            all_listed(markets@, all),
            names == texts(nodes@),
            names == node_names(markets@, all),
            placeable(markets@, all),
            indexes(currency_to_index@, names),
            adjacency@.len() == nodes@.len(),
            edges@.len() == 2 * pair_id,
            pair_edges@.len() == pair_id,
            forall|u: int|
                0 <= u < adjacency@.len() ==> (#[trigger] adjacency@[u])@ == leaving(
                    edges@,
                    u,
                ),
            forall|i: int|
                0 <= i < edges@.len() ==> (#[trigger] edges@[i]).from < nodes@.len() && edges@[i].to
                    < nodes@.len(),
            forall|k: int|
                0 <= k < pair_id ==> (#[trigger] pair_edges@[k]).0 == 2 * k && pair_edges@[k].1 == 2
                    * k + 1,
            forall|k: int|
                0 <= k < pair_id ==> pair_connected(edges@, names, #[trigger] markets@[all[k]], k),
        decreases pairs.len() - pair_id,
    {
        assert(all[pair_id as int] == pairs@[pair_id as int]@);
        assert(markets@.contains_key(all[pair_id as int]));
        let ghost mv = markets@[all[pair_id as int]];
        match markets.get(pairs[pair_id].as_str()) {
            None => {
                return Err(GraphError::MissingMarket(pair_id));
            },
            Some(m) => {
                assert(m@ == mv);
                assert(names.contains(mv.base) && names.contains(mv.quote));
                proof {
                    let b = choose|b: int| 0 <= b < names.len() && names[b] == mv.base;
                    let q = choose|q: int| 0 <= q < names.len() && names[q] == mv.quote;
                    assert(currency_to_index@.contains_key(names[b]));
                    assert(currency_to_index@.contains_key(names[q]));
                }
                let base_idx: usize = match currency_to_index.get(m.base.as_str()) {
                    Some(x) => *x,
                    None => 0,
                };
                let quote_idx: usize = match currency_to_index.get(m.quote.as_str()) {
                    Some(x) => *x,
                    None => 0,
                };
                let ghost edges_before = edges@;
                let buy_edge_idx: usize = edges.len();
                push_edge(
                    &mut edges,
                    &mut adjacency,
                    Edge {
                        from: quote_idx,
                        to: base_idx,
                        pair_id,
                        kind: EdgeKind::Buy,
                        weight: Double::nan_value(),
                    },
                );
                let sell_edge_idx: usize = edges.len();
                push_edge(
                    &mut edges,
                    &mut adjacency,
                    Edge {
                        from: base_idx,
                        to: quote_idx,
                        pair_id,
                        kind: EdgeKind::Sell,
                        weight: Double::nan_value(),
                    },
                );
                pair_edges.push((buy_edge_idx, sell_edge_idx));
                proof {
                    assert forall|k: int| 0 <= k < pair_id + 1 implies pair_connected(
                        edges@,
                        names,
                        #[trigger] markets@[all[k]],
                        k,
                    ) by {
                        if k < pair_id {
                            assert(edges@[2 * k] == edges_before[2 * k]);
                            assert(edges@[2 * k + 1] == edges_before[2 * k + 1]);
                        }
                    }
                }
            },
        }
        pair_id = pair_id + 1;
    }
    Ok(
        Graph {
            nodes,
            edges,
            adjacency,
            currency_to_index,
            pair_edges,
            fee_multiplier,
            rebuild_all: true,
        },
    )
}

/// Appends an edge and enters it with the node that it leaves.
fn push_edge(edges: &mut Vec<Edge>, adjacency: &mut Vec<Vec<usize>>, edge: Edge)
    requires
        edge.from < old(adjacency)@.len(),
        old(edges)@.len() < usize::MAX,
        forall|u: int|
            0 <= u < old(adjacency)@.len() ==> (#[trigger] old(adjacency)@[u])@ == leaving(
                old(edges)@,
                u,
            ),
    ensures
        final(edges)@ == old(edges)@.push(edge),
        final(adjacency)@.len() == old(adjacency)@.len(),
        forall|u: int|
            0 <= u < final(adjacency)@.len() ==> (#[trigger] final(adjacency)@[u])@ == leaving(
                final(edges)@,
                u,
            ),
{
    let ghost before = adjacency@;
    let idx: usize = edges.len();
    adjacency[edge.from].push(idx);
    edges.push(edge);
    assert(edges@.drop_last() == old(edges)@);
    assert forall|u: int| 0 <= u < adjacency@.len() implies (#[trigger] adjacency@[u])@ == leaving(
        edges@,
        u,
    ) by {
        assert(before[u]@ == leaving(old(edges)@, u));
        if u == edge.from {
            assert(adjacency@[u]@ == before[u]@.push(idx));
        } else {
            assert(adjacency@[u] == before[u]);
        }
    }
}

/// The fee multiplier of a graph and the fee make one, up to rounding, where the fee is from zero to
/// one: the multiplier is from zero to one too.
pub proof fn lemma_fee_multiplier(
    g: Graph,
    markets: Map<Seq<char>, MarketView>,
    pairs: Seq<Seq<char>>,
    fee: Double,
)
    requires
        is_graph_of(g, markets, pairs, fee),
        fee.finite(),
        0 <= fee.value() <= unit(),
    ensures
        plain(g.fee_multiplier),
        g.fee_multiplier.value() <= unit(),
        -unit() <= 0x20_0000_0000_0000 * (g.fee_multiplier.value() + fee.value() - unit()) <= unit(),
{
    lemma_one();
    lemma_kept(fee);
    lemma_difference_near(one(), fee);
}

} // verus!
