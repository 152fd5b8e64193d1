use vstd::prelude::*;
use crate::level::{
    LevelModel, PriceLevel, drain, drain_front, lemma_drain, lemma_total_open_nonneg,
    lemma_total_open_push, queue_ok, total_open,
};
use crate::order::{Order, OrderType};

verus! {

/// One step of an execution: `quantity` units traded at `price`.
#[derive(Debug, Clone, Copy, PartialEq, Eq, Structural)]
pub struct Fill {
    pub quantity: i32,
    pub price: i32,
}

/// The order type of the resting orders of a side.
pub open spec fn side_type(is_bid: bool) -> OrderType {
    if is_bid {
        OrderType::BUY
    } else {
        OrderType::SELL
    }
}

/// Price `a` has priority over price `b` on this side: the highest bid, the
/// lowest ask.
pub open spec fn better(is_bid: bool, a: int, b: int) -> bool {
    if is_bid {
        a > b
    } else {
        a < b
    }
}

/// A level at `level_price` on this side may be traded against by an
/// instruction with the given limit: a market instruction (no limit) takes any
/// level; a buy takes asks at or below its limit, a sell bids at or above it.
pub open spec fn crosses(is_bid: bool, level_price: int, limit: Option<i32>) -> bool {
    match limit {
        None => true,
        Some(p) => if is_bid {
            level_price >= p
        } else {
            level_price <= p
        },
    }
}

/// A well-formed book side: its levels are best first, unique by price,
/// and each is well formed.
pub open spec fn side_wf(levels: Seq<LevelModel>, is_bid: bool) -> bool {
    &&& forall|i: int| 0 <= i < levels.len() ==> (#[trigger] levels[i]).wf(side_type(is_bid))
    &&& forall|i: int, j: int|
        #![trigger levels[i], levels[j]]
        0 <= i < j < levels.len() ==> better(is_bid, levels[i].price as int, levels[j].price as int)
}

/// What each level of a stored side is.
pub open spec fn models(v: Seq<PriceLevel>) -> Seq<LevelModel> {
    v.map_values(|l: PriceLevel| l@)
}

/// Total open quantity of a side.
pub open spec fn side_total(levels: Seq<LevelModel>) -> int
    decreases levels.len(),
{
    if levels.len() == 0 {
        0
    } else {
        levels[0].open_quantity + side_total(levels.drop_first())
    }
}

/// Open quantity resting at `price` on a side (zero where no level is).
pub open spec fn open_at(levels: Seq<LevelModel>, price: int) -> int
    decreases levels.len(),
{
    if levels.len() == 0 {
        0
    } else if levels[0].price == price {
        levels[0].open_quantity as int
    } else {
        open_at(levels.drop_first(), price)
    }
}

/// The queue resting at `price` on a side (empty where no level is).
pub open spec fn orders_at(levels: Seq<LevelModel>, price: int) -> Seq<Order>
    decreases levels.len(),
{
    if levels.len() == 0 {
        Seq::empty()
    } else if levels[0].price == price {
        levels[0].orders
    } else {
        orders_at(levels.drop_first(), price)
    }
}

/// Units traded over a trace of fills.
pub open spec fn filled_qty(f: Seq<Fill>) -> int
    decreases f.len(),
{
    if f.len() == 0 {
        0
    } else {
        filled_qty(f.drop_last()) + f.last().quantity
    }
}

/// Notional value (quantity times price) of a trace of fills.
pub open spec fn notional(f: Seq<Fill>) -> int
    decreases f.len(),
{
    if f.len() == 0 {
        0
    } else {
        notional(f.drop_last()) + f.last().quantity * f.last().price
    }
}

/// What a sweep of a side leaves: the side's levels, the quantity that was
/// not filled, and the fills in the order they happened.
pub struct Sweep {
    pub rest: Seq<LevelModel>,
    pub left: int,
    pub fills: Seq<Fill>,
}

/// Matching of `q` units against a side under price-time priority: the best
/// level is taken while it crosses the limit; a level larger than what is
/// left gives up only that much from the front of its queue and stays,
/// otherwise it is consumed whole and dropped.
pub open spec fn sweep(levels: Seq<LevelModel>, q: int, is_bid: bool, limit: Option<i32>) -> Sweep
    decreases levels.len(),
{
    if q <= 0 || levels.len() == 0 || !crosses(is_bid, levels[0].price as int, limit) {
        Sweep { rest: levels, left: q, fills: Seq::empty() }
    } else if levels[0].open_quantity > q {
        let l = levels[0];
        Sweep {
            rest: levels.update(
                0,
                LevelModel {
                    price: l.price,
                    open_quantity: (l.open_quantity - q) as i32,
                    orders: drain(l.orders, q),
                },
            ),
            left: 0,
            fills: seq![Fill { quantity: q as i32, price: l.price }],
        }
    } else {
        let l = levels[0];
        let r = sweep(levels.drop_first(), q - l.open_quantity, is_bid, limit);
        Sweep {
            rest: r.rest,
            left: r.left,
            fills: seq![Fill { quantity: l.open_quantity, price: l.price }] + r.fills,
        }
    }
}

/// A level that holds only the order `o`.
pub open spec fn new_level(o: Order) -> LevelModel {
    LevelModel { price: o.price, open_quantity: o.open_size() as i32, orders: seq![o] }
}

/// The level `l` with `o` appended to the tail of its queue.
pub open spec fn append_order(l: LevelModel, o: Order) -> LevelModel {
    LevelModel {
        price: l.price,
        open_quantity: (l.open_quantity + o.open_size()) as i32,
        orders: l.orders.push(o),
    }
}

/// The side with `o` resting on it: appended to the level at its price, or
/// in a new level at its place in price order.
pub open spec fn rest(levels: Seq<LevelModel>, is_bid: bool, o: Order) -> Seq<LevelModel>
    decreases levels.len(),
{
    if levels.len() == 0 {
        seq![new_level(o)]
    } else if levels[0].price == o.price {
        levels.update(0, append_order(levels[0], o))
    } else if better(is_bid, o.price as int, levels[0].price as int) {
        seq![new_level(o)] + levels
    } else {
        seq![levels[0]] + rest(levels.drop_first(), is_bid, o)
    }
}

pub proof fn lemma_fill_sums_concat(a: Seq<Fill>, b: Seq<Fill>)
    ensures
        filled_qty(a + b) == filled_qty(a) + filled_qty(b),
        notional(a + b) == notional(a) + notional(b),
    decreases b.len(),
{
    if b.len() == 0 {
        assert(a + b =~= a);
    } else {
        assert((a + b).drop_last() =~= a + b.drop_last());
        lemma_fill_sums_concat(a, b.drop_last());
    }
}

/// Fills of positive quantity at prices in `1..=i32::MAX`.
pub open spec fn fills_ok(f: Seq<Fill>) -> bool {
    forall|i: int| 0 <= i < f.len() ==> (#[trigger] f[i]).quantity > 0 && f[i].price > 0
}

pub proof fn lemma_notional_bound(f: Seq<Fill>)
    requires
        fills_ok(f),
    ensures
        0 <= filled_qty(f),
        0 <= notional(f) <= filled_qty(f) * 0x7fff_ffff,
    decreases f.len(),
{
    if f.len() > 0 {
        let g = f.drop_last();
        assert(fills_ok(g)) by {
            assert forall|i: int| 0 <= i < g.len() implies (#[trigger] g[i]).quantity > 0 && g[i].price
                > 0 by {
                assert(g[i] == f[i]);
            }
        }
        lemma_notional_bound(g);
        let x = f.last();
        assert(x == f[f.len() - 1]);
        let q = x.quantity as int;
        let p = x.price as int;
        assert(0 <= q * p <= q * 0x7fff_ffff) by (nonlinear_arith)
            requires
                q > 0,
                0 < p <= 0x7fff_ffff,
        ;
        assert(filled_qty(g) * 0x7fff_ffff + q * 0x7fff_ffff == (filled_qty(g) + q) * 0x7fff_ffff)
            by (nonlinear_arith);
    }
}

pub proof fn lemma_side_wf_drop_first(levels: Seq<LevelModel>, is_bid: bool)
    requires
        side_wf(levels, is_bid),
        levels.len() > 0,
    ensures
        side_wf(levels.drop_first(), is_bid),
{
    let d = levels.drop_first();
    assert forall|i: int| 0 <= i < d.len() implies (#[trigger] d[i]).wf(side_type(is_bid)) by {
        assert(d[i] == levels[i + 1]);
    }
    assert forall|i: int, j: int| 0 <= i < j < d.len() implies better(
        is_bid,
        (#[trigger] d[i]).price as int,
        (#[trigger] d[j]).price as int,
    ) by {
        assert(d[i] == levels[i + 1] && d[j] == levels[j + 1]);
    }
}

pub proof fn lemma_side_total_update_first(levels: Seq<LevelModel>, x: LevelModel)
    requires
        levels.len() > 0,
    ensures
        side_total(levels.update(0, x)) == side_total(levels) - levels[0].open_quantity
            + x.open_quantity,
{
    assert(levels.update(0, x).drop_first() =~= levels.drop_first());
}

pub proof fn lemma_single_fill(f: Fill, x: Seq<Fill>)
    ensures
        filled_qty(seq![f] + x) == f.quantity + filled_qty(x),
        notional(seq![f] + x) == f.quantity * f.price + notional(x),
{
    let e = Seq::<Fill>::empty();
    assert(seq![f].drop_last() =~= e);
    assert(seq![f].last() == f);
    assert(filled_qty(e) == 0 && notional(e) == 0);
    assert(filled_qty(seq![f]) == f.quantity);
    assert(notional(seq![f]) == f.quantity * f.price);
    lemma_fill_sums_concat(seq![f], x);
}

/// Everything a sweep keeps and accounts for, proved together by induction.
proof fn lemma_sweep(levels: Seq<LevelModel>, q: int, is_bid: bool, limit: Option<i32>)
    requires
        side_wf(levels, is_bid),
        0 <= q,
    ensures
        ({
            let r = sweep(levels, q, is_bid, limit);
            &&& side_wf(r.rest, is_bid)
            &&& 0 <= r.left <= q
            &&& filled_qty(r.fills) == q - r.left
            &&& side_total(levels) - side_total(r.rest) == filled_qty(r.fills)
            &&& fills_ok(r.fills)
            &&& r.left > 0 ==> r.rest.len() == 0 || !crosses(is_bid, r.rest[0].price as int, limit)
            &&& forall|i: int| 0 <= i < r.fills.len() ==> crosses(is_bid, (#[trigger] r.fills[i]).price as int, limit)
            &&& forall|i: int, j: int|
                #![trigger r.fills[i], r.fills[j]]
                0 <= i < j < r.fills.len() ==> better(is_bid, r.fills[i].price as int, r.fills[j].price as int)
            &&& forall|i: int, j: int|
                #![trigger r.fills[i], r.rest[j]]
                0 <= i < r.fills.len() && 0 <= j < r.rest.len() ==> !better(is_bid, r.rest[j].price as int, r.fills[i].price as int)
            &&& levels.len() > 0 ==> forall|i: int| 0 <= i < r.fills.len() ==> !better(is_bid, (#[trigger] r.fills[i]).price as int, levels[0].price as int)
            &&& levels.len() > 0 ==> forall|j: int| 0 <= j < r.rest.len() ==> !better(is_bid, (#[trigger] r.rest[j]).price as int, levels[0].price as int)
        }),
    decreases levels.len(),
{
    let r = sweep(levels, q, is_bid, limit);
    if q <= 0 || levels.len() == 0 || !crosses(is_bid, levels[0].price as int, limit) {
        assert forall|j: int| 0 <= j < r.rest.len() implies !better(is_bid, (#[trigger] r.rest[j]).price as int, levels[0].price as int) by {
            if j > 0 {
                assert(better(is_bid, levels[0].price as int, levels[j].price as int));
            }
        }
    } else if levels[0].open_quantity > q {
        let l = levels[0];
        assert(l.wf(side_type(is_bid)));
        lemma_drain(l.orders, q, l.price, side_type(is_bid));
        let nl = LevelModel { price: l.price, open_quantity: (l.open_quantity - q) as i32, orders: drain(l.orders, q) };
        lemma_total_open_nonneg(drain(l.orders, q), l.price, side_type(is_bid));
        assert(nl.wf(side_type(is_bid)));
        lemma_side_total_update_first(levels, nl);
        let f = Fill { quantity: q as i32, price: l.price };
        assert(r.fills =~= seq![f] + Seq::<Fill>::empty());
        lemma_single_fill(f, Seq::<Fill>::empty());
        assert forall|j: int| 0 <= j < r.rest.len() implies !better(is_bid, (#[trigger] r.rest[j]).price as int, levels[0].price as int) by {
            if j > 0 {
                assert(better(is_bid, levels[0].price as int, levels[j].price as int));
            }
        }
        assert forall|i: int| 0 <= i < r.rest.len() implies (#[trigger] r.rest[i]).wf(side_type(is_bid)) by {
            if i > 0 {
                assert(r.rest[i] == levels[i]);
            }
        }
        assert forall|i: int, j: int| 0 <= i < j < r.rest.len() implies better(is_bid, (#[trigger] r.rest[i]).price as int, (#[trigger] r.rest[j]).price as int) by {
            assert(r.rest[i].price == levels[i].price && r.rest[j].price == levels[j].price);
        }
    } else {
        let l = levels[0];
        let d = levels.drop_first();
        assert(l.wf(side_type(is_bid)));
        lemma_side_wf_drop_first(levels, is_bid);
        lemma_sweep(d, q - l.open_quantity, is_bid, limit);
        let rr = sweep(d, q - l.open_quantity, is_bid, limit);
        let f = Fill { quantity: l.open_quantity, price: l.price };
        lemma_single_fill(f, rr.fills);
        assert(r.fills == seq![f] + rr.fills);
        if d.len() > 0 {
            assert(better(is_bid, levels[0].price as int, levels[1].price as int));
            assert(d[0] == levels[1]);
        }
        assert forall|i: int| 0 <= i < r.fills.len() implies (#[trigger] r.fills[i]).quantity > 0 && r.fills[i].price > 0 by {
            if i > 0 {
                assert(r.fills[i] == rr.fills[i - 1]);
            }
        }
        assert forall|i: int| 0 <= i < r.fills.len() implies crosses(is_bid, (#[trigger] r.fills[i]).price as int, limit) by {
            if i > 0 {
                assert(r.fills[i] == rr.fills[i - 1]);
            }
        }
        assert forall|i: int| 0 <= i < r.fills.len() implies !better(is_bid, (#[trigger] r.fills[i]).price as int, levels[0].price as int) by {
            if i > 0 {
                assert(r.fills[i] == rr.fills[i - 1]);
            }
        }
        assert forall|i: int, j: int| 0 <= i < j < r.fills.len() implies better(is_bid, (#[trigger] r.fills[i]).price as int, (#[trigger] r.fills[j]).price as int) by {
            assert(r.fills[j] == rr.fills[j - 1]);
            if i > 0 {
                assert(r.fills[i] == rr.fills[i - 1]);
            }
        }
        assert forall|i: int, j: int| 0 <= i < r.fills.len() && 0 <= j < r.rest.len() implies !better(is_bid, (#[trigger] r.rest[j]).price as int, (#[trigger] r.fills[i]).price as int) by {
            if i > 0 {
                assert(r.fills[i] == rr.fills[i - 1]);
            }
        }
    }
}

/// Conservation: a sweep neither creates nor destroys quantity. What it
/// reports as filled is exactly the open quantity that left the side, and it
/// is the requested quantity less what was left unfilled.
pub proof fn law_sweep_conserves(levels: Seq<LevelModel>, q: int, is_bid: bool, limit: Option<i32>)
    requires
        side_wf(levels, is_bid),
        0 <= q,
    ensures
        side_total(levels) - side_total(sweep(levels, q, is_bid, limit).rest) == filled_qty(
            sweep(levels, q, is_bid, limit).fills,
        ),
        filled_qty(sweep(levels, q, is_bid, limit).fills) == q - sweep(levels, q, is_bid, limit).left,
        0 <= sweep(levels, q, is_bid, limit).left <= q,
{
    lemma_sweep(levels, q, is_bid, limit);
}

/// Price priority: the fills of a sweep come strictly best price first, every
/// one of them crosses the limit, and no level left on the side has a better
/// price than any level that was traded.
pub proof fn law_sweep_price_priority(levels: Seq<LevelModel>, q: int, is_bid: bool, limit: Option<i32>)
    requires
        side_wf(levels, is_bid),
        0 <= q,
    ensures
        ({
            let r = sweep(levels, q, is_bid, limit);
            &&& forall|i: int| 0 <= i < r.fills.len() ==> crosses(is_bid, (#[trigger] r.fills[i]).price as int, limit)
            &&& forall|i: int, j: int|
                #![trigger r.fills[i], r.fills[j]]
                0 <= i < j < r.fills.len() ==> better(is_bid, r.fills[i].price as int, r.fills[j].price as int)
            &&& forall|i: int, j: int|
                #![trigger r.fills[i], r.rest[j]]
                0 <= i < r.fills.len() && 0 <= j < r.rest.len() ==> !better(is_bid, r.rest[j].price as int, r.fills[i].price as int)
        }),
{
    lemma_sweep(levels, q, is_bid, limit);
}

/// A sweep keeps the side well formed; it stops short of the requested
/// quantity only where the side is empty or its best level does not cross.
pub proof fn lemma_sweep_wf(levels: Seq<LevelModel>, q: int, is_bid: bool, limit: Option<i32>)
    requires
        side_wf(levels, is_bid),
        0 <= q,
    ensures
        side_wf(sweep(levels, q, is_bid, limit).rest, is_bid),
        fills_ok(sweep(levels, q, is_bid, limit).fills),
        sweep(levels, q, is_bid, limit).left > 0 ==> sweep(levels, q, is_bid, limit).rest.len() == 0
            || !crosses(is_bid, sweep(levels, q, is_bid, limit).rest[0].price as int, limit),
{
    lemma_sweep(levels, q, is_bid, limit);
}

proof fn lemma_absent(levels: Seq<LevelModel>, p: int)
    requires
        forall|j: int| 0 <= j < levels.len() ==> (#[trigger] levels[j]).price != p,
    ensures
        orders_at(levels, p) == Seq::<Order>::empty(),
        open_at(levels, p) == 0,
    decreases levels.len(),
{
    if levels.len() > 0 {
        let d = levels.drop_first();
        assert forall|j: int| 0 <= j < d.len() implies (#[trigger] d[j]).price != p by {
            assert(d[j] == levels[j + 1]);
        }
        lemma_absent(d, p);
    }
}

proof fn lemma_rest(levels: Seq<LevelModel>, is_bid: bool, o: Order)
    requires
        side_wf(levels, is_bid),
        o.is_resting(),
        o.order_type == side_type(is_bid),
        o.price > 0,
        open_at(levels, o.price as int) + o.open_size() <= 0x7fff_ffff,
    ensures
        ({
            let r = rest(levels, is_bid, o);
            &&& side_wf(r, is_bid)
            &&& side_total(r) == side_total(levels) + o.open_size()
            &&& orders_at(r, o.price as int) == orders_at(levels, o.price as int).push(o)
            &&& forall|p: int| p != o.price ==> orders_at(r, p) == orders_at(levels, p)
            &&& levels.len() > 0 ==> forall|j: int|
                0 <= j < r.len() ==> (#[trigger] r[j]).price == o.price || !better(
                    is_bid,
                    r[j].price as int,
                    levels[0].price as int,
                )
        }),
    decreases levels.len(),
{
    let t = side_type(is_bid);
    let r = rest(levels, is_bid, o);
    let nl = new_level(o);
    let e = Seq::<Order>::empty();
    assert(seq![o].drop_first() =~= e);
    assert(total_open(seq![o]) == o.open_size() + total_open(e));
    assert(e.push(o) =~= seq![o]);
    assert(nl.wf(t));
    if levels.len() == 0 {
        let ls = Seq::<LevelModel>::empty();
        assert(r.drop_first() =~= ls);
        assert(side_total(r) == nl.open_quantity + side_total(ls));
        assert forall|p: int| p != o.price implies orders_at(r, p) == orders_at(levels, p) by {
            assert(orders_at(r, p) == orders_at(r.drop_first(), p));
        }
    } else if levels[0].price == o.price {
        let l = levels[0];
        assert(l.wf(t));
        lemma_total_open_push(l.orders, o);
        let al = append_order(l, o);
        assert(al.wf(t));
        lemma_side_total_update_first(levels, al);
        assert(r.drop_first() =~= levels.drop_first());
        assert forall|i: int| 0 <= i < r.len() implies (#[trigger] r[i]).wf(t) by {
            if i > 0 {
                assert(r[i] == levels[i]);
            }
        }
        assert forall|i: int, j: int| 0 <= i < j < r.len() implies better(is_bid, (#[trigger] r[i]).price as int, (#[trigger] r[j]).price as int) by {
            assert(r[i].price == levels[i].price && r[j].price == levels[j].price);
        }
        assert forall|j: int| 0 <= j < r.len() implies (#[trigger] r[j]).price == o.price || !better(is_bid, r[j].price as int, levels[0].price as int) by {
            if j > 0 {
                assert(better(is_bid, levels[0].price as int, levels[j].price as int));
            }
        }
        assert forall|p: int| p != o.price implies orders_at(r, p) == orders_at(levels, p) by {
            assert(orders_at(r, p) == orders_at(r.drop_first(), p));
        }
    } else if better(is_bid, o.price as int, levels[0].price as int) {
        assert(r.drop_first() =~= levels);
        assert forall|j: int| 0 <= j < levels.len() implies (#[trigger] levels[j]).price != o.price by {
            if j > 0 {
                assert(better(is_bid, levels[0].price as int, levels[j].price as int));
            }
        }
        lemma_absent(levels, o.price as int);
        assert(r.skip(1) =~= levels);
        assert forall|i: int| 0 <= i < r.len() implies (#[trigger] r[i]).wf(t) by {
            if i > 0 {
                assert(r[i] == levels[i - 1]);
            }
        }
        assert forall|i: int, j: int| 0 <= i < j < r.len() implies better(is_bid, (#[trigger] r[i]).price as int, (#[trigger] r[j]).price as int) by {
            assert(r[j] == levels[j - 1]);
            if i > 0 {
                assert(r[i] == levels[i - 1]);
            }
            if j > 1 {
                assert(better(is_bid, levels[0].price as int, levels[j - 1].price as int));
            }
        }
        assert forall|j: int| 0 <= j < r.len() implies (#[trigger] r[j]).price == o.price || !better(is_bid, r[j].price as int, levels[0].price as int) by {
            if j > 1 {
                assert(r[j] == levels[j - 1]);
                assert(better(is_bid, levels[0].price as int, levels[j - 1].price as int));
            }
        }
        assert(orders_at(r, o.price as int) == seq![o]);
        assert forall|p: int| p != o.price implies orders_at(r, p) == orders_at(levels, p) by {
            assert(orders_at(r, p) == orders_at(r.drop_first(), p));
        }
    } else {
        let l = levels[0];
        let d = levels.drop_first();
        lemma_side_wf_drop_first(levels, is_bid);
        lemma_rest(d, is_bid, o);
        let rd = rest(d, is_bid, o);
        assert(r.drop_first() =~= rd);
        assert(r[0] == l);
        assert forall|i: int| 0 <= i < r.len() implies (#[trigger] r[i]).wf(t) by {
            if i > 0 {
                assert(r[i] == rd[i - 1]);
            }
        }
        if d.len() > 0 {
            assert(better(is_bid, levels[0].price as int, levels[1].price as int));
            assert(d[0] == levels[1]);
        } else {
            assert(rd == seq![new_level(o)]);
        }
        assert forall|j: int| 0 <= j < rd.len() implies better(is_bid, l.price as int, (#[trigger] rd[j]).price as int) by {
            if d.len() > 0 && rd[j].price != o.price {
                assert(!better(is_bid, rd[j].price as int, d[0].price as int));
            }
        }
        assert forall|i: int, j: int| 0 <= i < j < r.len() implies better(is_bid, (#[trigger] r[i]).price as int, (#[trigger] r[j]).price as int) by {
            assert(r[j] == rd[j - 1]);
            if i > 0 {
                assert(r[i] == rd[i - 1]);
            }
        }
        assert forall|j: int| 0 <= j < r.len() implies (#[trigger] r[j]).price == o.price || !better(is_bid, r[j].price as int, levels[0].price as int) by {
            if j > 0 {
                assert(r[j] == rd[j - 1]);
            }
        }
        assert forall|p: int| p != o.price implies orders_at(r, p) == orders_at(levels, p) by {
            if l.price != p {
                assert(orders_at(r, p) == orders_at(rd, p));
            }
        }
    }
}

/// Resting correctness: resting `o` adds exactly its open size to the side,
/// appends it at the tail of the queue at its price (a queue that was empty
/// where no level stood), and changes no queue at any other price.
pub proof fn law_rest_adds_one_order(levels: Seq<LevelModel>, is_bid: bool, o: Order)
    requires
        side_wf(levels, is_bid),
        o.is_resting(),
        o.order_type == side_type(is_bid),
        o.price > 0,
        open_at(levels, o.price as int) + o.open_size() <= 0x7fff_ffff,
    ensures
        side_wf(rest(levels, is_bid, o), is_bid),
        side_total(rest(levels, is_bid, o)) == side_total(levels) + o.open_size(),
        orders_at(rest(levels, is_bid, o), o.price as int) == orders_at(levels, o.price as int).push(o),
        forall|p: int| p != o.price ==> #[trigger] orders_at(rest(levels, is_bid, o), p) == orders_at(levels, p),
{
    lemma_rest(levels, is_bid, o);
}

proof fn lemma_rest_split(levels: Seq<LevelModel>, i: int, is_bid: bool, o: Order)
    requires
        0 <= i <= levels.len(),
        forall|j: int| 0 <= j < i ==> better(is_bid, (#[trigger] levels[j]).price as int, o.price as int),
    ensures
        rest(levels, is_bid, o) == levels.take(i) + rest(levels.skip(i), is_bid, o),
        open_at(levels, o.price as int) == open_at(levels.skip(i), o.price as int),
    decreases i,
{
    if i == 0 {
        assert(levels.skip(0) =~= levels);
        assert(levels.take(0) + rest(levels, is_bid, o) =~= rest(levels, is_bid, o));
    } else {
        let d = levels.drop_first();
        assert(better(is_bid, levels[0].price as int, o.price as int));
        assert forall|j: int| 0 <= j < i - 1 implies better(is_bid, (#[trigger] d[j]).price as int, o.price as int) by {
            assert(d[j] == levels[j + 1]);
        }
        lemma_rest_split(d, i - 1, is_bid, o);
        assert(d.skip(i - 1) =~= levels.skip(i));
        assert(seq![levels[0]] + (d.take(i - 1) + rest(d.skip(i - 1), is_bid, o)) =~= levels.take(i) + rest(levels.skip(i), is_bid, o));
    }
}

fn crosses_exec(is_bid: bool, level_price: i32, limit: Option<i32>) -> (r: bool)
    ensures
        r == crosses(is_bid, level_price as int, limit),
{
    match limit {
        None => true,
        Some(p) => if is_bid {
            level_price >= p
        } else {
            level_price <= p
        },
    }
}

fn better_exec(is_bid: bool, a: i32, b: i32) -> (r: bool)
    ensures
        r == better(is_bid, a as int, b as int),
{
    if is_bid {
        a > b
    } else {
        a < b
    }
}

/// Matches `quantity` units against the side, best level first. Returns what
/// was left unfilled, the notional value traded and the fills in order.
pub fn sweep_side(levels: &mut Vec<PriceLevel>, is_bid: bool, quantity: i32, limit: Option<i32>) -> (r: (i32, i64, Vec<Fill>))
    requires
        side_wf(models(old(levels)@), is_bid),
        quantity >= 0,
    ensures
        models(final(levels)@) == sweep(models(old(levels)@), quantity as int, is_bid, limit).rest,
        r.0 == sweep(models(old(levels)@), quantity as int, is_bid, limit).left,
        r.2@ == sweep(models(old(levels)@), quantity as int, is_bid, limit).fills,
        r.1 == notional(r.2@),
        side_wf(models(final(levels)@), is_bid),
{
    let ghost whole = sweep(models(levels@), quantity as int, is_bid, limit);
    let mut left: i32 = quantity;
    let mut value: i64 = 0;
    let mut fills: Vec<Fill> = Vec::new();
    proof {
        lemma_sweep(models(levels@), quantity as int, is_bid, limit);
        assert(fills@ + whole.fills =~= whole.fills);
    }
    while left > 0 && levels.len() > 0 && crosses_exec(is_bid, levels[0].price, limit)
        invariant
            side_wf(models(levels@), is_bid),
            0 <= left <= quantity,
            sweep(models(levels@), left as int, is_bid, limit).rest == whole.rest,
            sweep(models(levels@), left as int, is_bid, limit).left == whole.left,
            fills@ + sweep(models(levels@), left as int, is_bid, limit).fills == whole.fills,
            fills_ok(fills@),
            filled_qty(fills@) == quantity - left,
            value == notional(fills@),
        decreases left,
    {
        let ghost before = models(levels@);
        let ghost cur = sweep(before, left as int, is_bid, limit);
        let mut lvl = levels.remove(0);
        assert(lvl@ == before[0]);
        assert(models(levels@) =~= before.drop_first());
        assert(lvl@.wf(side_type(is_bid)));
        let p = lvl.price;
        let oq = lvl.open_quantity;
        let ghost prev_fills = fills@;
        let step: i32;
        if oq > left {
            proof {
                lemma_drain(lvl.orders@, left as int, p, side_type(is_bid));
            }
            drain_front(&mut lvl.orders, left, Ghost(p), Ghost(side_type(is_bid)));
            lvl.open_quantity = oq - left;
            levels.insert(0, lvl);
            assert(models(levels@) =~= before.update(0, lvl@));
            step = left;
            proof {
                lemma_sweep(before, left as int, is_bid, limit);
            }
        } else {
            step = oq;
            proof {
                lemma_side_wf_drop_first(before, is_bid);
            }
        }
        let f = Fill { quantity: step, price: p };
        fills.push(f);
        proof {
            assert(fills@ =~= prev_fills + seq![f]);
            lemma_fill_sums_concat(prev_fills, seq![f]);
            lemma_single_fill(f, Seq::<Fill>::empty());
            assert(seq![f] + Seq::<Fill>::empty() =~= seq![f]);
            assert forall|i: int| 0 <= i < fills@.len() implies (#[trigger] fills@[i]).quantity > 0 && fills@[i].price > 0 by {
                if i < prev_fills.len() {
                    assert(fills@[i] == prev_fills[i]);
                }
            }
            lemma_notional_bound(fills@);
            assert((quantity - left + step) * 0x7fff_ffff <= quantity * 0x7fff_ffff) by (nonlinear_arith)
                requires
                    quantity - left + step <= quantity,
            ;
            assert(quantity * 0x7fff_ffff <= 0x7fff_ffff * 0x7fff_ffff) by (nonlinear_arith)
                requires
                    quantity <= 0x7fff_ffff,
            ;
            lemma_notional_bound(prev_fills);
            assert(0 <= step * p) by (nonlinear_arith)
                requires
                    step > 0,
                    p > 0,
            ;
            assert(0 <= step * p <= notional(fills@));
        }
        value = value + (step as i64) * (p as i64);
        left = left - step;
    }
    proof {
        assert(fills@ + Seq::<Fill>::empty() =~= fills@);
    }
    (left, value, fills)
}

/// Places `o` on the side: at the tail of the queue at its price, or in a new
/// level at its place in price order.
pub fn rest_order(levels: &mut Vec<PriceLevel>, is_bid: bool, o: Order)
    requires
        side_wf(models(old(levels)@), is_bid),
        o.is_resting(),
        o.order_type == side_type(is_bid),
        o.price > 0,
        open_at(models(old(levels)@), o.price as int) + o.open_size() <= 0x7fff_ffff,
    ensures
        models(final(levels)@) == rest(models(old(levels)@), is_bid, o),
        side_wf(models(final(levels)@), is_bid),
{
    let ghost m = models(levels@);
    let mut i: usize = 0;
    while i < levels.len() && better_exec(is_bid, levels[i].price, o.price)
        invariant
            0 <= i <= levels.len(),
            levels@ == old(levels)@,
            m == models(levels@),
            forall|j: int| 0 <= j < i ==> better(is_bid, (#[trigger] m[j]).price as int, o.price as int),
        decreases levels.len() - i,
    {
        assert(m[i as int] == levels@[i as int]@);
        i = i + 1;
    }
    proof {
        lemma_rest_split(m, i as int, is_bid, o);
        lemma_rest(m, is_bid, o);
    }
    if i < levels.len() && levels[i].price == o.price {
        let mut lvl = levels.remove(i);
        assert(lvl@ == m[i as int]);
        assert(m.skip(i as int)[0] == m[i as int]);
        assert(lvl@.wf(side_type(is_bid)));
        lvl.orders.push(o);
        lvl.open_quantity = lvl.open_quantity + (o.size - o.filled);
        levels.insert(i, lvl);
        assert(models(levels@) =~= m.take(i as int) + m.skip(i as int).update(0, append_order(m[i as int], o)));
    } else {
        let mut v: Vec<Order> = Vec::new();
        v.push(o);
        assert(v@ =~= seq![o]);
        let nl = PriceLevel { price: o.price, open_quantity: o.size - o.filled, orders: v };
        levels.insert(i, nl);
        proof {
            if (i as int) < m.len() {
                assert(m.skip(i as int)[0] == m[i as int]);
                assert(models(levels@) =~= m.take(i as int) + (seq![new_level(o)] + m.skip(i as int)));
            } else {
                assert(m.skip(i as int) =~= Seq::<LevelModel>::empty());
                assert(models(levels@) =~= m.take(i as int) + seq![new_level(o)]);
            }
        }
    }
}

/// The open quantity at any one price is at most the side's total.
pub proof fn lemma_open_at_le_total(levels: Seq<LevelModel>, is_bid: bool, p: int)
    requires
        side_wf(levels, is_bid),
    ensures
        0 <= open_at(levels, p) <= side_total(levels),
        0 <= side_total(levels),
    decreases levels.len(),
{
    if levels.len() > 0 {
        assert(levels[0].wf(side_type(is_bid)));
        lemma_side_wf_drop_first(levels, is_bid);
        lemma_open_at_le_total(levels.drop_first(), is_bid, p);
    }
}

} // verus!
