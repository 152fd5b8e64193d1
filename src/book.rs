use vstd::prelude::*;
use crate::command::Instruction;
use crate::level::{LevelModel, PriceLevel, queue_ok};
use crate::order::{Order, OrderType};
use crate::side::{
    Fill, Sweep, law_rest_adds_one_order, lemma_open_at_le_total, law_sweep_conserves, lemma_notional_bound,
    lemma_sweep_wf, models, notional, open_at, rest, rest_order, side_total, side_wf, sweep,
    sweep_side, side_type,
};

verus! {

/// Both sides of a book, best level first: bids from the highest price down,
/// asks from the lowest price up.
pub struct BookModel {
    pub bids: Seq<LevelModel>,
    pub asks: Seq<LevelModel>,
}

impl BookModel {
    pub open spec fn wf(self) -> bool {
        side_wf(self.bids, true) && side_wf(self.asks, false)
    }

    pub open spec fn empty() -> BookModel {
        BookModel { bids: Seq::empty(), asks: Seq::empty() }
    }
}

/// A new resting order for the unfilled rest of a limit instruction.
pub open spec fn resting(t: OrderType, q: int, price: i32) -> Order {
    Order { order_type: t, size: q as i32, filled: 0, price }
}

/// The book after a market buy of `q`: the asks are swept without a limit.
pub open spec fn after_market_buy(b: BookModel, q: int) -> BookModel {
    BookModel { bids: b.bids, asks: sweep(b.asks, q, false, None).rest }
}

/// The book after a market sell of `q`: the bids are swept without a limit.
pub open spec fn after_market_sell(b: BookModel, q: int) -> BookModel {
    BookModel { bids: sweep(b.bids, q, true, None).rest, asks: b.asks }
}

/// The book after a limit buy of `q` at `price`: asks at or below `price` are
/// swept, and what is left rests as one new bid at `price`.
pub open spec fn after_limit_buy(b: BookModel, q: int, price: i32) -> BookModel {
    let s = sweep(b.asks, q, false, Some(price));
    BookModel {
        bids: if s.left > 0 {
            rest(b.bids, true, resting(OrderType::BUY, s.left, price))
        } else {
            b.bids
        },
        asks: s.rest,
    }
}

/// The book after a limit sell of `q` at `price`: bids at or above `price`
/// are swept, and what is left rests as one new ask at `price`.
pub open spec fn after_limit_sell(b: BookModel, q: int, price: i32) -> BookModel {
    let s = sweep(b.bids, q, true, Some(price));
    BookModel {
        bids: s.rest,
        asks: if s.left > 0 {
            rest(b.asks, false, resting(OrderType::SELL, s.left, price))
        } else {
            b.asks
        },
    }
}

/// The book after the seeding batch of limit instructions.
pub open spec fn seeded(b: BookModel) -> BookModel {
    let b = after_limit_buy(b, 5, 8);
    let b = after_limit_buy(b, 4, 7);
    let b = after_limit_buy(b, 2, 3);
    let b = after_limit_buy(b, 6, 8);
    let b = after_limit_buy(b, 5, 15);
    let b = after_limit_buy(b, 10, 10);
    let b = after_limit_buy(b, 8, 9);
    let b = after_limit_buy(b, 1, 2);
    let b = after_limit_buy(b, 12, 14);
    let b = after_limit_buy(b, 7, 5);
    let b = after_limit_sell(b, 2, 15);
    let b = after_limit_sell(b, 3, 16);
    let b = after_limit_sell(b, 3, 17);
    let b = after_limit_sell(b, 4, 18);
    let b = after_limit_sell(b, 5, 20);
    let b = after_limit_sell(b, 6, 18);
    let b = after_limit_sell(b, 9, 21);
    let b = after_limit_sell(b, 15, 25);
    let b = after_limit_sell(b, 2, 19);
    let b = after_limit_sell(b, 11, 22);
    b
}

/// The book after one instruction.
pub open spec fn apply(b: BookModel, i: Instruction) -> BookModel {
    match i {
        Instruction::Order { side: OrderType::BUY, quantity, price: None } => after_market_buy(b, quantity as int),
        Instruction::Order { side: OrderType::SELL, quantity, price: None } => after_market_sell(b, quantity as int),
        Instruction::Order { side: OrderType::BUY, quantity, price: Some(p) } => after_limit_buy(b, quantity as int, p),
        Instruction::Order { side: OrderType::SELL, quantity, price: Some(p) } => after_limit_sell(b, quantity as int, p),
        Instruction::Exit => b,
    }
}

/// The side an instruction trades against (an exit trades against none; its
/// bid side stands in and does not change).
pub open spec fn opposing(b: BookModel, i: Instruction) -> Seq<LevelModel> {
    match i {
        Instruction::Order { side: OrderType::BUY, .. } => b.asks,
        _ => b.bids,
    }
}

/// Units an instruction reports as filled.
pub open spec fn filled_by(b: BookModel, i: Instruction) -> int {
    match i {
        Instruction::Order { side, quantity, price } => quantity - sweep(
            opposing(b, i),
            quantity as int,
            side == OrderType::SELL,
            price,
        ).left,
        Instruction::Exit => 0,
    }
}

/// The instruction may run on `b`: a quantity of at least zero, a positive
/// price, and room at that price for a resting remainder.
pub open spec fn admissible(b: BookModel, i: Instruction) -> bool {
    match i {
        Instruction::Order { side, quantity, price } => quantity >= 0 && match price {
            None => true,
            Some(p) => p > 0 && open_at(side_of(b, side), p as int) + quantity <= 0x7fff_ffff,
        },
        Instruction::Exit => true,
    }
}

/// Every instruction of `ops` in turn may run on the book it meets.
pub open spec fn runs_within(b: BookModel, ops: Seq<Instruction>) -> bool
    decreases ops.len(),
{
    ops.len() == 0 || (admissible(b, ops[0]) && runs_within(apply(b, ops[0]), ops.drop_first()))
}

/// The book after `ops` in turn.
pub open spec fn run(b: BookModel, ops: Seq<Instruction>) -> BookModel
    decreases ops.len(),
{
    if ops.len() == 0 {
        b
    } else {
        run(apply(b, ops[0]), ops.drop_first())
    }
}

/// Units filled over `ops` in turn.
pub open spec fn total_filled(b: BookModel, ops: Seq<Instruction>) -> int
    decreases ops.len(),
{
    if ops.len() == 0 {
        0
    } else {
        filled_by(b, ops[0]) + total_filled(apply(b, ops[0]), ops.drop_first())
    }
}

/// Open quantity taken from the opposing sides over `ops` in turn.
pub open spec fn total_consumed(b: BookModel, ops: Seq<Instruction>) -> int
    decreases ops.len(),
{
    if ops.len() == 0 {
        0
    } else {
        side_total(opposing(b, ops[0])) - side_total(opposing(apply(b, ops[0]), ops[0]))
            + total_consumed(apply(b, ops[0]), ops.drop_first())
    }
}

proof fn lemma_step(b: BookModel, i: Instruction)
    requires
        b.wf(),
        admissible(b, i),
    ensures
        apply(b, i).wf(),
        filled_by(b, i) == side_total(opposing(b, i)) - side_total(opposing(apply(b, i), i)),
{
    match i {
        Instruction::Order { side, quantity, price } => {
            let is_bid = side == OrderType::SELL;
            let opp = opposing(b, i);
            lemma_sweep_wf(opp, quantity as int, is_bid, price);
            law_sweep_conserves(opp, quantity as int, is_bid, price);
            let s = sweep(opp, quantity as int, is_bid, price);
            if let Some(p) = price {
                if s.left > 0 {
                    if side == OrderType::BUY {
                        law_rest_adds_one_order(b.bids, true, resting(OrderType::BUY, s.left, p));
                    } else {
                        law_rest_adds_one_order(b.asks, false, resting(OrderType::SELL, s.left, p));
                    }
                }
            }
        },
        Instruction::Exit => {},
    }
}

/// Conservation over any sequence of instructions: the units reported as
/// filled, summed over the run, equal the open quantity taken from the
/// opposing sides; and the book stays well formed throughout.
pub proof fn law_conservation(b: BookModel, ops: Seq<Instruction>)
    requires
        b.wf(),
        runs_within(b, ops),
    ensures
        run(b, ops).wf(),
        total_filled(b, ops) == total_consumed(b, ops),
    decreases ops.len(),
{
    if ops.len() > 0 {
        lemma_step(b, ops[0]);
        law_conservation(apply(b, ops[0]), ops.drop_first());
    }
}

/// What one instruction traded.
#[derive(Debug)]
pub struct FillReport {
    pub requested_quantity: i32,
    pub filled_quantity: i32,
    /// Sum of quantity times price over the fills.
    pub total_notional: i64,
    /// Each step of the execution, in the order it happened.
    pub fills: Vec<Fill>,
}

/// `rep` reports the sweep `s` made for an instruction of `q` units.
pub open spec fn reports(rep: FillReport, q: i32, s: Sweep) -> bool {
    &&& rep.requested_quantity == q
    &&& rep.filled_quantity == q - s.left
    &&& rep.total_notional == notional(s.fills)
    &&& rep.fills@ == s.fills
    &&& 0 <= rep.total_notional <= rep.filled_quantity * 0x7fff_ffff
}

/// Failures of the book.
#[derive(Debug)]
pub enum BookError {
    /// A market instruction ran out of opposing liquidity; what did trade
    /// stays traded, and is reported here.
    InsufficientLiquidity(FillReport),
    /// A query needs a level on a side that has none.
    EmptyBookSide,
    /// An average over zero traded units.
    DivisionUndefined,
}

/// `a / b` rounded toward zero, for `b > 0`.
pub open spec fn div_toward_zero(a: int, b: int) -> int {
    if a >= 0 {
        a / b
    } else {
        -((-a) / b)
    }
}

/// The spread `100 * (ask / bid - 1)` in hundredths, rounded toward zero.
pub open spec fn spread_hundredths(ask: int, bid: int) -> int {
    div_toward_zero(10000 * (ask - bid), bid)
}

impl FillReport {
    /// The average traded price in hundredths (`total_notional * 100 /
    /// filled_quantity`, rounded down); undefined where nothing traded.
    pub fn average_price_hundredths(&self) -> (r: Result<i64, BookError>)
        requires
            self.filled_quantity >= 0,
            0 <= self.total_notional <= self.filled_quantity * 0x7fff_ffff,
        ensures
            self.filled_quantity == 0 <==> r is Err,
            r is Err ==> r->Err_0 is DivisionUndefined,
            r is Ok ==> r->Ok_0 == self.total_notional * 100 / self.filled_quantity as int,
    {
        if self.filled_quantity == 0 {
            return Err(BookError::DivisionUndefined);
        }
        let n = self.total_notional as u128;
        let f = self.filled_quantity as u128;
        proof {
            let ni = n as int;
            let fi = f as int;
            assert(ni * 100 <= fi * 0x7fff_ffff * 100) by (nonlinear_arith)
                requires
                    ni <= fi * 0x7fff_ffff,
            ;
            assert(fi * 0x7fff_ffff * 100 <= 0x7fff_ffff * 0x7fff_ffff * 100) by (nonlinear_arith)
                requires
                    fi <= 0x7fff_ffff,
            ;
            assert((ni * 100) / fi <= 0x7fff_ffff * 100) by (nonlinear_arith)
                requires
                    ni * 100 <= fi * 0x7fff_ffff * 100,
                    fi > 0,
            ;
        }
        Ok(((n * 100) / f) as i64)
    }
}

/// One level as the snapshot shows it.
#[derive(Debug, PartialEq, Eq)]
pub struct LevelSnapshot {
    pub price: i32,
    pub open_quantity: i32,
    /// Open size of each resting order, oldest first.
    pub open_sizes: Vec<i32>,
}

/// `snap` shows the level `l`.
pub open spec fn shows(snap: LevelSnapshot, l: LevelModel) -> bool {
    &&& snap.price == l.price
    &&& snap.open_quantity == l.open_quantity
    &&& snap.open_sizes@.len() == l.orders.len()
    &&& forall|k: int| 0 <= k < l.orders.len() ==> snap.open_sizes@[k] == (#[trigger] l.orders[k]).open_size()
}

/// A single-instrument limit order book with price-time priority matching.
pub struct Orderbook {
    bids: Vec<PriceLevel>,
    asks: Vec<PriceLevel>,
}

/// The levels of the side on which orders of type `t` rest.
pub open spec fn side_of(b: BookModel, t: OrderType) -> Seq<LevelModel> {
    match t {
        OrderType::BUY => b.bids,
        OrderType::SELL => b.asks,
    }
}

/// The snapshot of a side is fixed by the side alone: two results that both
/// show its best `n` levels hold the same prices, quantities and order sizes,
/// so asking twice without a change in between gives the same answer.
pub proof fn law_snapshot_idempotent(
    levels: Seq<LevelModel>,
    n: int,
    a: Seq<LevelSnapshot>,
    b: Seq<LevelSnapshot>,
)
    requires
        a.len() == if n < levels.len() { n } else { levels.len() as int },
        b.len() == a.len(),
        forall|i: int| 0 <= i < a.len() ==> shows(#[trigger] a[i], levels[i]),
        forall|i: int| 0 <= i < b.len() ==> shows(#[trigger] b[i], levels[i]),
    ensures
        forall|i: int|
            0 <= i < a.len() ==> (#[trigger] a[i]).price == b[i].price && a[i].open_quantity
                == b[i].open_quantity && a[i].open_sizes@ == b[i].open_sizes@,
{
    assert forall|i: int| 0 <= i < a.len() implies (#[trigger] a[i]).price == b[i].price
        && a[i].open_quantity == b[i].open_quantity && a[i].open_sizes@ == b[i].open_sizes@ by {
        assert(shows(a[i], levels[i]) && shows(b[i], levels[i]));
        assert forall|k: int| 0 <= k < a[i].open_sizes@.len() implies a[i].open_sizes@[k]
            == b[i].open_sizes@[k] by {
            assert(a[i].open_sizes@[k] == levels[i].orders[k].open_size());
        }
        assert(a[i].open_sizes@ =~= b[i].open_sizes@);
    }
}

impl View for Orderbook {
    type V = BookModel;

    closed spec fn view(&self) -> BookModel {
        BookModel { bids: models(self.bids@), asks: models(self.asks@) }
    }
}

impl Orderbook {
    pub open spec fn wf(&self) -> bool {
        self@.wf()
    }

    /// An empty book.
    pub fn new() -> (r: Orderbook)
        ensures
            r@ == BookModel::empty(),
            r.wf(),
    {
        let r = Orderbook { bids: Vec::new(), asks: Vec::new() };
        assert(r@.bids =~= Seq::<LevelModel>::empty());
        assert(r@.asks =~= Seq::<LevelModel>::empty());
        r
    }

    /// Buys `quantity` at whatever the asks offer, best price first. Where the
    /// asks run out first, what traded stays traded and is reported with
    /// `InsufficientLiquidity`.
    pub fn market_buy(&mut self, quantity: i32) -> (r: Result<FillReport, BookError>)
        requires
            old(self).wf(),
            quantity >= 0,
        ensures
            final(self).wf(),
            final(self)@ == after_market_buy(old(self)@, quantity as int),
            side_total(old(self)@.asks) - side_total(final(self)@.asks) == quantity - sweep(
                old(self)@.asks,
                quantity as int,
                false,
                None,
            ).left,
            ({
                let s = sweep(old(self)@.asks, quantity as int, false, None);
                match r {
                    Ok(rep) => s.left == 0 && reports(rep, quantity, s),
                    Err(BookError::InsufficientLiquidity(rep)) => s.left > 0 && reports(rep, quantity, s),
                    Err(_) => false,
                }
            }),
    {
        proof {
            lemma_sweep_wf(self@.asks, quantity as int, false, None);
            law_sweep_conserves(self@.asks, quantity as int, false, None);
            lemma_notional_bound(sweep(self@.asks, quantity as int, false, None).fills);
        }
        let (left, value, fills) = sweep_side(&mut self.asks, false, quantity, None);
        let rep = FillReport {
            requested_quantity: quantity,
            filled_quantity: quantity - left,
            total_notional: value,
            fills,
        };
        if left > 0 {
            Err(BookError::InsufficientLiquidity(rep))
        } else {
            Ok(rep)
        }
    }

    /// Sells `quantity` at whatever the bids pay, best price first. Where the
    /// bids run out first, what traded stays traded and is reported with
    /// `InsufficientLiquidity`.
    pub fn market_sell(&mut self, quantity: i32) -> (r: Result<FillReport, BookError>)
        requires
            old(self).wf(),
            quantity >= 0,
        ensures
            final(self).wf(),
            final(self)@ == after_market_sell(old(self)@, quantity as int),
            side_total(old(self)@.bids) - side_total(final(self)@.bids) == quantity - sweep(
                old(self)@.bids,
                quantity as int,
                true,
                None,
            ).left,
            ({
                let s = sweep(old(self)@.bids, quantity as int, true, None);
                match r {
                    Ok(rep) => s.left == 0 && reports(rep, quantity, s),
                    Err(BookError::InsufficientLiquidity(rep)) => s.left > 0 && reports(rep, quantity, s),
                    Err(_) => false,
                }
            }),
    {
        proof {
            lemma_sweep_wf(self@.bids, quantity as int, true, None);
            law_sweep_conserves(self@.bids, quantity as int, true, None);
            lemma_notional_bound(sweep(self@.bids, quantity as int, true, None).fills);
        }
        let (left, value, fills) = sweep_side(&mut self.bids, true, quantity, None);
        let rep = FillReport {
            requested_quantity: quantity,
            filled_quantity: quantity - left,
            total_notional: value,
            fills,
        };
        if left > 0 {
            Err(BookError::InsufficientLiquidity(rep))
        } else {
            Ok(rep)
        }
    }
    /// Buys up to `quantity` at `price` or better. Asks at or below `price`
    /// are taken best first; whatever is left rests as one new bid at
    /// `price`. The report covers the crossed part only.
    pub fn limit_buy(&mut self, quantity: i32, price: i32) -> (r: FillReport)
        requires
            old(self).wf(),
            quantity >= 0,
            price > 0,
            open_at(old(self)@.bids, price as int) + quantity <= 0x7fff_ffff,
        ensures
            final(self).wf(),
            final(self)@ == after_limit_buy(old(self)@, quantity as int, price),
            reports(r, quantity, sweep(old(self)@.asks, quantity as int, false, Some(price))),
            side_total(final(self)@.asks) == side_total(old(self)@.asks) - r.filled_quantity,
            side_total(final(self)@.bids) == side_total(old(self)@.bids) + (quantity - r.filled_quantity),
    {
        let ghost b0 = self@;
        proof {
            lemma_sweep_wf(b0.asks, quantity as int, false, Some(price));
            law_sweep_conserves(b0.asks, quantity as int, false, Some(price));
            lemma_notional_bound(sweep(b0.asks, quantity as int, false, Some(price)).fills);
        }
        let (left, value, fills) = sweep_side(&mut self.asks, false, quantity, Some(price));
        if left > 0 {
            let o = Order::new(OrderType::BUY, left, 0, price);
            proof {
                law_rest_adds_one_order(b0.bids, true, o);
            }
            rest_order(&mut self.bids, true, o);
        }
        FillReport {
            requested_quantity: quantity,
            filled_quantity: quantity - left,
            total_notional: value,
            fills,
        }
    }

    /// Sells up to `quantity` at `price` or better. Bids at or above `price`
    /// are taken best first; whatever is left rests as one new ask at
    /// `price`. The report covers the crossed part only.
    pub fn limit_sell(&mut self, quantity: i32, price: i32) -> (r: FillReport)
        requires
            old(self).wf(),
            quantity >= 0,
            price > 0,
            open_at(old(self)@.asks, price as int) + quantity <= 0x7fff_ffff,
        ensures
            final(self).wf(),
            final(self)@ == after_limit_sell(old(self)@, quantity as int, price),
            reports(r, quantity, sweep(old(self)@.bids, quantity as int, true, Some(price))),
            side_total(final(self)@.bids) == side_total(old(self)@.bids) - r.filled_quantity,
            side_total(final(self)@.asks) == side_total(old(self)@.asks) + (quantity - r.filled_quantity),
    {
        let ghost b0 = self@;
        proof {
            lemma_sweep_wf(b0.bids, quantity as int, true, Some(price));
            law_sweep_conserves(b0.bids, quantity as int, true, Some(price));
            lemma_notional_bound(sweep(b0.bids, quantity as int, true, Some(price)).fills);
        }
        let (left, value, fills) = sweep_side(&mut self.bids, true, quantity, Some(price));
        if left > 0 {
            let o = Order::new(OrderType::SELL, left, 0, price);
            proof {
                law_rest_adds_one_order(b0.asks, false, o);
            }
            rest_order(&mut self.asks, false, o);
        }
        FillReport {
            requested_quantity: quantity,
            filled_quantity: quantity - left,
            total_notional: value,
            fills,
        }
    }

    /// Seeds the book with a fixed batch of limit instructions.
    pub fn populate_orderbook(&mut self)
        requires
            old(self).wf(),
            side_total(old(self)@.bids) + 60 <= 0x7fff_ffff,
            side_total(old(self)@.asks) + 60 <= 0x7fff_ffff,
        ensures
            final(self).wf(),
            final(self)@ == seeded(old(self)@),
    {
        self.buy_within_bound(5, 8, Ghost(60));
        self.buy_within_bound(4, 7, Ghost(55));
        self.buy_within_bound(2, 3, Ghost(51));
        self.buy_within_bound(6, 8, Ghost(49));
        self.buy_within_bound(5, 15, Ghost(43));
        self.buy_within_bound(10, 10, Ghost(38));
        self.buy_within_bound(8, 9, Ghost(28));
        self.buy_within_bound(1, 2, Ghost(20));
        self.buy_within_bound(12, 14, Ghost(19));
        self.buy_within_bound(7, 5, Ghost(7));
        self.sell_within_bound(2, 15, Ghost(60));
        self.sell_within_bound(3, 16, Ghost(58));
        self.sell_within_bound(3, 17, Ghost(55));
        self.sell_within_bound(4, 18, Ghost(52));
        self.sell_within_bound(5, 20, Ghost(48));
        self.sell_within_bound(6, 18, Ghost(43));
        self.sell_within_bound(9, 21, Ghost(37));
        self.sell_within_bound(15, 25, Ghost(28));
        self.sell_within_bound(2, 19, Ghost(13));
        self.sell_within_bound(11, 22, Ghost(11));
    }

    /// A limit buy on a book whose sides have room for `room` more units.
    fn buy_within_bound(&mut self, quantity: i32, price: i32, Ghost(room): Ghost<int>)
        requires
            old(self).wf(),
            0 <= quantity <= room,
            price > 0,
            side_total(old(self)@.bids) + room <= 0x7fff_ffff,
            side_total(old(self)@.asks) + 60 <= 0x7fff_ffff,
        ensures
            final(self).wf(),
            final(self)@ == after_limit_buy(old(self)@, quantity as int, price),
            side_total(final(self)@.bids) + room - quantity <= 0x7fff_ffff,
            side_total(final(self)@.asks) + 60 <= 0x7fff_ffff,
    {
        proof {
            lemma_open_at_le_total(self@.bids, true, price as int);
        }
        self.limit_buy(quantity, price);
    }

    /// A limit sell on a book whose ask side has room for `room` more units.
    fn sell_within_bound(&mut self, quantity: i32, price: i32, Ghost(room): Ghost<int>)
        requires
            old(self).wf(),
            0 <= quantity <= room,
            price > 0,
            side_total(old(self)@.asks) + room <= 0x7fff_ffff,
        ensures
            final(self).wf(),
            final(self)@ == after_limit_sell(old(self)@, quantity as int, price),
            side_total(final(self)@.asks) + room - quantity <= 0x7fff_ffff,
    {
        proof {
            lemma_open_at_le_total(self@.asks, false, price as int);
        }
        self.limit_sell(quantity, price);
    }
    fn side_levels(&self, t: OrderType) -> (r: &Vec<PriceLevel>)
        ensures
            models(r@) == side_of(self@, t),
    {
        match t {
            OrderType::BUY => &self.bids,
            OrderType::SELL => &self.asks,
        }
    }

    /// The best price of a side: the highest bid or the lowest ask.
    pub fn best_price(&self, side: OrderType) -> (r: Result<i32, BookError>)
        requires
            self.wf(),
        ensures
            r is Err <==> side_of(self@, side).len() == 0,
            r is Err ==> r->Err_0 is EmptyBookSide,
            r is Ok ==> r->Ok_0 == side_of(self@, side)[0].price,
    {
        let levels = self.side_levels(side);
        if levels.len() == 0 {
            Err(BookError::EmptyBookSide)
        } else {
            assert(models(levels@)[0] == levels@[0]@);
            Ok(levels[0].price)
        }
    }

    /// The bid/ask spread `100 * (best_ask / best_bid - 1)`, scaled by 100
    /// (2000 stands for 20.00) and rounded toward zero; undefined on a
    /// one-sided book.
    pub fn spread_bps(&self) -> (r: Result<i64, BookError>)
        requires
            self.wf(),
        ensures
            r is Err <==> self@.bids.len() == 0 || self@.asks.len() == 0,
            r is Err ==> r->Err_0 is EmptyBookSide,
            r is Ok ==> r->Ok_0 == spread_hundredths(self@.asks[0].price as int, self@.bids[0].price as int),
    {
        let ask = match self.best_price(OrderType::SELL) {
            Ok(p) => p,
            Err(e) => return Err(e),
        };
        let bid = match self.best_price(OrderType::BUY) {
            Ok(p) => p,
            Err(e) => return Err(e),
        };
        assert(self@.bids[0].wf(OrderType::BUY));
        assert(self@.asks[0].wf(OrderType::SELL));
        let num: i64 = 10000 * (ask as i64 - bid as i64);
        if num >= 0 {
            Ok(((num as u64) / (bid as u64)) as i64)
        } else {
            Ok(-(((-num) as u64 / (bid as u64)) as i64))
        }
    }

    /// The best `n` levels of a side, best first, each with its open quantity
    /// and the open size of each of its orders in queue order.
    pub fn top_levels(&self, side: OrderType, n: usize) -> (r: Vec<LevelSnapshot>)
        requires
            self.wf(),
        ensures
            r@.len() == if n < side_of(self@, side).len() { n as int } else { side_of(self@, side).len() as int },
            forall|i: int| 0 <= i < r@.len() ==> shows(#[trigger] r@[i], side_of(self@, side)[i]),
    {
        let levels = self.side_levels(side);
        let ghost m = side_of(self@, side);
        assert(side_wf(m, side == OrderType::BUY));
        let mut out: Vec<LevelSnapshot> = Vec::new();
        let mut i: usize = 0;
        while i < n && i < levels.len()
            invariant
                models(levels@) == m,
                side_wf(m, side == OrderType::BUY),
                i <= levels.len(),
                i <= n,
                out@.len() == i,
                forall|j: int| 0 <= j < i ==> shows(#[trigger] out@[j], m[j]),
            decreases levels.len() - i,
        {
            let lvl = &levels[i];
            assert(lvl@ == m[i as int]);
            assert(m[i as int].wf(side_type(side == OrderType::BUY)));
            let mut sizes: Vec<i32> = Vec::new();
            let mut k: usize = 0;
            while k < lvl.orders.len()
                invariant
                    k <= lvl.orders.len(),
                    sizes@.len() == k,
                    queue_ok(lvl.orders@, lvl.price, side_type(side == OrderType::BUY)),
                    forall|j: int| 0 <= j < k ==> sizes@[j] == (#[trigger] lvl.orders@[j]).open_size(),
                decreases lvl.orders.len() - k,
            {
                let o = lvl.orders[k];
                assert(lvl.orders@[k as int].is_resting());
                sizes.push(o.size - o.filled);
                k = k + 1;
            }
            out.push(LevelSnapshot { price: lvl.price, open_quantity: lvl.open_quantity, open_sizes: sizes });
            i = i + 1;
        }
        out
    }
}

} // verus!
