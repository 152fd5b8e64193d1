use vstd::prelude::*;
use crate::order::{Order, OrderType};

verus! {

/// Sum of the open sizes of a queue of orders.
pub open spec fn total_open(s: Seq<Order>) -> int
    decreases s.len(),
{
    if s.len() == 0 {
        0
    } else {
        s[0].open_size() + total_open(s.drop_first())
    }
}

/// Every order of the queue is resting, at `price`, on side `t`.
pub open spec fn queue_ok(s: Seq<Order>, price: i32, t: OrderType) -> bool {
    forall|i: int|
        0 <= i < s.len() ==> (#[trigger] s[i]).is_resting() && s[i].price == price
            && s[i].order_type == t
}

/// The order `o` after `q` more of its units have traded.
pub open spec fn with_fill(o: Order, q: int) -> Order {
    Order { order_type: o.order_type, size: o.size, filled: (o.filled + q) as i32, price: o.price }
}

/// The queue after `q` units are taken from its front in arrival order:
/// orders that become fully filled leave, the first one that does not
/// records the partial fill, and the rest are untouched.
pub open spec fn drain(s: Seq<Order>, q: int) -> Seq<Order>
    decreases s.len(),
{
    if q <= 0 || s.len() == 0 {
        s
    } else if q >= s[0].open_size() {
        drain(s.drop_first(), q - s[0].open_size())
    } else {
        s.update(0, with_fill(s[0], q))
    }
}

/// What a price level is: its price, its aggregate open quantity and its
/// queue of resting orders, oldest first.
pub struct LevelModel {
    pub price: i32,
    pub open_quantity: i32,
    pub orders: Seq<Order>,
}

impl LevelModel {
    /// A level that may stand in a book side of type `t`: its aggregate equals
    /// the open sizes of its queue, and a level with nothing open is absent.
    pub open spec fn wf(self, t: OrderType) -> bool {
        &&& self.price > 0
        &&& self.orders.len() > 0
        &&& queue_ok(self.orders, self.price, t)
        &&& self.open_quantity == total_open(self.orders)
        &&& self.open_quantity > 0
    }
}

/// One price level of a book side.
pub struct PriceLevel {
    pub price: i32,
    pub open_quantity: i32,
    pub orders: Vec<Order>,
}

impl View for PriceLevel {
    type V = LevelModel;

    open spec fn view(&self) -> LevelModel {
        LevelModel { price: self.price, open_quantity: self.open_quantity, orders: self.orders@ }
    }
}

pub proof fn lemma_total_open_nonneg(s: Seq<Order>, price: i32, t: OrderType)
    requires
        queue_ok(s, price, t),
    ensures
        total_open(s) >= 0,
        s.len() > 0 ==> total_open(s) > 0,
    decreases s.len(),
{
    if s.len() > 0 {
        assert(s[0].is_resting());
        lemma_total_open_nonneg(s.drop_first(), price, t);
    }
}

pub proof fn lemma_total_open_push(s: Seq<Order>, o: Order)
    ensures
        total_open(s.push(o)) == total_open(s) + o.open_size(),
    decreases s.len(),
{
    if s.len() == 0 {
        assert(s.push(o).drop_first() =~= s);
    } else {
        assert(s.push(o).drop_first() =~= s.drop_first().push(o));
        lemma_total_open_push(s.drop_first(), o);
    }
}

/// Draining keeps the queue well formed and takes away exactly `q` units.
pub proof fn lemma_drain(s: Seq<Order>, q: int, price: i32, t: OrderType)
    requires
        queue_ok(s, price, t),
        0 <= q <= total_open(s),
    ensures
        queue_ok(drain(s, q), price, t),
        total_open(drain(s, q)) == total_open(s) - q,
    decreases s.len(),
{
    lemma_total_open_nonneg(s, price, t);
    if q <= 0 || s.len() == 0 {
    } else if q >= s[0].open_size() {
        assert(s[0].is_resting());
        lemma_drain(s.drop_first(), q - s[0].open_size(), price, t);
    } else {
        let r = s.update(0, with_fill(s[0], q));
        assert(s[0].is_resting());
        assert(r.drop_first() =~= s.drop_first());
        assert forall|i: int| 0 <= i < r.len() implies (#[trigger] r[i]).is_resting() && r[i].price
            == price && r[i].order_type == t by {
            if i > 0 {
                assert(r[i] == s[i]);
            }
        }
    }
}

/// The shape time priority gives a drained queue: the first `k` orders were
/// consumed completely (`q` covers all of them), and the queue now starts at
/// the `k`-th order, which took the rest of `q` as a partial fill; every later
/// order is left exactly as it was.
pub open spec fn fifo_drained(s: Seq<Order>, q: int, k: int, r: Seq<Order>) -> bool {
    &&& 0 <= k <= s.len()
    &&& total_open(s.take(k)) <= q
    &&& k == s.len() ==> r == Seq::<Order>::empty() && total_open(s.take(k)) == q
    &&& k < s.len() ==> {
        &&& q - total_open(s.take(k)) < s[k].open_size()
        &&& r == s.skip(k).update(0, with_fill(s[k], q - total_open(s.take(k))))
    }
}

/// Time priority within a level: draining `q` units fills earlier orders
/// completely before it touches a later one.
pub proof fn lemma_drain_fifo(s: Seq<Order>, q: int, price: i32, t: OrderType)
    requires
        queue_ok(s, price, t),
        0 <= q <= total_open(s),
    ensures
        exists|k: int| #[trigger] fifo_drained(s, q, k, drain(s, q)),
    decreases s.len(),
{
    lemma_total_open_nonneg(s, price, t);
    let r = drain(s, q);
    if s.len() == 0 {
        assert(s.take(0) =~= s);
        assert(s =~= Seq::<Order>::empty());
        assert(fifo_drained(s, q, 0, r));
    } else if q <= 0 {
        assert(s.take(0) =~= Seq::<Order>::empty());
        assert(s[0].is_resting());
        assert(s.skip(0).update(0, with_fill(s[0], 0)) =~= s);
        assert(fifo_drained(s, q, 0, r));
    } else if q >= s[0].open_size() {
        let t0 = s.drop_first();
        let q0 = q - s[0].open_size();
        assert(s[0].is_resting());
        lemma_drain_fifo(t0, q0, price, t);
        let k0 = choose|k: int| #[trigger] fifo_drained(t0, q0, k, drain(t0, q0));
        let k = k0 + 1;
        assert(s.take(k).drop_first() =~= t0.take(k0));
        assert(s.skip(k) =~= t0.skip(k0));
        assert(total_open(s.take(k)) == s[0].open_size() + total_open(t0.take(k0)));
        if k0 == t0.len() {
            assert(s.take(k) =~= s);
        }
        assert(fifo_drained(s, q, k, r));
    } else {
        assert(s.take(0) =~= Seq::<Order>::empty());
        assert(s.skip(0) =~= s);
        assert(fifo_drained(s, q, 0, r));
    }
}

/// Takes `quantity` units from the front of `orders` in arrival order.
pub fn drain_front(orders: &mut Vec<Order>, quantity: i32, Ghost(price): Ghost<i32>, Ghost(t): Ghost<OrderType>)
    requires
        queue_ok(old(orders)@, price, t),
        0 <= quantity <= total_open(old(orders)@),
    ensures
        final(orders)@ == drain(old(orders)@, quantity as int),
{
    let mut remaining: i32 = quantity;
    while remaining > 0
        invariant
            queue_ok(orders@, price, t),
            0 <= remaining <= total_open(orders@),
            drain(orders@, remaining as int) == drain(old(orders)@, quantity as int),
        decreases remaining,
    {
        proof {
            lemma_total_open_nonneg(orders@.drop_first(), price, t);
        }
        let ghost prev = orders@;
        let front = orders[0];
        assert(front.is_resting());
        let to_fill = front.size - front.filled;
        if remaining >= to_fill {
            orders.remove(0);
            assert(orders@ =~= prev.drop_first());
            remaining = remaining - to_fill;
        } else {
            orders.set(0, Order { order_type: front.order_type, size: front.size, filled: front.filled + remaining, price: front.price });
            assert(orders@.drop_first() =~= prev.drop_first());
            remaining = 0;
        }
    }
}

} // verus!
