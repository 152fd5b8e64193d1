use vstd::prelude::*;

verus! {

/// Which side of the book an order belongs to.
#[allow(non_camel_case_types, clippy::upper_case_acronyms)]
#[derive(Debug, Clone, Copy, PartialEq, Eq, Structural)]
pub enum OrderType {
    BUY,
    SELL,
}

/// One resting order: `size` units wanted at `price`, of which `filled`
/// have already traded.
#[derive(Debug, Clone, Copy, PartialEq, Eq, Structural)]
pub struct Order {
    pub order_type: OrderType,
    pub size: i32,
    pub filled: i32,
    pub price: i32,
}

impl Order {
    /// Units still open on this order.
    pub open spec fn open_size(self) -> int {
        self.size - self.filled
    }

    /// A resting order is partly open: fully filled orders leave their queue.
    pub open spec fn is_resting(self) -> bool {
        0 <= self.filled < self.size
    }

    pub fn new(order_type: OrderType, size: i32, filled: i32, price: i32) -> (r: Order)
        ensures
            r == (Order { order_type, size, filled, price }),
    {
        Order { order_type, size, filled, price }
    }
}

} // verus!
