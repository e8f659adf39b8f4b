//! Plain record types of the book: sides, orders, fills, and the errors a
//! submission can be rejected with.

use vstd::prelude::*;

verus! {

/// Which side of the book an order belongs to.
#[derive(Clone, Copy, Debug, PartialEq, Eq, Structural)]
pub enum Side {
    Buy,
    Sell,
}

impl Side {
    /// The side an incoming order of this side matches against.
    pub open spec fn opposite(self) -> Side {
        match self {
            Side::Buy => Side::Sell,
            Side::Sell => Side::Buy,
        }
    }
}

/// A limit order. The identity fields (`id`, `price`, `side`) never change;
/// `quantity` is the remaining quantity, which only decreases while the order
/// rests in the book and reaches zero exactly when the order is fully filled.
///
/// `price` is an exact integer count of price ticks, so comparisons are exact.
#[derive(Clone, Copy, Debug, PartialEq, Eq, Structural)]
pub struct Order {
    pub id: u64,
    pub price: u64,
    pub quantity: u64,
    pub side: Side,
}

impl Order {
    /// A degenerate order (zero quantity or zero price) is never accepted
    /// into the book.
    pub open spec fn valid(self) -> bool {
        self.quantity > 0 && self.price > 0
    }
}

/// One matching event: a monotonically increasing match identifier, the
/// traded quantity, and the trade price, which is always the resting order's
/// price (the aggressor never improves on the resting side's price).
#[derive(Clone, Copy, Debug, PartialEq, Eq, Structural)]
pub struct Fill {
    pub matched_id: u64,
    pub volume: u64,
    pub price: u64,
}

/// Why a submission was rejected. A rejected submission leaves the book
/// unchanged.
#[derive(Clone, Copy, Debug, PartialEq, Eq, Structural)]
pub enum SubmitError {
    /// The submitted order had zero remaining quantity.
    ZeroQuantity,
    /// The submitted order had a zero price.
    ZeroPrice,
    /// An order with the same id is already resting in the book.
    DuplicateId,
}

} // verus!
