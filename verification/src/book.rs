//! The order book engine: submission with price/time-priority matching,
//! cancellation by id, and read-only access to the resting state.
//!
//! Each side of the book is kept as one sequence of resting orders in
//! priority order: better prices first, and, among orders at the same price,
//! earlier arrivals first. Price levels are the runs of equal prices in that
//! sequence.

use vstd::prelude::*;

use crate::order::Fill;
use crate::order::Order;
use crate::order::Side;
use crate::order::SubmitError;

verus! {

/// The smaller of two quantities.
pub open spec fn min_int(a: int, b: int) -> int {
    if a <= b {
        a
    } else {
        b
    }
}

/// Whether an incoming order with limit price `limit` crosses a resting
/// opposite-side order priced `resting_price`: a buy crosses asks priced at
/// or below its limit, a sell crosses bids priced at or above its limit.
pub open spec fn crosses(incoming: Side, limit: u64, resting_price: u64) -> bool {
    match incoming {
        Side::Buy => resting_price <= limit,
        Side::Sell => resting_price >= limit,
    }
}

/// On side `side`, whether price `p1` has at least the priority of price
/// `p2`: higher is better for bids, lower is better for asks.
pub open spec fn priority_geq(side: Side, p1: u64, p2: u64) -> bool {
    match side {
        Side::Buy => p1 >= p2,
        Side::Sell => p1 <= p2,
    }
}

/// Well-formedness of one side's resting sequence: every order is on that
/// side, valid, and the sequence is in priority order (best price first).
pub open spec fn side_ok(s: Seq<Order>, side: Side) -> bool {
    &&& forall|i: int| 0 <= i < s.len() ==> (#[trigger] s[i]).side == side && s[i].valid()
    &&& forall|i: int, j: int|
        0 <= i < j < s.len() ==> priority_geq(side, (#[trigger] s[i]).price, (#[trigger] s[j]).price)
}

/// No two orders in the sequence share an id.
pub open spec fn ids_distinct(s: Seq<Order>) -> bool {
    forall|i: int, j: int| 0 <= i < j < s.len() ==> (#[trigger] s[i]).id != (#[trigger] s[j]).id
}

/// Whether some order in the sequence has id `id`.
pub open spec fn contains_id(s: Seq<Order>, id: u64) -> bool {
    exists|i: int| 0 <= i < s.len() && (#[trigger] s[i]).id == id
}

/// No id appears on both sides.
pub open spec fn sides_disjoint(bids: Seq<Order>, asks: Seq<Order>) -> bool {
    forall|i: int, j: int|
        0 <= i < bids.len() && 0 <= j < asks.len() ==> (#[trigger] bids[i]).id != (#[trigger] asks[j]).id
}

/// The index of the first order with id `id`, or `-1` if there is none.
pub open spec fn index_of_id(s: Seq<Order>, id: u64) -> int
    decreases s.len(),
{
    if s.len() == 0 {
        -1
    } else if s[0].id == id {
        0
    } else {
        let r = index_of_id(s.drop_first(), id);
        if r == -1 {
            -1
        } else {
            r + 1
        }
    }
}

/// The fills produced when an incoming order of side `incoming`, limit price
/// `limit` and remaining quantity `qty` walks the opposing resting sequence
/// `resting` (already in priority order), with match ids counted on from
/// `mid`. Resting orders are consumed strictly from the front; each touched
/// order yields one fill of the traded quantity at the resting order's price.
pub open spec fn match_fills(resting: Seq<Order>, incoming: Side, limit: u64, qty: int, mid: int) -> Seq<Fill>
    decreases resting.len(),
{
    if qty <= 0 || resting.len() == 0 || !crosses(incoming, limit, resting[0].price) {
        Seq::empty()
    } else {
        let t = min_int(qty, resting[0].quantity as int);
        seq![
            (Fill { matched_id: (mid + 1) as u64, volume: t as u64, price: resting[0].price }),
        ] + match_fills(resting.drop_first(), incoming, limit, qty - t, mid + 1)
    }
}

/// The opposing resting sequence left after the walk of [`match_fills`]:
/// fully consumed orders are removed from the front; a partially consumed
/// order stays at the front with its quantity reduced.
pub open spec fn match_rest(resting: Seq<Order>, incoming: Side, limit: u64, qty: int) -> Seq<Order>
    decreases resting.len(),
{
    if qty <= 0 || resting.len() == 0 || !crosses(incoming, limit, resting[0].price) {
        resting
    } else if resting[0].quantity <= qty {
        match_rest(resting.drop_first(), incoming, limit, qty - resting[0].quantity)
    } else {
        resting.update(
            0,
            (Order {
                id: resting[0].id,
                price: resting[0].price,
                quantity: (resting[0].quantity - qty) as u64,
                side: resting[0].side,
            }),
        )
    }
}

/// The incoming order's remaining quantity after the walk of
/// [`match_fills`].
pub open spec fn match_leftover(resting: Seq<Order>, incoming: Side, limit: u64, qty: int) -> int
    decreases resting.len(),
{
    if qty <= 0 || resting.len() == 0 || !crosses(incoming, limit, resting[0].price) {
        qty
    } else if resting[0].quantity <= qty {
        match_leftover(resting.drop_first(), incoming, limit, qty - resting[0].quantity)
    } else {
        0
    }
}

/// Where a residual incoming order comes to rest on its own side: behind
/// every resting order whose price has at least its priority (so arrival
/// order is kept within a price level), ahead of all worse-priced orders.
pub open spec fn rest_order(s: Seq<Order>, o: Order) -> Seq<Order>
    decreases s.len(),
{
    if s.len() > 0 && priority_geq(o.side, s[0].price, o.price) {
        seq![s[0]] + rest_order(s.drop_first(), o)
    } else {
        seq![o] + s
    }
}

/// The total traded quantity of a sequence of fills.
pub open spec fn sum_volumes(fills: Seq<Fill>) -> int
    decreases fills.len(),
{
    if fills.len() == 0 {
        0
    } else {
        fills[0].volume + sum_volumes(fills.drop_first())
    }
}

/// Matching leaves the opposing sequence well formed, keeps its ids a subset
/// of the old ones and distinct, only ever worsens the price at its front,
/// and stops crossing the incoming limit whenever the incoming order has
/// quantity left over.
pub proof fn lemma_match_rest_props(s: Seq<Order>, incoming: Side, limit: u64, qty: int)
    requires
        side_ok(s, incoming.opposite()),
        ids_distinct(s),
    ensures
        side_ok(match_rest(s, incoming, limit, qty), incoming.opposite()),
        ids_distinct(match_rest(s, incoming, limit, qty)),
        forall|x: u64| contains_id(match_rest(s, incoming, limit, qty), x) ==> contains_id(s, x),
        s.len() > 0 && match_rest(s, incoming, limit, qty).len() > 0 ==> priority_geq(
            incoming.opposite(),
            s[0].price,
            match_rest(s, incoming, limit, qty)[0].price,
        ),
        match_leftover(s, incoming, limit, qty) > 0 && match_rest(s, incoming, limit, qty).len()
            > 0 ==> !crosses(incoming, limit, match_rest(s, incoming, limit, qty)[0].price),
    decreases s.len(),
{
    let rest = match_rest(s, incoming, limit, qty);
    if qty <= 0 || s.len() == 0 || !crosses(incoming, limit, s[0].price) {
        assert(rest == s);
    } else if s[0].quantity <= qty {
        let s1 = s.drop_first();
        assert forall|i: int| 0 <= i < s1.len() implies (#[trigger] s1[i]).side
            == incoming.opposite() && s1[i].valid() by {
            assert(s1[i] == s[i + 1]);
        }
        assert forall|i: int, j: int| 0 <= i < j < s1.len() implies priority_geq(
            incoming.opposite(),
            (#[trigger] s1[i]).price,
            (#[trigger] s1[j]).price,
        ) by {
            assert(s1[i] == s[i + 1]);
            assert(s1[j] == s[j + 1]);
        }
        assert forall|i: int, j: int| 0 <= i < j < s1.len() implies (#[trigger] s1[i]).id != (
        #[trigger] s1[j]).id by {
            assert(s1[i] == s[i + 1]);
            assert(s1[j] == s[j + 1]);
        }
        lemma_match_rest_props(s1, incoming, limit, qty - s[0].quantity);
        assert(rest == match_rest(s1, incoming, limit, qty - s[0].quantity));
        assert forall|x: u64| contains_id(rest, x) implies contains_id(s, x) by {
            if contains_id(rest, x) {
                assert(contains_id(s1, x));
                let j = choose|j: int| 0 <= j < s1.len() && (#[trigger] s1[j]).id == x;
                assert(s[j + 1].id == x);
            }
        }
        if s.len() > 0 && rest.len() > 0 {
            if s1.len() > 0 {
                assert(priority_geq(incoming.opposite(), s1[0].price, rest[0].price));
                assert(priority_geq(incoming.opposite(), s[0].price, s[1].price));
            }
        }
    } else {
        let reduced = Order {
            id: s[0].id,
            price: s[0].price,
            quantity: (s[0].quantity - qty) as u64,
            side: s[0].side,
        };
        assert(rest == s.update(0, reduced));
        assert forall|x: u64| contains_id(rest, x) implies contains_id(s, x) by {
            if contains_id(rest, x) {
                let j = choose|j: int| 0 <= j < rest.len() && (#[trigger] rest[j]).id == x;
                assert(rest[j].id == s[j].id);
                assert(s[j].id == x);
            }
        }
        assert forall|i: int, j: int| 0 <= i < j < rest.len() implies (#[trigger] rest[i]).id != (
        #[trigger] rest[j]).id by {
            assert(rest[i].id == s[i].id);
            assert(rest[j].id == s[j].id);
        }
        assert forall|i: int| 0 <= i < rest.len() implies (#[trigger] rest[i]).side
            == incoming.opposite() && rest[i].valid() by {
            if i != 0 {
                assert(rest[i] == s[i]);
            }
        }
        assert forall|i: int, j: int| 0 <= i < j < rest.len() implies priority_geq(
            incoming.opposite(),
            (#[trigger] rest[i]).price,
            (#[trigger] rest[j]).price,
        ) by {
            assert(rest[i].price == s[i].price);
            assert(rest[j].price == s[j].price);
        }
    }
}

/// Conservation of quantity through matching: the incoming quantity splits
/// exactly into the total traded volume and the incoming order's leftover.
pub proof fn lemma_match_conservation(s: Seq<Order>, incoming: Side, limit: u64, qty: int, mid: int)
    requires
        qty >= 0,
    ensures
        sum_volumes(match_fills(s, incoming, limit, qty, mid)) + match_leftover(
            s,
            incoming,
            limit,
            qty,
        ) == qty,
        0 <= match_leftover(s, incoming, limit, qty) <= qty,
    decreases s.len(),
{
    let fills = match_fills(s, incoming, limit, qty, mid);
    if qty <= 0 || s.len() == 0 || !crosses(incoming, limit, s[0].price) {
        assert(fills =~= Seq::<Fill>::empty());
    } else {
        let t = min_int(qty, s[0].quantity as int);
        let f = Fill { matched_id: (mid + 1) as u64, volume: t as u64, price: s[0].price };
        let tail = match_fills(s.drop_first(), incoming, limit, qty - t, mid + 1);
        lemma_match_conservation(s.drop_first(), incoming, limit, qty - t, mid + 1);
        assert(fills == seq![f] + tail);
        assert(fills.drop_first() =~= tail);
        assert(sum_volumes(fills) == f.volume + sum_volumes(tail));
        if s[0].quantity <= qty {
            assert(match_leftover(s, incoming, limit, qty) == match_leftover(
                s.drop_first(),
                incoming,
                limit,
                qty - t,
            ));
        } else {
            assert(t == qty);
            assert(match_leftover(s.drop_first(), incoming, limit, 0) == 0);
        }
    }
}

/// Price/time priority of the fills: the walk touches the opposing resting
/// orders strictly in book order (best price first, earlier arrival first at
/// a price); every touched order but possibly the last is consumed in full,
/// each fill carries the touched order's price, and match ids run
/// consecutively from `mid + 1`.
pub proof fn lemma_fills_in_priority_order(
    s: Seq<Order>,
    incoming: Side,
    limit: u64,
    qty: int,
    mid: int,
    fills: Seq<Fill>,
)
    requires
        forall|i: int| 0 <= i < s.len() ==> (#[trigger] s[i]).valid(),
        0 <= mid,
        mid + s.len() <= u64::MAX,
        fills == match_fills(s, incoming, limit, qty, mid),
    ensures
        fills.len() <= s.len(),
        forall|i: int|
            0 <= i < fills.len() ==> {
                &&& (#[trigger] fills[i]).matched_id == mid + 1 + i
                &&& fills[i].price == s[i].price
                &&& 0 < fills[i].volume <= s[i].quantity
                &&& i + 1 < fills.len() ==> fills[i].volume == s[i].quantity
                &&& crosses(incoming, limit, s[i].price)
            },
    decreases s.len(),
{
    if qty <= 0 || s.len() == 0 || !crosses(incoming, limit, s[0].price) {
    } else {
        let t = min_int(qty, s[0].quantity as int);
        let f = Fill { matched_id: (mid + 1) as u64, volume: t as u64, price: s[0].price };
        let s1 = s.drop_first();
        let tail = match_fills(s1, incoming, limit, qty - t, mid + 1);
        lemma_fills_in_priority_order(s1, incoming, limit, qty - t, mid + 1, tail);
        assert(fills == seq![f] + tail);
        assert forall|i: int|
            0 <= i < fills.len() implies {
            &&& (#[trigger] fills[i]).matched_id == mid + 1 + i
            &&& fills[i].price == s[i].price
            &&& 0 < fills[i].volume <= s[i].quantity
            &&& i + 1 < fills.len() ==> fills[i].volume == s[i].quantity
            &&& crosses(incoming, limit, s[i].price)
        } by {
            if i == 0 {
                assert(fills[0] == f);
                if tail.len() > 0 {
                    // a second fill exists, so the first resting order was
                    // consumed in full
                    assert(qty - t > 0);
                }
            } else {
                assert(fills[i] == tail[i - 1]);
                assert(s1[i - 1] == s[i]);
            }
        }
    }
}

/// Resting an order appends it behind every order of at least its price
/// priority: the result is one longer, still well formed, holds exactly the
/// old ids plus the new order's id, and its front price is the better of the
/// old front price and the new order's price.
pub proof fn lemma_rest_order_props(s: Seq<Order>, o: Order)
    requires
        side_ok(s, o.side),
        o.valid(),
    ensures
        rest_order(s, o).len() == s.len() + 1,
        side_ok(rest_order(s, o), o.side),
        forall|x: u64|
            #[trigger] contains_id(rest_order(s, o), x) ==> (x == o.id || contains_id(s, x)),
        forall|x: u64| #[trigger] contains_id(s, x) ==> contains_id(rest_order(s, o), x),
        contains_id(rest_order(s, o), o.id),
        ids_distinct(s) && !contains_id(s, o.id) ==> ids_distinct(rest_order(s, o)),
        rest_order(s, o)[0].price == (if s.len() > 0 && priority_geq(o.side, s[0].price, o.price) {
            s[0].price
        } else {
            o.price
        }),
    decreases s.len(),
{
    let r = rest_order(s, o);
    if s.len() > 0 && priority_geq(o.side, s[0].price, o.price) {
        let s1 = s.drop_first();
        assert forall|i: int| 0 <= i < s1.len() implies (#[trigger] s1[i]).side == o.side
            && s1[i].valid() by {
            assert(s1[i] == s[i + 1]);
        }
        assert forall|i: int, j: int| 0 <= i < j < s1.len() implies priority_geq(
            o.side,
            (#[trigger] s1[i]).price,
            (#[trigger] s1[j]).price,
        ) by {
            assert(s1[i] == s[i + 1]);
            assert(s1[j] == s[j + 1]);
        }
        lemma_rest_order_props(s1, o);
        let r1 = rest_order(s1, o);
        assert(r == seq![s[0]] + r1);
        assert forall|i: int| 0 <= i < r.len() implies (#[trigger] r[i]).side == o.side
            && r[i].valid() by {
            if i > 0 {
                assert(r[i] == r1[i - 1]);
            }
        }
        assert forall|i: int, j: int| 0 <= i < j < r.len() implies priority_geq(
            o.side,
            (#[trigger] r[i]).price,
            (#[trigger] r[j]).price,
        ) by {
            if i == 0 {
                assert(r[j] == r1[j - 1]);
                // every order behind the front is the new order or came from
                // the tail, and the front outranks both
                lemma_rest_order_members(s1, o, j - 1);
                if r1[j - 1] == o {
                    assert(priority_geq(o.side, s[0].price, o.price));
                } else {
                    let k = choose|k: int| 0 <= k < s1.len() && s1[k] == r1[j - 1];
                    assert(s[k + 1] == r1[j - 1]);
                    assert(priority_geq(o.side, s[0].price, s[k + 1].price));
                }
            } else {
                assert(r[i] == r1[i - 1]);
                assert(r[j] == r1[j - 1]);
            }
        }
        // ids of the result
        assert forall|x: u64| #[trigger] contains_id(r, x) implies (x == o.id || contains_id(
            s,
            x,
        )) by {
            if contains_id(r, x) {
                let j = choose|j: int| 0 <= j < r.len() && (#[trigger] r[j]).id == x;
                if j == 0 {
                    assert(s[0].id == x);
                } else {
                    assert(r1[j - 1].id == x);
                    assert(contains_id(r1, x));
                    if contains_id(s1, x) {
                        let k = choose|k: int| 0 <= k < s1.len() && (#[trigger] s1[k]).id == x;
                        assert(s[k + 1].id == x);
                    }
                }
            }
        }
        assert forall|x: u64| #[trigger] contains_id(s, x) implies contains_id(r, x) by {
            if contains_id(s, x) {
                let j = choose|j: int| 0 <= j < s.len() && (#[trigger] s[j]).id == x;
                if j == 0 {
                    assert(r[0].id == x);
                } else {
                    assert(s1[j - 1].id == x);
                    assert(contains_id(s1, x));
                    assert(contains_id(r1, x));
                    let k = choose|k: int| 0 <= k < r1.len() && (#[trigger] r1[k]).id == x;
                    assert(r[k + 1].id == x);
                }
            }
        }
        assert(contains_id(r1, o.id));
        let k = choose|k: int| 0 <= k < r1.len() && (#[trigger] r1[k]).id == o.id;
        assert(r[k + 1].id == o.id);
        assert(contains_id(r, o.id));
        if ids_distinct(s) && !contains_id(s, o.id) {
            assert forall|i: int, j: int| 0 <= i < j < s1.len() implies (#[trigger] s1[i]).id != (
            #[trigger] s1[j]).id by {
                assert(s1[i] == s[i + 1]);
                assert(s1[j] == s[j + 1]);
            }
            assert forall|x: u64| #[trigger] contains_id(s1, x) implies contains_id(s, x) by {
                if contains_id(s1, x) {
                    let j = choose|j: int| 0 <= j < s1.len() && (#[trigger] s1[j]).id == x;
                    assert(s[j + 1].id == x);
                }
            }
            assert(!contains_id(s1, o.id));
            assert(ids_distinct(r1));
            assert forall|i: int, j: int| 0 <= i < j < r.len() implies (#[trigger] r[i]).id != (
            #[trigger] r[j]).id by {
                if i == 0 {
                    assert(r[j] == r1[j - 1]);
                    assert(contains_id(r1, r1[j - 1].id));
                    if r1[j - 1].id == s[0].id {
                        assert(s[0].id == o.id || contains_id(s1, s[0].id));
                        if contains_id(s1, s[0].id) {
                            let k2 = choose|k2: int|
                                0 <= k2 < s1.len() && (#[trigger] s1[k2]).id == s[0].id;
                            assert(s[k2 + 1].id == s[0].id);
                        }
                    }
                } else {
                    assert(r[i] == r1[i - 1]);
                    assert(r[j] == r1[j - 1]);
                }
            }
        }
    } else {
        assert(r == seq![o] + s);
        assert forall|i: int, j: int| 0 <= i < j < r.len() implies priority_geq(
            o.side,
            (#[trigger] r[i]).price,
            (#[trigger] r[j]).price,
        ) by {
            if i == 0 {
                assert(r[j] == s[j - 1]);
                if s.len() > 0 {
                    assert(!priority_geq(o.side, s[0].price, o.price));
                    if j - 1 > 0 {
                        assert(priority_geq(o.side, s[0].price, s[j - 1].price));
                    }
                }
            } else {
                assert(r[i] == s[i - 1]);
                assert(r[j] == s[j - 1]);
            }
        }
        assert forall|i: int| 0 <= i < r.len() implies (#[trigger] r[i]).side == o.side
            && r[i].valid() by {
            if i > 0 {
                assert(r[i] == s[i - 1]);
            }
        }
        assert forall|x: u64| #[trigger] contains_id(r, x) implies (x == o.id || contains_id(
            s,
            x,
        )) by {
            if contains_id(r, x) {
                let j = choose|j: int| 0 <= j < r.len() && (#[trigger] r[j]).id == x;
                if j > 0 {
                    assert(s[j - 1].id == x);
                }
            }
        }
        assert forall|x: u64| #[trigger] contains_id(s, x) implies contains_id(r, x) by {
            if contains_id(s, x) {
                let j = choose|j: int| 0 <= j < s.len() && (#[trigger] s[j]).id == x;
                assert(r[j + 1].id == x);
            }
        }
        assert(r[0].id == o.id);
        assert(contains_id(r, o.id));
        if ids_distinct(s) && !contains_id(s, o.id) {
            assert forall|i: int, j: int| 0 <= i < j < r.len() implies (#[trigger] r[i]).id != (
            #[trigger] r[j]).id by {
                if i == 0 {
                    assert(r[j] == s[j - 1]);
                } else {
                    assert(r[i] == s[i - 1]);
                    assert(r[j] == s[j - 1]);
                }
            }
        }
    }
}

/// Every order in the rested sequence is the new order or one of the old
/// orders.
pub proof fn lemma_rest_order_members(s: Seq<Order>, o: Order, i: int)
    requires
        0 <= i < rest_order(s, o).len(),
    ensures
        rest_order(s, o)[i] == o || s.contains(rest_order(s, o)[i]),
    decreases s.len(),
{
    let r = rest_order(s, o);
    if s.len() > 0 && priority_geq(o.side, s[0].price, o.price) {
        let s1 = s.drop_first();
        let r1 = rest_order(s1, o);
        assert(r == seq![s[0]] + r1);
        if i == 0 {
            assert(s.contains(s[0]));
        } else {
            lemma_rest_order_members(s1, o, i - 1);
            assert(r[i] == r1[i - 1]);
            if r1[i - 1] == o {
            } else {
                let j = choose|j: int| 0 <= j < s1.len() && s1[j] == r1[i - 1];
                assert(s[j + 1] == r[i]);
                assert(s.contains(r[i]));
            }
        }
    } else {
        assert(r == seq![o] + s);
        if i > 0 {
            assert(r[i] == s[i - 1]);
            assert(s.contains(r[i]));
        }
    }
}

/// If `id` occurs in `s`, [`index_of_id`] names its first occurrence;
/// otherwise it is `-1`.
pub proof fn lemma_index_of_id(s: Seq<Order>, id: u64)
    ensures
        contains_id(s, id) <==> 0 <= index_of_id(s, id) < s.len(),
        contains_id(s, id) ==> s[index_of_id(s, id)].id == id,
        !contains_id(s, id) ==> index_of_id(s, id) == -1,
        forall|k: int| 0 <= k < index_of_id(s, id) ==> (#[trigger] s[k]).id != id,
    decreases s.len(),
{
    if s.len() == 0 {
        assert(!contains_id(s, id));
    } else if s[0].id == id {
        assert(contains_id(s, id));
    } else {
        let s1 = s.drop_first();
        lemma_index_of_id(s1, id);
        let r1 = index_of_id(s1, id);
        assert forall|x: u64| #[trigger] contains_id(s1, x) implies contains_id(s, x) by {
            if contains_id(s1, x) {
                let j = choose|j: int| 0 <= j < s1.len() && (#[trigger] s1[j]).id == x;
                assert(s[j + 1].id == x);
            }
        }
        if contains_id(s, id) {
            let j = choose|j: int| 0 <= j < s.len() && (#[trigger] s[j]).id == id;
            assert(j != 0);
            assert(s1[j - 1].id == id);
            assert(contains_id(s1, id));
            assert(s[r1 + 1].id == id);
        } else {
            assert(!contains_id(s1, id));
        }
        assert forall|k: int| 0 <= k < index_of_id(s, id) implies (#[trigger] s[k]).id != id by {
            if k > 0 {
                assert(s1[k - 1].id == s[k].id);
            }
        }
    }
}

/// Executable form of [`priority_geq`].
fn priority_geq_exec(side: Side, p1: u64, p2: u64) -> (r: bool)
    ensures
        r == priority_geq(side, p1, p2),
{
    match side {
        Side::Buy => p1 >= p2,
        Side::Sell => p1 <= p2,
    }
}

/// Inserts a residual incoming order into its own side's resting sequence,
/// behind every order of at least its price priority.
fn insert_resting(own: &mut Vec<Order>, o: Order)
    requires
        side_ok(old(own)@, o.side),
        o.valid(),
    ensures
        final(own)@ == rest_order(old(own)@, o),
{
    let ghost own0 = own@;
    proof {
        assert(own0.subrange(0, own0.len() as int) =~= own0);
        assert(own0.subrange(0, 0) + rest_order(own0, o) =~= rest_order(own0, o));
    }
    let mut i: usize = 0;
    while i < own.len() && priority_geq_exec(o.side, own[i].price, o.price)
        invariant
            own@ == own0,
            i <= own0.len(),
            rest_order(own0, o) == own0.subrange(0, i as int) + rest_order(
                own0.subrange(i as int, own0.len() as int),
                o,
            ),
        decreases own0.len() - i,
    {
        proof {
            let tail = own0.subrange(i as int, own0.len() as int);
            let tail1 = own0.subrange(i + 1, own0.len() as int);
            assert(tail[0] == own0[i as int]);
            assert(priority_geq(o.side, tail[0].price, o.price));
            assert(tail.drop_first() =~= tail1);
            assert(rest_order(tail, o) == seq![tail[0]] + rest_order(tail1, o));
            assert(own0.subrange(0, i as int) + (seq![tail[0]] + rest_order(tail1, o))
                =~= own0.subrange(0, i + 1) + rest_order(tail1, o));
        }
        i = i + 1;
    }
    proof {
        let tail = own0.subrange(i as int, own0.len() as int);
        assert(rest_order(tail, o) == seq![o] + tail);
    }
    own.insert(i, o);
    proof {
        assert(own@ =~= own0.subrange(0, i as int) + (seq![o] + own0.subrange(
            i as int,
            own0.len() as int,
        )));
    }
}

/// An owned copy of a resting sequence.
fn copy_orders(v: &Vec<Order>) -> (r: Vec<Order>)
    ensures
        r@ == v@,
{
    let mut out: Vec<Order> = Vec::new();
    proof {
        assert(out@ =~= v@.subrange(0, 0));
    }
    let mut i: usize = 0;
    while i < v.len()
        invariant
            i <= v@.len(),
            out@ == v@.subrange(0, i as int),
        decreases v@.len() - i,
    {
        out.push(v[i]);
        i = i + 1;
        proof {
            assert(out@ =~= v@.subrange(0, i as int));
        }
    }
    proof {
        assert(v@.subrange(0, v@.len() as int) =~= v@);
    }
    out
}

/// Finds the position of the order with id `id`, if any.
fn find_index(v: &Vec<Order>, id: u64) -> (r: Option<usize>)
    ensures
        match r {
            Some(i) => i < v@.len() && v@[i as int].id == id && index_of_id(v@, id) == i,
            None => !contains_id(v@, id),
        },
{
    let mut i: usize = 0;
    while i < v.len()
        invariant
            i <= v@.len(),
            forall|k: int| 0 <= k < i ==> (#[trigger] v@[k]).id != id,
        decreases v@.len() - i,
    {
        if v[i].id == id {
            proof {
                lemma_index_of_id(v@, id);
                assert(contains_id(v@, id));
                let idx = index_of_id(v@, id);
                if idx < i {
                    assert(v@[idx].id != id);
                }
                if idx > i {
                    assert(v@[i as int].id != id);
                }
            }
            return Some(i);
        }
        i = i + 1;
    }
    proof {
        if contains_id(v@, id) {
            let j = choose|j: int| 0 <= j < v@.len() && (#[trigger] v@[j]).id == id;
            assert(v@[j].id != id);
        }
    }
    None
}

/// Executable form of [`crosses`].
fn crosses_exec(incoming: Side, limit: u64, resting_price: u64) -> (r: bool)
    ensures
        r == crosses(incoming, limit, resting_price),
{
    match incoming {
        Side::Buy => resting_price <= limit,
        Side::Sell => resting_price >= limit,
    }
}

/// Walks the opposing resting sequence `opp` for an incoming order of side
/// `incoming`, limit price `limit` and remaining quantity `qty`, consuming
/// crossing resting orders strictly from the front. Returns the fills
/// emitted, the incoming order's remaining quantity, and the match counter
/// after the last fill (counting on from `mid0`).
fn match_against(opp: &mut Vec<Order>, incoming: Side, limit: u64, qty: u64, mid0: u64) -> (r: (
    Vec<Fill>,
    u64,
    u64,
))
    requires
        side_ok(old(opp)@, incoming.opposite()),
        qty > 0,
        mid0 + old(opp)@.len() <= u64::MAX,
    ensures
        r.0@ == match_fills(old(opp)@, incoming, limit, qty as int, mid0 as int),
        final(opp)@ == match_rest(old(opp)@, incoming, limit, qty as int),
        r.1 == match_leftover(old(opp)@, incoming, limit, qty as int),
        r.2 == mid0 + r.0@.len(),
        side_ok(final(opp)@, incoming.opposite()),
        r.0@.len() + final(opp)@.len() <= old(opp)@.len() + 1,
{
    let ghost opp0 = opp@;
    let mut fills: Vec<Fill> = Vec::new();
    let mut q: u64 = qty;
    let mut mid: u64 = mid0;
    while q > 0 && opp.len() > 0 && crosses_exec(incoming, limit, opp[0].price)
        invariant
            side_ok(opp@, incoming.opposite()),
            q <= qty,
            mid == mid0 + fills@.len(),
            q > 0 ==> fills@.len() + opp@.len() <= opp0.len(),
            fills@.len() + opp@.len() <= opp0.len() + 1,
            mid0 + opp0.len() <= u64::MAX,
            match_fills(opp0, incoming, limit, qty as int, mid0 as int) == fills@ + match_fills(
                opp@,
                incoming,
                limit,
                q as int,
                mid as int,
            ),
            match_rest(opp0, incoming, limit, qty as int) == match_rest(
                opp@,
                incoming,
                limit,
                q as int,
            ),
            match_leftover(opp0, incoming, limit, qty as int) == match_leftover(
                opp@,
                incoming,
                limit,
                q as int,
            ),
        decreases opp@.len(), q,
    {
        let ghost opp_pre = opp@;
        let ghost fills_pre = fills@;
        let ghost q_pre = q as int;
        let ghost mid_pre = mid as int;

        let r: Order = opp[0];
        let t: u64 = if q < r.quantity {
            q
        } else {
            r.quantity
        };
        proof {
            assert(fills@.len() + opp@.len() <= opp0.len());
            assert(t as int == min_int(q_pre, r.quantity as int));
        }
        mid = mid + 1;
        fills.push(Fill { matched_id: mid, volume: t, price: r.price });
        let ghost f = (Fill { matched_id: (mid_pre + 1) as u64, volume: t, price: r.price });
        proof {
            assert(fills@ =~= fills_pre + seq![f]);
            assert(match_fills(opp_pre, incoming, limit, q_pre, mid_pre) == seq![f] + match_fills(
                opp_pre.drop_first(),
                incoming,
                limit,
                q_pre - t,
                mid_pre + 1,
            ));
        }
        if t == r.quantity {
            opp.remove(0);
            q = q - t;
            proof {
                assert(opp@ =~= opp_pre.drop_first());
                assert(match_rest(opp_pre, incoming, limit, q_pre) == match_rest(
                    opp@,
                    incoming,
                    limit,
                    q as int,
                ));
                assert(match_leftover(opp_pre, incoming, limit, q_pre) == match_leftover(
                    opp@,
                    incoming,
                    limit,
                    q as int,
                ));
                assert(match_fills(opp0, incoming, limit, qty as int, mid0 as int) =~= fills@
                    + match_fills(opp@, incoming, limit, q as int, mid as int));
                assert forall|i: int| 0 <= i < opp@.len() implies (#[trigger] opp@[i]).side
                    == incoming.opposite() && opp@[i].valid() by {
                    assert(opp@[i] == opp_pre[i + 1]);
                }
                assert forall|i: int, j: int| 0 <= i < j < opp@.len() implies priority_geq(
                    incoming.opposite(),
                    (#[trigger] opp@[i]).price,
                    (#[trigger] opp@[j]).price,
                ) by {
                    assert(opp@[i] == opp_pre[i + 1]);
                    assert(opp@[j] == opp_pre[j + 1]);
                }
            }
        } else {
            let reduced = Order { id: r.id, price: r.price, quantity: r.quantity - t, side: r.side };
            opp.set(0, reduced);
            q = 0;
            proof {
                assert(opp@ =~= opp_pre.update(0, reduced));
                assert(match_rest(opp_pre, incoming, limit, q_pre) =~= opp@);
                assert(match_rest(opp@, incoming, limit, 0) == opp@);
                assert(match_leftover(opp_pre, incoming, limit, q_pre) == 0);
                assert(match_fills(opp_pre.drop_first(), incoming, limit, 0, mid_pre + 1)
                    =~= Seq::<Fill>::empty());
                assert(match_fills(opp0, incoming, limit, qty as int, mid0 as int) =~= fills@
                    + match_fills(opp@, incoming, limit, 0, mid as int));
                assert forall|i: int| 0 <= i < opp@.len() implies (#[trigger] opp@[i]).side
                    == incoming.opposite() && opp@[i].valid() by {
                    if i != 0 {
                        assert(opp@[i] == opp_pre[i]);
                    }
                }
                assert forall|i: int, j: int| 0 <= i < j < opp@.len() implies priority_geq(
                    incoming.opposite(),
                    (#[trigger] opp@[i]).price,
                    (#[trigger] opp@[j]).price,
                ) by {
                    assert(opp@[i].price == opp_pre[i].price);
                    assert(opp@[j].price == opp_pre[j].price);
                }
            }
        }
    }
    proof {
        assert(match_fills(opp@, incoming, limit, q as int, mid as int) =~= Seq::<Fill>::empty());
        assert(fills@ + Seq::<Fill>::empty() =~= fills@);
        assert(match_rest(opp@, incoming, limit, q as int) == opp@);
        assert(match_leftover(opp@, incoming, limit, q as int) == q as int);
    }
    (fills, q, mid)
}

/// Time priority within a price level: a newly rested order stands exactly
/// behind every resting order whose price is at least as good — in
/// particular behind every earlier arrival at its own price — and ahead of
/// all worse-priced orders. `pos` is the length of that better-or-equal
/// prefix.
pub proof fn lemma_rest_order_position(s: Seq<Order>, o: Order, pos: int)
    requires
        side_ok(s, o.side),
        o.valid(),
        0 <= pos <= s.len(),
        forall|i: int| 0 <= i < pos ==> priority_geq(o.side, (#[trigger] s[i]).price, o.price),
        pos < s.len() ==> !priority_geq(o.side, s[pos].price, o.price),
    ensures
        rest_order(s, o) == s.subrange(0, pos) + seq![o] + s.subrange(pos, s.len() as int),
    decreases s.len(),
{
    if pos == 0 {
        assert(rest_order(s, o) == seq![o] + s);
        assert(seq![o] + s =~= s.subrange(0, 0) + seq![o] + s.subrange(0, s.len() as int));
    } else {
        let s1 = s.drop_first();
        assert(priority_geq(o.side, s[0].price, o.price));
        assert(rest_order(s, o) == seq![s[0]] + rest_order(s1, o));
        assert forall|i: int| 0 <= i < s1.len() implies (#[trigger] s1[i]).side == o.side
            && s1[i].valid() by {
            assert(s1[i] == s[i + 1]);
        }
        assert forall|i: int, j: int| 0 <= i < j < s1.len() implies priority_geq(
            o.side,
            (#[trigger] s1[i]).price,
            (#[trigger] s1[j]).price,
        ) by {
            assert(s1[i] == s[i + 1]);
            assert(s1[j] == s[j + 1]);
        }
        assert forall|i: int| 0 <= i < pos - 1 implies priority_geq(
            o.side,
            (#[trigger] s1[i]).price,
            o.price,
        ) by {
            assert(s1[i] == s[i + 1]);
        }
        if pos - 1 < s1.len() {
            assert(s1[pos - 1] == s[pos]);
        }
        lemma_rest_order_position(s1, o, pos - 1);
        assert(seq![s[0]] + (s1.subrange(0, pos - 1) + seq![o] + s1.subrange(
            pos - 1,
            s1.len() as int,
        )) =~= s.subrange(0, pos) + seq![o] + s.subrange(pos, s.len() as int));
    }
}

/// Conservation of quantity for each resting order touched by a matching
/// walk: every touched order but possibly the last is consumed in full, and
/// a partially consumed last order stays at the front of the residual
/// sequence with exactly the difference left, so its quantity before the
/// walk splits into its fill's volume and its quantity after.
pub proof fn lemma_match_rest_residual(
    s: Seq<Order>,
    incoming: Side,
    limit: u64,
    qty: int,
    mid: int,
    fills: Seq<Fill>,
    rest: Seq<Order>,
)
    requires
        forall|i: int| 0 <= i < s.len() ==> (#[trigger] s[i]).valid(),
        qty >= 0,
        fills == match_fills(s, incoming, limit, qty, mid),
        rest == match_rest(s, incoming, limit, qty),
    ensures
        fills.len() <= s.len(),
        fills.len() == 0 ==> rest == s,
        rest.len() == s.len() - fills.len() || rest.len() == s.len() - fills.len() + 1,
        rest.len() == s.len() - fills.len() ==> (forall|i: int|
            0 <= i < fills.len() ==> (#[trigger] fills[i]).volume == s[i].quantity) && (forall|
            i: int,
        |
            0 <= i < rest.len() ==> (#[trigger] rest[i]) == s[i + fills.len()]),
        rest.len() == s.len() - fills.len() + 1 ==> fills.len() > 0 && rest[0].id == s[fills.len()
            - 1].id && fills[fills.len() - 1].volume + rest[0].quantity == s[fills.len()
            - 1].quantity && (forall|i: int|
            1 <= i < rest.len() ==> (#[trigger] rest[i]) == s[i + fills.len() - 1]) && (forall|
            i: int,
        |
            0 <= i < fills.len() - 1 ==> (#[trigger] fills[i]).volume == s[i].quantity),
    decreases s.len(),
{
    if qty <= 0 || s.len() == 0 || !crosses(incoming, limit, s[0].price) {
        assert(fills =~= Seq::<Fill>::empty());
    } else {
        let t = min_int(qty, s[0].quantity as int);
        let f = Fill { matched_id: (mid + 1) as u64, volume: t as u64, price: s[0].price };
        let s1 = s.drop_first();
        let fills1 = match_fills(s1, incoming, limit, qty - t, mid + 1);
        let rest1 = match_rest(s1, incoming, limit, qty - t);
        assert(fills == seq![f] + fills1);
        assert forall|i: int| 0 <= i < s1.len() implies (#[trigger] s1[i]).valid() by {
            assert(s1[i] == s[i + 1]);
        }
        if s[0].quantity <= qty {
            lemma_match_rest_residual(s1, incoming, limit, qty - t, mid + 1, fills1, rest1);
            assert(rest == rest1);
            assert(fills[0].volume == s[0].quantity);
            assert forall|i: int| 1 <= i < fills.len() implies (#[trigger] fills[i])
                == fills1[i - 1] by {}
            if rest.len() == s.len() - fills.len() {
                assert(rest1.len() == s1.len() - fills1.len());
                assert forall|i: int| 0 <= i < fills.len() implies (#[trigger] fills[i]).volume
                    == s[i].quantity by {
                    if i > 0 {
                        assert(fills1[i - 1].volume == s1[i - 1].quantity);
                        assert(s1[i - 1] == s[i]);
                    }
                }
                assert forall|i: int| 0 <= i < rest.len() implies (#[trigger] rest[i]) == s[i
                    + fills.len()] by {
                    assert(rest1[i] == s1[i + fills1.len()]);
                    assert(s1[i + fills1.len()] == s[i + fills.len()]);
                }
            } else {
                assert(rest1.len() == s1.len() - fills1.len() + 1);
                assert(fills1.len() > 0);
                assert(rest[0].id == s1[fills1.len() - 1].id);
                assert(s1[fills1.len() - 1] == s[fills.len() - 1]);
                assert(fills[fills.len() - 1] == fills1[fills1.len() - 1]);
                assert forall|i: int| 1 <= i < rest.len() implies (#[trigger] rest[i]) == s[i
                    + fills.len() - 1] by {
                    assert(rest1[i] == s1[i + fills1.len() - 1]);
                    assert(s1[i + fills1.len() - 1] == s[i + fills.len() - 1]);
                }
                assert forall|i: int| 0 <= i < fills.len() - 1 implies (#[trigger] fills[i]).volume
                    == s[i].quantity by {
                    if i > 0 {
                        assert(fills1[i - 1].volume == s1[i - 1].quantity);
                        assert(s1[i - 1] == s[i]);
                    }
                }
            }
        } else {
            // partial fill of the front order: the walk ends here
            assert(t == qty);
            assert(fills1 =~= Seq::<Fill>::empty());
            assert(fills.len() == 1);
            let reduced = Order {
                id: s[0].id,
                price: s[0].price,
                quantity: (s[0].quantity - qty) as u64,
                side: s[0].side,
            };
            assert(rest == s.update(0, reduced));
            assert(rest.len() == s.len());
            assert(rest[0].id == s[0].id);
            assert(fills[0].volume + rest[0].quantity == s[0].quantity);
            assert forall|i: int| 1 <= i < rest.len() implies (#[trigger] rest[i]) == s[i + fills.len()
                - 1] by {
                assert(rest[i] == s[i]);
            }
        }
    }
}

/// An incoming order that cannot cross — the opposing side is empty or its
/// best price does not reach the incoming limit — trades nothing: no fills
/// are produced, the opposing side is unchanged, and the incoming quantity
/// is fully left over (so the order rests unchanged at its full quantity).
pub proof fn lemma_no_cross_no_fills(s: Seq<Order>, incoming: Side, limit: u64, qty: int, mid: int)
    requires
        s.len() == 0 || !crosses(incoming, limit, s[0].price),
    ensures
        match_fills(s, incoming, limit, qty, mid) == Seq::<Fill>::empty(),
        match_rest(s, incoming, limit, qty) == s,
        match_leftover(s, incoming, limit, qty) == qty,
{
}

/// In a well-formed book the quotes are never crossed: the best bid is
/// priced strictly below the best ask, or one side of the book is empty.
pub proof fn lemma_no_crossed_book(b: OrderBook)
    requires
        b.wf(),
    ensures
        b.bids_view().len() == 0 || b.asks_view().len() == 0 || b.bids_view()[0].price
            < b.asks_view()[0].price,
{
}

/// Removing one order leaves the side well formed, its ids distinct and a
/// subset of the old ones, and never improves the price at its front.
pub proof fn lemma_remove_preserves(s: Seq<Order>, side: Side, i: int)
    requires
        side_ok(s, side),
        ids_distinct(s),
        0 <= i < s.len(),
    ensures
        side_ok(s.remove(i), side),
        ids_distinct(s.remove(i)),
        forall|x: u64| contains_id(s.remove(i), x) ==> contains_id(s, x),
        s.remove(i).len() > 0 ==> priority_geq(side, s[0].price, s.remove(i)[0].price),
        !contains_id(s.remove(i), s[i].id),
{
    let s1 = s.remove(i);
    assert forall|k: int| 0 <= k < s1.len() implies (#[trigger] s1[k]) == (if k < i {
        s[k]
    } else {
        s[k + 1]
    }) by {
        if k < i {
            assert(s1[k] == s[k]);
        } else {
            assert(s1[k] == s[k + 1]);
        }
    }
    assert forall|k: int| 0 <= k < s1.len() implies (#[trigger] s1[k]).side == side
        && s1[k].valid() by {}
    assert forall|k: int, l: int| 0 <= k < l < s1.len() implies priority_geq(
        side,
        (#[trigger] s1[k]).price,
        (#[trigger] s1[l]).price,
    ) by {}
    assert forall|k: int, l: int| 0 <= k < l < s1.len() implies (#[trigger] s1[k]).id != (
    #[trigger] s1[l]).id by {}
    assert forall|x: u64| contains_id(s1, x) implies contains_id(s, x) by {
        if contains_id(s1, x) {
            let j = choose|j: int| 0 <= j < s1.len() && (#[trigger] s1[j]).id == x;
            if j < i {
                assert(s[j].id == x);
            } else {
                assert(s[j + 1].id == x);
            }
        }
    }
    if contains_id(s1, s[i].id) {
        let j = choose|j: int| 0 <= j < s1.len() && (#[trigger] s1[j]).id == s[i].id;
        if j < i {
            assert(s[j].id == s[i].id);
        } else {
            assert(s[j + 1].id == s[i].id);
        }
    }
}

/// A whole submission — matching against the opposing side, then resting any
/// leftover on the order's own side — preserves every part of the book
/// invariant, stated here generically over the incoming side `sd`: `own0` is
/// the side the order would rest on, `opp0` the side it matches against.
pub proof fn lemma_submit_preserves_wf(
    own0: Seq<Order>,
    opp0: Seq<Order>,
    sd: Side,
    order: Order,
    leftover: int,
    opp1: Seq<Order>,
    own1: Seq<Order>,
)
    requires
        side_ok(own0, sd),
        side_ok(opp0, sd.opposite()),
        ids_distinct(own0),
        ids_distinct(opp0),
        forall|i: int, j: int|
            0 <= i < own0.len() && 0 <= j < opp0.len() ==> (#[trigger] own0[i]).id != (
            #[trigger] opp0[j]).id,
        own0.len() > 0 && opp0.len() > 0 ==> !crosses(sd, own0[0].price, opp0[0].price),
        order.side == sd,
        order.valid(),
        !contains_id(own0, order.id),
        !contains_id(opp0, order.id),
        leftover == match_leftover(opp0, sd, order.price, order.quantity as int),
        opp1 == match_rest(opp0, sd, order.price, order.quantity as int),
        own1 == (if leftover > 0 {
            rest_order(
                own0,
                (Order {
                    id: order.id,
                    price: order.price,
                    quantity: leftover as u64,
                    side: sd,
                }),
            )
        } else {
            own0
        }),
    ensures
        0 <= leftover <= order.quantity,
        side_ok(own1, sd),
        side_ok(opp1, sd.opposite()),
        ids_distinct(own1),
        ids_distinct(opp1),
        forall|i: int, j: int|
            0 <= i < own1.len() && 0 <= j < opp1.len() ==> (#[trigger] own1[i]).id != (
            #[trigger] opp1[j]).id,
        own1.len() > 0 && opp1.len() > 0 ==> !crosses(sd, own1[0].price, opp1[0].price),
        contains_id(own1, order.id) <==> leftover > 0,
        !contains_id(opp1, order.id),
{
    lemma_match_conservation(opp0, sd, order.price, order.quantity as int, 0);
    lemma_match_rest_props(opp0, sd, order.price, order.quantity as int);
    let resting = Order { id: order.id, price: order.price, quantity: leftover as u64, side: sd };
    if leftover > 0 {
        lemma_rest_order_props(own0, resting);
    }
    if contains_id(opp1, order.id) {
        assert(contains_id(opp0, order.id));
    }
    assert forall|i: int, j: int|
        0 <= i < own1.len() && 0 <= j < opp1.len() implies (#[trigger] own1[i]).id != (
    #[trigger] opp1[j]).id by {
        assert(contains_id(opp1, opp1[j].id));
        assert(contains_id(opp0, opp1[j].id));
        let k = choose|k: int| 0 <= k < opp0.len() && (#[trigger] opp0[k]).id == opp1[j].id;
        if own1[i].id == opp1[j].id {
            if leftover > 0 {
                assert(contains_id(own1, own1[i].id));
                assert(own1[i].id == resting.id || contains_id(own0, own1[i].id));
                if own1[i].id == order.id {
                    assert(contains_id(opp0, order.id));
                } else {
                    let m = choose|m: int|
                        0 <= m < own0.len() && (#[trigger] own0[m]).id == own1[i].id;
                    assert(own0[m].id != opp0[k].id);
                }
            } else {
                assert(own0[i].id != opp0[k].id);
            }
        }
    }
    if own1.len() > 0 && opp1.len() > 0 {
        if opp0.len() == 0 {
            assert(opp1 == opp0);
        }
        assert(opp0.len() > 0);
        assert(priority_geq(sd.opposite(), opp0[0].price, opp1[0].price));
        if leftover > 0 {
            if own0.len() > 0 && priority_geq(sd, own0[0].price, order.price) {
                assert(own1[0].price == own0[0].price);
                assert(!crosses(sd, own0[0].price, opp0[0].price));
            } else {
                assert(own1[0].price == order.price);
                assert(!crosses(sd, order.price, opp1[0].price));
            }
        } else {
            assert(own1[0].price == own0[0].price);
            assert(!crosses(sd, own0[0].price, opp0[0].price));
        }
    }
}

/// A single-instrument limit order book.
///
/// `bids` and `asks` each hold that side's resting orders in priority order
/// (best price first, FIFO within a price); `match_id` is the id of the last
/// fill emitted over the book's lifetime.
pub struct OrderBook {
    bids: Vec<Order>,
    asks: Vec<Order>,
    match_id: u64,
}

impl OrderBook {
    /// The resting bids, best (highest) price first, arrival order within a
    /// price.
    pub closed spec fn bids_view(self) -> Seq<Order> {
        self.bids@
    }

    /// The resting asks, best (lowest) price first, arrival order within a
    /// price.
    pub closed spec fn asks_view(self) -> Seq<Order> {
        self.asks@
    }

    /// The id of the last fill emitted.
    pub closed spec fn match_counter(self) -> u64 {
        self.match_id
    }

    /// The side an incoming order of side `incoming` matches against.
    pub open spec fn opposing_view(self, incoming: Side) -> Seq<Order> {
        match incoming {
            Side::Buy => self.asks_view(),
            Side::Sell => self.bids_view(),
        }
    }

    /// The side an incoming order of side `incoming` would rest on.
    pub open spec fn own_view(self, incoming: Side) -> Seq<Order> {
        match incoming {
            Side::Buy => self.bids_view(),
            Side::Sell => self.asks_view(),
        }
    }

    /// The book is not crossed: if both sides are nonempty, the best bid is
    /// priced strictly below the best ask.
    pub open spec fn not_crossed(self) -> bool {
        self.bids_view().len() > 0 && self.asks_view().len() > 0
            ==> self.bids_view()[0].price < self.asks_view()[0].price
    }

    /// The book invariant: both sides well formed and in priority order, all
    /// ids distinct, and the book not crossed. Established by [`Self::new`]
    /// and preserved by every operation.
    pub open spec fn wf(self) -> bool {
        &&& side_ok(self.bids_view(), Side::Buy)
        &&& side_ok(self.asks_view(), Side::Sell)
        &&& ids_distinct(self.bids_view())
        &&& ids_distinct(self.asks_view())
        &&& sides_disjoint(self.bids_view(), self.asks_view())
        &&& self.not_crossed()
    }

    /// Whether an order with id `id` is resting in the book.
    pub open spec fn has_order(self, id: u64) -> bool {
        contains_id(self.bids_view(), id) || contains_id(self.asks_view(), id)
    }

    /// An empty book with the match counter at zero.
    pub fn new() -> (r: OrderBook)
        ensures
            r.wf(),
            r.bids_view().len() == 0,
            r.asks_view().len() == 0,
            r.match_counter() == 0,
    {
        OrderBook { bids: Vec::new(), asks: Vec::new(), match_id: 0 }
    }

    /// The resting bids, best (highest) price first, arrival order within a
    /// price; one row per order, so price levels are the runs of equal
    /// prices. Read-only.
    pub fn bids(&self) -> (r: &Vec<Order>)
        ensures
            r@ == self.bids_view(),
    {
        &self.bids
    }

    /// The resting asks, best (lowest) price first, arrival order within a
    /// price. Read-only.
    pub fn asks(&self) -> (r: &Vec<Order>)
        ensures
            r@ == self.asks_view(),
    {
        &self.asks
    }

    /// A read-only snapshot of the book: owned copies of the bids and the
    /// asks, each best price first and in arrival order within a price. The
    /// book itself is untouched, and the caller holds no reference into it.
    pub fn snapshot(&self) -> (r: (Vec<Order>, Vec<Order>))
        ensures
            r.0@ == self.bids_view(),
            r.1@ == self.asks_view(),
    {
        (copy_orders(&self.bids), copy_orders(&self.asks))
    }

    /// The id of the last fill emitted by this book.
    pub fn last_match_id(&self) -> (r: u64)
        ensures
            r == self.match_counter(),
    {
        self.match_id
    }

    /// The number of orders resting in the book, both sides together.
    pub fn order_count(&self) -> (r: usize)
        requires
            self.bids_view().len() + self.asks_view().len() <= usize::MAX,
        ensures
            r == self.bids_view().len() + self.asks_view().len(),
    {
        self.bids.len() + self.asks.len()
    }

    /// Whether an order with id `id` is resting in the book.
    pub fn contains(&self, id: u64) -> (r: bool)
        ensures
            r == self.has_order(id),
    {
        let mut i: usize = 0;
        while i < self.bids.len()
            invariant
                i <= self.bids@.len(),
                forall|k: int| 0 <= k < i ==> (#[trigger] self.bids@[k]).id != id,
            decreases self.bids@.len() - i,
        {
            if self.bids[i].id == id {
                proof {
                    assert(contains_id(self.bids@, id));
                }
                return true;
            }
            i = i + 1;
        }
        let mut j: usize = 0;
        while j < self.asks.len()
            invariant
                j <= self.asks@.len(),
                forall|k: int| 0 <= k < j ==> (#[trigger] self.asks@[k]).id != id,
            decreases self.asks@.len() - j,
        {
            if self.asks[j].id == id {
                proof {
                    assert(contains_id(self.asks@, id));
                }
                return true;
            }
            j = j + 1;
        }
        false
    }

    /// Submits a limit order.
    ///
    /// A degenerate order (zero quantity or zero price) and an id already
    /// resting in the book are rejected, leaving the book unchanged.
    /// Otherwise the order is matched against the opposing side in
    /// price/time-priority order ([`match_fills`]): resting orders are
    /// consumed strictly from the front of the opposing sequence, each touched
    /// order yields one fill at its own resting price, and the match counter
    /// advances by one per fill. Whatever quantity the matching walk leaves
    /// over rests at the back of its price level on the order's own side
    /// ([`rest_order`]); an order fully filled by the walk never rests.
    ///
    /// Returns the fills in match-id order.
    pub fn add_order(&mut self, order: Order) -> (r: Result<Vec<Fill>, SubmitError>)
        requires
            old(self).wf(),
            old(self).match_counter() + old(self).bids_view().len() + old(self).asks_view().len()
                <= u64::MAX,
        ensures
            final(self).wf(),
            r is Err <==> (order.quantity == 0 || order.price == 0 || old(self).has_order(
                order.id,
            )),
            r is Err ==> *final(self) == *old(self),
            order.quantity == 0 ==> r == Err::<Vec<Fill>, SubmitError>(SubmitError::ZeroQuantity),
            order.quantity > 0 && order.price == 0 ==> r == Err::<Vec<Fill>, SubmitError>(
                SubmitError::ZeroPrice,
            ),
            order.valid() && old(self).has_order(order.id) ==> r == Err::<Vec<Fill>, SubmitError>(
                SubmitError::DuplicateId,
            ),
            r matches Ok(fills) ==> ({
                let opp0 = old(self).opposing_view(order.side);
                let own0 = old(self).own_view(order.side);
                let leftover = match_leftover(opp0, order.side, order.price, order.quantity as int);
                &&& fills@ == match_fills(
                    opp0,
                    order.side,
                    order.price,
                    order.quantity as int,
                    old(self).match_counter() as int,
                )
                &&& final(self).opposing_view(order.side) == match_rest(
                    opp0,
                    order.side,
                    order.price,
                    order.quantity as int,
                )
                &&& final(self).own_view(order.side) == (if leftover > 0 {
                    rest_order(
                        own0,
                        (Order {
                            id: order.id,
                            price: order.price,
                            quantity: leftover as u64,
                            side: order.side,
                        }),
                    )
                } else {
                    own0
                })
                &&& final(self).match_counter() == old(self).match_counter() + fills@.len()
                &&& sum_volumes(fills@) + leftover == order.quantity
                &&& (final(self).has_order(order.id) <==> leftover > 0)
            }),
    {
        if order.quantity == 0 {
            return Err(SubmitError::ZeroQuantity);
        }
        if order.price == 0 {
            return Err(SubmitError::ZeroPrice);
        }
        if self.contains(order.id) {
            return Err(SubmitError::DuplicateId);
        }
        let ghost own0 = self.own_view(order.side);
        let ghost opp0 = self.opposing_view(order.side);
        let ghost mid0 = self.match_id;
        let (fills, leftover, mid) = match order.side {
            Side::Buy => match_against(
                &mut self.asks,
                Side::Buy,
                order.price,
                order.quantity,
                self.match_id,
            ),
            Side::Sell => match_against(
                &mut self.bids,
                Side::Sell,
                order.price,
                order.quantity,
                self.match_id,
            ),
        };
        self.match_id = mid;
        proof {
            lemma_match_conservation(
                opp0,
                order.side,
                order.price,
                order.quantity as int,
                mid0 as int,
            );
        }
        if leftover > 0 {
            let resting = Order {
                id: order.id,
                price: order.price,
                quantity: leftover,
                side: order.side,
            };
            match order.side {
                Side::Buy => insert_resting(&mut self.bids, resting),
                Side::Sell => insert_resting(&mut self.asks, resting),
            }
        }
        proof {
            let leftover_s = match_leftover(opp0, order.side, order.price, order.quantity as int);
            let opp1 = match_rest(opp0, order.side, order.price, order.quantity as int);
            let own1 = self.own_view(order.side);
            lemma_submit_preserves_wf(
                own0,
                opp0,
                order.side,
                order,
                leftover_s,
                opp1,
                own1,
            );
            match order.side {
                Side::Buy => {
                    assert(sides_disjoint(self.bids@, self.asks@));
                },
                Side::Sell => {
                    assert forall|i: int, j: int|
                        0 <= i < self.bids@.len() && 0 <= j < self.asks@.len() implies (
                    #[trigger] self.bids@[i]).id != (#[trigger] self.asks@[j]).id by {
                        assert(self.asks@[j].id != self.bids@[i].id);
                    }
                },
            }
        }
        Ok(fills)
    }

    /// Cancels the resting order with id `id`.
    ///
    /// If no such order rests in the book, returns `None` and leaves the book
    /// unchanged. Otherwise removes exactly that order — sibling orders at
    /// the same or other price levels keep their positions — and returns it
    /// with the remaining quantity it had at the time of cancellation. The
    /// match counter never moves.
    pub fn remove_order(&mut self, id: u64) -> (r: Option<Order>)
        requires
            old(self).wf(),
        ensures
            final(self).wf(),
            final(self).match_counter() == old(self).match_counter(),
            r is Some <==> old(self).has_order(id),
            !old(self).has_order(id) ==> *final(self) == *old(self),
            contains_id(old(self).bids_view(), id) ==> ({
                let i = index_of_id(old(self).bids_view(), id);
                &&& r == Some(old(self).bids_view()[i])
                &&& final(self).bids_view() == old(self).bids_view().remove(i)
                &&& final(self).asks_view() == old(self).asks_view()
            }),
            contains_id(old(self).asks_view(), id) ==> ({
                let i = index_of_id(old(self).asks_view(), id);
                &&& r == Some(old(self).asks_view()[i])
                &&& final(self).asks_view() == old(self).asks_view().remove(i)
                &&& final(self).bids_view() == old(self).bids_view()
            }),
            !final(self).has_order(id),
    {
        let found_bid = find_index(&self.bids, id);
        match found_bid {
            Some(i) => {
                let o = self.bids[i];
                self.bids.remove(i);
                proof {
                    lemma_remove_preserves(old(self).bids_view(), Side::Buy, i as int);
                    assert forall|k: int, l: int|
                        0 <= k < self.bids@.len() && 0 <= l < self.asks@.len() implies (
                    #[trigger] self.bids@[k]).id != (#[trigger] self.asks@[l]).id by {
                        assert(contains_id(self.bids@, self.bids@[k].id));
                        assert(contains_id(old(self).bids_view(), self.bids@[k].id));
                        let m = choose|m: int|
                            0 <= m < old(self).bids_view().len() && (#[trigger] old(
                                self,
                            ).bids_view()[m]).id == self.bids@[k].id;
                        assert(old(self).bids_view()[m].id != self.asks@[l].id);
                    }
                    if contains_id(self.asks@, id) {
                        let m = choose|m: int|
                            0 <= m < self.asks@.len() && (#[trigger] self.asks@[m]).id == id;
                        assert(old(self).bids_view()[i as int].id != self.asks@[m].id);
                    }
                }
                Some(o)
            },
            None => {
                let found_ask = find_index(&self.asks, id);
                match found_ask {
                    Some(j) => {
                        let o = self.asks[j];
                        self.asks.remove(j);
                        proof {
                            lemma_remove_preserves(old(self).asks_view(), Side::Sell, j as int);
                            assert forall|k: int, l: int|
                                0 <= k < self.bids@.len() && 0 <= l < self.asks@.len() implies (
                            #[trigger] self.bids@[k]).id != (#[trigger] self.asks@[l]).id by {
                                assert(contains_id(self.asks@, self.asks@[l].id));
                                assert(contains_id(old(self).asks_view(), self.asks@[l].id));
                                let m = choose|m: int|
                                    0 <= m < old(self).asks_view().len() && (#[trigger] old(
                                        self,
                                    ).asks_view()[m]).id == self.asks@[l].id;
                                assert(self.bids@[k].id != old(self).asks_view()[m].id);
                            }
                        }
                        Some(o)
                    },
                    None => None,
                }
            },
        }
    }
}

} // verus!

