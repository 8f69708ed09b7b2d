//! The order book of one symbol.
use vstd::prelude::*;

use crate::ladder::{
    best_price, can_step, cancel_outcome, count, crossed, fill_front, first_at, front,
    held_at_most_once, ladder_holds, ladder_ok, ladder_view, level_holds, lemma_ladder_ok_raise,
    lemma_remove_at_not_better, lemma_remove_at_ok, lemma_sweep_not_better, lemma_take_front_count, lemma_take_front_ok, match_run, place, placed,
    remove_at, remove_by_id, step_fill, sweep, sweep_run, step_qty, LevelView, PriceLevel,
};
use crate::types::{fills_of, remaining, Order, OrderStatus, OrderType, Side, Trade};

verus! {

/// The order as the book rests it: numbered `seq` and pending.
pub open spec fn stamped(o: Order, seq: u64) -> Order {
    Order { sequence: seq, status: OrderStatus::Pending, ..o }
}

/// The outcome of cancelling `id` on a book with ladders `(b0, a0)`: bids are
/// searched before asks.
pub open spec fn book_cancel_outcome(
    b0: Seq<LevelView>,
    a0: Seq<LevelView>,
    id: u128,
    b1: Seq<LevelView>,
    a1: Seq<LevelView>,
    r: Option<Order>,
) -> bool {
    ||| cancel_outcome(b0, id, b1, r) && r.is_some() && a1 == a0
    ||| !ladder_holds(b0, id) && b1 == b0 && cancel_outcome(a0, id, a1, r)
}

/// No more than one order with identifier `id` rests on the two ladders.
pub open spec fn rests_at_most_once(b: Seq<LevelView>, a: Seq<LevelView>, id: u128) -> bool {
    &&& held_at_most_once(b, id)
    &&& held_at_most_once(a, id)
    &&& !(ladder_holds(b, id) && ladder_holds(a, id))
}

/// After the only order with a given identifier is removed, none with that
/// identifier is left.
pub proof fn lemma_removed_gone(s: Seq<LevelView>, id: u128, i: int, j: int)
    requires
        held_at_most_once(s, id),
        first_at(s, id, i, j),
    ensures
        !ladder_holds(remove_at(s, i, j), id),
{
    let t = remove_at(s, i, j);
    if ladder_holds(t, id) {
        let m = choose|m: int| 0 <= m < t.len() && level_holds(#[trigger] t[m], id);
        let k = choose|k: int| 0 <= k < t[m].orders.len() && (#[trigger] t[m].orders[k]).id == id;
        if s[i].orders.len() <= 1 {
            let m2 = if m < i { m } else { m + 1 };
            assert(t[m] == s[m2]);
            assert(s[m2].orders[k].id == id);
        } else if m == i {
            let k2 = if k < j { k } else { k + 1 };
            assert(t[m].orders[k] == s[i].orders[k2]);
        } else {
            assert(t[m] == s[m]);
            assert(s[m].orders[k].id == id);
        }
    }
}

/// Cancelling the same identifier twice, where one order with it rests: the
/// first cancel returns the order and the second returns nothing and changes
/// nothing.
pub proof fn lemma_cancel_twice(
    b0: Seq<LevelView>,
    a0: Seq<LevelView>,
    id: u128,
    b1: Seq<LevelView>,
    a1: Seq<LevelView>,
    r1: Option<Order>,
    b2: Seq<LevelView>,
    a2: Seq<LevelView>,
    r2: Option<Order>,
)
    requires
        ladder_holds(b0, id) || ladder_holds(a0, id),
        rests_at_most_once(b0, a0, id),
        book_cancel_outcome(b0, a0, id, b1, a1, r1),
        book_cancel_outcome(b1, a1, id, b2, a2, r2),
    ensures
        r1.is_some(),
        r1.unwrap().id == id,
        r1.unwrap().status == OrderStatus::Cancelled,
        r2.is_none(),
        b2 == b1,
        a2 == a1,
{
    if cancel_outcome(b0, id, b1, r1) && r1.is_some() && a1 == a0 {
        let (i, j) = choose|i: int, j: int|
            #[trigger] first_at(b0, id, i, j) && r1.unwrap() == crate::ladder::cancelled(b0[i].orders[j]) && b1
                == remove_at(b0, i, j);
        lemma_removed_gone(b0, id, i, j);
    } else {
        assert(!ladder_holds(b0, id));
        let (i, j) = choose|i: int, j: int|
            #[trigger] first_at(a0, id, i, j) && r1.unwrap() == crate::ladder::cancelled(a0[i].orders[j]) && a1
                == remove_at(a0, i, j);
        lemma_removed_gone(a0, id, i, j);
    }
}

/// Limit-order book of one symbol. Bids and asks are ladders of price
/// levels; `resting` counts the orders on both.
pub struct OrderBook {
    symbol: String,
    bids: Vec<PriceLevel>,
    asks: Vec<PriceLevel>,
    next_sequence: u64,
    resting: usize,
}

impl OrderBook {
    pub closed spec fn symbol_view(&self) -> Seq<char> {
        self.symbol@
    }

    pub closed spec fn bids(&self) -> Seq<LevelView> {
        ladder_view(self.bids@)
    }

    pub closed spec fn asks(&self) -> Seq<LevelView> {
        ladder_view(self.asks@)
    }

    /// Arrival number that the next admitted order receives.
    pub closed spec fn next_seq(&self) -> u64 {
        self.next_sequence
    }

    pub closed spec fn wf(&self) -> bool {
        &&& ladder_ok(self.bids(), Side::Buy, self.next_sequence)
        &&& ladder_ok(self.asks(), Side::Sell, self.next_sequence)
        &&& self.resting == count(self.bids()) + count(self.asks())
    }

    /// No bid reaches an ask.
    pub open spec fn uncrossed(&self) -> bool {
        !crossed(self.bids(), self.asks())
    }

    pub fn new(symbol: String) -> (r: OrderBook)
        ensures
            r.wf(),
            r.symbol_view() == symbol@,
            r.bids().len() == 0,
            r.asks().len() == 0,
            r.next_seq() == 0,
    {
        let r = OrderBook { symbol, bids: Vec::new(), asks: Vec::new(), next_sequence: 0, resting: 0 };
        assert(r.bids() =~= Seq::<LevelView>::empty());
        assert(r.asks() =~= Seq::<LevelView>::empty());
        r
    }

    pub fn symbol(&self) -> (r: &String)
        ensures
            r@ == self.symbol_view(),
    {
        &self.symbol
    }

    /// Best bid price in ticks.
    pub fn best_bid(&self) -> (r: Option<u64>)
        ensures
            r == best_price(self.bids()),
    {
        let n = self.bids.len();
        if n == 0 {
            None
        } else {
            Some(self.bids[n - 1].price)
        }
    }

    /// Best ask price in ticks.
    pub fn best_ask(&self) -> (r: Option<u64>)
        ensures
            r == best_price(self.asks()),
    {
        let n = self.asks.len();
        if n == 0 {
            None
        } else {
            Some(self.asks[n - 1].price)
        }
    }

    /// Number of resting orders on both sides.
    pub fn depth(&self) -> (r: usize)
        requires
            self.wf(),
        ensures
            r == count(self.bids()) + count(self.asks()),
    {
        self.resting
    }

    /// An order may rest: a limit order with a price and quantity left to
    /// fill, while arrival numbers and the order count have room.
    pub open spec fn admits(&self, o: Order) -> bool {
        &&& o.order_type == OrderType::Limit
        &&& o.price.is_some()
        &&& o.filled_quantity < o.quantity
        &&& self.next_seq() < u64::MAX
        &&& count(self.bids()) + count(self.asks()) < usize::MAX
    }

    /// Rests `order` behind the orders already at its price, numbered with the
    /// next arrival number and marked pending. No match is attempted. Returns
    /// whether the order was admitted; a refused order leaves the book as it
    /// was.
    pub fn add_order(&mut self, order: Order) -> (admitted: bool)
        requires
            old(self).wf(),
        ensures
            final(self).wf(),
            admitted == old(self).admits(order),
            final(self).symbol_view() == old(self).symbol_view(),
            admitted ==> final(self).next_seq() == old(self).next_seq() + 1,
            admitted && order.side == Side::Buy ==> placed(
                old(self).bids(),
                final(self).bids(),
                Side::Buy,
                order.price.unwrap(),
                stamped(order, old(self).next_seq()),
            ) && final(self).asks() == old(self).asks(),
            admitted && order.side == Side::Sell ==> placed(
                old(self).asks(),
                final(self).asks(),
                Side::Sell,
                order.price.unwrap(),
                stamped(order, old(self).next_seq()),
            ) && final(self).bids() == old(self).bids(),
            !admitted ==> *final(self) == *old(self),
    {
        let price = match order.price {
            Some(p) => p,
            None => {
                return false;
            },
        };
        if order.order_type != OrderType::Limit || order.filled_quantity >= order.quantity
            || self.next_sequence == u64::MAX || self.resting == usize::MAX {
            return false;
        }
        let mut o = order;
        o.sequence = self.next_sequence;
        o.status = OrderStatus::Pending;
        let ghost ns = (self.next_sequence + 1) as u64;
        proof {
            lemma_ladder_ok_raise(self.bids(), Side::Buy, self.next_sequence, ns);
            lemma_ladder_ok_raise(self.asks(), Side::Sell, self.next_sequence, ns);
        }
        match o.side {
            Side::Buy => place(&mut self.bids, Side::Buy, price, o),
            Side::Sell => place(&mut self.asks, Side::Sell, price, o),
        }
        self.next_sequence = self.next_sequence + 1;
        self.resting = self.resting + 1;
        true
    }

    /// Removes the resting order with identifier `id` and returns it marked
    /// cancelled, or returns `None` where no such order rests. Bids are
    /// searched before asks.
    pub fn cancel_order(&mut self, id: u128) -> (r: Option<Order>)
        requires
            old(self).wf(),
        ensures
            final(self).wf(),
            old(self).uncrossed() ==> final(self).uncrossed(),
            final(self).symbol_view() == old(self).symbol_view(),
            final(self).next_seq() == old(self).next_seq(),
            book_cancel_outcome(old(self).bids(), old(self).asks(), id, final(self).bids(), final(self).asks(), r),
            r.is_some() == (ladder_holds(old(self).bids(), id) || ladder_holds(old(self).asks(), id)),
    {
        let ghost b0 = self.bids();
        let ghost a0 = self.asks();
        let r = remove_by_id(&mut self.bids, id);
        match r {
            Some(o) => {
                proof {
                    let (i, j) = choose|i: int, j: int|
                        #[trigger] first_at(b0, id, i, j) && o == crate::ladder::cancelled(b0[i].orders[j])
                            && self.bids() == remove_at(b0, i, j);
                    lemma_remove_at_ok(b0, Side::Buy, self.next_sequence, i, j);
                    lemma_remove_at_not_better(b0, Side::Buy, self.next_sequence, i, j);
                    assert(level_holds(b0[i], id));
                }
                self.resting = self.resting - 1;
                Some(o)
            },
            None => {
                let r2 = remove_by_id(&mut self.asks, id);
                if r2.is_some() {
                    proof {
                        let o = r2.unwrap();
                        let (i, j) = choose|i: int, j: int|
                            #[trigger] first_at(a0, id, i, j) && o == crate::ladder::cancelled(a0[i].orders[j])
                                && self.asks() == remove_at(a0, i, j);
                        lemma_remove_at_ok(a0, Side::Sell, self.next_sequence, i, j);
                        lemma_remove_at_not_better(a0, Side::Sell, self.next_sequence, i, j);
                        assert(level_holds(a0[i], id));
                    }
                    self.resting = self.resting - 1;
                }
                r2
            },
        }
    }

    /// Executes a market order against the opposing side, best price first,
    /// each trade at the resting order's price, until the order is filled or
    /// that side is empty. The order never rests: it comes back `Filled` when
    /// nothing is left of it, else `Cancelled`.
    pub fn execute_market(&mut self, order: Order) -> (r: (Order, Vec<Trade>))
        requires
            old(self).wf(),
            order.filled_quantity <= order.quantity,
        ensures
            final(self).wf(),
            old(self).uncrossed() ==> final(self).uncrossed(),
            final(self).symbol_view() == old(self).symbol_view(),
            final(self).next_seq() == old(self).next_seq(),
            order.side == Side::Buy ==> (r.0, final(self).asks(), fills_of(r.1@)) == sweep_run(order, old(self).asks())
                && final(self).bids() == old(self).bids(),
            order.side == Side::Sell ==> (r.0, final(self).bids(), fills_of(r.1@)) == sweep_run(order, old(self).bids())
                && final(self).asks() == old(self).asks(),
            forall|k: int| 0 <= k < r.1@.len() ==> (#[trigger] r.1@[k]).symbol@ == old(self).symbol_view(),
    {
        let ghost ns = self.next_sequence;
        proof {
            lemma_sweep_not_better(order, self.asks(), Side::Sell, ns);
            lemma_sweep_not_better(order, self.bids(), Side::Buy, ns);
        }
        match order.side {
            Side::Buy => {
                let (o, trades, removed) = sweep(&mut self.asks, order, &self.symbol, Side::Sell, Ghost(ns));
                self.resting = self.resting - removed;
                (o, trades)
            },
            Side::Sell => {
                let (o, trades, removed) = sweep(&mut self.bids, order, &self.symbol, Side::Buy, Ghost(ns));
                self.resting = self.resting - removed;
                (o, trades)
            },
        }
    }

    /// Trades the front orders of the best levels while the book is crossed,
    /// at the price of whichever front order arrived first, and returns the
    /// trades in the order they were made.
    pub fn match_orders(&mut self) -> (trades: Vec<Trade>)
        requires
            old(self).wf(),
        ensures
            final(self).wf(),
            final(self).uncrossed(),
            final(self).symbol_view() == old(self).symbol_view(),
            final(self).next_seq() == old(self).next_seq(),
            final(self).bids() == match_run(old(self).bids(), old(self).asks()).0,
            final(self).asks() == match_run(old(self).bids(), old(self).asks()).1,
            fills_of(trades@) == match_run(old(self).bids(), old(self).asks()).2,
            forall|k: int| 0 <= k < trades@.len() ==> (#[trigger] trades@[k]).symbol@ == old(self).symbol_view(),
    {
        let ghost b0 = self.bids();
        let ghost a0 = self.asks();
        let mut trades: Vec<Trade> = Vec::new();
        assert(fills_of(trades@) =~= Seq::empty());
        loop
            invariant
                self.wf(),
                self.symbol@ == old(self).symbol@,
                self.next_sequence == old(self).next_sequence,
                match_run(b0, a0) == (
                    match_run(self.bids(), self.asks()).0,
                    match_run(self.bids(), self.asks()).1,
                    fills_of(trades@) + match_run(self.bids(), self.asks()).2,
                ),
                forall|k: int| 0 <= k < trades@.len() ==> (#[trigger] trades@[k]).symbol@ == old(self).symbol@,
            ensures
                self.wf(),
                !crossed(self.bids(), self.asks()),
                self.symbol@ == old(self).symbol@,
                self.next_sequence == old(self).next_sequence,
                match_run(b0, a0) == (self.bids(), self.asks(), fills_of(trades@)),
                forall|k: int| 0 <= k < trades@.len() ==> (#[trigger] trades@[k]).symbol@ == old(self).symbol@,
            decreases count(self.bids()) + count(self.asks()),
        {
            let ghost b = self.bids();
            let ghost a = self.asks();
            let nb = self.bids.len();
            let na = self.asks.len();
            if nb == 0 || na == 0 {
                assert(fills_of(trades@) + Seq::<crate::types::Fill>::empty() =~= fills_of(trades@));
                break;
            }
            let bp = self.bids[nb - 1].price;
            let ap = self.asks[na - 1].price;
            if bp < ap {
                assert(fills_of(trades@) + Seq::<crate::types::Fill>::empty() =~= fills_of(trades@));
                break;
            }
            assert(b.last() == self.bids@[nb - 1]@);
            assert(a.last() == self.asks@[na - 1]@);
            assert(crate::ladder::level_ok(b.last(), Side::Buy, self.next_sequence));
            assert(crate::ladder::level_ok(a.last(), Side::Sell, self.next_sequence));
            let bid = &self.bids[nb - 1].orders[0];
            let ask = &self.asks[na - 1].orders[0];
            assert(*bid == front(b));
            assert(*ask == front(a));
            let rb = bid.quantity - bid.filled_quantity;
            let ra = ask.quantity - ask.filled_quantity;
            let q = if rb <= ra { rb } else { ra };
            let price = if bid.sequence < ask.sequence { bp } else { ap };
            let trade = Trade::new(bid.id, ask.id, self.symbol.clone(), q, price);
            assert(can_step(b, a));
            assert(q == step_qty(b, a));
            assert(trade.fill() == step_fill(b, a));
            let bid_full = fill_front(&mut self.bids, q);
            let ask_full = fill_front(&mut self.asks, q);
            proof {
                lemma_take_front_count(b, q);
                lemma_take_front_count(a, q);
                lemma_take_front_ok(b, Side::Buy, self.next_sequence, q);
                lemma_take_front_ok(a, Side::Sell, self.next_sequence, q);
            }
            if bid_full {
                self.resting = self.resting - 1;
            }
            if ask_full {
                self.resting = self.resting - 1;
            }
            let ghost before = trades@;
            trades.push(trade);
            proof {
                assert(fills_of(trades@) =~= fills_of(before).push(step_fill(b, a)));
                let r = match_run(self.bids(), self.asks());
                assert(fills_of(before) + (seq![step_fill(b, a)] + r.2) =~= fills_of(trades@) + r.2);
            }
        }
        trades
    }
}

} // verus!
