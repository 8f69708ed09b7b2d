//! One side of a book: price levels held worst first and best last, each a
//! FIFO queue of resting orders, and the matching rules stated over them.
use std::collections::VecDeque;
use vstd::prelude::*;

use crate::types::{fills_of, remaining, Fill, Order, OrderStatus, OrderType, Side, Trade};

verus! {

/// The orders resting at one price, in arrival order.
pub struct PriceLevel {
    pub price: u64,
    pub orders: VecDeque<Order>,
}

/// What a price level holds.
pub ghost struct LevelView {
    pub price: u64,
    pub orders: Seq<Order>,
}

impl View for PriceLevel {
    type V = LevelView;

    open spec fn view(&self) -> LevelView {
        LevelView { price: self.price, orders: self.orders@ }
    }
}

pub open spec fn ladder_view(v: Seq<PriceLevel>) -> Seq<LevelView> {
    v.map_values(|l: PriceLevel| l@)
}

/// For resting orders of `side`, price `p` is strictly better than price `q`.
pub open spec fn better(side: Side, p: u64, q: u64) -> bool {
    match side {
        Side::Buy => p > q,
        Side::Sell => p < q,
    }
}

pub fn is_better(side: Side, p: u64, q: u64) -> (r: bool)
    ensures
        r == better(side, p, q),
{
    match side {
        Side::Buy => p > q,
        Side::Sell => p < q,
    }
}

/// An order that may rest on `side` at `price`.
pub open spec fn resting_ok(o: Order, side: Side, price: u64) -> bool {
    &&& o.side == side
    &&& o.order_type == OrderType::Limit
    &&& o.price == Some(price)
    &&& o.filled_quantity < o.quantity
    &&& (o.status == OrderStatus::Pending || o.status == OrderStatus::PartiallyFilled)
}

/// A non-empty level whose orders rest at its price, numbered below `next_seq`
/// and in increasing arrival order.
pub open spec fn level_ok(l: LevelView, side: Side, next_seq: u64) -> bool {
    &&& l.orders.len() > 0
    &&& forall|j: int|
        0 <= j < l.orders.len() ==> resting_ok(#[trigger] l.orders[j], side, l.price)
            && l.orders[j].sequence < next_seq
    &&& forall|j: int, k: int|
        0 <= j < k < l.orders.len() ==> (#[trigger] l.orders[j]).sequence < (#[trigger] l.orders[k]).sequence
}

/// Well-formed levels, each strictly better than the one before it.
pub open spec fn ladder_ok(s: Seq<LevelView>, side: Side, next_seq: u64) -> bool {
    &&& forall|i: int| 0 <= i < s.len() ==> level_ok(#[trigger] s[i], side, next_seq)
    &&& forall|i: int, k: int|
        0 <= i < k < s.len() ==> better(side, (#[trigger] s[k]).price, (#[trigger] s[i]).price)
}

/// Number of orders resting on a ladder.
pub open spec fn count(s: Seq<LevelView>) -> nat
    decreases s.len(),
{
    if s.len() == 0 {
        0
    } else {
        s.last().orders.len() + count(s.drop_last())
    }
}

pub open spec fn best_price(s: Seq<LevelView>) -> Option<u64> {
    if s.len() == 0 {
        None
    } else {
        Some(s.last().price)
    }
}

/// The order at the head of the best level.
pub open spec fn front(s: Seq<LevelView>) -> Order {
    s.last().orders[0]
}

/// `o` after `q` more of it has been filled.
pub open spec fn fill_order(o: Order, q: u64) -> Order {
    Order {
        filled_quantity: (o.filled_quantity + q) as u64,
        status: if o.filled_quantity + q >= o.quantity {
            OrderStatus::Filled
        } else {
            OrderStatus::PartiallyFilled
        },
        ..o
    }
}

/// The ladder after `q` is filled from its front order: a filled order leaves
/// its level, and an emptied level leaves the ladder.
pub open spec fn take_front(s: Seq<LevelView>, q: u64) -> Seq<LevelView> {
    let l = s.last();
    if q >= remaining(l.orders[0]) {
        if l.orders.len() <= 1 {
            s.drop_last()
        } else {
            s.drop_last().push(LevelView { price: l.price, orders: l.orders.drop_first() })
        }
    } else {
        s.drop_last().push(LevelView { price: l.price, orders: l.orders.update(0, fill_order(l.orders[0], q)) })
    }
}

/// The best bid reaches the best ask.
pub open spec fn crossed(bids: Seq<LevelView>, asks: Seq<LevelView>) -> bool {
    bids.len() > 0 && asks.len() > 0 && bids.last().price >= asks.last().price
}

pub open spec fn can_step(bids: Seq<LevelView>, asks: Seq<LevelView>) -> bool {
    &&& crossed(bids, asks)
    &&& bids.last().orders.len() > 0
    &&& asks.last().orders.len() > 0
    &&& remaining(front(bids)) > 0
    &&& remaining(front(asks)) > 0
}

/// Quantity of the next trade: the smaller of the two front remainders.
pub open spec fn step_qty(bids: Seq<LevelView>, asks: Seq<LevelView>) -> u64 {
    let rb = remaining(front(bids));
    let ra = remaining(front(asks));
    (if rb <= ra { rb } else { ra }) as u64
}

/// Price of the next trade: that of the front order that arrived first, the
/// resting side.
pub open spec fn step_price(bids: Seq<LevelView>, asks: Seq<LevelView>) -> u64 {
    if front(bids).sequence < front(asks).sequence {
        bids.last().price
    } else {
        asks.last().price
    }
}

pub open spec fn step_fill(bids: Seq<LevelView>, asks: Seq<LevelView>) -> Fill {
    Fill {
        buy_order_id: front(bids).id,
        sell_order_id: front(asks).id,
        quantity: step_qty(bids, asks),
        price: step_price(bids, asks),
    }
}

/// Continuous matching: trade the two front orders while the book is crossed.
/// Gives the bids and asks left and the fills in the order they were made.
pub open spec fn match_run(bids: Seq<LevelView>, asks: Seq<LevelView>) -> (Seq<LevelView>, Seq<
    LevelView>, Seq<Fill>)
    decreases count(bids) + count(asks),
    via match_run_decreases
{
    if can_step(bids, asks) {
        let q = step_qty(bids, asks);
        let r = match_run(take_front(bids, q), take_front(asks, q));
        (r.0, r.1, seq![step_fill(bids, asks)] + r.2)
    } else {
        (bids, asks, Seq::empty())
    }
}

#[via_fn]
proof fn match_run_decreases(bids: Seq<LevelView>, asks: Seq<LevelView>) {
    if can_step(bids, asks) {
        let q = step_qty(bids, asks);
        lemma_take_front_count(bids, q);
        lemma_take_front_count(asks, q);
    }
}

pub proof fn lemma_take_front_count(s: Seq<LevelView>, q: u64)
    requires
        s.len() > 0,
        s.last().orders.len() > 0,
    ensures
        count(take_front(s, q)) + (if q >= remaining(front(s)) { 1int } else { 0int }) == count(s),
{
    let t = take_front(s, q);
    if t.len() > 0 && t.len() == s.len() {
        assert(t.drop_last() =~= s.drop_last());
    }
}

/// Taking a fill of at most the front's remainder keeps a ladder well formed.
pub proof fn lemma_take_front_ok(s: Seq<LevelView>, side: Side, next_seq: u64, q: u64)
    requires
        ladder_ok(s, side, next_seq),
        s.len() > 0,
        0 < q <= remaining(front(s)),
    ensures
        ladder_ok(take_front(s, q), side, next_seq),
{
    let t = take_front(s, q);
    let l = s.last();
    assert(level_ok(l, side, next_seq));
    if t.len() == s.len() {
        let nl = t.last();
        assert forall|j: int| 0 <= j < nl.orders.len() implies resting_ok(#[trigger] nl.orders[j], side, nl.price)
            && nl.orders[j].sequence < next_seq by {
            if q >= remaining(l.orders[0]) {
                assert(nl.orders[j] == l.orders[j + 1]);
            } else if j > 0 {
                assert(nl.orders[j] == l.orders[j]);
            }
        }
        assert forall|j: int, k: int| 0 <= j < k < nl.orders.len() implies (#[trigger] nl.orders[j]).sequence
            < (#[trigger] nl.orders[k]).sequence by {
            if q >= remaining(l.orders[0]) {
                assert(nl.orders[j] == l.orders[j + 1]);
                assert(nl.orders[k] == l.orders[k + 1]);
            } else {
                assert(nl.orders[k] == l.orders[k]);
                if j > 0 {
                    assert(nl.orders[j] == l.orders[j]);
                }
            }
        }
        assert(level_ok(nl, side, next_seq));
        assert forall|i: int| 0 <= i < t.len() implies level_ok(#[trigger] t[i], side, next_seq) by {
            if i < t.len() - 1 {
                assert(t[i] == s[i]);
            }
        }
        assert forall|i: int, k: int| 0 <= i < k < t.len() implies better(side, (#[trigger] t[k]).price, (
        #[trigger] t[i]).price) by {
            assert(t[i].price == s[i].price);
            assert(t[k].price == s[k].price);
        }
    } else {
        assert forall|i: int| 0 <= i < t.len() implies level_ok(#[trigger] t[i], side, next_seq) by {
            assert(t[i] == s[i]);
        }
        assert forall|i: int, k: int| 0 <= i < k < t.len() implies better(side, (#[trigger] t[k]).price, (
        #[trigger] t[i]).price) by {
            assert(t[i] == s[i]);
            assert(t[k] == s[k]);
        }
    }
}

/// Fills `q` from the front order of the best level, as `take_front` says.
/// Returns whether the front order was filled completely.
pub fn fill_front(levels: &mut Vec<PriceLevel>, q: u64) -> (full: bool)
    requires
        old(levels)@.len() > 0,
        old(levels)@.last().orders@.len() > 0,
        q <= remaining(front(ladder_view(old(levels)@))),
        front(ladder_view(old(levels)@)).filled_quantity <= front(ladder_view(old(levels)@)).quantity,
    ensures
        ladder_view(final(levels)@) == take_front(ladder_view(old(levels)@), q),
        full == (q >= remaining(front(ladder_view(old(levels)@)))),
{
    let ghost s = ladder_view(levels@);
    let mut lv = levels.pop().unwrap();
    assert(lv@ == s.last());
    let mut o = lv.orders.pop_front().unwrap();
    let full = q >= o.quantity - o.filled_quantity;
    if !full {
        o.filled_quantity = o.filled_quantity + q;
        o.status = OrderStatus::PartiallyFilled;
        lv.orders.push_front(o);
        assert(lv.orders@ =~= s.last().orders.update(0, fill_order(s.last().orders[0], q)));
    } else {
        assert(lv.orders@ =~= s.last().orders.drop_first());
    }
    if lv.orders.len() > 0 {
        levels.push(lv);
    }
    assert(ladder_view(levels@) =~= take_front(s, q));
    full
}

/// `after` is `before` with `o` appended to the level at `price`, or, where no
/// level has that price, with a new level holding `o` alone, placed between
/// the worse and the better levels.
pub open spec fn placed(before: Seq<LevelView>, after: Seq<LevelView>, side: Side, price: u64, o: Order) -> bool {
    ||| exists|i: int|
        0 <= i < before.len() && before[i].price == price && after == before.update(
            i,
            LevelView { price, orders: before[i].orders.push(o) },
        )
    ||| {
        &&& forall|i: int| 0 <= i < before.len() ==> (#[trigger] before[i]).price != price
        &&& exists|k: int|
            0 <= k <= before.len() && (forall|i: int| 0 <= i < k ==> better(side, price, (#[trigger] before[i]).price))
                && (forall|i: int| k <= i < before.len() ==> better(side, (#[trigger] before[i]).price, price))
                && after == before.insert(k, LevelView { price, orders: seq![o] })
    }
}

/// Rests `o` at `price` on the ladder, behind the orders already at that price.
pub fn place(levels: &mut Vec<PriceLevel>, side: Side, price: u64, o: Order)
    requires
        ladder_ok(ladder_view(old(levels)@), side, o.sequence),
        resting_ok(o, side, price),
        o.sequence < u64::MAX,
    ensures
        placed(ladder_view(old(levels)@), ladder_view(final(levels)@), side, price, o),
        ladder_ok(ladder_view(final(levels)@), side, (o.sequence + 1) as u64),
        count(ladder_view(final(levels)@)) == count(ladder_view(old(levels)@)) + 1,
{
    let ghost s = ladder_view(levels@);
    let ghost ns = (o.sequence + 1) as u64;
    let mut i: usize = 0;
    while i < levels.len() && is_better(side, price, levels[i].price)
        invariant
            i <= levels@.len(),
            s == ladder_view(levels@),
            forall|k: int| 0 <= k < i ==> better(side, price, (#[trigger] s[k]).price),
        decreases levels@.len() - i,
    {
        assert(s[i as int] == levels@[i as int]@);
        i = i + 1;
    }
    proof {
        if i < levels@.len() {
            assert(s[i as int] == levels@[i as int]@);
        }
    }
    if i < levels.len() && levels[i].price == price {
        let mut lv = levels.remove(i);
        lv.orders.push_back(o);
        levels.insert(i, lv);
        let ghost t = ladder_view(levels@);
        assert(t =~= s.update(i as int, LevelView { price, orders: s[i as int].orders.push(o) }));
        proof {
            lemma_ladder_ok_raise(s, side, o.sequence, ns);
            let nl = t[i as int];
            assert forall|j: int| 0 <= j < nl.orders.len() implies resting_ok(#[trigger] nl.orders[j], side, nl.price)
                && nl.orders[j].sequence < ns by {
                if j < nl.orders.len() - 1 {
                    assert(nl.orders[j] == s[i as int].orders[j]);
                }
            }
            assert forall|j: int, k: int| 0 <= j < k < nl.orders.len() implies (#[trigger] nl.orders[j]).sequence
                < (#[trigger] nl.orders[k]).sequence by {
                assert(nl.orders[j] == s[i as int].orders[j]);
                if k < nl.orders.len() - 1 {
                    assert(nl.orders[k] == s[i as int].orders[k]);
                }
            }
            assert(level_ok(nl, side, ns));
            assert forall|m: int| 0 <= m < t.len() implies level_ok(#[trigger] t[m], side, ns) by {
                if m != i {
                    assert(t[m] == s[m]);
                }
            }
            assert forall|m: int, k: int| 0 <= m < k < t.len() implies better(side, (#[trigger] t[k]).price, (
            #[trigger] t[m]).price) by {
                assert(t[m].price == s[m].price);
                assert(t[k].price == s[k].price);
            }
            lemma_count_update(s, i as int, LevelView { price, orders: s[i as int].orders.push(o) });
        }
    } else {
        let mut q: VecDeque<Order> = VecDeque::new();
        q.push_back(o);
        levels.insert(i, PriceLevel { price, orders: q });
        let ghost nl = LevelView { price, orders: seq![o] };
        let ghost t = ladder_view(levels@);
        assert(q@ =~= seq![o]);
        assert(t =~= s.insert(i as int, nl));
        proof {
            lemma_ladder_ok_raise(s, side, o.sequence, ns);
            assert forall|m: int| i <= m < s.len() implies better(side, (#[trigger] s[m]).price, price) by {
                assert(better(side, s[m].price, s[i as int].price) || m == i);
            }
            assert forall|m: int| 0 <= m < s.len() implies (#[trigger] s[m]).price != price by {
                if m < i {
                    assert(better(side, price, s[m].price));
                } else {
                    assert(better(side, s[m].price, price));
                }
            }
            assert(nl.orders[0] == o);
            assert(level_ok(nl, side, ns));
            assert forall|m: int| 0 <= m < t.len() implies level_ok(#[trigger] t[m], side, ns) by {
                if m < i {
                    assert(t[m] == s[m]);
                } else if m > i {
                    assert(t[m] == s[m - 1]);
                }
            }
            assert forall|m: int, k: int| 0 <= m < k < t.len() implies better(side, (#[trigger] t[k]).price, (
            #[trigger] t[m]).price) by {
                if k < i {
                    assert(t[m] == s[m]);
                    assert(t[k] == s[k]);
                } else if k == i {
                    assert(t[m] == s[m]);
                } else if m < i {
                    assert(t[m] == s[m]);
                    assert(t[k] == s[k - 1]);
                } else if m == i {
                    assert(t[k] == s[k - 1]);
                } else {
                    assert(t[m] == s[m - 1]);
                    assert(t[k] == s[k - 1]);
                }
            }
            lemma_count_insert(s, i as int, nl);
        }
    }
}

/// A ladder that is well formed below one bound is so below a larger one.
pub proof fn lemma_ladder_ok_raise(s: Seq<LevelView>, side: Side, a: u64, b: u64)
    requires
        ladder_ok(s, side, a),
        a <= b,
    ensures
        ladder_ok(s, side, b),
{
    assert forall|i: int| 0 <= i < s.len() implies level_ok(#[trigger] s[i], side, b) by {
        assert(level_ok(s[i], side, a));
    }
}

pub proof fn lemma_count_update(s: Seq<LevelView>, i: int, l: LevelView)
    requires
        0 <= i < s.len(),
    ensures
        count(s.update(i, l)) == count(s) - s[i].orders.len() + l.orders.len(),
    decreases s.len(),
{
    let t = s.update(i, l);
    if i == s.len() - 1 {
        assert(t.drop_last() =~= s.drop_last());
    } else {
        assert(t.drop_last() =~= s.drop_last().update(i, l));
        lemma_count_update(s.drop_last(), i, l);
    }
}

pub proof fn lemma_count_insert(s: Seq<LevelView>, i: int, l: LevelView)
    requires
        0 <= i <= s.len(),
    ensures
        count(s.insert(i, l)) == count(s) + l.orders.len(),
    decreases s.len(),
{
    let t = s.insert(i, l);
    if i == s.len() {
        assert(t.drop_last() =~= s);
    } else {
        assert(t.drop_last() =~= s.drop_last().insert(i, l));
        lemma_count_insert(s.drop_last(), i, l);
    }
}

pub proof fn lemma_count_remove(s: Seq<LevelView>, i: int)
    requires
        0 <= i < s.len(),
    ensures
        count(s.remove(i)) == count(s) - s[i].orders.len(),
    decreases s.len(),
{
    let t = s.remove(i);
    if i == s.len() - 1 {
        assert(t =~= s.drop_last());
    } else {
        assert(t.drop_last() =~= s.drop_last().remove(i));
        lemma_count_remove(s.drop_last(), i);
    }
}

/// Some order on the level has identifier `id`.
pub open spec fn level_holds(l: LevelView, id: u128) -> bool {
    exists|j: int| 0 <= j < l.orders.len() && (#[trigger] l.orders[j]).id == id
}

/// Some order on the ladder has identifier `id`.
pub open spec fn ladder_holds(s: Seq<LevelView>, id: u128) -> bool {
    exists|i: int| 0 <= i < s.len() && level_holds(#[trigger] s[i], id)
}

/// At most one order on the ladder has identifier `id`.
pub open spec fn held_at_most_once(s: Seq<LevelView>, id: u128) -> bool {
    forall|i1: int, j1: int, i2: int, j2: int|
        0 <= i1 < s.len() && 0 <= j1 < s[i1].orders.len() && 0 <= i2 < s.len() && 0 <= j2 < s[i2].orders.len()
            && (#[trigger] s[i1].orders[j1]).id == id && (#[trigger] s[i2].orders[j2]).id == id ==> i1 == i2 && j1
            == j2
}

/// Position `(i, j)` holds the first order with identifier `id`, scanning
/// levels from index 0 and each level from its head.
pub open spec fn first_at(s: Seq<LevelView>, id: u128, i: int, j: int) -> bool {
    &&& 0 <= i < s.len()
    &&& 0 <= j < s[i].orders.len()
    &&& s[i].orders[j].id == id
    &&& forall|i2: int| 0 <= i2 < i ==> !level_holds(#[trigger] s[i2], id)
    &&& forall|j2: int| 0 <= j2 < j ==> (#[trigger] s[i].orders[j2]).id != id
}

/// The ladder without the order at `(i, j)`, and without its level if that
/// empties it.
pub open spec fn remove_at(s: Seq<LevelView>, i: int, j: int) -> Seq<LevelView> {
    if s[i].orders.len() <= 1 {
        s.remove(i)
    } else {
        s.update(i, LevelView { price: s[i].price, orders: s[i].orders.remove(j) })
    }
}

pub open spec fn cancelled(o: Order) -> Order {
    Order { status: OrderStatus::Cancelled, ..o }
}

/// The outcome of cancelling `id` on ladder `before`: `after` and `r`.
pub open spec fn cancel_outcome(before: Seq<LevelView>, id: u128, after: Seq<LevelView>, r: Option<Order>) -> bool {
    match r {
        None => !ladder_holds(before, id) && after == before,
        Some(o) => exists|i: int, j: int|
            #[trigger] first_at(before, id, i, j) && o == cancelled(before[i].orders[j]) && after == remove_at(before, i, j),
    }
}

/// Removing one order keeps a ladder well formed.
pub proof fn lemma_remove_at_ok(s: Seq<LevelView>, side: Side, next_seq: u64, i: int, j: int)
    requires
        ladder_ok(s, side, next_seq),
        0 <= i < s.len(),
        0 <= j < s[i].orders.len(),
    ensures
        ladder_ok(remove_at(s, i, j), side, next_seq),
        count(remove_at(s, i, j)) + 1 == count(s),
{
    let t = remove_at(s, i, j);
    assert(level_ok(s[i], side, next_seq));
    if s[i].orders.len() <= 1 {
        lemma_count_remove(s, i);
        assert forall|m: int| 0 <= m < t.len() implies level_ok(#[trigger] t[m], side, next_seq) by {
            if m < i {
                assert(t[m] == s[m]);
            } else {
                assert(t[m] == s[m + 1]);
            }
        }
        assert forall|m: int, k: int| 0 <= m < k < t.len() implies better(side, (#[trigger] t[k]).price, (
        #[trigger] t[m]).price) by {
            let m2 = if m < i { m } else { m + 1 };
            let k2 = if k < i { k } else { k + 1 };
            assert(t[m] == s[m2]);
            assert(t[k] == s[k2]);
        }
    } else {
        let nl = LevelView { price: s[i].price, orders: s[i].orders.remove(j) };
        lemma_count_update(s, i, nl);
        assert forall|a: int| 0 <= a < nl.orders.len() implies resting_ok(#[trigger] nl.orders[a], side, nl.price)
            && nl.orders[a].sequence < next_seq by {
            if a < j {
                assert(nl.orders[a] == s[i].orders[a]);
            } else {
                assert(nl.orders[a] == s[i].orders[a + 1]);
            }
        }
        assert forall|a: int, b: int| 0 <= a < b < nl.orders.len() implies (#[trigger] nl.orders[a]).sequence
            < (#[trigger] nl.orders[b]).sequence by {
            let a2 = if a < j { a } else { a + 1 };
            let b2 = if b < j { b } else { b + 1 };
            assert(nl.orders[a] == s[i].orders[a2]);
            assert(nl.orders[b] == s[i].orders[b2]);
        }
        assert(level_ok(nl, side, next_seq));
        assert forall|m: int| 0 <= m < t.len() implies level_ok(#[trigger] t[m], side, next_seq) by {
            if m != i {
                assert(t[m] == s[m]);
            }
        }
        assert forall|m: int, k: int| 0 <= m < k < t.len() implies better(side, (#[trigger] t[k]).price, (
        #[trigger] t[m]).price) by {
            assert(t[m].price == s[m].price);
            assert(t[k].price == s[k].price);
        }
    }
}

/// Removes the first order with identifier `id`, if any, and returns it
/// marked cancelled.
pub fn remove_by_id(levels: &mut Vec<PriceLevel>, id: u128) -> (r: Option<Order>)
    ensures
        cancel_outcome(ladder_view(old(levels)@), id, ladder_view(final(levels)@), r),
{
    let ghost s = ladder_view(levels@);
    let mut i: usize = 0;
    while i < levels.len()
        invariant
            i <= levels@.len(),
            s == ladder_view(levels@),
            s == ladder_view(old(levels)@),
            forall|i2: int| 0 <= i2 < i ==> !level_holds(#[trigger] s[i2], id),
        decreases levels@.len() - i,
    {
        assert(s[i as int] == levels@[i as int]@);
        let n = levels[i].orders.len();
        let mut j: usize = 0;
        while j < n
            invariant
                i < levels@.len(),
                n == s[i as int].orders.len(),
                s == ladder_view(levels@),
                s == ladder_view(old(levels)@),
                j <= n,
                forall|i2: int| 0 <= i2 < i ==> !level_holds(#[trigger] s[i2], id),
                forall|j2: int| 0 <= j2 < j ==> (#[trigger] s[i as int].orders[j2]).id != id,
            decreases n - j,
        {
            assert(s[i as int] == levels@[i as int]@);
            if levels[i].orders[j].id == id {
                let mut lv = levels.remove(i);
                let mut o = lv.orders.remove(j).unwrap();
                o.status = OrderStatus::Cancelled;
                if lv.orders.len() > 0 {
                    levels.insert(i, lv);
                    assert(ladder_view(levels@) =~= s.update(
                        i as int,
                        LevelView { price: s[i as int].price, orders: s[i as int].orders.remove(j as int) },
                    ));
                } else {
                    assert(ladder_view(levels@) =~= s.remove(i as int));
                }
                assert(first_at(s, id, i as int, j as int));
                assert(o == cancelled(s[i as int].orders[j as int]));
                assert(ladder_view(levels@) == remove_at(s, i as int, j as int));
                let r = Some(o);
                assert(cancel_outcome(s, id, ladder_view(levels@), r));
                return r;
            }
            j = j + 1;
        }
        i = i + 1;
    }
    None
}

/// Each step fills the two front orders by the same positive quantity, no
/// more than either has left: their filled quantities together grow by twice
/// the trade's quantity, and neither passes its order's quantity.
pub proof fn lemma_step_conserves(bids: Seq<LevelView>, asks: Seq<LevelView>)
    requires
        can_step(bids, asks),
    ensures
        step_fill(bids, asks).quantity == step_qty(bids, asks),
        0 < step_qty(bids, asks),
        step_qty(bids, asks) <= remaining(front(bids)),
        step_qty(bids, asks) <= remaining(front(asks)),
        fill_order(front(bids), step_qty(bids, asks)).filled_quantity + fill_order(
            front(asks),
            step_qty(bids, asks),
        ).filled_quantity == front(bids).filled_quantity + front(asks).filled_quantity + 2 * step_qty(
            bids,
            asks,
        ),
        fill_order(front(bids), step_qty(bids, asks)).filled_quantity <= front(bids).quantity,
        fill_order(front(asks), step_qty(bids, asks)).filled_quantity <= front(asks).quantity,
        step_qty(bids, asks) < remaining(front(bids)) ==> front(take_front(bids, step_qty(bids, asks)))
            == fill_order(front(bids), step_qty(bids, asks)),
        step_qty(bids, asks) < remaining(front(asks)) ==> front(take_front(asks, step_qty(bids, asks)))
            == fill_order(front(asks), step_qty(bids, asks)),
{
}

/// Within a well-formed ladder, the head of the best level arrived before
/// every other order at that price: a match step, which fills the heads, fills
/// the earliest order at each price first.
pub proof fn lemma_front_is_earliest(s: Seq<LevelView>, side: Side, next_seq: u64)
    requires
        ladder_ok(s, side, next_seq),
        s.len() > 0,
    ensures
        forall|j: int| 0 < j < s.last().orders.len() ==> front(s).sequence < (#[trigger] s.last().orders[j]).sequence,
{
    assert(level_ok(s[s.len() - 1], side, next_seq));
}

/// Sweep of a market order `o` against the opposing ladder `s`: trade with the
/// front order at that order's price until `o` is filled or `s` is empty. The
/// order leaves as `Filled` when nothing is left of it, else `Cancelled`.
/// Gives the order, the ladder left, and the fills in order.
pub open spec fn sweep_run(o: Order, s: Seq<LevelView>) -> (Order, Seq<LevelView>, Seq<Fill>)
    decreases count(s) + (if remaining(o) > 0 { 1int } else { 0int }),
    via sweep_run_decreases
{
    if s.len() > 0 && s.last().orders.len() > 0 && remaining(front(s)) > 0 && remaining(o) > 0 {
        let rf = remaining(front(s));
        let q = (if remaining(o) <= rf { remaining(o) } else { rf }) as u64;
        let f = if o.side == Side::Buy {
            Fill { buy_order_id: o.id, sell_order_id: front(s).id, quantity: q, price: s.last().price }
        } else {
            Fill { buy_order_id: front(s).id, sell_order_id: o.id, quantity: q, price: s.last().price }
        };
        let r = sweep_run(fill_order(o, q), take_front(s, q));
        (r.0, r.1, seq![f] + r.2)
    } else {
        (
            Order {
                status: if remaining(o) == 0 {
                    OrderStatus::Filled
                } else {
                    OrderStatus::Cancelled
                },
                ..o
            },
            s,
            Seq::empty(),
        )
    }
}

#[via_fn]
proof fn sweep_run_decreases(o: Order, s: Seq<LevelView>) {
    if s.len() > 0 && s.last().orders.len() > 0 && remaining(front(s)) > 0 && remaining(o) > 0 {
        let rf = remaining(front(s));
        let q = (if remaining(o) <= rf { remaining(o) } else { rf }) as u64;
        lemma_take_front_count(s, q);
    }
}

/// Sweeps the market order `o` against `levels`, as `sweep_run` says. Also
/// returns how many resting orders were filled and left the ladder.
pub(crate) fn sweep(levels: &mut Vec<PriceLevel>, o: Order, symbol: &String, side: Side, next_seq: Ghost<u64>) -> (r: (
    Order,
    Vec<Trade>,
    usize,
))
    requires
        ladder_ok(ladder_view(old(levels)@), side, next_seq@),
        o.filled_quantity <= o.quantity,
        o.side != side,
        count(ladder_view(old(levels)@)) <= usize::MAX,
    ensures
        ladder_ok(ladder_view(final(levels)@), side, next_seq@),
        (r.0, ladder_view(final(levels)@), fills_of(r.1@)) == sweep_run(o, ladder_view(old(levels)@)),
        count(ladder_view(final(levels)@)) + r.2 == count(ladder_view(old(levels)@)),
        forall|k: int| 0 <= k < r.1@.len() ==> (#[trigger] r.1@[k]).symbol@ == symbol@,
{
    let ghost s0 = ladder_view(levels@);
    let ghost o0 = o;
    let mut o = o;
    let mut trades: Vec<Trade> = Vec::new();
    let mut removed: usize = 0;
    assert(fills_of(trades@) =~= Seq::empty());
    loop
        invariant
            ladder_ok(ladder_view(levels@), side, next_seq@),
            o.filled_quantity <= o.quantity,
            o.side == o0.side,
            o.side != side,
            count(ladder_view(levels@)) + removed == count(s0),
            sweep_run(o0, s0) == (
                sweep_run(o, ladder_view(levels@)).0,
                sweep_run(o, ladder_view(levels@)).1,
                fills_of(trades@) + sweep_run(o, ladder_view(levels@)).2,
            ),
            forall|k: int| 0 <= k < trades@.len() ==> (#[trigger] trades@[k]).symbol@ == symbol@,
            count(s0) <= usize::MAX,
        ensures
            ladder_ok(ladder_view(levels@), side, next_seq@),
            count(ladder_view(levels@)) + removed == count(s0),
            sweep_run(o0, s0) == (o, ladder_view(levels@), fills_of(trades@)),
            forall|k: int| 0 <= k < trades@.len() ==> (#[trigger] trades@[k]).symbol@ == symbol@,
        decreases count(ladder_view(levels@)) + (if remaining(o) > 0 { 1int } else { 0int }),
    {
        let ghost s = ladder_view(levels@);
        let ghost ob = o;
        let n = levels.len();
        let left = o.quantity - o.filled_quantity;
        if n == 0 || left == 0 {
            o.status = if left == 0 { OrderStatus::Filled } else { OrderStatus::Cancelled };
            assert(sweep_run(ob, s).0 == o);
            assert(sweep_run(o, s) == (o, s, Seq::<Fill>::empty()));
            assert(fills_of(trades@) + Seq::<Fill>::empty() =~= fills_of(trades@));
            break;
        }
        assert(s.last() == levels@[n - 1]@);
        assert(level_ok(s.last(), side, next_seq@));
        let head = &levels[n - 1].orders[0];
        assert(*head == front(s));
        let rf = head.quantity - head.filled_quantity;
        let q = if left <= rf { left } else { rf };
        let price = levels[n - 1].price;
        let trade = match o.side {
            Side::Buy => Trade::new(o.id, head.id, symbol.clone(), q, price),
            Side::Sell => Trade::new(head.id, o.id, symbol.clone(), q, price),
        };
        let full = fill_front(levels, q);
        proof {
            lemma_take_front_count(s, q);
            lemma_take_front_ok(s, side, next_seq@, q);
        }
        if full {
            removed = removed + 1;
        }
        o.filled_quantity = o.filled_quantity + q;
        o.status = if o.filled_quantity >= o.quantity { OrderStatus::Filled } else { OrderStatus::PartiallyFilled };
        assert(o == fill_order(ob, q));
        let ghost before = trades@;
        trades.push(trade);
        proof {
            let f = if ob.side == Side::Buy {
                Fill { buy_order_id: ob.id, sell_order_id: front(s).id, quantity: q, price: s.last().price }
            } else {
                Fill { buy_order_id: front(s).id, sell_order_id: ob.id, quantity: q, price: s.last().price }
            };
            assert(trade.fill() == f);
            assert(fills_of(trades@) =~= fills_of(before).push(f));
            let r = sweep_run(o, ladder_view(levels@));
            assert(fills_of(before) + (seq![f] + r.2) =~= fills_of(trades@) + r.2);
        }
    }
    (o, trades, removed)
}

/// A sweep leaves the ladder's best price no better than it was.
pub proof fn lemma_sweep_not_better(o: Order, s: Seq<LevelView>, side: Side, next_seq: u64)
    requires
        ladder_ok(s, side, next_seq),
    ensures
        ladder_ok(sweep_run(o, s).1, side, next_seq),
        sweep_run(o, s).1.len() > 0 ==> s.len() > 0 && !better(side, sweep_run(o, s).1.last().price, s.last().price),
    decreases count(s) + (if remaining(o) > 0 { 1int } else { 0int }),
{
    if s.len() > 0 && s.last().orders.len() > 0 && remaining(front(s)) > 0 && remaining(o) > 0 {
        let rf = remaining(front(s));
        let q = (if remaining(o) <= rf { remaining(o) } else { rf }) as u64;
        let t = take_front(s, q);
        lemma_take_front_count(s, q);
        lemma_take_front_ok(s, side, next_seq, q);
        lemma_sweep_not_better(fill_order(o, q), t, side, next_seq);
        if t.len() > 0 {
            if t.len() < s.len() {
                assert(t.last() == s[s.len() - 2]);
                assert(better(side, s[s.len() - 1].price, s[s.len() - 2].price));
            }
        }
    }
}

/// Removing one order leaves the ladder's best price no better than it was.
pub proof fn lemma_remove_at_not_better(s: Seq<LevelView>, side: Side, next_seq: u64, i: int, j: int)
    requires
        ladder_ok(s, side, next_seq),
        0 <= i < s.len(),
        0 <= j < s[i].orders.len(),
    ensures
        remove_at(s, i, j).len() > 0 ==> !better(side, remove_at(s, i, j).last().price, s.last().price),
{
    let t = remove_at(s, i, j);
    if t.len() > 0 {
        if s[i].orders.len() <= 1 {
            if i == s.len() - 1 {
                assert(t.last() == s[s.len() - 2]);
                assert(better(side, s[s.len() - 1].price, s[s.len() - 2].price));
            } else {
                assert(t.last() == s.last());
            }
        } else {
            assert(t.last().price == s.last().price);
        }
    }
}

} // verus!
