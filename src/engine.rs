//! The dispatcher: books keyed by symbol, the running state, execution
//! counters and latency samples. Commands are applied one at a time by a single
//! writer; queues, tasks and channels belong to the caller.
use vstd::prelude::*;

use crate::ladder::{best_price, count, crossed, ladder_holds, match_run, placed, sweep_run, LevelView};
use crate::matching::{book_cancel_outcome, lemma_cancel_twice, rests_at_most_once, stamped, OrderBook};
use crate::types::{fills_of, ExecutionMetrics, Order, OrderType, Side, Trade};

verus! {

/// Suggested capacity of the command queue that feeds the engine.
pub const COMMAND_QUEUE_CAPACITY: usize = 10000;

/// Number of most recent latency samples kept.
pub const LATENCY_SAMPLE_CAPACITY: usize = 65536;

/// Why a command was refused.
#[derive(Debug)]
pub enum EngineError {
    InvalidOrder(String),
    OrderNotFound(u128),
    SymbolNotFound(String),
    /// The engine is not running.
    EngineStopped,
    /// The command queue is at capacity.
    QueueFull,
}

/// A command for the engine's single writer.
#[derive(Debug)]
pub enum EngineCommand {
    NewOrder(Order),
    CancelOrder(u128, String),
    Shutdown,
}

/// An order that passes validation: quantity left to fill, a price when it
/// is a limit order, and a type that the engine executes.
pub open spec fn valid_order(o: Order) -> bool {
    &&& o.filled_quantity < o.quantity
    &&& (o.order_type == OrderType::Limit ==> o.price.is_some())
    &&& (o.order_type == OrderType::Limit || o.order_type == OrderType::Market)
}

/// Notional value `n` after adding quantity times price of each trade,
/// saturating at the largest `u128`.
pub open spec fn notional_after(n: u128, ts: Seq<Trade>) -> u128
    decreases ts.len(),
{
    if ts.len() == 0 {
        n
    } else {
        notional_after(n, ts.drop_last()).saturating_add((ts.last().quantity * ts.last().price) as u128)
    }
}

/// Counters after an accepted order that produced `trades`.
pub open spec fn after_accepted(m: ExecutionMetrics, trades: Seq<Trade>) -> ExecutionMetrics {
    ExecutionMetrics {
        total_orders: m.total_orders.saturating_add(1),
        filled_orders: if trades.len() > 0 {
            m.filled_orders.saturating_add(1)
        } else {
            m.filled_orders
        },
        total_trades: if trades.len() <= u64::MAX {
            m.total_trades.saturating_add(trades.len() as u64)
        } else {
            u64::MAX
        },
        total_notional: notional_after(m.total_notional, trades),
        ..m
    }
}

/// Counters after a refused order.
pub open spec fn after_rejected(m: ExecutionMetrics) -> ExecutionMetrics {
    ExecutionMetrics { rejected_orders: m.rejected_orders.saturating_add(1), ..m }
}

/// Book `after` and `trades` come from resting `o` on a book with ladders
/// `(b0, a0)` and next arrival number `seq`, then matching.
pub open spec fn limit_outcome(
    b0: Seq<LevelView>,
    a0: Seq<LevelView>,
    seq: u64,
    o: Order,
    after: OrderBook,
    trades: Seq<Trade>,
) -> bool {
    exists|b1: Seq<LevelView>, a1: Seq<LevelView>|
        {
            &&& if o.side == Side::Buy {
                placed(b0, b1, Side::Buy, o.price.unwrap(), stamped(o, seq)) && a1 == a0
            } else {
                placed(a0, a1, Side::Sell, o.price.unwrap(), stamped(o, seq)) && b1 == b0
            }
            &&& #[trigger] match_run(b1, a1) == (after.bids(), after.asks(), fills_of(trades))
        }
}

/// Book `after`, order `r` and `trades` come from sweeping the market order
/// `o` against book `before`.
pub open spec fn market_outcome(before: OrderBook, o: Order, after: OrderBook, r: Order, trades: Seq<Trade>) -> bool {
    if o.side == Side::Buy {
        (r, after.asks(), fills_of(trades)) == sweep_run(o, before.asks()) && after.bids() == before.bids()
    } else {
        (r, after.bids(), fills_of(trades)) == sweep_run(o, before.bids()) && after.asks() == before.asks()
    }
}

/// Index of the book for `symbol` in `books`, if there is one.
pub open spec fn book_index(books: Seq<OrderBook>, symbol: Seq<char>) -> Option<int> {
    if exists|i: int| 0 <= i < books.len() && (#[trigger] books[i]).symbol_view() == symbol {
        Some(choose|i: int| 0 <= i < books.len() && (#[trigger] books[i]).symbol_view() == symbol)
    } else {
        None
    }
}

/// Single-writer execution state.
pub struct ExecutionEngine {
    books: Vec<OrderBook>,
    metrics: ExecutionMetrics,
    latency_samples: Vec<u64>,
    next_slot: usize,
    running: bool,
}

impl ExecutionEngine {
    pub closed spec fn books(&self) -> Seq<OrderBook> {
        self.books@
    }

    /// Counters; the latency fields stay zero here and are filled in by
    /// `get_metrics`.
    pub closed spec fn counters(&self) -> ExecutionMetrics {
        self.metrics
    }

    pub closed spec fn samples(&self) -> Seq<u64> {
        self.latency_samples@
    }

    /// Slot that the next sample overwrites once the buffer is full.
    pub closed spec fn next_slot(&self) -> int {
        self.next_slot as int
    }

    pub closed spec fn running(&self) -> bool {
        self.running
    }

    /// Every book is well formed and uncrossed, symbols are distinct, and the
    /// sample buffer stays within its capacity.
    pub closed spec fn wf(&self) -> bool {
        &&& forall|i: int| 0 <= i < self.books@.len() ==> (#[trigger] self.books@[i]).wf() && self.books@[i].uncrossed()
        &&& forall|i: int, j: int|
            0 <= i < j < self.books@.len() ==> (#[trigger] self.books@[i]).symbol_view() != (
            #[trigger] self.books@[j]).symbol_view()
        &&& self.latency_samples@.len() <= LATENCY_SAMPLE_CAPACITY
        &&& self.next_slot < LATENCY_SAMPLE_CAPACITY
        &&& self.metrics.avg_latency_micros == 0
        &&& self.metrics.p50_latency_micros == 0
        &&& self.metrics.p95_latency_micros == 0
        &&& self.metrics.p99_latency_micros == 0
    }

    /// A stopped engine with no books, zero counters and no samples.
    pub fn new() -> (r: ExecutionEngine)
        ensures
            r.wf(),
            !r.running(),
            r.books().len() == 0,
            r.counters().is_zero(),
            r.samples().len() == 0,
    {
        ExecutionEngine {
            books: Vec::new(),
            metrics: ExecutionMetrics::default(),
            latency_samples: Vec::new(),
            next_slot: 0,
            running: false,
        }
    }

    pub fn is_running(&self) -> (r: bool)
        ensures
            r == self.running(),
    {
        self.running
    }

    /// Moves to the running state; a no-op while running.
    pub fn start(&mut self)
        ensures
            final(self).running(),
            final(self).books() == old(self).books(),
            final(self).counters() == old(self).counters(),
            final(self).samples() == old(self).samples(),
            final(self).next_slot() == old(self).next_slot(),
            old(self).wf() ==> final(self).wf(),
    {
        self.running = true;
    }

    /// Moves to the stopped state; a no-op while stopped.
    pub fn stop(&mut self)
        ensures
            !final(self).running(),
            final(self).books() == old(self).books(),
            final(self).counters() == old(self).counters(),
            final(self).samples() == old(self).samples(),
            final(self).next_slot() == old(self).next_slot(),
            old(self).wf() ==> final(self).wf(),
    {
        self.running = false;
    }

    fn find_book(&self, symbol: &String) -> (r: Option<usize>)
        requires
            self.wf(),
        ensures
            r == match book_index(self.books(), symbol@) {
                Some(i) => Some(i as usize),
                None => None,
            },
            r.is_some() ==> r.unwrap() < self.books().len() && self.books()[r.unwrap() as int].symbol_view()
                == symbol@,
    {
        let mut i: usize = 0;
        while i < self.books.len()
            invariant
                self.wf(),
                i <= self.books@.len(),
                forall|k: int| 0 <= k < i ==> (#[trigger] self.books@[k]).symbol_view() != symbol@,
            decreases self.books@.len() - i,
        {
            if self.books[i].symbol().eq(symbol) {
                proof {
                    let c = choose|k: int|
                        0 <= k < self.books@.len() && (#[trigger] self.books@[k]).symbol_view() == symbol@;
                    assert(self.books@[i as int].symbol_view() == symbol@);
                    if c < i as int {
                        assert(self.books@[c].symbol_view() != self.books@[i as int].symbol_view());
                    } else if c > i as int {
                        assert(self.books@[i as int].symbol_view() != self.books@[c].symbol_view());
                    }
                }
                return Some(i);
            }
            i = i + 1;
        }
        None
    }

    /// The order is accepted: it is valid, a market order finds a book for
    /// its symbol, and a limit order is admitted by that book, or by a new one.
    pub open spec fn accepts(&self, o: Order) -> bool {
        &&& valid_order(o)
        &&& o.order_type == OrderType::Market ==> book_index(self.books(), o.symbol@).is_some()
        &&& o.order_type == OrderType::Limit ==> match book_index(self.books(), o.symbol@) {
            Some(i) => self.books()[i].admits(o),
            None => true,
        }
    }

    /// What applying order `o` to `self` gives: the books `after`, the
    /// counters and the trades.
    pub open spec fn order_outcome(&self, o: Order, after: ExecutionEngine, trades: Seq<Trade>) -> bool {
        let idx = book_index(self.books(), o.symbol@);
        if !self.accepts(o) {
            &&& after.books() == self.books()
            &&& trades.len() == 0
            &&& after.counters() == after_rejected(self.counters())
        } else {
            &&& after.counters() == after_accepted(self.counters(), trades)
            &&& match idx {
                Some(i) => {
                    &&& after.books().len() == self.books().len()
                    &&& forall|k: int| 0 <= k < self.books().len() && k != i ==> after.books()[k] == self.books()[k]
                    &&& after.books()[i].symbol_view() == o.symbol@
                    &&& if o.order_type == OrderType::Limit {
                        limit_outcome(
                            self.books()[i].bids(),
                            self.books()[i].asks(),
                            self.books()[i].next_seq(),
                            o,
                            after.books()[i],
                            trades,
                        )
                    } else {
                        exists|r: Order| market_outcome(self.books()[i], o, after.books()[i], r, trades)
                    }
                },
                None => {
                    &&& after.books().len() == self.books().len() + 1
                    &&& forall|k: int| 0 <= k < self.books().len() ==> after.books()[k] == self.books()[k]
                    &&& after.books().last().symbol_view() == o.symbol@
                    &&& limit_outcome(Seq::empty(), Seq::empty(), 0, o, after.books().last(), trades)
                },
            }
        }
    }

    fn count_rejected(&mut self)
        ensures
            final(self).counters() == after_rejected(old(self).counters()),
            final(self).books() == old(self).books(),
            final(self).samples() == old(self).samples(),
            final(self).next_slot() == old(self).next_slot(),
            final(self).running() == old(self).running(),
            old(self).wf() ==> final(self).wf(),
    {
        self.metrics.rejected_orders = self.metrics.rejected_orders.saturating_add(1);
    }

    fn count_accepted(&mut self, trades: &Vec<Trade>)
        ensures
            final(self).counters() == after_accepted(old(self).counters(), trades@),
            final(self).books() == old(self).books(),
            final(self).samples() == old(self).samples(),
            final(self).next_slot() == old(self).next_slot(),
            final(self).running() == old(self).running(),
            old(self).wf() ==> final(self).wf(),
    {
        let ghost m = self.metrics;
        let mut notional: u128 = self.metrics.total_notional;
        let mut k: usize = 0;
        while k < trades.len()
            invariant
                k <= trades@.len(),
                notional == notional_after(m.total_notional, trades@.subrange(0, k as int)),
            decreases trades@.len() - k,
        {
            let t = &trades[k];
            proof {
                let (a, b) = (t.quantity as int, t.price as int);
                assert(a * b <= 0xffff_ffff_ffff_ffffint * 0xffff_ffff_ffff_ffffint) by (nonlinear_arith)
                    requires
                        0 <= a <= 0xffff_ffff_ffff_ffffint,
                        0 <= b <= 0xffff_ffff_ffff_ffffint,
                ;
            }
            let v = (t.quantity as u128) * (t.price as u128);
            notional = notional.saturating_add(v);
            assert(trades@.subrange(0, k + 1).drop_last() =~= trades@.subrange(0, k as int));
            k = k + 1;
        }
        assert(trades@.subrange(0, trades@.len() as int) =~= trades@);
        self.metrics.total_notional = notional;
        self.metrics.total_orders = self.metrics.total_orders.saturating_add(1);
        if trades.len() > 0 {
            self.metrics.filled_orders = self.metrics.filled_orders.saturating_add(1);
        }
        self.metrics.total_trades = self.metrics.total_trades.saturating_add(trades.len() as u64);
    }

    /// Validates and applies a new order. A limit order rests on the book of
    /// its symbol, created if needed, and the book is matched; a market order
    /// sweeps the opposing side of an existing book. A refused order only
    /// counts as rejected. Returns the trades in the order they were made.
    pub fn process_order(&mut self, order: Order) -> (trades: Vec<Trade>)
        requires
            old(self).wf(),
        ensures
            final(self).wf(),
            final(self).running() == old(self).running(),
            final(self).samples() == old(self).samples(),
            final(self).next_slot() == old(self).next_slot(),
            final(self).counters().counters_at_least(old(self).counters()),
            old(self).order_outcome(order, *final(self), trades@),
    {
        let ghost e0 = *self;
        proof {
            lemma_notional_grows(self.metrics.total_notional, Seq::empty());
        }
        let valid = order.filled_quantity < order.quantity && (match order.order_type {
            OrderType::Limit => order.price.is_some(),
            OrderType::Market => true,
            _ => false,
        });
        if !valid {
            self.count_rejected();
            return Vec::new();
        }
        let idx = self.find_book(&order.symbol);
        match order.order_type {
            OrderType::Market => {
                match idx {
                    None => {
                        self.count_rejected();
                        Vec::new()
                    },
                    Some(i) => {
                        let mut book = self.books.remove(i);
                        let ghost b0 = book;
                        assert(b0 == e0.books@[i as int]);
                        let (o, trades) = book.execute_market(order);
                        self.books.insert(i, book);
                        assert(self.books@ =~= e0.books@.update(i as int, book));
                        self.count_accepted(&trades);
                        proof {
                            lemma_notional_grows(e0.metrics.total_notional, trades@);
                            assert(market_outcome(b0, order, self.books@[i as int], o, trades@));
                            self.lemma_replaced_wf(e0, i as int);
                        }
                        trades
                    },
                }
            },
            _ => {
                let i = match idx {
                    Some(i) => i,
                    None => {
                        let book = OrderBook::new(order.symbol.clone());
                        self.books.push(book);
                        proof {
                            assert forall|a: int, b: int| 0 <= a < b < self.books@.len() implies (
                            #[trigger] self.books@[a]).symbol_view() != (#[trigger] self.books@[b]).symbol_view() by {
                                if b == self.books@.len() - 1 {
                                    assert(e0.books@[a] == self.books@[a]);
                                } else {
                                    assert(e0.books@[a] == self.books@[a]);
                                    assert(e0.books@[b] == self.books@[b]);
                                }
                            }
                        }
                        self.books.len() - 1
                    },
                };
                let ghost e1 = *self;
                let mut book = self.books.remove(i);
                let ghost b0 = book;
                assert(b0 == e1.books@[i as int]);
                let admitted = book.add_order(order);
                if !admitted {
                    self.books.insert(i, book);
                    assert(self.books@ =~= e1.books@);
                    self.count_rejected();
                    return Vec::new();
                }
                let ghost b1 = book;
                let trades = book.match_orders();
                self.books.insert(i, book);
                assert(self.books@ =~= e1.books@.update(i as int, book));
                self.count_accepted(&trades);
                proof {
                    lemma_notional_grows(e0.metrics.total_notional, trades@);
                    assert(match_run(b1.bids(), b1.asks()) == (
                        self.books@[i as int].bids(),
                        self.books@[i as int].asks(),
                        fills_of(trades@),
                    ));
                    self.lemma_replaced_wf(e1, i as int);
                    if idx.is_none() {
                        assert(b0.bids() =~= Seq::<LevelView>::empty());
                        assert(b0.asks() =~= Seq::<LevelView>::empty());
                        assert(self.books@ =~= e0.books@.push(self.books@[i as int]));
                    }
                }
                trades
            },
        }
    }

    /// What cancelling `id` on the book of `symbol` gives: engine `after`, and
    /// whether an order was removed. Only a removal counts as cancelled.
    pub open spec fn cancel_effect(&self, id: u128, symbol: Seq<char>, after: ExecutionEngine, cancelled: bool) -> bool {
        &&& after.counters() == (if cancelled {
            ExecutionMetrics {
                cancelled_orders: self.counters().cancelled_orders.saturating_add(1),
                ..self.counters()
            }
        } else {
            self.counters()
        })
        &&& match book_index(self.books(), symbol) {
            None => !cancelled && after.books() == self.books(),
            Some(i) => {
                &&& after.books().len() == self.books().len()
                &&& forall|k: int| 0 <= k < self.books().len() && k != i ==> after.books()[k] == self.books()[k]
                &&& after.books()[i].symbol_view() == symbol
                &&& after.books()[i].next_seq() == self.books()[i].next_seq()
                &&& exists|r: Option<Order>|
                    #[trigger] book_cancel_outcome(
                        self.books()[i].bids(),
                        self.books()[i].asks(),
                        id,
                        after.books()[i].bids(),
                        after.books()[i].asks(),
                        r,
                    ) && cancelled == r.is_some()
                &&& cancelled == (ladder_holds(self.books()[i].bids(), id) || ladder_holds(
                    self.books()[i].asks(),
                    id,
                ))
            },
        }
    }

    /// Cancels order `id` on the book of `symbol`. Returns whether an order
    /// was removed; only then does the cancelled counter grow. An unknown
    /// symbol or identifier changes nothing.
    pub fn process_cancel(&mut self, id: u128, symbol: &String) -> (cancelled: bool)
        requires
            old(self).wf(),
        ensures
            final(self).wf(),
            final(self).running() == old(self).running(),
            final(self).samples() == old(self).samples(),
            final(self).next_slot() == old(self).next_slot(),
            final(self).counters().counters_at_least(old(self).counters()),
            old(self).cancel_effect(id, symbol@, *final(self), cancelled),
    {
        let ghost e0 = *self;
        match self.find_book(symbol) {
            None => false,
            Some(i) => {
                let mut book = self.books.remove(i);
                assert(book == e0.books@[i as int]);
                let r = book.cancel_order(id);
                self.books.insert(i, book);
                assert(self.books@ =~= e0.books@.update(i as int, book));
                proof {
                    self.lemma_replaced_wf(e0, i as int);
                }
                if r.is_some() {
                    self.metrics.cancelled_orders = self.metrics.cancelled_orders.saturating_add(1);
                    true
                } else {
                    false
                }
            },
        }
    }

    /// Applies `order` while running; a stopped engine refuses it with
    /// `EngineStopped` and changes nothing.
    pub fn submit_order(&mut self, order: Order) -> (r: Result<Vec<Trade>, EngineError>)
        requires
            old(self).wf(),
        ensures
            final(self).wf(),
            final(self).running() == old(self).running(),
            final(self).counters().counters_at_least(old(self).counters()),
            !old(self).running() ==> (r matches Err(EngineError::EngineStopped)) && *final(self) == *old(self),
            old(self).running() ==> r.is_ok() && old(self).order_outcome(order, *final(self), r.unwrap()@),
    {
        if !self.running {
            return Err(EngineError::EngineStopped);
        }
        Ok(self.process_order(order))
    }

    /// Cancels order `id` on the book of `symbol` while running; a stopped
    /// engine refuses with `EngineStopped` and changes nothing. Returns
    /// whether an order was removed.
    pub fn cancel_order(&mut self, id: u128, symbol: String) -> (r: Result<bool, EngineError>)
        requires
            old(self).wf(),
        ensures
            final(self).wf(),
            final(self).running() == old(self).running(),
            final(self).counters().counters_at_least(old(self).counters()),
            !old(self).running() ==> (r matches Err(EngineError::EngineStopped)) && *final(self) == *old(self),
            old(self).running() ==> r.is_ok() && old(self).cancel_effect(id, symbol@, *final(self), r.unwrap()),
    {
        if !self.running {
            return Err(EngineError::EngineStopped);
        }
        Ok(self.process_cancel(id, &symbol))
    }

    /// One step of the single writer: applies the command and returns the
    /// trades it produced and whether to keep running. `Shutdown` stops the
    /// engine.
    pub fn process_command(&mut self, cmd: EngineCommand) -> (r: (Vec<Trade>, bool))
        requires
            old(self).wf(),
        ensures
            final(self).wf(),
            final(self).counters().counters_at_least(old(self).counters()),
            final(self).samples() == old(self).samples(),
            r.1 == final(self).running(),
            match cmd {
                EngineCommand::NewOrder(o) => old(self).order_outcome(o, *final(self), r.0@) && final(self).running()
                    == old(self).running(),
                EngineCommand::CancelOrder(id, symbol) => r.0@.len() == 0 && final(self).running() == old(
                    self,
                ).running() && exists|c: bool| #[trigger] old(self).cancel_effect(id, symbol@, *final(self), c),
                EngineCommand::Shutdown => r.0@.len() == 0 && !final(self).running() && final(self).books()
                    == old(self).books() && final(self).counters() == old(self).counters(),
            },
    {
        match cmd {
            EngineCommand::NewOrder(o) => {
                let trades = self.process_order(o);
                (trades, self.running)
            },
            EngineCommand::CancelOrder(id, symbol) => {
                self.process_cancel(id, &symbol);
                (Vec::new(), self.running)
            },
            EngineCommand::Shutdown => {
                self.stop();
                (Vec::new(), false)
            },
        }
    }

    /// Records a command's latency. The buffer keeps the most recent
    /// `LATENCY_SAMPLE_CAPACITY` samples: once full, each sample overwrites the
    /// oldest.
    pub fn record_latency(&mut self, micros: u64)
        requires
            old(self).wf(),
        ensures
            final(self).wf(),
            final(self).books() == old(self).books(),
            final(self).counters() == old(self).counters(),
            final(self).running() == old(self).running(),
            old(self).samples().len() < LATENCY_SAMPLE_CAPACITY ==> final(self).samples() == old(self).samples().push(
                micros,
            ),
            old(self).samples().len() == LATENCY_SAMPLE_CAPACITY ==> final(self).samples() == old(
                self,
            ).samples().update(old(self).next_slot(), micros) && final(self).next_slot() == (old(self).next_slot() + 1)
                % (LATENCY_SAMPLE_CAPACITY as int),
    {
        if self.latency_samples.len() < LATENCY_SAMPLE_CAPACITY {
            self.latency_samples.push(micros);
        } else {
            self.latency_samples.set(self.next_slot, micros);
            self.next_slot = (self.next_slot + 1) % LATENCY_SAMPLE_CAPACITY;
        }
    }

    /// A copy of the counters with latency statistics over the samples held:
    /// the mean (rounded down) and the samples at ranks `n/2`, `95n/100` and
    /// `99n/100` in ascending order. With no samples these are zero.
    pub fn get_metrics(&self) -> (r: ExecutionMetrics)
        requires
            self.wf(),
        ensures
            r == (ExecutionMetrics {
                avg_latency_micros: r.avg_latency_micros,
                p50_latency_micros: r.p50_latency_micros,
                p95_latency_micros: r.p95_latency_micros,
                p99_latency_micros: r.p99_latency_micros,
                ..self.counters()
            }),
            self.samples().len() == 0 ==> r.avg_latency_micros == 0 && r.p50_latency_micros == 0
                && r.p95_latency_micros == 0 && r.p99_latency_micros == 0,
            self.samples().len() > 0 ==> latency_stats(self.samples(), r),
            r.p50_latency_micros <= r.p95_latency_micros <= r.p99_latency_micros,
    {
        let mut m = self.metrics;
        let n = self.latency_samples.len();
        if n == 0 {
            return m;
        }
        let mut total: u128 = 0;
        let mut k: usize = 0;
        while k < n
            invariant
                n == self.latency_samples@.len(),
                n <= LATENCY_SAMPLE_CAPACITY,
                k <= n,
                total == sum_of(self.latency_samples@.subrange(0, k as int)),
                total <= k * 0xffff_ffff_ffff_ffffint,
            decreases n - k,
        {
            assert(self.latency_samples@.subrange(0, k + 1).drop_last() =~= self.latency_samples@.subrange(
                0,
                k as int,
            ));
            total = total + self.latency_samples[k] as u128;
            k = k + 1;
        }
        assert(self.latency_samples@.subrange(0, n as int) =~= self.latency_samples@);
        proof {
            let (a, b) = (total as int, n as int);
            assert(a / b <= 0xffff_ffff_ffff_ffffint) by (nonlinear_arith)
                requires
                    a <= b * 0xffff_ffff_ffff_ffffint,
                    b > 0,
            ;
        }
        m.avg_latency_micros = (total / (n as u128)) as u64;
        let mut sorted = self.latency_samples.clone();
        sort_ascending(&mut sorted);
        proof {
            lemma_rank_bounds(n as int);
        }
        m.p50_latency_micros = sorted[n / 2];
        m.p95_latency_micros = sorted[(n * 95) / 100];
        m.p99_latency_micros = sorted[(n * 99) / 100];
        proof {
            lemma_percentile_order(sorted@);
        }
        m
    }

    /// Best bid, best ask and depth of the book for `symbol`, if there is one.
    pub fn get_order_book(&self, symbol: &String) -> (r: Option<(Option<u64>, Option<u64>, usize)>)
        requires
            self.wf(),
        ensures
            match book_index(self.books(), symbol@) {
                None => r.is_none(),
                Some(i) => r == Some(
                    (
                        best_price(self.books()[i].bids()),
                        best_price(self.books()[i].asks()),
                        (count(self.books()[i].bids()) + count(self.books()[i].asks())) as usize,
                    ),
                ),
            },
    {
        match self.find_book(symbol) {
            None => None,
            Some(i) => {
                let book = &self.books[i];
                Some((book.best_bid(), book.best_ask(), book.depth()))
            },
        }
    }

    /// After the book at `i` is replaced by a well-formed, uncrossed book of
    /// the same symbol, the engine is well formed again.
    proof fn lemma_replaced_wf(&self, before: ExecutionEngine, i: int)
        requires
            before.wf(),
            0 <= i < before.books@.len(),
            self.books@.len() == before.books@.len(),
            forall|k: int| 0 <= k < self.books@.len() && k != i ==> self.books@[k] == before.books@[k],
            self.books@[i].wf(),
            self.books@[i].uncrossed(),
            self.books@[i].symbol_view() == before.books@[i].symbol_view(),
            self.latency_samples@.len() <= LATENCY_SAMPLE_CAPACITY,
            self.next_slot < LATENCY_SAMPLE_CAPACITY,
            self.metrics.avg_latency_micros == 0,
            self.metrics.p50_latency_micros == 0,
            self.metrics.p95_latency_micros == 0,
            self.metrics.p99_latency_micros == 0,
        ensures
            self.wf(),
    {
        assert forall|a: int, b: int| 0 <= a < b < self.books@.len() implies (#[trigger] self.books@[a]).symbol_view()
            != (#[trigger] self.books@[b]).symbol_view() by {
            assert(self.books@[a].symbol_view() == before.books@[a].symbol_view());
            assert(self.books@[b].symbol_view() == before.books@[b].symbol_view());
        }
    }
}

pub open spec fn sorted(s: Seq<u64>) -> bool {
    forall|i: int, j: int| 0 <= i <= j < s.len() ==> s[i] <= s[j]
}

pub open spec fn sum_of(s: Seq<u64>) -> int
    decreases s.len(),
{
    if s.len() == 0 {
        0
    } else {
        sum_of(s.drop_last()) + s.last()
    }
}

/// `m` holds the mean of `samples`, rounded down, and the samples at ranks
/// `n/2`, `95n/100` and `99n/100` of some ascending arrangement of them.
pub open spec fn latency_stats(samples: Seq<u64>, m: ExecutionMetrics) -> bool {
    let n = samples.len() as int;
    &&& m.avg_latency_micros == sum_of(samples) / n
    &&& exists|t: Seq<u64>|
        #[trigger] t.to_multiset() == samples.to_multiset() && t.len() == n && sorted(t) && m.p50_latency_micros
            == t[n / 2] && m.p95_latency_micros == t[(n * 95) / 100] && m.p99_latency_micros == t[(n * 99) / 100]
}

/// Relies on slice::sort_unstable: the elements in ascending order.
#[verifier::external_body]
fn sort_ascending(v: &mut Vec<u64>)
    ensures
        final(v)@.len() == old(v)@.len(),
        final(v)@.to_multiset() == old(v)@.to_multiset(),
        sorted(final(v)@),
{
    v.sort_unstable()
}

/// The three ranks lie in order inside `0..n`.
pub proof fn lemma_rank_bounds(n: int)
    requires
        n > 0,
    ensures
        0 <= n / 2 <= (n * 95) / 100 <= (n * 99) / 100 < n,
{
    assert(n / 2 <= (n * 95) / 100) by (nonlinear_arith)
        requires
            n > 0,
    ;
    assert((n * 95) / 100 <= (n * 99) / 100) by (nonlinear_arith)
        requires
            n > 0,
    ;
    assert((n * 99) / 100 < n) by (nonlinear_arith)
        requires
            n > 0,
    ;
}

/// In an ascending sequence the three percentile samples are in order:
/// p50 <= p95 <= p99.
pub proof fn lemma_percentile_order(t: Seq<u64>)
    requires
        t.len() > 0,
        sorted(t),
    ensures
        t[t.len() as int / 2] <= t[(t.len() as int * 95) / 100] <= t[(t.len() as int * 99) / 100],
{
    lemma_rank_bounds(t.len() as int);
}

/// No book of a well-formed engine is crossed: between commands, on every
/// book, the best bid is below the best ask or one side is empty.
pub proof fn lemma_no_crossed_book(e: ExecutionEngine, i: int)
    requires
        e.wf(),
        0 <= i < e.books().len(),
    ensures
        !crossed(e.books()[i].bids(), e.books()[i].asks()),
        best_price(e.books()[i].bids()) is None || best_price(e.books()[i].asks()) is None || best_price(
            e.books()[i].bids(),
        ).unwrap() < best_price(e.books()[i].asks()).unwrap(),
{
    assert(e.books@[i].uncrossed());
}

/// The book index of a symbol is the one position holding it, in an engine
/// whose symbols are distinct.
proof fn lemma_book_index_at(e: ExecutionEngine, symbol: Seq<char>, i: int)
    requires
        e.wf(),
        0 <= i < e.books().len(),
        e.books()[i].symbol_view() == symbol,
    ensures
        book_index(e.books(), symbol) == Some(i),
{
    let c = choose|k: int| 0 <= k < e.books@.len() && (#[trigger] e.books@[k]).symbol_view() == symbol;
    if c < i {
        assert(e.books@[c].symbol_view() != e.books@[i].symbol_view());
    } else if c > i {
        assert(e.books@[i].symbol_view() != e.books@[c].symbol_view());
    }
}

/// Cancelling the same order twice on an engine, where one order with that
/// identifier rests on the book of `symbol`: the first cancel removes it and
/// adds one to the cancelled counter, the second removes nothing and leaves
/// the counters alone.
pub proof fn lemma_engine_cancel_twice(
    e0: ExecutionEngine,
    e1: ExecutionEngine,
    e2: ExecutionEngine,
    id: u128,
    symbol: Seq<char>,
    c1: bool,
    c2: bool,
)
    requires
        e0.wf(),
        e1.wf(),
        book_index(e0.books(), symbol) is Some,
        ({
            let b = e0.books()[book_index(e0.books(), symbol).unwrap()];
            &&& ladder_holds(b.bids(), id) || ladder_holds(b.asks(), id)
            &&& rests_at_most_once(b.bids(), b.asks(), id)
        }),
        e0.cancel_effect(id, symbol, e1, c1),
        e1.cancel_effect(id, symbol, e2, c2),
    ensures
        c1,
        e1.counters().cancelled_orders == e0.counters().cancelled_orders.saturating_add(1),
        !c2,
        e2.counters() == e1.counters(),
        e2.books()[book_index(e0.books(), symbol).unwrap()].bids() == e1.books()[book_index(
            e0.books(),
            symbol,
        ).unwrap()].bids(),
        e2.books()[book_index(e0.books(), symbol).unwrap()].asks() == e1.books()[book_index(
            e0.books(),
            symbol,
        ).unwrap()].asks(),
{
    let i = book_index(e0.books(), symbol).unwrap();
    let b0 = e0.books()[i];
    let b1 = e1.books()[i];
    lemma_book_index_at(e1, symbol, i);
    let r1 = choose|r: Option<Order>|
        #[trigger] book_cancel_outcome(b0.bids(), b0.asks(), id, b1.bids(), b1.asks(), r) && c1 == r.is_some();
    let b2 = e2.books()[i];
    let r2 = choose|r: Option<Order>|
        #[trigger] book_cancel_outcome(b1.bids(), b1.asks(), id, b2.bids(), b2.asks(), r) && c2 == r.is_some();
    lemma_cancel_twice(b0.bids(), b0.asks(), id, b1.bids(), b1.asks(), r1, b2.bids(), b2.asks(), r2);
}

/// The saturating notional sum never falls below where it started.
pub proof fn lemma_notional_grows(n: u128, ts: Seq<Trade>)
    ensures
        notional_after(n, ts) >= n,
    decreases ts.len(),
{
    if ts.len() > 0 {
        lemma_notional_grows(n, ts.drop_last());
    }
}

} // verus!
