//! The matching engine: one order book per registered instrument, monotonic
//! order-id assignment, routing of status and cancel requests to the owning
//! book, and top-of-book change detection for market-data publication.

use vstd::prelude::*;
use crate::order_book::{
    book_order_model, cancel_model, lemma_book_order_model_wf, lemma_cancel_model_wf, top_of_book,
    BookView, InvalidOrderId, OrderBook,
};
use crate::types::{Cmd, Order, OrderInfo, OrderStatus, PriceInfo, Symbol};

verus! {

/// Mathematical abstraction of the engine: the books with their instruments,
/// and the routing table mapping each assigned order id to its book.
pub struct EngineView {
    pub books: Seq<BookView>,
    pub symbols: Seq<Symbol>,
    pub routing: Seq<usize>,
}

impl EngineView {
    /// Every book is well-formed; every assigned id routes to a real book
    /// that indexes it, and every indexed id is routed back to its book.
    pub open spec fn wf(&self) -> bool {
        &&& self.books.len() == self.symbols.len()
        &&& self.books.len() <= usize::MAX
        &&& forall|k: int| 0 <= k < self.books.len() ==> (#[trigger] self.books[k]).wf()
        &&& self.routing.len() <= u32::MAX
        &&& forall|i: int|
            0 <= i < self.routing.len() ==> (#[trigger] self.routing[i]) < self.books.len()
                && self.books[self.routing[i] as int].orders.contains_key(i as u32)
        &&& forall|k: int, id: u32|
            0 <= k < self.books.len() && #[trigger] self.books[k].orders.contains_key(id) ==> id
                < self.routing.len() && self.routing[id as int] == k as usize
    }
}

/// The first registered instrument whose ticker matches, if any.
pub open spec fn lookup_symbol(symbols: Seq<Symbol>, ticker: Seq<char>) -> Option<int>
    decreases symbols.len(),
{
    if symbols.len() == 0 {
        None
    } else if symbols[0]@ == ticker {
        Some(0int)
    } else {
        match lookup_symbol(symbols.drop_first(), ticker) {
            None => None,
            Some(k) => Some(k + 1),
        }
    }
}

/// A found instrument index is in range and matches; earlier ones do not.
pub proof fn lemma_lookup_symbol(symbols: Seq<Symbol>, ticker: Seq<char>)
    ensures
        match lookup_symbol(symbols, ticker) {
            Some(k) => 0 <= k < symbols.len() && symbols[k]@ == ticker && forall|j: int|
                0 <= j < k ==> (#[trigger] symbols[j])@ != ticker,
            None => forall|j: int| 0 <= j < symbols.len() ==> (#[trigger] symbols[j])@ != ticker,
        },
    decreases symbols.len(),
{
    if symbols.len() > 0 && symbols[0]@ != ticker {
        let tl = symbols.drop_first();
        lemma_lookup_symbol(tl, ticker);
        assert(forall|j: int| 0 <= j < tl.len() ==> tl[j] == symbols[j + 1]);
        match lookup_symbol(tl, ticker) {
            None => {
                assert forall|j: int| 0 <= j < symbols.len() implies (#[trigger] symbols[j])@
                    != ticker by {
                    if j > 0 {
                        assert(tl[j - 1]@ != ticker);
                    }
                }
            },
            Some(kp) => {
                assert(symbols[kp + 1]@ == ticker) by {
                    assert(tl[kp] == symbols[kp + 1]);
                }
                assert forall|j: int| 0 <= j < kp + 1 implies (#[trigger] symbols[j])@
                    != ticker by {
                    if j > 0 {
                        assert(tl[j - 1]@ != ticker);
                    }
                }
            },
        }
    }
}

/// The rejection reason reported for an instrument the engine does not know.
pub open spec fn unknown_symbol_reason() -> &'static str {
    "symbol does not exist"
}

/// Whether a top-of-book movement must be published: the bid improved, the
/// ask improved, or either side's aggregate size changed.
pub open spec fn price_changed(pre: (u64, u64, u64, u64), post: (u64, u64, u64, u64)) -> bool {
    post.0 > pre.0 || post.2 < pre.2 || post.1 != pre.1 || post.3 != pre.3
}

/// Functional model of one engine command. Alongside the new engine state it
/// yields the status to report and, for an execution that moved the top of
/// the book, the instrument's ticker with the new top-of-book quadruple.
pub open spec fn engine_step(ev: EngineView, cmd: Cmd) -> (
    EngineView,
    Result<OrderStatus, InvalidOrderId>,
    Option<(Seq<char>, (u64, u64, u64, u64))>,
) {
    match cmd {
        Cmd::Execute(info) => {
            match lookup_symbol(ev.symbols, info.symbol@) {
                None => (
                    ev,
                    Ok(OrderStatus::Rejected(ev.routing.len() as u32, unknown_symbol_reason())),
                    None,
                ),
                Some(k) => {
                    let id = ev.routing.len() as u32;
                    let order = Order {
                        id,
                        account_id: info.account_id,
                        symbol: info.symbol,
                        order_type: info.order_type,
                        side: info.side,
                        quantity: info.quantity,
                        remaining_quantity: info.quantity,
                        cost: 0u64,
                        is_canceled: false,
                    };
                    let (b2, st) = book_order_model(ev.books[k], order);
                    let pre = top_of_book(ev.books[k]);
                    let post = top_of_book(b2);
                    let pi = if price_changed(pre, post) {
                        Some((ev.symbols[k]@, post))
                    } else {
                        None
                    };
                    (
                        EngineView {
                            books: ev.books.update(k, b2),
                            routing: ev.routing.push(k as usize),
                            ..ev
                        },
                        Ok(st),
                        pi,
                    )
                },
            }
        },
        Cmd::Status(info) => {
            let id = info.spec_order_id();
            if id < ev.routing.len() {
                (
                    ev,
                    Ok(ev.books[ev.routing[id as int] as int].orders[id].spec_status()),
                    None,
                )
            } else {
                (ev, Err(InvalidOrderId), None)
            }
        },
        Cmd::Cancel(info) => {
            let id = info.spec_order_id();
            if id < ev.routing.len() {
                let k = ev.routing[id as int] as int;
                let (b2, r) = cancel_model(ev.books[k], id);
                (EngineView { books: ev.books.update(k, b2), ..ev }, r, None)
            } else {
                (ev, Err(InvalidOrderId), None)
            }
        },
    }
}

/// Functional model of draining a command sequence in FIFO order; the replies
/// come back in exactly the order the commands went in.
pub open spec fn engine_run(ev: EngineView, cmds: Seq<Cmd>) -> (
    EngineView,
    Seq<(Result<OrderStatus, InvalidOrderId>, Option<(Seq<char>, (u64, u64, u64, u64))>)>,
)
    decreases cmds.len(),
{
    if cmds.len() == 0 {
        (ev, Seq::empty())
    } else {
        let (ev1, r, pi) = engine_step(ev, cmds[0]);
        let (ev2, rest) = engine_run(ev1, cmds.drop_first());
        (ev2, seq![(r, pi)] + rest)
    }
}

/// Whether a command may consume a fresh order id.
pub open spec fn cmd_is_execute(cmd: Cmd) -> bool {
    cmd matches Cmd::Execute(_)
}

/// The bounds an execution payload must respect.
pub open spec fn cmd_wf(cmd: Cmd) -> bool {
    match cmd {
        Cmd::Execute(info) => info.wf(),
        _ => true,
    }
}

/// One engine command preserves the engine invariant.
pub proof fn lemma_engine_step_wf(ev: EngineView, cmd: Cmd)
    requires
        ev.wf(),
        cmd_wf(cmd),
        cmd_is_execute(cmd) ==> ev.routing.len() < u32::MAX,
    ensures
        engine_step(ev, cmd).0.wf(),
        engine_step(ev, cmd).0.routing.len() == ev.routing.len() + (
        if cmd_is_execute(cmd) && lookup_ok(ev, cmd) {
            1int
        } else {
            0int
        }),
        engine_step(ev, cmd).0.symbols == ev.symbols,
{
    let (ev2, st, pi) = engine_step(ev, cmd);
    match cmd {
        Cmd::Execute(info) => {
            lemma_lookup_symbol(ev.symbols, info.symbol@);
            match lookup_symbol(ev.symbols, info.symbol@) {
                None => {},
                Some(k) => {
                    let id = ev.routing.len() as u32;
                    let order = Order {
                        id,
                        account_id: info.account_id,
                        symbol: info.symbol,
                        order_type: info.order_type,
                        side: info.side,
                        quantity: info.quantity,
                        remaining_quantity: info.quantity,
                        cost: 0u64,
                        is_canceled: false,
                    };
                    assert(!ev.books[k].orders.contains_key(id));
                    assert(ev.books[k].wf());
                    lemma_book_order_model_wf(ev.books[k], order);
                    let b2 = book_order_model(ev.books[k], order).0;
                    assert(ev2.books == ev.books.update(k, b2) && ev2.routing == ev.routing.push(
                        k as usize,
                    ));
                    assert(ev2.wf()) by {
                        assert forall|i: int|
                            0 <= i < ev2.routing.len() implies (#[trigger] ev2.routing[i])
                            < ev2.books.len() && ev2.books[ev2.routing[i] as int].orders.contains_key(
                            i as u32,
                        ) by {
                            if i < ev.routing.len() {
                                assert(ev2.routing[i] == ev.routing[i]);
                                assert(ev.books[ev.routing[i] as int].orders.contains_key(
                                    i as u32,
                                ));
                                if ev.routing[i] as int == k {
                                    assert(ev2.books[k] == b2);
                                    assert(b2.orders.dom() == ev.books[k].orders.dom().insert(id));
                                    assert(b2.orders.dom().contains(i as u32));
                                } else {
                                    assert(ev2.books[ev.routing[i] as int] == ev.books[ev.routing[i] as int]);
                                }
                            } else {
                                assert(i == ev.routing.len());
                                assert(ev2.routing[i] == k as usize);
                                assert(i as u32 == id);
                                assert(ev2.books[k] == b2);
                                assert(b2.orders.dom() == ev.books[k].orders.dom().insert(id));
                                assert(b2.orders.dom().contains(id));
                            }
                        }
                        assert forall|kk: int, id2: u32|
                            0 <= kk < ev2.books.len() && #[trigger] ev2.books[kk].orders.contains_key(
                                id2,
                            ) implies id2 < ev2.routing.len() && ev2.routing[id2 as int] == kk
                            as usize by {
                            if kk == k {
                                if id2 == id {
                                } else {
                                    assert(ev.books[k].orders.dom().contains(id2));
                                }
                            } else {
                                assert(ev.books[kk].orders.contains_key(id2));
                            }
                        }
                    }
                },
            }
        },
        Cmd::Status(_) => {},
        Cmd::Cancel(info) => {
            let id = info.spec_order_id();
            if id < ev.routing.len() {
                let k = ev.routing[id as int] as int;
                lemma_cancel_model_wf(ev.books[k], id);
                let b2 = cancel_model(ev.books[k], id).0;
                assert(ev2.wf()) by {
                    assert forall|i: int|
                        0 <= i < ev2.routing.len() implies (#[trigger] ev2.routing[i])
                        < ev2.books.len() && ev2.books[ev2.routing[i] as int].orders.contains_key(
                        i as u32,
                    ) by {
                        assert(ev.books[ev.routing[i] as int].orders.contains_key(i as u32));
                        if ev.routing[i] as int == k {
                            assert(b2.orders.dom() == ev.books[k].orders.dom());
                        }
                    }
                    assert forall|kk: int, id2: u32|
                        0 <= kk < ev2.books.len() && #[trigger] ev2.books[kk].orders.contains_key(
                            id2,
                        ) implies id2 < ev2.routing.len() && ev2.routing[id2 as int] == kk
                        as usize by {
                        if kk == k {
                            assert(b2.orders.dom() == ev.books[k].orders.dom());
                            assert(ev.books[k].orders.contains_key(id2));
                        } else {
                            assert(ev.books[kk].orders.contains_key(id2));
                        }
                    }
                }
            }
        },
    }
}

/// Whether an execution finds its instrument.
pub open spec fn lookup_ok(ev: EngineView, cmd: Cmd) -> bool {
    match cmd {
        Cmd::Execute(info) => lookup_symbol(ev.symbols, info.symbol@) is Some,
        _ => false,
    }
}

/// The engine: one book per registered instrument (fixed at construction),
/// and a routing table assigning each order id, in order of assignment, to
/// the book that owns it. The next order id is the table's length.
pub struct MatchingEngine {
    pub order_books: Vec<OrderBook>,
    order_id_to_symbol: Vec<usize>,
}

impl View for MatchingEngine {
    type V = EngineView;

    closed spec fn view(&self) -> EngineView {
        EngineView {
            books: self.order_books@.map_values(|b: OrderBook| b@),
            symbols: self.order_books@.map_values(|b: OrderBook| b.spec_symbol()),
            routing: self.order_id_to_symbol@,
        }
    }
}

impl MatchingEngine {
    /// Builds one empty book per registered instrument; the registry is fixed
    /// for the engine's whole life.
    pub fn new(symbols: Vec<Symbol>) -> (r: MatchingEngine)
        ensures
            r@.wf(),
            r@.symbols == symbols@,
            r@.routing == Seq::<usize>::empty(),
            forall|k: int|
                0 <= k < r@.books.len() ==> (#[trigger] r@.books[k]).orders
                    == Map::<u32, Order>::empty(),
            r@.books.len() == symbols@.len(),
    {
        let ghost all = symbols@;
        let mut symbols = symbols;
        let mut order_books: Vec<OrderBook> = Vec::new();
        while symbols.len() > 0
            invariant
                order_books@.len() + symbols@.len() == all.len(),
                symbols@ == all.skip(order_books@.len() as int),
                forall|k: int|
                    0 <= k < order_books@.len() ==> {
                        &&& (#[trigger] order_books@[k]).spec_symbol() == all[k]
                        &&& order_books@[k]@.wf()
                        &&& order_books@[k]@.orders == Map::<u32, Order>::empty()
                        &&& order_books@[k]@.bids == Seq::<(u64, Seq<u32>)>::empty()
                        &&& order_books@[k]@.asks == Seq::<(u64, Seq<u32>)>::empty()
                        &&& order_books@[k]@.market_bids == Seq::<u32>::empty()
                        &&& order_books@[k]@.market_asks == Seq::<u32>::empty()
                    },
            decreases symbols@.len(),
        {
            let s = symbols.remove(0);
            proof {
                assert(s == all[order_books@.len() as int]);
                assert(symbols@ =~= all.skip(order_books@.len() as int + 1));
            }
            order_books.push(OrderBook::new(s));
        }
        let n = order_books.len();
        let r = MatchingEngine { order_books, order_id_to_symbol: Vec::new() };
        proof {
            assert(r@.books.len() == n);
            assert(r@.symbols =~= all);
            assert(r@.wf());
        }
        r
    }

    /// Assigns the next order id to the request, matches it against the book
    /// of its instrument, and reports the resulting status together with the
    /// new top of book whenever the top of book moved. An instrument outside
    /// the registry is rejected without consuming an id.
    pub fn place_order(&mut self, order_info: OrderInfo) -> (r: (OrderStatus, Option<PriceInfo>))
        requires
            old(self)@.wf(),
            order_info.wf(),
            old(self)@.routing.len() < u32::MAX,
        ensures
            final(self)@.wf(),
            ({
                let (ev2, st, pi) = engine_step(old(self)@, Cmd::Execute(order_info));
                &&& final(self)@ == ev2
                &&& Ok::<OrderStatus, InvalidOrderId>(r.0) == st
                &&& (match (r.1, pi) {
                    (None, None) => true,
                    (Some(p), Some(t)) => p.symbol@ == t.0 && p.best_bid == t.1.0 && p.bid_size
                        == t.1.1 && p.best_ask == t.1.2 && p.ask_size == t.1.3,
                    _ => false,
                })
            }),
    {
        let ghost ev = self@;
        let ghost ticker_view = order_info.symbol@;
        proof {
            lemma_lookup_symbol(ev.symbols, ticker_view);
            lemma_engine_step_wf(ev, Cmd::Execute(order_info));
        }
        let n = self.order_books.len();
        let mut k: usize = 0;
        while k < n && !self.order_books[k].symbol().ticker().eq(order_info.symbol.ticker())
            invariant
                0 <= k <= n,
                n == self.order_books@.len(),
                *self == *old(self),
                ev == self@,
                ticker_view == order_info.symbol@,
                forall|j: int| 0 <= j < k ==> (#[trigger] ev.symbols[j])@ != ticker_view,
            decreases n - k,
        {
            k = k + 1;
        }
        if k == n {
            proof {
                if lookup_symbol(ev.symbols, ticker_view) is Some {
                    let kk = lookup_symbol(ev.symbols, ticker_view).unwrap();
                    assert(ev.symbols[kk]@ != ticker_view);
                }
            }
            let next_id = self.order_id_to_symbol.len() as u32;
            return (OrderStatus::Rejected(next_id, "symbol does not exist"), None);
        }
        proof {
            assert(lookup_symbol(ev.symbols, ticker_view) == Some(k as int)) by {
                if lookup_symbol(ev.symbols, ticker_view) is None {
                    assert(ev.symbols[k as int]@ != ticker_view);
                }
                let kk = lookup_symbol(ev.symbols, ticker_view).unwrap();
                if kk < k as int {
                    assert(ev.symbols[kk]@ != ticker_view);
                } else if kk > k as int {
                    assert(ev.symbols[k as int]@ != ticker_view);
                }
            }
        }
        let id = self.order_id_to_symbol.len() as u32;
        let order = order_info.consume(id);
        proof {
            assert(!ev.books[k as int].orders.contains_key(id));
        }
        let mut book = self.order_books.remove(k);
        let top_pre = book.get_top_level();
        let status = book.order(order);
        let top_post = book.get_top_level();
        let price_info = if top_post.0 > top_pre.0 || top_post.2 < top_pre.2 || top_post.1
            != top_pre.1 || top_post.3 != top_pre.3 {
            Some(
                PriceInfo::new(
                    book.symbol_owned(),
                    top_post.0,
                    top_post.1,
                    top_post.2,
                    top_post.3,
                ),
            )
        } else {
            None
        };
        self.order_books.insert(k, book);
        self.order_id_to_symbol.push(k);
        proof {
            let (ev2, st, pi) = engine_step(ev, Cmd::Execute(order_info));
            assert(self@.books =~= ev2.books);
            assert(self@.symbols =~= ev2.symbols);
            assert(self@ == ev2);
        }
        (status, price_info)
    }

    /// Looks up an order's current status via the routing table.
    pub fn status(&self, order_id: u32) -> (r: Result<OrderStatus, InvalidOrderId>)
        requires
            self@.wf(),
        ensures
            order_id < self@.routing.len() ==> r == Ok::<OrderStatus, InvalidOrderId>(
                self@.books[self@.routing[order_id as int] as int].orders[order_id].spec_status(),
            ),
            order_id >= self@.routing.len() ==> r == Err::<OrderStatus, InvalidOrderId>(
                InvalidOrderId,
            ),
    {
        if (order_id as usize) < self.order_id_to_symbol.len() {
            let k = self.order_id_to_symbol[order_id as usize];
            self.order_books[k].status(order_id)
        } else {
            Err(InvalidOrderId)
        }
    }

    /// Cancels an order via the routing table; idempotent on orders already
    /// canceled or fully filled.
    pub fn cancel(&mut self, order_id: u32) -> (r: Result<OrderStatus, InvalidOrderId>)
        requires
            old(self)@.wf(),
        ensures
            final(self)@.wf(),
            order_id >= old(self)@.routing.len() ==> final(self)@ == old(self)@ && r == Err::<
                OrderStatus,
                InvalidOrderId,
            >(InvalidOrderId),
            order_id < old(self)@.routing.len() ==> ({
                let k = old(self)@.routing[order_id as int] as int;
                let (b2, st) = cancel_model(old(self)@.books[k], order_id);
                final(self)@ == (EngineView { books: old(self)@.books.update(k, b2), ..old(self)@ })
                    && r == st
            }),
    {
        let ghost ev = self@;
        if (order_id as usize) < self.order_id_to_symbol.len() {
            let ghost kk = ev.routing[order_id as int] as int;
            proof {
                lemma_cancel_model_wf(ev.books[kk], order_id);
            }
            let k = self.order_id_to_symbol[order_id as usize];
            let mut book = self.order_books.remove(k);
            let r = book.cancel(order_id);
            self.order_books.insert(k, book);
            proof {
                let (b2, st) = cancel_model(ev.books[kk], order_id);
                assert(self@.books =~= ev.books.update(kk, b2));
                assert(self@.symbols =~= ev.symbols);
                assert(self@ == (EngineView { books: ev.books.update(kk, b2), ..ev }));
                // the cancel keeps every routing fact: the index set of the
                // touched book is unchanged
                assert(self@.wf()) by {
                    assert forall|i: int|
                        0 <= i < self@.routing.len() implies (#[trigger] self@.routing[i])
                        < self@.books.len() && self@.books[self@.routing[i] as int].orders.contains_key(
                        i as u32,
                    ) by {
                        assert(ev.books[ev.routing[i] as int].orders.contains_key(i as u32));
                        if ev.routing[i] as int == kk {
                            assert(b2.orders.dom() == ev.books[kk].orders.dom());
                        }
                    }
                    assert forall|k2: int, id2: u32|
                        0 <= k2 < self@.books.len() && #[trigger] self@.books[k2].orders.contains_key(
                            id2,
                        ) implies id2 < self@.routing.len() && self@.routing[id2 as int] == k2
                        as usize by {
                        if k2 == kk {
                            assert(b2.orders.dom() == ev.books[kk].orders.dom());
                            assert(ev.books[kk].orders.contains_key(id2));
                        } else {
                            assert(ev.books[k2].orders.contains_key(id2));
                        }
                    }
                }
            }
            r
        } else {
            Err(InvalidOrderId)
        }
    }

    /// Dispatches one command and reports its reply together with any
    /// top-of-book update to publish.
    pub fn process_command(&mut self, cmd: Cmd) -> (r: (
        Result<OrderStatus, InvalidOrderId>,
        Option<PriceInfo>,
    ))
        requires
            old(self)@.wf(),
            cmd_wf(cmd),
            cmd_is_execute(cmd) ==> old(self)@.routing.len() < u32::MAX,
        ensures
            final(self)@.wf(),
            ({
                let (ev2, st, pi) = engine_step(old(self)@, cmd);
                &&& final(self)@ == ev2
                &&& r.0 == st
                &&& price_info_matches(r.1, pi)
            }),
    {
        match cmd {
            Cmd::Execute(order_info) => {
                let (status, price_info) = self.place_order(order_info);
                (Ok(status), price_info)
            },
            Cmd::Status(status_info) => {
                let (_account_id, order_id) = status_info.consume();
                (self.status(order_id), None)
            },
            Cmd::Cancel(cancel_info) => {
                let (_account_id, order_id) = cancel_info.consume();
                (self.cancel(order_id), None)
            },
        }
    }
}

/// Whether a published snapshot carries exactly the modeled update: the same
/// ticker text and the same top-of-book quadruple.
pub open spec fn price_info_matches(
    p: Option<PriceInfo>,
    t: Option<(Seq<char>, (u64, u64, u64, u64))>,
) -> bool {
    match (p, t) {
        (None, None) => true,
        (Some(p), Some(t)) => p.symbol@ == t.0 && p.best_bid == t.1.0 && p.bid_size == t.1.1
            && p.best_ask == t.1.2 && p.ask_size == t.1.3,
        _ => false,
    }
}

/// Drains a batch of commands in FIFO order, replying to each in turn; no
/// reordering, no batching semantics, one reply per command.
pub fn process_orders(engine: &mut MatchingEngine, cmds: Vec<Cmd>) -> (results: Vec<
    (Result<OrderStatus, InvalidOrderId>, Option<PriceInfo>),
>)
    requires
        old(engine)@.wf(),
        forall|j: int| 0 <= j < cmds@.len() ==> cmd_wf(#[trigger] cmds@[j]),
        old(engine)@.routing.len() + cmds@.len() <= u32::MAX,
    ensures
        final(engine)@.wf(),
        final(engine)@ == engine_run(old(engine)@, cmds@).0,
        results@.len() == cmds@.len(),
        forall|i: int|
            0 <= i < cmds@.len() ==> {
                let modeled = engine_run(old(engine)@, cmds@).1;
                (#[trigger] results@[i]).0 == modeled[i].0 && price_info_matches(
                    results@[i].1,
                    modeled[i].1,
                )
            },
{
    let ghost ev0 = old(engine)@;
    let ghost all = cmds@;
    let mut cmds = cmds;
    let mut results: Vec<(Result<OrderStatus, InvalidOrderId>, Option<PriceInfo>)> = Vec::new();
    proof {
        lemma_engine_run_len(ev0, all);
    }
    while cmds.len() > 0
        invariant
            engine@.wf(),
            results@.len() + cmds@.len() == all.len(),
            engine@.routing.len() + cmds@.len() <= u32::MAX,
            forall|j: int| 0 <= j < cmds@.len() ==> cmd_wf(#[trigger] cmds@[j]),
            engine_run(ev0, all).0 == engine_run(engine@, cmds@).0,
            engine_run(ev0, all).1.len() == all.len(),
            engine_run(engine@, cmds@).1.len() == cmds@.len(),
            forall|i: int|
                results@.len() <= i < all.len() ==> engine_run(ev0, all).1[i] == engine_run(
                    engine@,
                    cmds@,
                ).1[i - results@.len()],
            forall|i: int|
                0 <= i < results@.len() ==> {
                    let modeled = engine_run(ev0, all).1;
                    (#[trigger] results@[i]).0 == modeled[i].0 && price_info_matches(
                        results@[i].1,
                        modeled[i].1,
                    )
                },
        decreases cmds@.len(),
    {
        let ghost pre_ev = engine@;
        let ghost pre_cmds = cmds@;
        let ghost done = results@.len() as int;
        let cmd = cmds.remove(0);
        proof {
            assert(cmds@ =~= pre_cmds.drop_first());
            lemma_engine_step_wf(pre_ev, pre_cmds[0]);
            lemma_engine_run_len(engine_step(pre_ev, pre_cmds[0]).0, pre_cmds.drop_first());
        }
        let r = engine.process_command(cmd);
        results.push(r);
        proof {
            let (ev1, st, pi) = engine_step(pre_ev, pre_cmds[0]);
            assert(engine_run(pre_ev, pre_cmds).0 == engine_run(ev1, pre_cmds.drop_first()).0);
            assert(engine_run(pre_ev, pre_cmds).1 =~= seq![(st, pi)] + engine_run(
                ev1,
                pre_cmds.drop_first(),
            ).1);
            assert(engine_run(ev0, all).1[done] == (st, pi));
            assert forall|i: int|
                results@.len() <= i < all.len() implies engine_run(ev0, all).1[i] == engine_run(
                engine@,
                cmds@,
            ).1[i - results@.len()] by {
                assert(engine_run(ev0, all).1[i] == engine_run(pre_ev, pre_cmds).1[i - done]);
            }
        }
    }
    proof {
        assert(engine_run(engine@, cmds@).0 == engine@);
        assert(results@.len() == all.len());
    }
    results
}

/// The run model replies to every command exactly once.
pub proof fn lemma_engine_run_len(ev: EngineView, cmds: Seq<Cmd>)
    ensures
        engine_run(ev, cmds).1.len() == cmds.len(),
    decreases cmds.len(),
{
    if cmds.len() > 0 {
        let (ev1, r, pi) = engine_step(ev, cmds[0]);
        lemma_engine_run_len(ev1, cmds.drop_first());
    }
}

} // verus!
