//! Shared vocabulary: command and order kinds, statuses, instrument identity,
//! the command payloads handed to the engine, and the order record itself.

use vstd::prelude::*;

verus! {

/// Largest price the engine accepts on a limit or stop order. Together with
/// [`QTY_MAX`] it guarantees that an order's cumulative fill cost
/// (at most `quantity * PRICE_MAX`) fits in a `u64`.
pub const PRICE_MAX: u64 = 0xFFFF_FFFF;

/// Largest order quantity the engine accepts. See [`PRICE_MAX`].
pub const QTY_MAX: u64 = 0xFFFF_FFFF;

/// Conversion from a one-byte wire identifier into a tag type.
pub trait FromId: Sized {
    /// Which identifier bytes denote a value of this type.
    spec fn valid_id(id: u8) -> bool;

    /// The value a valid identifier byte denotes.
    spec fn id_value(id: u8) -> Self;

    fn from_id(id: u8) -> (r: Self)
        requires
            Self::valid_id(id),
        ensures
            r == Self::id_value(id),
    ;
}

/// The kind of command a caller submits.
#[derive(Debug, Clone, Copy, PartialEq, Eq, Structural)]
pub enum CmdType {
    Execute,
    Status,
    Cancel,
}

impl FromId for CmdType {
    open spec fn valid_id(id: u8) -> bool {
        id == 0 || id == 2 || id == 3
    }

    open spec fn id_value(id: u8) -> CmdType {
        if id == 0 {
            CmdType::Execute
        } else if id == 2 {
            CmdType::Status
        } else {
            CmdType::Cancel
        }
    }

    fn from_id(id: u8) -> (r: CmdType) {
        match id {
            0 => CmdType::Execute,
            2 => CmdType::Status,
            3 => CmdType::Cancel,
            _ => vstd::pervasive::unreached(),
        }
    }
}

/// Which side of the book an order stands on.
#[derive(Debug, Clone, Copy, PartialEq, Eq, Structural)]
pub enum OrderSide {
    Buy,
    Sell,
}

impl FromId for OrderSide {
    open spec fn valid_id(id: u8) -> bool {
        id == 0 || id == 1
    }

    open spec fn id_value(id: u8) -> OrderSide {
        if id == 0 {
            OrderSide::Buy
        } else {
            OrderSide::Sell
        }
    }

    fn from_id(id: u8) -> (r: OrderSide) {
        match id {
            0 => OrderSide::Buy,
            1 => OrderSide::Sell,
            _ => vstd::pervasive::unreached(),
        }
    }
}

/// The kind of an order.
/// * `Market` - trade at whatever price the book offers
/// * `Limit(price)` - trade only at the given price threshold or better
/// * `Stop(price)` - rest until the stop threshold is reached
#[derive(Debug, Clone, Copy, PartialEq, Eq, Structural)]
pub enum OrderType {
    Market,
    Limit(u64),
    Stop(u64),
}

impl FromId for OrderType {
    open spec fn valid_id(id: u8) -> bool {
        id == 0 || id == 1 || id == 2
    }

    open spec fn id_value(id: u8) -> OrderType {
        if id == 0 {
            OrderType::Market
        } else if id == 1 {
            OrderType::Limit(0)
        } else {
            OrderType::Stop(0)
        }
    }

    fn from_id(id: u8) -> (r: OrderType) {
        match id {
            0 => OrderType::Market,
            1 => OrderType::Limit(0u64),
            2 => OrderType::Stop(0u64),
            _ => vstd::pervasive::unreached(),
        }
    }
}

impl OrderType {
    /// Limit and stop prices must stay within [`PRICE_MAX`].
    pub open spec fn price_within_bounds(self) -> bool {
        match self {
            OrderType::Market => true,
            OrderType::Limit(p) => p <= PRICE_MAX,
            OrderType::Stop(p) => p <= PRICE_MAX,
        }
    }
}

/// The outcome reported back for a command.
/// * `Filled(order_id, total_cost)` - the whole quantity was matched
/// * `PartiallyFilled(order_id, filled_qty, total_cost)` - part was matched
/// * `Waiting(order_id)` - accepted and resting, nothing matched yet
/// * `Rejected(order_id, reason)` - not accepted, with the reason
/// * `Canceled(order_id)` - canceled on request
#[derive(Debug, Clone, Copy, PartialEq)]
pub enum OrderStatus {
    Filled(u32, u64),
    PartiallyFilled(u32, u64, u64),
    Waiting(u32),
    Rejected(u32, &'static str),
    Canceled(u32),
}

/// Immutable identity of a tradable instrument.
#[derive(Clone, Hash, Eq, PartialEq, Debug)]
pub struct Symbol {
    ticker: String,
}

impl View for Symbol {
    type V = Seq<char>;

    closed spec fn view(&self) -> Seq<char> {
        self.ticker@
    }
}

impl Symbol {
    pub fn new(ticker: String) -> (r: Self)
        ensures
            r@ == ticker@,
    {
        Symbol { ticker }
    }

    pub fn ticker(&self) -> (r: &String)
        ensures
            r@ == self@,
    {
        &self.ticker
    }
}

/// A top-of-book snapshot for one instrument: best bid and ask price with the
/// aggregate quantity resting at each.
#[derive(Clone, Debug)]
pub struct PriceInfo {
    pub symbol: Symbol,
    pub best_bid: u64,
    pub bid_size: u64,
    pub best_ask: u64,
    pub ask_size: u64,
}

impl PriceInfo {
    pub fn new(symbol: Symbol, best_bid: u64, bid_size: u64, best_ask: u64, ask_size: u64) -> (r:
        PriceInfo)
        ensures
            r.symbol == symbol,
            r.best_bid == best_bid,
            r.bid_size == bid_size,
            r.best_ask == best_ask,
            r.ask_size == ask_size,
    {
        PriceInfo { symbol, best_bid, bid_size, best_ask, ask_size }
    }

    pub fn get_symbol(&self) -> (r: &Symbol)
        ensures
            *r == self.symbol,
    {
        &self.symbol
    }
}

/// Payload of a status query.
pub struct StatusInfo {
    account_id: u32,
    order_id: u32,
}

impl StatusInfo {
    pub closed spec fn spec_account_id(&self) -> u32 {
        self.account_id
    }

    pub closed spec fn spec_order_id(&self) -> u32 {
        self.order_id
    }

    /// The payload a given account and order id denote.
    pub closed spec fn spec_new(account_id: u32, order_id: u32) -> StatusInfo {
        StatusInfo { account_id, order_id }
    }

    pub fn new(account_id: u32, order_id: u32) -> (r: StatusInfo)
        ensures
            r.spec_account_id() == account_id,
            r.spec_order_id() == order_id,
            r == StatusInfo::spec_new(account_id, order_id),
    {
        StatusInfo { account_id, order_id }
    }

    pub fn consume(self) -> (r: (u32, u32))
        ensures
            r.0 == self.spec_account_id(),
            r.1 == self.spec_order_id(),
    {
        (self.account_id, self.order_id)
    }
}

/// Payload of a cancel request.
pub struct CancelInfo {
    account_id: u32,
    order_id: u32,
}

impl CancelInfo {
    pub closed spec fn spec_account_id(&self) -> u32 {
        self.account_id
    }

    pub closed spec fn spec_order_id(&self) -> u32 {
        self.order_id
    }

    /// The payload a given account and order id denote.
    pub closed spec fn spec_new(account_id: u32, order_id: u32) -> CancelInfo {
        CancelInfo { account_id, order_id }
    }

    pub fn new(account_id: u32, order_id: u32) -> (r: CancelInfo)
        ensures
            r.spec_account_id() == account_id,
            r.spec_order_id() == order_id,
            r == CancelInfo::spec_new(account_id, order_id),
    {
        CancelInfo { account_id, order_id }
    }

    pub fn consume(self) -> (r: (u32, u32))
        ensures
            r.0 == self.spec_account_id(),
            r.1 == self.spec_order_id(),
    {
        (self.account_id, self.order_id)
    }
}

/// Payload of an order submission, before an order id has been assigned.
pub struct OrderInfo {
    pub account_id: u32,
    pub symbol: Symbol,
    pub order_type: OrderType,
    pub side: OrderSide,
    pub quantity: u64,
}

impl OrderInfo {
    pub fn new(
        account_id: u32,
        symbol: Symbol,
        order_type: OrderType,
        order_side: OrderSide,
        quantity: u64,
    ) -> (r: OrderInfo)
        ensures
            r.account_id == account_id,
            r.symbol == symbol,
            r.order_type == order_type,
            r.side == order_side,
            r.quantity == quantity,
    {
        OrderInfo { account_id, symbol, order_type, side: order_side, quantity }
    }

    /// The submission stays within the engine's price and quantity bounds.
    pub open spec fn wf(&self) -> bool {
        &&& self.quantity <= QTY_MAX
        &&& self.order_type.price_within_bounds()
    }

    pub fn consume(self, order_id: u32) -> (r: Order)
        ensures
            r == (Order {
                id: order_id,
                account_id: self.account_id,
                symbol: self.symbol,
                order_type: self.order_type,
                side: self.side,
                quantity: self.quantity,
                remaining_quantity: self.quantity,
                cost: 0u64,
                is_canceled: false,
            }),
    {
        Order {
            id: order_id,
            account_id: self.account_id,
            symbol: self.symbol,
            order_type: self.order_type,
            side: self.side,
            quantity: self.quantity,
            remaining_quantity: self.quantity,
            cost: 0u64,
            is_canceled: false,
        }
    }
}

/// A command for the engine: submit, query or cancel an order.
pub enum Cmd {
    Execute(OrderInfo),
    Status(StatusInfo),
    Cancel(CancelInfo),
}

/// The fill-state record of one submitted order.
#[derive(Clone, Debug)]
pub struct Order {
    pub id: u32,
    pub account_id: u32,
    pub symbol: Symbol,
    pub order_type: OrderType,
    pub side: OrderSide,
    pub quantity: u64,
    pub remaining_quantity: u64,
    pub cost: u64,
    pub is_canceled: bool,
}

impl Order {
    /// Accounting invariant: the unfilled part never exceeds the original
    /// quantity, bounds are respected, and the cumulative cost is at most
    /// what the filled part could have cost at the highest admissible price.
    pub open spec fn wf(&self) -> bool {
        &&& self.remaining_quantity <= self.quantity
        &&& self.quantity <= QTY_MAX
        &&& self.order_type.price_within_bounds()
        &&& self.cost <= (self.quantity - self.remaining_quantity) * PRICE_MAX
    }

    /// An order that has not been touched by any fill or cancel.
    pub open spec fn is_fresh(&self) -> bool {
        &&& self.remaining_quantity == self.quantity
        &&& self.cost == 0
        &&& !self.is_canceled
    }

    /// The status the book reports for this fill state: canceled wins, then
    /// untouched means waiting, exhausted means filled, anything else is a
    /// partial fill.
    pub open spec fn spec_status(&self) -> OrderStatus {
        if self.is_canceled {
            OrderStatus::Canceled(self.id)
        } else if self.remaining_quantity == self.quantity {
            OrderStatus::Waiting(self.id)
        } else if self.remaining_quantity == 0 {
            OrderStatus::Filled(self.id, self.cost)
        } else {
            OrderStatus::PartiallyFilled(
                self.id,
                (self.quantity - self.remaining_quantity) as u64,
                self.cost,
            )
        }
    }

    pub fn get_status_based_on_fill(&self) -> (r: OrderStatus)
        requires
            self.remaining_quantity <= self.quantity,
        ensures
            r == self.spec_status(),
    {
        if self.is_canceled {
            OrderStatus::Canceled(self.id)
        } else if self.remaining_quantity == self.quantity {
            OrderStatus::Waiting(self.id)
        } else if self.remaining_quantity == 0 {
            OrderStatus::Filled(self.id, self.cost)
        } else {
            OrderStatus::PartiallyFilled(self.id, self.quantity - self.remaining_quantity, self.cost)
        }
    }

    /// This order after a fill of `num_filled` shares at `cost_per_share`.
    pub open spec fn spec_filled(self, num_filled: u64, cost_per_share: u64) -> Order {
        Order {
            remaining_quantity: (self.remaining_quantity - num_filled) as u64,
            cost: (self.cost + num_filled * cost_per_share) as u64,
            ..self
        }
    }

    pub fn fill_shares(&mut self, num_filled: u64, cost_per_share: u64)
        requires
            num_filled <= old(self).remaining_quantity,
            old(self).cost + num_filled * cost_per_share <= u64::MAX,
        ensures
            *final(self) == old(self).spec_filled(num_filled, cost_per_share),
    {
        self.remaining_quantity = self.remaining_quantity - num_filled;
        self.cost = self.cost + num_filled * cost_per_share;
    }

    pub fn is_fully_filled(&self) -> (r: bool)
        ensures
            r == (self.remaining_quantity == 0),
    {
        self.remaining_quantity == 0
    }
}

/// LAW (conservation): one matched fill of `f` shares at price `p` moves
/// exactly `f` shares out of each side's remaining quantity and into its
/// filled quantity; a remainder can never go negative, since a fill never
/// exceeds it.
pub proof fn lemma_fill_conservation(a: Order, b: Order, f: u64, p: u64)
    requires
        a.wf(),
        b.wf(),
        p <= PRICE_MAX,
        f <= a.remaining_quantity,
        f <= b.remaining_quantity,
    ensures
        a.remaining_quantity - a.spec_filled(f, p).remaining_quantity == f,
        b.remaining_quantity - b.spec_filled(f, p).remaining_quantity == f,
        (a.spec_filled(f, p).quantity - a.spec_filled(f, p).remaining_quantity) == (a.quantity
            - a.remaining_quantity) + f,
        (b.spec_filled(f, p).quantity - b.spec_filled(f, p).remaining_quantity) == (b.quantity
            - b.remaining_quantity) + f,
        a.spec_filled(f, p).remaining_quantity >= 0,
        b.spec_filled(f, p).remaining_quantity >= 0,
{
}

/// A fill within the remaining quantity at an admissible price can never
/// overflow the cumulative cost and keeps the accounting invariant.
pub proof fn lemma_fill_keeps_wf(o: Order, f: u64, p: u64)
    requires
        o.wf(),
        f <= o.remaining_quantity,
        p <= PRICE_MAX,
    ensures
        o.cost + f * p <= u64::MAX,
        o.spec_filled(f, p).wf(),
{
    assert(o.cost + f * p <= (o.quantity - (o.remaining_quantity - f)) * 0xFFFF_FFFFu64
        && (o.quantity - (o.remaining_quantity - f)) * 0xFFFF_FFFFu64 <= 0xFFFF_FFFFu64
        * 0xFFFF_FFFFu64) by (nonlinear_arith)
        requires
            o.cost <= (o.quantity - o.remaining_quantity) * 0xFFFF_FFFFu64,
            f <= o.remaining_quantity,
            o.remaining_quantity <= o.quantity,
            o.quantity <= 0xFFFF_FFFFu64,
            p <= 0xFFFF_FFFFu64,
    {}
}

} // verus!
