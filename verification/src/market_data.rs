//! The market-data provider's state and wire format: the latest top-of-book
//! snapshot per instrument, and the byte image pushed to subscribers (for
//! each instrument: four ticker bytes, then best bid, bid size, best ask and
//! ask size as big-endian 64-bit fields). The transport that carries the
//! image lives outside the library.

use vstd::prelude::*;
use crate::gateway::{be_u64_bytes, push_be_u64, symbol_bytes};
use crate::types::{PriceInfo, Symbol};

verus! {

/// The four wire bytes of an instrument's ticker; a ticker that does not
/// encode to exactly four bytes is sent as zeroes.
pub open spec fn ticker4(s: Symbol) -> Seq<u8> {
    if symbol_bytes(s).len() == 4 {
        symbol_bytes(s)
    } else {
        seq![0u8, 0u8, 0u8, 0u8]
    }
}

/// The wire image of one instrument's snapshot.
pub open spec fn price_entry_bytes(pi: PriceInfo) -> Seq<u8> {
    ticker4(pi.symbol) + be_u64_bytes(pi.best_bid) + be_u64_bytes(pi.bid_size) + be_u64_bytes(
        pi.best_ask,
    ) + be_u64_bytes(pi.ask_size)
}

/// The wire image of a whole snapshot table, in table order.
pub open spec fn snapshot_model(prices: Seq<PriceInfo>) -> Seq<u8>
    decreases prices.len(),
{
    if prices.len() == 0 {
        Seq::empty()
    } else {
        price_entry_bytes(prices[0]) + snapshot_model(prices.drop_first())
    }
}

/// The image of a prefix grows entry by entry.
proof fn lemma_snapshot_take(prices: Seq<PriceInfo>, k: int)
    requires
        0 <= k < prices.len(),
    ensures
        snapshot_model(prices.take(k + 1)) == snapshot_model(prices.take(k)) + price_entry_bytes(
            prices[k],
        ),
    decreases k,
{
    if k == 0 {
        assert(prices.take(1).drop_first() =~= prices.take(0));
        assert(snapshot_model(prices.take(1)) =~= snapshot_model(prices.take(0))
            + price_entry_bytes(prices[0]));
    } else {
        lemma_snapshot_take(prices.drop_first(), k - 1);
        assert(prices.take(k + 1).drop_first() =~= prices.drop_first().take(k));
        assert(prices.take(k).drop_first() =~= prices.drop_first().take(k - 1));
        assert(prices.take(k + 1)[0] == prices[0] && prices.take(k)[0] == prices[0]);
        assert(prices.drop_first()[k - 1] == prices[k]);
        assert(snapshot_model(prices.take(k + 1)) =~= snapshot_model(prices.take(k))
            + price_entry_bytes(prices[k]));
    }
}

/// The index of the first table entry for this instrument's ticker, if any.
pub open spec fn price_index_of(prices: Seq<PriceInfo>, ticker: Seq<char>) -> Option<int>
    decreases prices.len(),
{
    if prices.len() == 0 {
        None
    } else if prices[0].symbol@ == ticker {
        Some(0int)
    } else {
        match price_index_of(prices.drop_first(), ticker) {
            None => None,
            Some(k) => Some(k + 1),
        }
    }
}

/// A found table index is in range and matches; earlier ones do not.
proof fn lemma_price_index_of(prices: Seq<PriceInfo>, ticker: Seq<char>)
    ensures
        match price_index_of(prices, ticker) {
            Some(k) => 0 <= k < prices.len() && prices[k].symbol@ == ticker && forall|j: int|
                0 <= j < k ==> (#[trigger] prices[j]).symbol@ != ticker,
            None => forall|j: int|
                0 <= j < prices.len() ==> (#[trigger] prices[j]).symbol@ != ticker,
        },
    decreases prices.len(),
{
    if prices.len() > 0 && prices[0].symbol@ != ticker {
        let tl = prices.drop_first();
        lemma_price_index_of(tl, ticker);
        assert(forall|j: int| 0 <= j < tl.len() ==> tl[j] == prices[j + 1]);
        match price_index_of(tl, ticker) {
            None => {
                assert forall|j: int| 0 <= j < prices.len() implies (#[trigger] prices[j]).symbol@
                    != ticker by {
                    if j > 0 {
                        assert(tl[j - 1].symbol@ != ticker);
                    }
                }
            },
            Some(kp) => {
                assert(prices[kp + 1].symbol@ == ticker) by {
                    assert(tl[kp] == prices[kp + 1]);
                }
                assert forall|j: int| 0 <= j < kp + 1 implies (#[trigger] prices[j]).symbol@
                    != ticker by {
                    if j > 0 {
                        assert(tl[j - 1].symbol@ != ticker);
                    }
                }
            },
        }
    }
}

/// The table after one snapshot arrives: it replaces the instrument's entry,
/// or joins the table if the instrument had none.
pub open spec fn update_price_model(prices: Seq<PriceInfo>, pi: PriceInfo) -> Seq<PriceInfo> {
    match price_index_of(prices, pi.symbol@) {
        Some(k) => prices.update(k, pi),
        None => prices.push(pi),
    }
}

/// Keeps the latest top-of-book snapshot per instrument and renders the wire
/// image pushed to subscribers.
pub struct MarketDataProvider {
    symb_to_prices: Vec<PriceInfo>,
    pub ip_addr: &'static str,
    pub port: u32,
}

impl MarketDataProvider {
    /// The snapshot table, in registration order.
    pub closed spec fn prices(&self) -> Seq<PriceInfo> {
        self.symb_to_prices@
    }

    pub closed spec fn spec_ip_addr(&self) -> &'static str {
        self.ip_addr
    }

    pub closed spec fn spec_port(&self) -> u32 {
        self.port
    }

    /// Starts every registered instrument at an all-zero snapshot.
    pub fn new(ip_addr: &'static str, port: u32, symbols: Vec<Symbol>) -> (r: MarketDataProvider)
        ensures
            r.spec_ip_addr() == ip_addr,
            r.spec_port() == port,
            r.prices().len() == symbols@.len(),
            forall|k: int|
                0 <= k < symbols@.len() ==> #[trigger] r.prices()[k] == (PriceInfo {
                    symbol: symbols@[k],
                    best_bid: 0u64,
                    bid_size: 0u64,
                    best_ask: 0u64,
                    ask_size: 0u64,
                }),
    {
        let ghost all = symbols@;
        let mut symbols = symbols;
        let mut symb_to_prices: Vec<PriceInfo> = Vec::new();
        while symbols.len() > 0
            invariant
                symb_to_prices@.len() + symbols@.len() == all.len(),
                symbols@ == all.skip(symb_to_prices@.len() as int),
                forall|k: int|
                    0 <= k < symb_to_prices@.len() ==> #[trigger] symb_to_prices@[k] == (PriceInfo {
                        symbol: all[k],
                        best_bid: 0u64,
                        bid_size: 0u64,
                        best_ask: 0u64,
                        ask_size: 0u64,
                    }),
            decreases symbols@.len(),
        {
            let s = symbols.remove(0);
            proof {
                assert(s == all[symb_to_prices@.len() as int]);
                assert(symbols@ =~= all.skip(symb_to_prices@.len() as int + 1));
            }
            symb_to_prices.push(PriceInfo::new(s, 0, 0, 0, 0));
        }
        MarketDataProvider { symb_to_prices, ip_addr, port }
    }

    /// Installs a fresh snapshot for its instrument.
    pub fn update_price(&mut self, price_info: PriceInfo)
        ensures
            final(self).prices() == update_price_model(old(self).prices(), price_info),
            final(self).spec_ip_addr() == old(self).spec_ip_addr(),
            final(self).spec_port() == old(self).spec_port(),
    {
        let ghost pre = self.symb_to_prices@;
        let ghost ticker = price_info.symbol@;
        proof {
            lemma_price_index_of(pre, ticker);
        }
        let n = self.symb_to_prices.len();
        let mut k: usize = 0;
        while k < n && !self.symb_to_prices[k].get_symbol().ticker().eq(
            price_info.get_symbol().ticker(),
        )
            invariant
                0 <= k <= n,
                n == self.symb_to_prices@.len(),
                *self == *old(self),
                pre == self.symb_to_prices@,
                ticker == price_info.symbol@,
                forall|j: int| 0 <= j < k ==> (#[trigger] pre[j]).symbol@ != ticker,
            decreases n - k,
        {
            k = k + 1;
        }
        if k == n {
            proof {
                if price_index_of(pre, ticker) is Some {
                    let kk = price_index_of(pre, ticker).unwrap();
                    assert(pre[kk].symbol@ != ticker);
                }
            }
            self.symb_to_prices.push(price_info);
        } else {
            proof {
                assert(price_index_of(pre, ticker) == Some(k as int)) by {
                    if price_index_of(pre, ticker) is None {
                        assert(pre[k as int].symbol@ != ticker);
                    }
                    let kk = price_index_of(pre, ticker).unwrap();
                    if kk < k as int {
                        assert(pre[kk].symbol@ != ticker);
                    } else if kk > k as int {
                        assert(pre[k as int].symbol@ != ticker);
                    }
                }
            }
            let _ = self.symb_to_prices.remove(k);
            self.symb_to_prices.insert(k, price_info);
            proof {
                assert(self.symb_to_prices@ =~= pre.update(k as int, price_info));
            }
        }
    }

    /// Renders the whole table as the byte image pushed to subscribers.
    pub fn snapshot_bytes(&self) -> (r: Vec<u8>)
        ensures
            r@ == snapshot_model(self.prices()),
    {
        let mut data: Vec<u8> = Vec::new();
        let n = self.symb_to_prices.len();
        let mut i: usize = 0;
        proof {
            assert(self.prices().take(0).len() == 0);
            assert(data@ =~= snapshot_model(self.prices().take(0)));
        }
        while i < n
            invariant
                0 <= i <= n,
                n == self.prices().len(),
                data@ == snapshot_model(self.prices().take(i as int)),
            decreases n - i,
        {
            let pi = &self.symb_to_prices[i];
            proof {
                lemma_snapshot_take(self.prices(), i as int);
            }
            let ghost before = data@;
            let tb = pi.get_symbol().ticker().as_str().as_bytes();
            if tb.len() == 4 {
                data.push(*vstd::slice::slice_index_get(tb, 0));
                data.push(*vstd::slice::slice_index_get(tb, 1));
                data.push(*vstd::slice::slice_index_get(tb, 2));
                data.push(*vstd::slice::slice_index_get(tb, 3));
                proof {
                    assert(data@ =~= before + ticker4(pi.symbol));
                }
            } else {
                data.push(0u8);
                data.push(0u8);
                data.push(0u8);
                data.push(0u8);
                proof {
                    assert(data@ =~= before + ticker4(pi.symbol));
                }
            }
            push_be_u64(&mut data, pi.best_bid);
            push_be_u64(&mut data, pi.bid_size);
            push_be_u64(&mut data, pi.best_ask);
            push_be_u64(&mut data, pi.ask_size);
            proof {
                assert(data@ =~= snapshot_model(self.prices().take(i as int + 1)));
            }
            i = i + 1;
        }
        proof {
            assert(self.prices().take(n as int) =~= self.prices());
        }
        data
    }
}

} // verus!
