//! The gateway's command wire format: length-prefixed binary messages with
//! big-endian integers, a one-byte command/side tag, and fixed-width price
//! and quantity fields. Decoding a received payload into a command and
//! encoding a status reply are pure byte functions; the listener that frames
//! bytes off a connection lives outside the library.

use vstd::prelude::*;
use vstd::string::StringSliceAdditionalSpecFns;
use crate::types::{
    Cmd, OrderInfo, OrderSide, OrderStatus, OrderType, StatusInfo, CancelInfo, FromId, Symbol,
};

verus! {

/// The gateway endpoint identity: where the listener accepts connections.
pub struct Gateway {
    pub ip_addr: &'static str,
    pub port: u32,
}

impl Gateway {
    pub fn new(ip_addr: &'static str, port: u32) -> (r: Self)
        ensures
            r.ip_addr == ip_addr,
            r.port == port,
    {
        Gateway { ip_addr, port }
    }
}

/// The integer a big-endian four-byte field denotes.
pub open spec fn be_u32_of(s: Seq<u8>) -> int {
    s[0] * 0x100_0000 + s[1] * 0x1_0000 + s[2] * 0x100 + s[3]
}

/// The integer a big-endian eight-byte field denotes.
pub open spec fn be_u64_of(s: Seq<u8>) -> int {
    s[0] * 0x100_0000_0000_0000 + s[1] * 0x1_0000_0000_0000 + s[2] * 0x100_0000_0000 + s[3]
        * 0x1_0000_0000 + s[4] * 0x100_0000 + s[5] * 0x1_0000 + s[6] * 0x100 + s[7]
}

/// The four big-endian bytes of a 32-bit integer.
pub open spec fn be_u32_bytes(x: u32) -> Seq<u8> {
    seq![(x >> 24) as u8, (x >> 16) as u8, (x >> 8) as u8, x as u8]
}

/// The eight big-endian bytes of a 64-bit integer.
pub open spec fn be_u64_bytes(x: u64) -> Seq<u8> {
    seq![
        (x >> 56) as u8,
        (x >> 48) as u8,
        (x >> 40) as u8,
        (x >> 32) as u8,
        (x >> 24) as u8,
        (x >> 16) as u8,
        (x >> 8) as u8,
        x as u8,
    ]
}

/// Reads the big-endian 32-bit field starting at `start`.
pub fn read_be_u32(data: &Vec<u8>, start: usize) -> (r: u32)
    requires
        start + 4 <= data@.len(),
    ensures
        r == be_u32_of(data@.subrange(start as int, start as int + 4)),
{
    let _n = data.len();
    let b0 = data[start] as u32;
    let b1 = data[start + 1] as u32;
    let b2 = data[start + 2] as u32;
    let b3 = data[start + 3] as u32;
    proof {
        let s = data@.subrange(start as int, start as int + 4);
        assert(s[0] == data@[start as int] && s[1] == data@[start as int + 1] && s[2]
            == data@[start as int + 2] && s[3] == data@[start as int + 3]);
    }
    b0 * 0x100_0000 + b1 * 0x1_0000 + b2 * 0x100 + b3
}

/// Reads the big-endian 64-bit field starting at `start`.
pub fn read_be_u64(data: &Vec<u8>, start: usize) -> (r: u64)
    requires
        start + 8 <= data@.len(),
    ensures
        r == be_u64_of(data@.subrange(start as int, start as int + 8)),
{
    let _n = data.len();
    let b0 = data[start] as u64;
    let b1 = data[start + 1] as u64;
    let b2 = data[start + 2] as u64;
    let b3 = data[start + 3] as u64;
    let b4 = data[start + 4] as u64;
    let b5 = data[start + 5] as u64;
    let b6 = data[start + 6] as u64;
    let b7 = data[start + 7] as u64;
    proof {
        let s = data@.subrange(start as int, start as int + 8);
        assert(s[0] == data@[start as int] && s[1] == data@[start as int + 1] && s[2]
            == data@[start as int + 2] && s[3] == data@[start as int + 3] && s[4] == data@[start
            as int + 4] && s[5] == data@[start as int + 5] && s[6] == data@[start as int + 6]
            && s[7] == data@[start as int + 7]);
    }
    b0 * 0x100_0000_0000_0000 + b1 * 0x1_0000_0000_0000 + b2 * 0x100_0000_0000 + b3
        * 0x1_0000_0000 + b4 * 0x100_0000 + b5 * 0x1_0000 + b6 * 0x100 + b7
}

/// Appends the big-endian bytes of a 32-bit integer.
pub fn push_be_u32(out: &mut Vec<u8>, x: u32)
    ensures
        final(out)@ == old(out)@ + be_u32_bytes(x),
{
    #[verifier::truncate]
    let b0 = (x >> 24) as u8;
    #[verifier::truncate]
    let b1 = (x >> 16) as u8;
    #[verifier::truncate]
    let b2 = (x >> 8) as u8;
    #[verifier::truncate]
    let b3 = x as u8;
    out.push(b0);
    out.push(b1);
    out.push(b2);
    out.push(b3);
    proof {
        assert(out@ =~= old(out)@ + be_u32_bytes(x));
    }
}

/// Appends the big-endian bytes of a 64-bit integer.
pub fn push_be_u64(out: &mut Vec<u8>, x: u64)
    ensures
        final(out)@ == old(out)@ + be_u64_bytes(x),
{
    #[verifier::truncate]
    let b0 = (x >> 56) as u8;
    #[verifier::truncate]
    let b1 = (x >> 48) as u8;
    #[verifier::truncate]
    let b2 = (x >> 40) as u8;
    #[verifier::truncate]
    let b3 = (x >> 32) as u8;
    #[verifier::truncate]
    let b4 = (x >> 24) as u8;
    #[verifier::truncate]
    let b5 = (x >> 16) as u8;
    #[verifier::truncate]
    let b6 = (x >> 8) as u8;
    #[verifier::truncate]
    let b7 = x as u8;
    out.push(b0);
    out.push(b1);
    out.push(b2);
    out.push(b3);
    out.push(b4);
    out.push(b5);
    out.push(b6);
    out.push(b7);
    proof {
        assert(out@ =~= old(out)@ + be_u64_bytes(x));
    }
}

/// The UTF-8 bytes of an instrument's ticker.
pub open spec fn symbol_bytes(s: Symbol) -> Seq<u8> {
    vstd::utf8::encode_utf8(s@)
}

/// The first registered instrument whose ticker bytes match, if any.
pub open spec fn lookup_symbol_bytes(symbols: Seq<Symbol>, ticker: Seq<u8>) -> Option<int>
    decreases symbols.len(),
{
    if symbols.len() == 0 {
        None
    } else if symbol_bytes(symbols[0]) == ticker {
        Some(0int)
    } else {
        match lookup_symbol_bytes(symbols.drop_first(), ticker) {
            None => None,
            Some(k) => Some(k + 1),
        }
    }
}

/// Why a received payload could not be decoded into a command.
#[derive(Debug, Clone, Copy, PartialEq, Eq, Structural)]
pub enum DecodeError {
    TooShort,
    UnknownCommand,
    UnknownSide,
    UnknownOrderType,
    UnknownTicker,
}

/// Functional model of decoding one payload: byte 0 carries the command kind
/// in its low two bits and, for an execution, the side above them; bytes 1-4
/// the account id. An execution carries the order kind byte, a four-byte
/// ticker, an eight-byte price threshold and an eight-byte quantity; a status
/// or cancel request carries the order id.
pub open spec fn decode_model(data: Seq<u8>, symbols: Seq<Symbol>) -> Result<Cmd, DecodeError> {
    if data.len() < 5 {
        Err(DecodeError::TooShort)
    } else {
        let cmd_id = data[0] & 3;
        let account_id = be_u32_of(data.subrange(1, 5)) as u32;
        if cmd_id == 0 {
            if data.len() < 26 {
                Err(DecodeError::TooShort)
            } else {
                let side_id = data[0] >> 2;
                if !(side_id == 0 || side_id == 1) {
                    Err(DecodeError::UnknownSide)
                } else {
                    let type_id = data[5];
                    if !(type_id == 0 || type_id == 1 || type_id == 2) {
                        Err(DecodeError::UnknownOrderType)
                    } else {
                        let thresh = be_u64_of(data.subrange(10, 18)) as u64;
                        let order_type = if type_id == 0 {
                            OrderType::Market
                        } else if type_id == 1 {
                            OrderType::Limit(thresh)
                        } else {
                            OrderType::Stop(thresh)
                        };
                        let quantity = be_u64_of(data.subrange(18, 26)) as u64;
                        match lookup_symbol_bytes(symbols, data.subrange(6, 10)) {
                            None => Err(DecodeError::UnknownTicker),
                            Some(k) => Ok(
                                Cmd::Execute(
                                    OrderInfo {
                                        account_id,
                                        symbol: symbols[k],
                                        order_type,
                                        side: OrderSide::id_value(side_id),
                                        quantity,
                                    },
                                ),
                            ),
                        }
                    }
                }
            }
        } else if cmd_id == 2 {
            if data.len() < 9 {
                Err(DecodeError::TooShort)
            } else {
                Ok(
                    Cmd::Status(
                        StatusInfo::spec_new(account_id, be_u32_of(data.subrange(5, 9)) as u32),
                    ),
                )
            }
        } else if cmd_id == 3 {
            if data.len() < 9 {
                Err(DecodeError::TooShort)
            } else {
                Ok(
                    Cmd::Cancel(
                        CancelInfo::spec_new(account_id, be_u32_of(data.subrange(5, 9)) as u32),
                    ),
                )
            }
        } else {
            Err(DecodeError::UnknownCommand)
        }
    }
}

/// The decoded commands agree field for field; the instrument identity is
/// compared by its ticker text.
pub open spec fn cmd_like(a: Result<Cmd, DecodeError>, b: Result<Cmd, DecodeError>) -> bool {
    match (a, b) {
        (Ok(Cmd::Execute(x)), Ok(Cmd::Execute(y))) => {
            &&& x.account_id == y.account_id
            &&& x.symbol@ == y.symbol@
            &&& x.order_type == y.order_type
            &&& x.side == y.side
            &&& x.quantity == y.quantity
        },
        _ => a == b,
    }
}

/// A found instrument index is in range and matches; earlier ones do not.
proof fn lemma_lookup_symbol_bytes(symbols: Seq<Symbol>, ticker: Seq<u8>)
    ensures
        match lookup_symbol_bytes(symbols, ticker) {
            Some(k) => 0 <= k < symbols.len() && symbol_bytes(symbols[k]) == ticker && forall|
                j: int,
            | 0 <= j < k ==> symbol_bytes(#[trigger] symbols[j]) != ticker,
            None => forall|j: int|
                0 <= j < symbols.len() ==> symbol_bytes(#[trigger] symbols[j]) != ticker,
        },
    decreases symbols.len(),
{
    if symbols.len() > 0 && symbol_bytes(symbols[0]) != ticker {
        let tl = symbols.drop_first();
        lemma_lookup_symbol_bytes(tl, ticker);
        assert(forall|j: int| 0 <= j < tl.len() ==> tl[j] == symbols[j + 1]);
        match lookup_symbol_bytes(tl, ticker) {
            None => {
                assert forall|j: int| 0 <= j < symbols.len() implies symbol_bytes(
                    #[trigger] symbols[j],
                ) != ticker by {
                    if j > 0 {
                        assert(symbol_bytes(tl[j - 1]) != ticker);
                    }
                }
            },
            Some(kp) => {
                assert(symbol_bytes(symbols[kp + 1]) == ticker) by {
                    assert(tl[kp] == symbols[kp + 1]);
                }
                assert forall|j: int| 0 <= j < kp + 1 implies symbol_bytes(#[trigger] symbols[j])
                    != ticker by {
                    if j > 0 {
                        assert(symbol_bytes(tl[j - 1]) != ticker);
                    }
                }
            },
        }
    }
}

/// Finds the registered instrument whose ticker bytes stand at bytes 6-9 of
/// the payload.
fn find_symbol(data: &Vec<u8>, symbols: &Vec<Symbol>) -> (r: Option<usize>)
    requires
        data@.len() >= 10,
    ensures
        r matches Some(k) ==> lookup_symbol_bytes(symbols@, data@.subrange(6, 10)) == Some(
            k as int,
        ) && k < symbols@.len(),
        r is None ==> lookup_symbol_bytes(symbols@, data@.subrange(6, 10)) is None,
{
    let ghost ticker = data@.subrange(6, 10);
    proof {
        lemma_lookup_symbol_bytes(symbols@, ticker);
    }
    let n = symbols.len();
    let mut k: usize = 0;
    while k < n
        invariant
            0 <= k <= n,
            n == symbols@.len(),
            data@.len() >= 10,
            ticker == data@.subrange(6, 10),
            forall|j: int| 0 <= j < k ==> symbol_bytes(#[trigger] symbols@[j]) != ticker,
        decreases n - k,
    {
        let tb = symbols[k].ticker().as_str().as_bytes();
        proof {
            assert(tb@ == symbol_bytes(symbols@[k as int]));
        }
        if tb.len() == 4 {
            let m = *vstd::slice::slice_index_get(tb, 0) == data[6] && *vstd::slice::slice_index_get(
                tb,
                1,
            ) == data[7] && *vstd::slice::slice_index_get(tb, 2) == data[8]
                && *vstd::slice::slice_index_get(tb, 3) == data[9];
            if m {
                proof {
                    assert(tb@ =~= ticker);
                    lemma_lookup_symbol_bytes(symbols@, ticker);
                    if lookup_symbol_bytes(symbols@, ticker) is None {
                        assert(symbol_bytes(symbols@[k as int]) != ticker);
                    }
                    let kk = lookup_symbol_bytes(symbols@, ticker).unwrap();
                    if kk < k as int {
                        assert(symbol_bytes(symbols@[kk]) != ticker);
                    } else if kk > k as int {
                        assert(symbol_bytes(symbols@[k as int]) != ticker);
                    }
                }
                return Some(k);
            }
            proof {
                assert(symbol_bytes(symbols@[k as int]) != ticker) by {
                    if tb@ == ticker {
                        assert(tb@[0] == ticker[0] && tb@[1] == ticker[1] && tb@[2] == ticker[2]
                            && tb@[3] == ticker[3]);
                    }
                }
            }
        } else {
            proof {
                assert(symbol_bytes(symbols@[k as int]) != ticker) by {
                    assert(ticker.len() == 4);
                }
            }
        }
        k = k + 1;
    }
    proof {
        if lookup_symbol_bytes(symbols@, ticker) is Some {
            let kk = lookup_symbol_bytes(symbols@, ticker).unwrap();
            assert(symbol_bytes(symbols@[kk]) != ticker);
        }
    }
    None
}

/// Decodes one received payload into a command against the registry of
/// tradable instruments, exactly as [`decode_model`] describes; the decoded
/// instrument carries the matched registry entry's ticker.
pub fn data_to_struct(data: &Vec<u8>, symbols: &Vec<Symbol>) -> (r: Result<Cmd, DecodeError>)
    ensures
        cmd_like(r, decode_model(data@, symbols@)),
{
    if data.len() < 5 {
        return Err(DecodeError::TooShort);
    }
    let cmd_id = data[0] & 3;
    let account_id = read_be_u32(data, 1);
    if cmd_id == 0 {
        if data.len() < 26 {
            return Err(DecodeError::TooShort);
        }
        let side_id = data[0] >> 2;
        if !(side_id == 0 || side_id == 1) {
            return Err(DecodeError::UnknownSide);
        }
        let type_id = data[5];
        if !(type_id == 0 || type_id == 1 || type_id == 2) {
            return Err(DecodeError::UnknownOrderType);
        }
        let thresh = read_be_u64(data, 10);
        let order_type = if type_id == 0 {
            OrderType::Market
        } else if type_id == 1 {
            OrderType::Limit(thresh)
        } else {
            OrderType::Stop(thresh)
        };
        let quantity = read_be_u64(data, 18);
        match find_symbol(data, symbols) {
            None => Err(DecodeError::UnknownTicker),
            Some(k) => {
                let side = OrderSide::from_id(side_id);
                let symbol = Symbol::new(symbols[k].ticker().clone());
                Ok(Cmd::Execute(OrderInfo::new(account_id, symbol, order_type, side, quantity)))
            },
        }
    } else if cmd_id == 2 {
        if data.len() < 9 {
            return Err(DecodeError::TooShort);
        }
        Ok(Cmd::Status(StatusInfo::new(account_id, read_be_u32(data, 5))))
    } else if cmd_id == 3 {
        if data.len() < 9 {
            return Err(DecodeError::TooShort);
        }
        Ok(Cmd::Cancel(CancelInfo::new(account_id, read_be_u32(data, 5))))
    } else {
        Err(DecodeError::UnknownCommand)
    }
}

/// The wire encoding of a status reply: a length byte, a tag byte, the order
/// id, and the tag's fixed-width fields; a rejection appends its reason text
/// after an eight-byte length.
pub open spec fn spec_encode_status(st: OrderStatus) -> Seq<u8> {
    match st {
        OrderStatus::Filled(id, cost) => seq![13u8, 0u8] + be_u32_bytes(id) + be_u64_bytes(cost),
        OrderStatus::PartiallyFilled(id, qty, cost) => seq![21u8, 1u8] + be_u32_bytes(id)
            + be_u64_bytes(qty) + be_u64_bytes(cost),
        OrderStatus::Waiting(id) => seq![5u8, 2u8] + be_u32_bytes(id),
        OrderStatus::Rejected(id, reason) => {
            let rb = reason.spec_bytes();
            seq![(13 + rb.len()) as u8, 3u8] + be_u32_bytes(id) + be_u64_bytes(rb.len() as u64)
                + rb
        },
        OrderStatus::Canceled(id) => seq![5u8, 4u8] + be_u32_bytes(id),
    }
}

/// Encodes one status reply for the wire, exactly as [`spec_encode_status`]
/// describes.
pub fn send_status_data(order_status: OrderStatus) -> (r: Vec<u8>)
    requires
        order_status matches OrderStatus::Rejected(_, reason) ==> reason.spec_bytes().len() <= 242,
    ensures
        r@ == spec_encode_status(order_status),
{
    let mut data: Vec<u8> = Vec::new();
    match order_status {
        OrderStatus::Filled(order_id, price) => {
            data.push(13u8);
            data.push(0u8);
            push_be_u32(&mut data, order_id);
            push_be_u64(&mut data, price);
        },
        OrderStatus::PartiallyFilled(order_id, quantity, price) => {
            data.push(21u8);
            data.push(1u8);
            push_be_u32(&mut data, order_id);
            push_be_u64(&mut data, quantity);
            push_be_u64(&mut data, price);
        },
        OrderStatus::Waiting(order_id) => {
            data.push(5u8);
            data.push(2u8);
            push_be_u32(&mut data, order_id);
        },
        OrderStatus::Rejected(order_id, reason) => {
            let rb = reason.as_bytes();
            data.push(13u8 + rb.len() as u8);
            data.push(3u8);
            push_be_u32(&mut data, order_id);
            push_be_u64(&mut data, rb.len() as u64);
            let mut j: usize = 0;
            let ghost mid = data@;
            while j < rb.len()
                invariant
                    0 <= j <= rb@.len(),
                    rb@ == reason.spec_bytes(),
                    data@ == mid + rb@.take(j as int),
                decreases rb@.len() - j,
            {
                data.push(*vstd::slice::slice_index_get(rb, j));
                proof {
                    assert(data@ =~= mid + rb@.take(j as int + 1));
                }
                j = j + 1;
            }
            proof {
                assert(rb@.take(rb@.len() as int) =~= rb@);
            }
        },
        OrderStatus::Canceled(order_id) => {
            data.push(5u8);
            data.push(4u8);
            push_be_u32(&mut data, order_id);
        },
    }
    proof {
        assert(data@ =~= spec_encode_status(order_status));
    }
    data
}

} // verus!
