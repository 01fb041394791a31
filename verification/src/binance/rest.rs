//! The paths and queries of requests.
use crate::binance::sign::{sign_query, signature_of};
use crate::codec::{json_list, list_to_json, query_text, url_encode};
use crate::decimal::{decimal_text, Amount};
use crate::text::{format_u64, joined, join, number_text, texts};
use vstd::prelude::*;
use vstd::utf8::encode_utf8;

verus! {

broadcast use vstd::string::group_string_axioms;

/// The path of the list of symbols.
pub fn exchange_info_path() -> (r: &'static str)
    ensures
        r@ == "/api/v3/exchangeInfo"@,
{
    "/api/v3/exchangeInfo"
}

/// The path of the day's figures of symbols.
pub open spec fn tickers_24h_request(symbols: Seq<Seq<char>>) -> Seq<char> {
    "/api/v3/ticker/24hr?symbols="@ + query_text(encode_utf8(json_list(symbols)))
}

/// The path of the day's figures of symbols.
pub fn tickers_24h_path(symbols: &Vec<String>) -> (r: String)
    ensures
        r@ == tickers_24h_request(texts(symbols@)),
{
    let list: String = match list_to_json(symbols) {
        Some(t) => t,
        None => String::new(),
    };
    let mut r: String = "/api/v3/ticker/24hr?symbols=".to_owned();
    let encoded: String = url_encode(list.as_str());
    r.append(encoded.as_str());
    r
}

/// The path of the order book of a symbol.
pub open spec fn depth_request(symbol: Seq<char>, limit: nat) -> Seq<char> {
    "/api/v3/depth?symbol="@ + symbol + "&limit="@ + number_text(limit)
}

/// The path of the order book of a symbol.
pub fn depth_path(symbol: &str, limit: usize) -> (r: String)
    ensures
        r@ == depth_request(symbol@, limit as nat),
{
    let mut r: String = "/api/v3/depth?symbol=".to_owned();
    r.append(symbol);
    r.append("&limit=");
    let number: String = format_u64(limit as u64);
    r.append(number.as_str());
    r
}

/// A query with the time and its signature.
pub open spec fn signed(secret: Seq<char>, base: Seq<char>, timestamp_ms: nat) -> Seq<char> {
    let query = base + "&timestamp="@ + number_text(timestamp_ms);
    query + "&signature="@ + signature_of(secret, query)
}

/// A query with the time and its signature.
pub fn signed_query(secret: &str, base: &str, timestamp_ms: u64) -> (r: String)
    ensures
        r@ == signed(secret@, base@, timestamp_ms as nat),
{
    let mut query: String = base.to_owned();
    query.append("&timestamp=");
    let time: String = format_u64(timestamp_ms);
    query.append(time.as_str());
    let signature: String = sign_query(secret, query.as_str());
    query.append("&signature=");
    query.append(signature.as_str());
    query
}

/// The path of the account.
pub fn account_path(secret: &str, timestamp_ms: u64) -> (r: String)
    ensures
        r@ == "/api/v3/account?"@ + signed(secret@, "recvWindow=5000"@, timestamp_ms as nat),
{
    let mut r: String = "/api/v3/account?".to_owned();
    let query: String = signed_query(secret, "recvWindow=5000", timestamp_ms);
    r.append(query.as_str());
    r
}

/// One part of a query where there is an amount for it.
pub open spec fn amount_part(name: Seq<char>, amount: Option<Amount>) -> Seq<Seq<char>> {
    match amount {
        Some(a) => seq![name + decimal_text(a@.0, a@.1)],
        None => Seq::empty(),
    }
}

/// The parts of the query for a market order.
pub open spec fn order_parts(
    symbol: Seq<char>,
    side: Seq<char>,
    quantity: Option<Amount>,
    quote_order_qty: Option<Amount>,
) -> Seq<Seq<char>> {
    seq!["symbol="@ + symbol, "side="@ + side, "type=MARKET"@, "recvWindow=5000"@] + amount_part(
        "quantity="@,
        quantity,
    ) + amount_part("quoteOrderQty="@, quote_order_qty)
}

/// A name and a text, one after the other.
fn part(name: &str, text: &str) -> (r: String)
    ensures
        r@ == name@ + text@,
{
    let mut r: String = name.to_owned();
    r.append(text);
    r
}

/// Adds a part to a list where there is an amount for it.
fn push_amount(parts: &mut Vec<String>, name: &str, amount: Option<Amount>)
    ensures
        texts(final(parts)@) == texts(old(parts)@) + amount_part(name@, amount),
{
    let ghost before = texts(parts@);
    match amount {
        Some(a) => {
            let text: String = a.text();
            let p: String = part(name, text.as_str());
            let ghost added = p@;
            parts.push(p);
            assert(texts(parts@) =~= before + seq![added]);
        },
        None => {
            assert(texts(parts@) =~= before + Seq::<Seq<char>>::empty());
        },
    }
}

/// The signed query for a market order.
pub fn order_query(
    secret: &str,
    symbol: &str,
    side: &str,
    quantity: Option<Amount>,
    quote_order_qty: Option<Amount>,
    timestamp_ms: u64,
) -> (r: String)
    ensures
        r@ == signed(
            secret@,
            joined(order_parts(symbol@, side@, quantity, quote_order_qty), "&"@),
            timestamp_ms as nat,
        ),
{
    let mut parts: Vec<String> = Vec::new();
    parts.push(part("symbol=", symbol));
    parts.push(part("side=", side));
    parts.push("type=MARKET".to_owned());
    parts.push("recvWindow=5000".to_owned());
    assert(texts(parts@) =~= seq![
        "symbol="@ + symbol@,
        "side="@ + side@,
        "type=MARKET"@,
        "recvWindow=5000"@,
    ]);
    push_amount(&mut parts, "quantity=", quantity);
    push_amount(&mut parts, "quoteOrderQty=", quote_order_qty);
    let base: String = join(&parts, "&");
    signed_query(secret, base.as_str(), timestamp_ms)
}

} // verus!
