//! Orders over the trading stream: the messages that place them, and the replies.
use crate::binance::sign::{sign_query, signature_of};
use crate::codec::{
    entry_names, entry_texts, json_i64_at, json_object, json_text_at, json_u64_at, json_value_at,
    object_to_json, query_text, read_i64, read_text, read_u64, read_value, text_view, url_encode,
};
use crate::decimal::{decimal_text, in_range, lemma_amount_read_back, parsed_decimal, Amount};
use crate::names::in_order;
use crate::text::{
    before, format_i64, format_u64, join, joined, lemma_before_transitive, number_text, parse_u64,
    parsed_u64, signed_text, texts,
};
use vstd::prelude::*;
use vstd::utf8::encode_utf8;

verus! {

broadcast use vstd::string::group_string_axioms;

/// A name and its text where there is an amount.
pub open spec fn amount_entry(name: Seq<char>, amount: Option<Amount>) -> Seq<(Seq<char>, Seq<char>)> {
    match amount {
        Some(a) => seq![(name, decimal_text(a@.0, a@.1))],
        None => Seq::empty(),
    }
}

/// A name and its text where there is one.
pub open spec fn text_entry(name: Seq<char>, text: Option<Seq<char>>) -> Seq<(Seq<char>, Seq<char>)> {
    match text {
        Some(t) => seq![(name, t)],
        None => Seq::empty(),
    }
}

/// The parameters of a market order, in the order of their names, with the signature where there is
/// one.
pub open spec fn order_params(
    api_key: Seq<char>,
    symbol: Seq<char>,
    side: Seq<char>,
    quantity: Option<Amount>,
    quote_order_qty: Option<Amount>,
    timestamp_ms: nat,
    signature: Option<Seq<char>>,
) -> Seq<(Seq<char>, Seq<char>)> {
    seq![("apiKey"@, api_key), ("newOrderRespType"@, "FULL"@)] + amount_entry(
        "quantity"@,
        quantity,
    ) + amount_entry("quoteOrderQty"@, quote_order_qty) + seq![
        ("recvWindow"@, "5000"@),
        ("side"@, side),
    ] + text_entry("signature"@, signature) + seq![
        ("symbol"@, symbol),
        ("timestamp"@, number_text(timestamp_ms)),
        ("type"@, "MARKET"@),
    ]
}

/// A parameter in a query.
pub open spec fn param_text(p: (Seq<char>, Seq<char>)) -> Seq<char> {
    p.0 + "="@ + query_text(encode_utf8(p.1))
}

/// Parameters as a query.
pub open spec fn query_of(params: Seq<(Seq<char>, Seq<char>)>) -> Seq<char> {
    joined(params.map_values(|p: (Seq<char>, Seq<char>)| param_text(p)), "&"@)
}

/// Parameters as a query: name and encoded text of each, in their order.
pub fn to_query_string(params: &Vec<(String, String)>) -> (r: String)
    ensures
        r@ == query_of(entry_texts(params@)),
{
    let ghost entries = entry_texts(params@);
    let ghost all = entries.map_values(|p: (Seq<char>, Seq<char>)| param_text(p));
    let mut parts: Vec<String> = Vec::new();
    let mut i: usize = 0;
    while i < params.len()
        invariant
            i <= params.len(),
            entries == entry_texts(params@),
            all == entries.map_values(|p: (Seq<char>, Seq<char>)| param_text(p)),
            parts.len() == i,
            forall|j: int| 0 <= j < i ==> (#[trigger] parts@[j])@ == all[j],
        decreases params.len() - i,
    {
        let mut part: String = params[i].0.clone();
        part.append("=");
        let encoded: String = url_encode(params[i].1.as_str());
        part.append(encoded.as_str());
        assert(entries[i as int] == (params@[i as int].0@, params@[i as int].1@));
        assert(part@ == all[i as int]);
        parts.push(part);
        i = i + 1;
    }
    assert(texts(parts@) =~= all);
    join(&parts, "&")
}

/// The message that places a market order.
pub open spec fn order_request(
    id: nat,
    api_key: Seq<char>,
    secret: Seq<char>,
    symbol: Seq<char>,
    side: Seq<char>,
    quantity: Option<Amount>,
    quote_order_qty: Option<Amount>,
    timestamp_ms: nat,
) -> Seq<char> {
    let unsigned = order_params(
        api_key,
        symbol,
        side,
        quantity,
        quote_order_qty,
        timestamp_ms,
        None,
    );
    let signature = signature_of(secret, query_of(unsigned));
    "{\"id\":"@ + number_text(id) + ",\"method\":\"order.place\",\"params\":"@ + json_object(
        order_params(
            api_key,
            symbol,
            side,
            quantity,
            quote_order_qty,
            timestamp_ms,
            Some(signature),
        ),
    ) + "}"@
}

/// The names of the parameters come one before the other.
proof fn lemma_param_names()
    ensures
        before("apiKey"@, "newOrderRespType"@),
        before("newOrderRespType"@, "quantity"@),
        before("newOrderRespType"@, "quoteOrderQty"@),
        before("newOrderRespType"@, "recvWindow"@),
        before("quantity"@, "quoteOrderQty"@),
        before("quantity"@, "recvWindow"@),
        before("quoteOrderQty"@, "recvWindow"@),
        before("recvWindow"@, "side"@),
        before("side"@, "signature"@),
        before("side"@, "symbol"@),
        before("signature"@, "symbol"@),
        before("symbol"@, "timestamp"@),
        before("timestamp"@, "type"@),
{
    reveal_strlit("apiKey");
    reveal_strlit("newOrderRespType");
    reveal_strlit("quantity");
    reveal_strlit("quoteOrderQty");
    reveal_strlit("recvWindow");
    reveal_strlit("side");
    reveal_strlit("signature");
    reveal_strlit("symbol");
    reveal_strlit("timestamp");
    reveal_strlit("type");
    reveal_with_fuel(before, 3);
}

/// The names of a list of parameters.
spec fn names_of(list: Seq<(String, String)>) -> Seq<Seq<char>> {
    entry_names(entry_texts(list))
}

/// Adds a name that comes after all others, and its text, to a list in order.
fn push_entry(list: &mut Vec<(String, String)>, name: &str, text: &str)
    requires
        in_order(names_of(old(list)@)),
        old(list)@.len() > 0 ==> before(names_of(old(list)@).last(), name@),
    ensures
        entry_texts(final(list)@) == entry_texts(old(list)@) + seq![(name@, text@)],
        in_order(names_of(final(list)@)),
        names_of(final(list)@).last() == name@,
{
    let ghost entries = entry_texts(list@);
    let ghost names = names_of(list@);
    list.push((name.to_owned(), text.to_owned()));
    proof {
        assert(entry_texts(list@) =~= entries + seq![(name@, text@)]);
        assert(names_of(list@) =~= names.push(name@));
        assert forall|i: int, j: int| 0 <= i < j < names_of(list@).len() implies before(
            #[trigger] names_of(list@)[i],
            #[trigger] names_of(list@)[j],
        ) by {
            if j == names.len() && i < names.len() - 1 {
                lemma_before_transitive(names[i], names.last(), name@);
            }
        }
    }
}

/// Adds a name that comes after all others, and the text of an amount, to a list in order, where
/// there is an amount.
fn push_amount(list: &mut Vec<(String, String)>, name: &str, amount: Option<Amount>)
    requires
        in_order(names_of(old(list)@)),
        old(list)@.len() > 0 ==> before(names_of(old(list)@).last(), name@),
    ensures
        entry_texts(final(list)@) == entry_texts(old(list)@) + amount_entry(name@, amount),
        in_order(names_of(final(list)@)),
        names_of(final(list)@).last() == (if amount is Some {
            name@
        } else {
            names_of(old(list)@).last()
        }),
{
    match amount {
        Some(a) => {
            let text: String = a.text();
            push_entry(list, name, text.as_str());
        },
        None => {
            assert(entry_texts(list@) =~= entry_texts(list@) + Seq::<(Seq<char>, Seq<char>)>::empty());
        },
    }
}

/// The parameters of a market order, in the order of their names.
fn order_entries(
    api_key: &str,
    symbol: &str,
    side: &str,
    quantity: Option<Amount>,
    quote_order_qty: Option<Amount>,
    time: &str,
    signature: Option<&str>,
) -> (r: Vec<(String, String)>)
    ensures
        forall|timestamp_ms: nat|
            time@ == #[trigger] number_text(timestamp_ms) ==> entry_texts(r@) == order_params(
                api_key@,
                symbol@,
                side@,
                quantity,
                quote_order_qty,
                timestamp_ms,
                match signature {
                    Some(s) => Some(s@),
                    None => None,
                },
            ),
        in_order(names_of(r@)),
{
    proof {
        lemma_param_names();
    }
    let mut r: Vec<(String, String)> = Vec::new();
    assert(entry_texts(r@) =~= Seq::<(Seq<char>, Seq<char>)>::empty());
    push_entry(&mut r, "apiKey", api_key);
    push_entry(&mut r, "newOrderRespType", "FULL");
    assert(entry_texts(r@) =~= seq![("apiKey"@, api_key@), ("newOrderRespType"@, "FULL"@)]);
    push_amount(&mut r, "quantity", quantity);
    push_amount(&mut r, "quoteOrderQty", quote_order_qty);
    let ghost head = entry_texts(r@);
    push_entry(&mut r, "recvWindow", "5000");
    push_entry(&mut r, "side", side);
    assert(entry_texts(r@) =~= head + seq![("recvWindow"@, "5000"@), ("side"@, side@)]);
    let ghost middle = entry_texts(r@);
    let ghost signed = match signature {
        Some(s) => text_entry("signature"@, Some(s@)),
        None => text_entry("signature"@, None),
    };
    if let Some(s) = signature {
        push_entry(&mut r, "signature", s);
    }
    assert(entry_texts(r@) =~= middle + signed);
    push_entry(&mut r, "symbol", symbol);
    push_entry(&mut r, "timestamp", time);
    push_entry(&mut r, "type", "MARKET");
    assert(entry_texts(r@) =~= middle + signed + seq![
        ("symbol"@, symbol@),
        ("timestamp"@, time@),
        ("type"@, "MARKET"@),
    ]);
    r
}

/// The message that places a market order: its parameters, and their signature among them.
pub fn order_message(
    id: u64,
    api_key: &str,
    secret: &str,
    symbol: &str,
    side: &str,
    quantity: Option<Amount>,
    quote_order_qty: Option<Amount>,
    timestamp_ms: u64,
) -> (r: String)
    ensures
        r@ == order_request(
            id as nat,
            api_key@,
            secret@,
            symbol@,
            side@,
            quantity,
            quote_order_qty,
            timestamp_ms as nat,
        ),
{
    let time: String = format_u64(timestamp_ms);
    let unsigned: Vec<(String, String)> = order_entries(
        api_key,
        symbol,
        side,
        quantity,
        quote_order_qty,
        time.as_str(),
        None,
    );
    let query: String = to_query_string(&unsigned);
    let signature: String = sign_query(secret, query.as_str());
    let params: Vec<(String, String)> = order_entries(
        api_key,
        symbol,
        side,
        quantity,
        quote_order_qty,
        time.as_str(),
        Some(signature.as_str()),
    );
    let object: String = match object_to_json(&params) {
        Some(t) => t,
        None => String::new(),
    };
    let mut r: String = "{\"id\":".to_owned();
    let number: String = format_u64(id);
    r.append(number.as_str());
    r.append(",\"method\":\"order.place\",\"params\":");
    r.append(object.as_str());
    r.append("}");
    r
}

/// What came of an order.
#[derive(Debug)]
pub enum OrderOutcome {
    /// It was accepted; the JSON text of its result.
    Accepted(String),
    /// It was accepted, but there is no result.
    NoResult,
    /// It was not; what is told of it.
    Refused(String),
}

/// What came of an order, as values.
pub enum OutcomeView {
    Accepted(Seq<char>),
    NoResult,
    Refused(Seq<char>),
}

impl View for OrderOutcome {
    type V = OutcomeView;

    open spec fn view(&self) -> OutcomeView {
        match *self {
            OrderOutcome::Accepted(t) => OutcomeView::Accepted(t@),
            OrderOutcome::NoResult => OutcomeView::NoResult,
            OrderOutcome::Refused(t) => OutcomeView::Refused(t@),
        }
    }
}

/// The parts of a reply that count.
pub struct ReplyParts {
    pub id_number: Option<u64>,
    pub id_text: Option<String>,
    pub status: Option<u64>,
    pub result: Option<String>,
    pub code: Option<i64>,
    pub msg: Option<String>,
}

/// The number of the order that a reply is to: a number, or the text of one.
pub open spec fn reply_id(p: ReplyParts) -> Option<u64> {
    match p.id_number {
        Some(n) => Some(n),
        None => match p.id_text {
            Some(t) => parsed_u64(t@),
            None => None,
        },
    }
}

/// The status of a reply: the low 16 bits of the number, zero where there is none.
pub open spec fn reply_status(p: ReplyParts) -> nat {
    match p.status {
        Some(s) => (s % 0x1_0000) as nat,
        None => 0,
    }
}

/// What is told of an order that was not accepted.
pub open spec fn refusal_text(p: ReplyParts) -> Seq<char> {
    let msg = match p.msg {
        Some(m) => m@,
        None => "未知错误"@,
    };
    let head = "下单失败 status="@ + number_text(reply_status(p));
    match p.code {
        Some(c) => head + " code="@ + signed_text(c as int) + " msg="@ + msg,
        None => head + " msg="@ + msg,
    }
}

/// What a reply says of its order.
pub open spec fn outcome_of(p: ReplyParts) -> OutcomeView {
    if reply_status(p) == 200 {
        match p.result {
            Some(t) => OutcomeView::Accepted(t@),
            None => OutcomeView::NoResult,
        }
    } else {
        OutcomeView::Refused(refusal_text(p))
    }
}

/// Which order a reply is to, and what it says of it; nothing where it names no order.
pub fn read_parts(parts: ReplyParts) -> (r: Option<(u64, OrderOutcome)>)
    ensures
        match r {
            Some((id, o)) => reply_id(parts) == Some(id) && o@ == outcome_of(parts),
            None => reply_id(parts) is None,
        },
{
    let id: u64 = match parts.id_number {
        Some(n) => n,
        None => match &parts.id_text {
            Some(t) => match parse_u64(t.as_str()) {
                Some(n) => n,
                None => {
                    return None;
                },
            },
            None => {
                return None;
            },
        },
    };
    let status: u64 = match parts.status {
        Some(s) => s % 0x1_0000,
        None => 0,
    };
    if status == 200 {
        return match parts.result {
            Some(t) => Some((id, OrderOutcome::Accepted(t))),
            None => Some((id, OrderOutcome::NoResult)),
        };
    }
    let mut text: String = "下单失败 status=".to_owned();
    let number: String = format_u64(status);
    text.append(number.as_str());
    match parts.code {
        Some(c) => {
            text.append(" code=");
            let code: String = format_i64(c);
            text.append(code.as_str());
        },
        None => {},
    }
    text.append(" msg=");
    match &parts.msg {
        Some(m) => {
            text.append(m.as_str());
        },
        None => {
            text.append("未知错误");
        },
    }
    Some((id, OrderOutcome::Refused(text)))
}

/// Whether parts are those of the text of a reply.
pub open spec fn parts_of_reply(p: ReplyParts, text: Seq<char>) -> bool {
    &&& p.id_number == json_u64_at(text, "/id"@)
    &&& text_view(p.id_text) == json_text_at(text, "/id"@)
    &&& p.status == json_u64_at(text, "/status"@)
    &&& text_view(p.result) == json_value_at(text, "/result"@)
    &&& p.code == json_i64_at(text, "/error/code"@)
    &&& text_view(p.msg) == json_text_at(text, "/error/msg"@)
}

/// Reads a reply: which order it is to, and what it says of it.
pub fn read_reply(text: &str) -> (r: Option<(u64, OrderOutcome)>)
    ensures
        exists|p: ReplyParts| #[trigger]
            parts_of_reply(p, text@) && match r {
                Some((id, o)) => reply_id(p) == Some(id) && o@ == outcome_of(p),
                None => reply_id(p) is None,
            },
{
    let parts = ReplyParts {
        id_number: read_u64(text, "/id"),
        id_text: read_text(text, "/id"),
        status: read_u64(text, "/status"),
        result: read_value(text, "/result"),
        code: read_i64(text, "/error/code"),
        msg: read_text(text, "/error/msg"),
    };
    assert(parts_of_reply(parts, text@));
    read_parts(parts)
}

/// The numbers of orders that wait for a reply, and the next one.
pub struct OrderIds {
    next: u64,
}

impl View for OrderIds {
    type V = u64;

    closed spec fn view(&self) -> u64 {
        self.next
    }
}

impl OrderIds {
    /// Numbers from one on.
    pub fn new() -> (r: OrderIds)
        ensures
            r@ == 1,
    {
        OrderIds { next: 1 }
    }

    /// The next number, from zero on again after the largest.
    pub fn take(&mut self) -> (r: u64)
        ensures
            r == old(self)@,
            final(self)@ == (if old(self)@ == u64::MAX {
                0
            } else {
                (old(self)@ + 1) as u64
            }),
    {
        let r: u64 = self.next;
        self.next = r.wrapping_add(1);
        r
    }
}

/// An order says what was planned: its symbol, its side, that it is a market order, and of each amount
/// that is given a text from which just that amount is read.
pub proof fn lemma_order_says(
    api_key: Seq<char>,
    symbol: Seq<char>,
    side: Seq<char>,
    quantity: Option<Amount>,
    quote_order_qty: Option<Amount>,
    timestamp_ms: nat,
    signature: Option<Seq<char>>,
)
    requires
        quantity matches Some(a) ==> in_range(a@.0, a@.1),
        quote_order_qty matches Some(a) ==> in_range(a@.0, a@.1),
    ensures
        ({
            let p = order_params(
                api_key,
                symbol,
                side,
                quantity,
                quote_order_qty,
                timestamp_ms,
                signature,
            );
            &&& p.contains(("symbol"@, symbol))
            &&& p.contains(("side"@, side))
            &&& p.contains(("type"@, "MARKET"@))
            &&& p.contains(("timestamp"@, number_text(timestamp_ms)))
            &&& quantity matches Some(a) ==> exists|i: int|
                0 <= i < p.len() && (#[trigger] p[i]).0 == "quantity"@ && parsed_decimal(p[i].1)
                    == Ok::<(int, int), Seq<char>>(a@)
            &&& quote_order_qty matches Some(a) ==> exists|i: int|
                0 <= i < p.len() && (#[trigger] p[i]).0 == "quoteOrderQty"@ && parsed_decimal(
                    p[i].1,
                ) == Ok::<(int, int), Seq<char>>(a@)
            &&& signature matches Some(x) ==> p.contains(("signature"@, x))
        }),
{
    let p = order_params(
        api_key,
        symbol,
        side,
        quantity,
        quote_order_qty,
        timestamp_ms,
        signature,
    );
    let q = amount_entry("quantity"@, quantity);
    let r = amount_entry("quoteOrderQty"@, quote_order_qty);
    let t = text_entry("signature"@, signature);
    let n = p.len() as int;
    assert(p[n - 1] == ("type"@, "MARKET"@));
    assert(p[n - 2] == ("timestamp"@, number_text(timestamp_ms)));
    assert(p[n - 3] == ("symbol"@, symbol));
    assert(p[2 + q.len() as int + r.len() as int + 1] == ("side"@, side));
    if signature is Some {
        assert(p[n - 4] == ("signature"@, signature->0));
    }
    if quantity is Some {
        let a = (quantity->0)@;
        lemma_amount_read_back(a.0, a.1);
        assert(p[2] == ("quantity"@, decimal_text(a.0, a.1)));
        assert(a == (a.0, a.1));
    }
    if quote_order_qty is Some {
        let a = (quote_order_qty->0)@;
        lemma_amount_read_back(a.0, a.1);
        assert(p[2 + q.len() as int] == ("quoteOrderQty"@, decimal_text(a.0, a.1)));
        assert(a == (a.0, a.1));
    }
}

} // verus!
