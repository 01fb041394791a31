//! Encodings: hexadecimal digits, percent signs, signatures and JSON.
use crate::names::in_order;
use crate::text::{joined, texts};
use hmac::{Hmac, Mac};
use serde_json::Value;
use sha2::Sha256;
use simd_json::BorrowedValue;
use simd_json::prelude::{ValueAsArray, ValueAsObject, ValueAsScalar, ValueObjectAccess};
use std::collections::BTreeMap;
use vstd::prelude::*;
use vstd::utf8::encode_utf8;

verus! {

broadcast use vstd::string::group_string_axioms;

/// The digit of a number below sixteen, letters in lower case.
pub open spec fn hex_digit(n: int) -> char {
    if n < 10 {
        ('0' as int + n) as char
    } else {
        ('a' as int + n - 10) as char
    }
}

/// The number of a digit, letters in either case; none for other characters.
pub open spec fn hex_value(c: char) -> Option<int> {
    if '0' as int <= c as int <= '9' as int {
        Some(c as int - '0' as int)
    } else if 'a' as int <= c as int <= 'f' as int {
        Some(c as int - 'a' as int + 10)
    } else if 'A' as int <= c as int <= 'F' as int {
        Some(c as int - 'A' as int + 10)
    } else {
        None
    }
}

/// Two digits for each byte.
pub open spec fn hex_text(bytes: Seq<u8>) -> Seq<char> {
    Seq::new(
        2 * bytes.len(),
        |i: int|
            hex_digit(
                if i % 2 == 0 {
                    bytes[i / 2] as int / 16
                } else {
                    bytes[i / 2] as int % 16
                },
            ),
    )
}

/// The bytes that digits stand for; none where their number is odd or one is no digit.
pub open spec fn hex_bytes(text: Seq<char>) -> Option<Seq<u8>> {
    if text.len() % 2 == 0 && forall|i: int|
        0 <= i < text.len() ==> hex_value(#[trigger] text[i]) is Some {
        Some(
            Seq::new(
                text.len() / 2,
                |i: int| ((hex_value(text[2 * i])->0) * 16 + (hex_value(text[2 * i + 1])->0)) as u8,
            ),
        )
    } else {
        None
    }
}

/// `hex::encode`: two digits for each byte, letters in lower case.
#[verifier::external_body]
pub(crate) fn hex_encode(bytes: &Vec<u8>) -> (r: String)
    ensures
        r@ == hex_text(bytes@),
{
    hex::encode(bytes)
}

/// A sequence of bytes that may be missing.
pub open spec fn bytes_view(bytes: Option<Vec<u8>>) -> Option<Seq<u8>> {
    match bytes {
        Some(b) => Some(b@),
        None => None,
    }
}

/// `hex::decode`, the error left out: the bytes that digits of either case stand for.
#[verifier::external_body]
pub(crate) fn hex_decode(text: &str) -> (r: Option<Vec<u8>>)
    ensures
        bytes_view(r) == hex_bytes(text@),
{
    hex::decode(text).ok()
}

/// Bytes that were written as digits are read back.
pub proof fn lemma_hex_read_back(bytes: Seq<u8>)
    ensures
        hex_bytes(hex_text(bytes)) == Some(bytes),
{
    let text = hex_text(bytes);
    assert forall|i: int| 0 <= i < text.len() implies hex_value(#[trigger] text[i]) is Some by {}
    assert forall|i: int| 0 <= i < bytes.len() implies (#[trigger] (hex_bytes(text)->0)[i])
        == bytes[i] by {
        assert((2 * i) / 2 == i && (2 * i) % 2 == 0);
        assert((2 * i + 1) / 2 == i && (2 * i + 1) % 2 == 1);
        assert(text[2 * i] == hex_digit(bytes[i] as int / 16));
        assert(text[2 * i + 1] == hex_digit(bytes[i] as int % 16));
    }
    assert((hex_bytes(text)->0) =~= bytes);
}

/// Whether a byte stands for itself in a query: letters, digits, and four signs.
pub open spec fn is_unreserved(b: u8) -> bool {
    ||| '0' as int <= b <= '9' as int
    ||| 'A' as int <= b <= 'Z' as int
    ||| 'a' as int <= b <= 'z' as int
    ||| b == '-' as int
    ||| b == '.' as int
    ||| b == '_' as int
    ||| b == '~' as int
}

/// The digit of a number below sixteen, letters in upper case.
pub open spec fn upper_hex_digit(n: int) -> char {
    if n < 10 {
        ('0' as int + n) as char
    } else {
        ('A' as int + n - 10) as char
    }
}

/// What stands for bytes in a query: the byte itself, or a percent sign and its two digits.
pub open spec fn query_text(bytes: Seq<u8>) -> Seq<char>
    decreases bytes.len(),
{
    if bytes.len() == 0 {
        Seq::empty()
    } else {
        let b = bytes.last();
        query_text(bytes.drop_last()) + (if is_unreserved(b) {
            seq![b as char]
        } else {
            seq!['%', upper_hex_digit(b as int / 16), upper_hex_digit(b as int % 16)]
        })
    }
}

/// `urlencoding::encode`: what stands for the bytes of a text in a query.
#[verifier::external_body]
pub(crate) fn url_encode(text: &str) -> (r: String)
    ensures
        r@ == query_text(encode_utf8(text@)),
{
    urlencoding::encode(text).into_owned()
}

/// The authentication code of a message under a key.
pub uninterp spec fn hmac_sha256(key: Seq<u8>, message: Seq<u8>) -> Seq<u8>;

/// `Hmac::<Sha256>`: `new_from_slice`, which takes keys of any length, `update` with the message,
/// and `finalize`. The code has 32 bytes and depends on the key and the message alone; it is named,
/// not described.
#[verifier::external_body]
pub(crate) fn authenticate(key: &[u8], message: &[u8]) -> (r: Option<Vec<u8>>)
    ensures
        bytes_view(r) == Some(hmac_sha256(key@, message@)),
        r is Some ==> (r->0)@.len() == 32,
{
    match Hmac::<Sha256>::new_from_slice(key) {
        Ok(mut mac) => {
            mac.update(message);
            Some(mac.finalize().into_bytes().to_vec())
        },
        Err(_) => None,
    }
}

/// What stands for a character in a JSON string.
pub open spec fn json_char(c: char) -> Seq<char> {
    if c == '"' {
        seq!['\\', '"']
    } else if c == '\\' {
        seq!['\\', '\\']
    } else if c == '\n' {
        seq!['\\', 'n']
    } else if c == '\r' {
        seq!['\\', 'r']
    } else if c == '\t' {
        seq!['\\', 't']
    } else if c as int == 8 {
        seq!['\\', 'b']
    } else if c as int == 12 {
        seq!['\\', 'f']
    } else if (c as int) < 32 {
        seq!['\\', 'u', '0', '0', hex_digit(c as int / 16), hex_digit(c as int % 16)]
    } else {
        seq![c]
    }
}

/// What stands for the characters of a text in a JSON string.
pub open spec fn json_chars(text: Seq<char>) -> Seq<char>
    decreases text.len(),
{
    if text.len() == 0 {
        Seq::empty()
    } else {
        json_chars(text.drop_last()) + json_char(text.last())
    }
}

/// The JSON string of a text.
pub open spec fn json_string(text: Seq<char>) -> Seq<char> {
    seq!['"'] + json_chars(text) + seq!['"']
}

/// The JSON list of texts.
pub open spec fn json_list(texts: Seq<Seq<char>>) -> Seq<char> {
    seq!['['] + joined(texts.map_values(|t: Seq<char>| json_string(t)), seq![',']) + seq![']']
}

/// `serde_json::to_string` on a list of strings, the error left out: there always is a text, the
/// JSON list without spaces.
#[verifier::external_body]
pub(crate) fn list_to_json(list: &Vec<String>) -> (r: Option<String>)
    ensures
        r is Some,
        (r->0)@ == json_list(texts(list@)),
{
    serde_json::to_string(list).ok()
}

/// Names and their texts.
pub open spec fn entry_texts(entries: Seq<(String, String)>) -> Seq<(Seq<char>, Seq<char>)> {
    entries.map_values(|e: (String, String)| (e.0@, e.1@))
}

/// The names of entries.
pub open spec fn entry_names(entries: Seq<(Seq<char>, Seq<char>)>) -> Seq<Seq<char>> {
    entries.map_values(|e: (Seq<char>, Seq<char>)| e.0)
}

/// A name and its text in a JSON object.
pub open spec fn json_member(entry: (Seq<char>, Seq<char>)) -> Seq<char> {
    json_string(entry.0) + seq![':'] + json_string(entry.1)
}

/// The JSON object of names and their texts.
pub open spec fn json_object(entries: Seq<(Seq<char>, Seq<char>)>) -> Seq<char> {
    seq!['{'] + joined(
        entries.map_values(|e: (Seq<char>, Seq<char>)| json_member(e)),
        seq![','],
    ) + seq!['}']
}

/// `serde_json::to_string` on a `BTreeMap` of strings, the error left out: there always is a text,
/// the JSON object without spaces, with its members in the order of their names. The entries must be
/// in that order, each name once.
#[verifier::external_body]
pub(crate) fn object_to_json(entries: &Vec<(String, String)>) -> (r: Option<String>)
    requires
        in_order(entry_names(entry_texts(entries@))),
    ensures
        r is Some,
        (r->0)@ == json_object(entry_texts(entries@)),
{
    let map: BTreeMap<String, String> = entries.iter().cloned().collect();
    serde_json::to_string(&map).ok()
}

/// The number that a JSON text holds at a pointer, as `serde_json` reads it.
pub uninterp spec fn json_u64_at(text: Seq<char>, pointer: Seq<char>) -> Option<u64>;

/// `serde_json::from_str`, `Value::pointer` and `Value::as_u64`: the number at a pointer, none where
/// the text is no JSON or there is no such number. It depends on the two texts alone and is named,
/// not described.
#[verifier::external_body]
pub(crate) fn read_u64(text: &str, pointer: &str) -> (r: Option<u64>)
    ensures
        r == json_u64_at(text@, pointer@),
{
    serde_json::from_str::<Value>(text).ok()?.pointer(pointer)?.as_u64()
}

/// The signed number that a JSON text holds at a pointer, as `serde_json` reads it.
pub uninterp spec fn json_i64_at(text: Seq<char>, pointer: Seq<char>) -> Option<i64>;

/// `serde_json::from_str`, `Value::pointer` and `Value::as_i64`: the signed number at a pointer,
/// none where the text is no JSON or there is no such number. It depends on the two texts alone and
/// is named, not described.
#[verifier::external_body]
pub(crate) fn read_i64(text: &str, pointer: &str) -> (r: Option<i64>)
    ensures
        r == json_i64_at(text@, pointer@),
{
    serde_json::from_str::<Value>(text).ok()?.pointer(pointer)?.as_i64()
}

/// A string that may be missing, as its text.
pub open spec fn text_view(text: Option<String>) -> Option<Seq<char>> {
    match text {
        Some(t) => Some(t@),
        None => None,
    }
}

/// The string that a JSON text holds at a pointer, as `serde_json` reads it.
pub uninterp spec fn json_text_at(text: Seq<char>, pointer: Seq<char>) -> Option<Seq<char>>;

/// `serde_json::from_str`, `Value::pointer` and `Value::as_str`: the string at a pointer, none where
/// the text is no JSON or there is no string. It depends on the two texts alone and is named, not
/// described.
#[verifier::external_body]
pub(crate) fn read_text(text: &str, pointer: &str) -> (r: Option<String>)
    ensures
        text_view(r) == json_text_at(text@, pointer@),
{
    Some(serde_json::from_str::<Value>(text).ok()?.pointer(pointer)?.as_str()?.to_owned())
}

/// The value that a JSON text holds at a pointer, as a JSON text again.
pub uninterp spec fn json_value_at(text: Seq<char>, pointer: Seq<char>) -> Option<Seq<char>>;

/// `serde_json::from_str`, `Value::pointer` and the display of `Value`: the value at a pointer as a
/// JSON text, none where the text is no JSON or there is no value. It depends on the two texts alone
/// and is named, not described.
#[verifier::external_body]
pub(crate) fn read_value(text: &str, pointer: &str) -> (r: Option<String>)
    ensures
        text_view(r) == json_value_at(text@, pointer@),
{
    Some(serde_json::from_str::<Value>(text).ok()?.pointer(pointer)?.to_string())
}

/// The strings of an object, each none where it is missing or no string.
pub struct ThreeTexts {
    pub first: Option<String>,
    pub second: Option<String>,
    pub third: Option<String>,
}

/// The strings of an object, as texts.
pub struct ThreeTextsView {
    pub first: Option<Seq<char>>,
    pub second: Option<Seq<char>>,
    pub third: Option<Seq<char>>,
}

impl View for ThreeTexts {
    type V = ThreeTextsView;

    open spec fn view(&self) -> ThreeTextsView {
        ThreeTextsView {
            first: text_view(self.first),
            second: text_view(self.second),
            third: text_view(self.third),
        }
    }
}

/// What is read of an object in a JSON document: nothing where the bytes are none, no strings
/// where there is no such object.
pub open spec fn three_texts_view(r: Option<Option<ThreeTexts>>) -> Option<Option<ThreeTextsView>> {
    match r {
        Some(Some(t)) => Some(Some(t@)),
        Some(None) => Some(None),
        None => None,
    }
}

/// The strings under three keys of an object in a JSON document, as `simd_json` reads them.
pub uninterp spec fn json_three_texts(
    bytes: Seq<u8>,
    object: Seq<char>,
    first: Seq<char>,
    second: Seq<char>,
    third: Seq<char>,
) -> Option<Option<ThreeTextsView>>;

/// `simd_json::to_borrowed_value`, `get` and `as_object` for the object, and `get` and `as_str` for
/// each of three keys of it. What is read depends on the bytes and the keys alone and is named, not
/// described.
#[verifier::external_body]
pub(crate) fn read_three_texts(
    bytes: Vec<u8>,
    object: &str,
    first: &str,
    second: &str,
    third: &str,
) -> (r: Option<Option<ThreeTexts>>)
    ensures
        three_texts_view(r) == json_three_texts(bytes@, object@, first@, second@, third@),
{
    let mut bytes = bytes;
    let value = simd_json::to_borrowed_value(&mut bytes).ok()?;
    Some(
        value.get(object).and_then(|v| v.as_object()).map(
            |o| ThreeTexts {
                first: o.get(first).and_then(|v| v.as_str()).map(String::from),
                second: o.get(second).and_then(|v| v.as_str()).map(String::from),
                third: o.get(third).and_then(|v| v.as_str()).map(String::from),
            },
        ),
    )
}

/// One side of a book in a JSON document: none where it is no list; for each level none where it is
/// no list; for each of its parts none where it is no string.
pub struct SideTexts {
    pub levels: Option<Vec<Option<Vec<Option<String>>>>>,
}

/// The parts of a level as texts.
pub open spec fn level_texts(level: Option<Vec<Option<String>>>) -> Option<Seq<Option<Seq<char>>>> {
    match level {
        Some(parts) => Some(parts@.map_values(|p: Option<String>| text_view(p))),
        None => None,
    }
}

impl View for SideTexts {
    type V = Option<Seq<Option<Seq<Option<Seq<char>>>>>>;

    open spec fn view(&self) -> Option<Seq<Option<Seq<Option<Seq<char>>>>>> {
        match self.levels {
            Some(levels) => Some(
                levels@.map_values(|l: Option<Vec<Option<String>>>| level_texts(l)),
            ),
            None => None,
        }
    }
}

/// A side that may be missing.
pub open spec fn side_view(side: Option<SideTexts>) -> Option<
    Option<Seq<Option<Seq<Option<Seq<char>>>>>>,
> {
    match side {
        Some(s) => Some(s@),
        None => None,
    }
}

/// A string of a JSON document, and two values of an object in it.
pub struct BookTexts {
    pub stream: Option<String>,
    /// The two sides, each none where it is missing; none where there is no object.
    pub sides: Option<(Option<SideTexts>, Option<SideTexts>)>,
}

/// A string of a JSON document and two sides, as texts.
pub struct BookTextsView {
    pub stream: Option<Seq<char>>,
    pub sides: Option<
        (
            Option<Option<Seq<Option<Seq<Option<Seq<char>>>>>>>,
            Option<Option<Seq<Option<Seq<Option<Seq<char>>>>>>>,
        ),
    >,
}

impl View for BookTexts {
    type V = BookTextsView;

    open spec fn view(&self) -> BookTextsView {
        BookTextsView {
            stream: text_view(self.stream),
            sides: match self.sides {
                Some((a, b)) => Some((side_view(a), side_view(b))),
                None => None,
            },
        }
    }
}

/// What is read of a book in a JSON document, nothing where the bytes are none.
pub open spec fn book_texts_view(r: Option<BookTexts>) -> Option<BookTextsView> {
    match r {
        Some(t) => Some(t@),
        None => None,
    }
}

/// The string under a key of a JSON document, and the sides under two keys of an object in it, as
/// `simd_json` reads them.
pub uninterp spec fn json_book_texts(
    bytes: Seq<u8>,
    stream: Seq<char>,
    object: Seq<char>,
    bids: Seq<char>,
    asks: Seq<char>,
) -> Option<BookTextsView>;

/// `simd_json::to_borrowed_value`, `get` and `as_str` for the string, `get` and `as_object` for the
/// object, `get` for two keys of it, and `as_array` and `as_str` for what these hold. What is read
/// depends on the bytes and the keys alone and is named, not described.
#[verifier::external_body]
pub(crate) fn read_book_texts(
    bytes: Vec<u8>,
    stream: &str,
    object: &str,
    bids: &str,
    asks: &str,
) -> (r: Option<BookTexts>)
    ensures
        book_texts_view(r) == json_book_texts(bytes@, stream@, object@, bids@, asks@),
{
    let mut bytes = bytes;
    let v = simd_json::to_borrowed_value(&mut bytes).ok()?;
    let parts = |l: &BorrowedValue| {
        l.as_array().map(|p| p.iter().map(|t| t.as_str().map(String::from)).collect())
    };
    let side = |s: &BorrowedValue| SideTexts {
        levels: s.as_array().map(|l| l.iter().map(parts).collect()),
    };
    let sides = v.get(object).and_then(ValueAsObject::as_object).map(
        |o| (o.get(bids).map(side), o.get(asks).map(side)),
    );
    Some(BookTexts { stream: v.get(stream).and_then(ValueAsScalar::as_str).map(String::from), sides })
}

} // verus!
