//! The signature of a query.
use crate::codec::{authenticate, hex_encode, hex_text, hmac_sha256};
use vstd::prelude::*;
use vstd::utf8::encode_utf8;

verus! {

/// The signature of a query under a secret: its authentication code in hexadecimal digits.
pub open spec fn signature_of(secret: Seq<char>, query: Seq<char>) -> Seq<char> {
    hex_text(hmac_sha256(encode_utf8(secret), encode_utf8(query)))
}

/// Signs a query with a secret.
pub fn sign_query(secret: &str, query: &str) -> (r: String)
    ensures
        r@ == signature_of(secret@, query@),
{
    let code: Vec<u8> = match authenticate(secret.as_bytes(), query.as_bytes()) {
        Some(c) => c,
        None => Vec::new(),
    };
    hex_encode(&code)
}

} // verus!
