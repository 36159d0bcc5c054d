//! Reading a transaction from hexadecimal text.

use vstd::prelude::*;
use crate::codec::Decodable;
use crate::error::DecodeError;
use crate::hex_codec::{
    ascii_lowercase, ascii_uppercase, hex_decode, hex_decoding, is_hex, lemma_hex_ignores_case,
};
use crate::roundtrip::lemma_transaction_unaffected_by_following;
use crate::transaction::{parse_transaction, Transaction};

verus! {

/// Reads a transaction from the front of the bytes that the hexadecimal text
/// `transaction_hex` stands for. Bytes after the transaction are ignored.
pub fn decode_transaction(transaction_hex: String) -> (res: Result<Transaction, DecodeError>)
    ensures
        !is_hex(transaction_hex@) <==> res matches Err(DecodeError::Hex(_)),
        is_hex(transaction_hex@) ==> match parse_transaction(hex_decoding(transaction_hex@)) {
            Some((t, _)) => res matches Ok(tx) && tx@ == t,
            None => res matches Err(DecodeError::Transaction(_)),
        },
{
    let transaction_bytes = match hex_decode(transaction_hex.as_str()) {
        Ok(b) => b,
        Err(e) => return Err(DecodeError::Hex(e)),
    };
    let mut r = transaction_bytes.as_slice();
    match Transaction::consensus_decode(&mut r) {
        Ok(t) => Ok(t),
        Err(e) => Err(DecodeError::Transaction(e)),
    }
}

/// Hexadecimal text put after a transaction's text changes nothing: the
/// longer text is hexadecimal text too, stands for the bytes of the two
/// texts one after the other, and reads as the same transaction.
pub proof fn lemma_decode_ignores_trailing_hex(text: Seq<char>, more: Seq<char>)
    requires
        is_hex(text),
        is_hex(more),
    ensures
        is_hex(text + more),
        hex_decoding(text + more) =~= hex_decoding(text) + hex_decoding(more),
        parse_transaction(hex_decoding(text)) matches Some(r) ==> parse_transaction(
            hex_decoding(text + more),
        ) == Some(r),
{
    let all = text + more;
    assert forall|i: int| 0 <= i < all.len() implies crate::hex_codec::is_hex_char(
        #[trigger] all[i],
    ) by {
        if i >= text.len() {
            assert(all[i] == more[i - text.len()]);
        }
    }
    let h = text.len() / 2;
    assert forall|j: int| 0 <= j < hex_decoding(all).len() implies #[trigger] hex_decoding(all)[j]
        == (hex_decoding(text) + hex_decoding(more))[j] by {
        if j >= h {
            assert(2 * j - text.len() == 2 * (j - h));
            assert(all[2 * j] == more[2 * (j - h)]);
            assert(all[2 * j + 1] == more[2 * (j - h) + 1]);
        }
    }
    lemma_transaction_unaffected_by_following(hex_decoding(text), hex_decoding(more));
}

/// Capitals and small letters are the same to a transaction's text: making
/// the text uppercase or lowercase changes neither whether it is hexadecimal
/// text nor the transaction it reads as.
pub proof fn lemma_decode_ignores_case(text: Seq<char>)
    ensures
        is_hex(ascii_uppercase(text)) == is_hex(text),
        is_hex(ascii_lowercase(text)) == is_hex(text),
        is_hex(text) ==> parse_transaction(hex_decoding(ascii_uppercase(text))) == parse_transaction(
            hex_decoding(text),
        ),
        is_hex(text) ==> parse_transaction(hex_decoding(ascii_lowercase(text))) == parse_transaction(
            hex_decoding(text),
        ),
{
    lemma_hex_ignores_case(text);
}

} // verus!
