//! What the node's `getrawtransaction` replies say of a transaction.

use vstd::prelude::*;
use vstd::string::*;

verus! {

/// Whether a transaction is in the active chain: its reply names the block
/// that holds it (`blockhash` is a string) and counts at least one
/// confirmation (`confirmations`, read as a `u64`, is above zero; a
/// missing count reads as zero).
pub fn is_transaction_in_active_chain(blockhash: Option<&str>, confirmations: Option<u64>) -> (r: bool)
    ensures
        r == (blockhash is Some && match confirmations {
            Some(c) => c > 0,
            None => false,
        }),
{
    let confirmed = match confirmations {
        Some(c) => c > 0,
        None => false,
    };
    blockhash.is_some() && confirmed
}

/// The confirmations of a transaction: the reply's count, where it reads as
/// a `u64`, cut to its low 32 bits (as `as u32` does).
pub fn get_confirmations(confirmations: Option<u64>) -> (r: Option<u32>)
    ensures
        r == match confirmations {
            Some(c) => Some((c % 0x1_0000_0000) as u32),
            None => None,
        },
{
    match confirmations {
        Some(c) => Some((c % 0x1_0000_0000) as u32),
        None => None,
    }
}

/// The value of a hex digit (either case), as a byte.
pub open spec fn hex_digit(b: u8) -> Option<u8> {
    if 0x30 <= b <= 0x39 {
        Some((b - 0x30) as u8)
    } else if 0x41 <= b <= 0x46 {
        Some((b - 0x41 + 10) as u8)
    } else if 0x61 <= b <= 0x66 {
        Some((b - 0x61 + 10) as u8)
    } else {
        None
    }
}

/// The bytes that hex text spells: an even number of hex digits, two to a
/// byte, high digit first; `None` for any other text.
pub open spec fn hex_decode_spec(d: Seq<u8>) -> Option<Seq<u8>> {
    if d.len() % 2 != 0 || exists|i: int| 0 <= i < d.len() && #[trigger] hex_digit(d[i]) is None {
        None
    } else {
        Some(
            Seq::new(
                (d.len() / 2) as nat,
                |i: int| (hex_digit(d[2 * i]).unwrap() * 16 + hex_digit(d[2 * i + 1]).unwrap()) as u8,
            ),
        )
    }
}

/// `hex::decode`: the bytes that the hex text spells, or the crate's error
/// (odd length, or a byte that is no hex digit) as text. The contract
/// states the bytes; it leaves the error's text unsaid.
#[verifier::external_body]
fn hex_decode(data: &[u8]) -> (r: Result<Vec<u8>, String>)
    ensures
        r is Ok <==> hex_decode_spec(data@) is Some,
        r matches Ok(v) ==> hex_decode_spec(data@) == Some(v@),
{
    hex::decode(data).map_err(|e| e.to_string())
}

/// The bytes of a raw transaction that the node gave as hex text (the
/// reply of `getrawtransaction` at verbosity 0).
pub fn decode_transaction_hex(hex: &str) -> (r: Result<Vec<u8>, String>)
    ensures
        r is Ok <==> hex_decode_spec(hex.spec_bytes()) is Some,
        r matches Ok(v) ==> hex_decode_spec(hex.spec_bytes()) == Some(v@),
{
    let bytes = hex.as_bytes_vec();
    hex_decode(bytes.as_slice())
}

} // verus!
