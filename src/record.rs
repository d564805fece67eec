//! Decoding of a raw recipient reference into a balance record.

use anchor_lang::AccountDeserialize;
use anchor_spl::token_interface::TokenAccount;
use vstd::prelude::*;

verus! {

/// Length of the base part of an encoded token account.
pub const ACCOUNT_LEN: usize = 165;

/// A decoded token balance: which asset, who holds it, and how much.
#[derive(Clone, Copy, Debug, PartialEq, Eq)]
pub struct BalanceRecord {
    pub mint: [u8; 32],
    pub owner: [u8; 32],
    pub amount: u64,
}

/// Whether the bytes form a well-formed token account in the token
/// program's canonical layout (base state, then optional extensions).
pub uninterp spec fn token_account_decodes(data: Seq<u8>) -> bool;

/// The unsigned value of bytes read in little-endian order.
pub open spec fn le_value(b: Seq<u8>) -> nat
    decreases b.len(),
{
    if b.len() == 0 {
        0
    } else {
        b[0] as nat + 256 * le_value(b.drop_first())
    }
}

/// What a well-formed account's bytes say of its mint, owner and amount.
pub open spec fn record_of(data: Seq<u8>, rec: BalanceRecord) -> bool {
    &&& data.len() >= ACCOUNT_LEN
    &&& rec.mint@ == data.subrange(0, 32)
    &&& rec.owner@ == data.subrange(32, 64)
    &&& rec.amount as nat == le_value(data.subrange(64, 72))
}

/// Relies on `TokenAccount::try_deserialize` of anchor_spl's token interface,
/// which unpacks the base account state of the token program (mint at bytes
/// 0..32, owner at 32..64, little-endian amount at 64..72) and checks the
/// extension area; inputs shorter than the base state are rejected.
#[verifier::external_body]
fn decode_token_account(data: &[u8]) -> (r: Option<BalanceRecord>)
    ensures
        r.is_some() == token_account_decodes(data@),
        data@.len() < ACCOUNT_LEN ==> r.is_none(),
        r matches Some(rec) ==> record_of(data@, rec),
{
    let mut buf: &[u8] = data;
    match TokenAccount::try_deserialize(&mut buf) {
        Ok(acc) => Some(
            BalanceRecord { mint: acc.mint.to_bytes(), owner: acc.owner.to_bytes(), amount: acc.amount },
        ),
        Err(_) => None,
    }
}

/// Decodes one untrusted recipient reference; `None` when the bytes are not
/// a well-formed token account.
pub fn validate_recipient(data: &[u8]) -> (r: Option<BalanceRecord>)
    ensures
        r.is_some() <==> token_account_decodes(data@),
        data@.len() < ACCOUNT_LEN ==> r.is_none(),
        r matches Some(rec) ==> record_of(data@, rec),
{
    decode_token_account(data)
}

} // verus!
