//! The batch: validate every recipient reference, then pay each of them the
//! same amount from one source, committing either all transfers or none.

use crate::ledger::{step, Ledger, TokenBalance, TransferError};
use crate::record::{token_account_decodes, validate_recipient};
use vstd::prelude::*;

verus! {

/// The fixed inputs of a distribution: the source balance, the signer that
/// authorizes moving funds out of it, and the decimal precision the caller
/// expects the asset to have.
#[derive(Clone, Copy, Debug, PartialEq, Eq)]
pub struct SendTokens {
    pub from: usize,
    pub authority: u64,
    pub decimals: u8,
}

/// One caller-supplied, untrusted recipient: the balance it designates and
/// the raw bytes read from it.
#[derive(Debug)]
pub struct RecipientRef {
    pub account: usize,
    pub data: Vec<u8>,
}

/// Why a distribution was refused.
#[derive(Clone, Copy, Debug, PartialEq, Eq)]
pub enum ErrorCode {
    /// A recipient reference does not decode as a token account.
    InvalidRecipient,
    /// The checked-transfer primitive refused one of the transfers.
    UnderlyingTransferFailed(TransferError),
}

/// Every recipient reference decodes as a token account.
pub open spec fn all_decode(recipients: Seq<RecipientRef>) -> bool {
    forall|i: int| 0 <= i < recipients.len() ==> token_account_decodes(#[trigger] recipients[i].data@)
}

/// The balances the recipients designate, in order.
pub open spec fn dests_of(recipients: Seq<RecipientRef>) -> Seq<usize> {
    recipients.map_values(|r: RecipientRef| r.account)
}

/// The outcome of paying `amount` to each of `dests` in turn, stopping at the
/// first refused transfer.
pub open spec fn run(
    accounts: Seq<TokenBalance>,
    canonical: u8,
    sends: SendTokens,
    amount: u64,
    dests: Seq<usize>,
) -> Result<Seq<TokenBalance>, TransferError>
    decreases dests.len(),
{
    if dests.len() == 0 {
        Ok(accounts)
    } else {
        match run(accounts, canonical, sends, amount, dests.drop_last()) {
            Ok(before) => step(
                before,
                canonical,
                sends.from as int,
                dests.last() as int,
                sends.authority,
                amount,
                sends.decimals,
            ),
            Err(e) => Err(e),
        }
    }
}

/// Once a prefix of the transfers fails, the whole run fails the same way.
pub proof fn lemma_run_error_extends(
    accounts: Seq<TokenBalance>,
    canonical: u8,
    sends: SendTokens,
    amount: u64,
    dests: Seq<usize>,
    k: int,
)
    requires
        0 <= k <= dests.len(),
        run(accounts, canonical, sends, amount, dests.take(k)) is Err,
    ensures
        run(accounts, canonical, sends, amount, dests) == run(
            accounts,
            canonical,
            sends,
            amount,
            dests.take(k),
        ),
    decreases dests.len(),
{
    if k == dests.len() {
        assert(dests.take(k) =~= dests);
    } else {
        assert(dests.drop_last().take(k) =~= dests.take(k));
        lemma_run_error_extends(accounts, canonical, sends, amount, dests.drop_last(), k);
    }
}

/// Decodes every recipient reference, in order, and returns the balances
/// they designate; refuses the whole list at the first malformed one.
pub fn validate_all(recipients: &Vec<RecipientRef>) -> (r: Result<Vec<usize>, ErrorCode>)
    ensures
        r is Ok <==> all_decode(recipients@),
        r matches Ok(d) ==> d@ == dests_of(recipients@),
        r matches Err(e) ==> e == ErrorCode::InvalidRecipient,
{
    let mut dests: Vec<usize> = Vec::new();
    let mut i: usize = 0;
    while i < recipients.len()
        invariant
            i <= recipients.len(),
            dests@ == dests_of(recipients@).take(i as int),
            forall|j: int| 0 <= j < i ==> token_account_decodes(#[trigger] recipients@[j].data@),
        decreases recipients.len() - i,
    {
        let rec = &recipients[i];
        match validate_recipient(rec.data.as_slice()) {
            Some(_) => {},
            None => {
                return Err(ErrorCode::InvalidRecipient);
            },
        }
        dests.push(rec.account);
        assert(dests_of(recipients@).take(i + 1) =~= dests_of(recipients@).take(i as int).push(
            rec.account,
        ));
        i = i + 1;
    }
    assert(dests_of(recipients@).take(i as int) =~= dests_of(recipients@));
    Ok(dests)
}

/// A copy of the balances, to stage transfers on.
fn copy_accounts(accounts: &Vec<TokenBalance>) -> (r: Vec<TokenBalance>)
    ensures
        r@ == accounts@,
{
    let mut out: Vec<TokenBalance> = Vec::new();
    let mut i: usize = 0;
    while i < accounts.len()
        invariant
            i <= accounts.len(),
            out@ == accounts@.take(i as int),
        decreases accounts.len() - i,
    {
        out.push(accounts[i]);
        assert(accounts@.take(i + 1) =~= accounts@.take(i as int).push(accounts@[i as int]));
        i = i + 1;
    }
    assert(accounts@.take(i as int) =~= accounts@);
    out
}

/// Pays `amount` from `accounts.from` to every recipient, in order.
/// Every reference is decoded before any value moves; the transfers are
/// staged and committed only if all of them succeed, so on any error the
/// ledger is left as it was.
pub fn send_to_all(
    ledger: &mut Ledger,
    accounts: &SendTokens,
    amount: u64,
    recipients: &Vec<RecipientRef>,
) -> (r: Result<(), ErrorCode>)
    ensures
        final(ledger).decimals == old(ledger).decimals,
        r is Err ==> final(ledger).accounts@ == old(ledger).accounts@,
        !all_decode(recipients@) ==> r == Err::<(), ErrorCode>(ErrorCode::InvalidRecipient),
        all_decode(recipients@) ==> match run(
            old(ledger).accounts@,
            old(ledger).decimals,
            *accounts,
            amount,
            dests_of(recipients@),
        ) {
            Ok(after) => r == Ok::<(), ErrorCode>(()) && final(ledger).accounts@ == after,
            Err(e) => r == Err::<(), ErrorCode>(ErrorCode::UnderlyingTransferFailed(e)),
        },
{
    let dests = match validate_all(recipients) {
        Ok(d) => d,
        Err(e) => {
            return Err(e);
        },
    };
    let mut staged = Ledger { accounts: copy_accounts(&ledger.accounts), decimals: ledger.decimals };
    let mut i: usize = 0;
    while i < dests.len()
        invariant
            i <= dests.len(),
            staged.decimals == ledger.decimals,
            all_decode(recipients@),
            dests@ == dests_of(recipients@),
            run(ledger.accounts@, ledger.decimals, *accounts, amount, dests@.take(i as int))
                == Ok::<Seq<TokenBalance>, TransferError>(staged.accounts@),
        decreases dests.len() - i,
    {
        assert(dests@.take(i + 1).drop_last() =~= dests@.take(i as int));
        match staged.transfer_checked(accounts.from, dests[i], accounts.authority, amount, accounts.decimals) {
            Ok(()) => {},
            Err(e) => {
                proof {
                    lemma_run_error_extends(
                        ledger.accounts@,
                        ledger.decimals,
                        *accounts,
                        amount,
                        dests@,
                        i + 1,
                    );
                }
                return Err(ErrorCode::UnderlyingTransferFailed(e));
            },
        }
        i = i + 1;
    }
    assert(dests@.take(i as int) =~= dests@);
    ledger.accounts = staged.accounts;
    Ok(())
}

} // verus!
