//! The balances that transfers move value between, and the checked-transfer
//! primitive that moves it.

use vstd::prelude::*;

verus! {

/// One holding of the asset.
#[derive(Clone, Copy, Debug, PartialEq, Eq)]
pub struct TokenBalance {
    /// Key of the signer allowed to move funds out of this balance.
    pub owner: u64,
    /// Units held.
    pub amount: u64,
    /// A frozen balance neither sends nor receives.
    pub frozen: bool,
}

/// Why a checked transfer was refused.
#[derive(Clone, Copy, Debug, PartialEq, Eq)]
pub enum TransferError {
    /// The caller's decimal precision differs from the asset's.
    DecimalsMismatch,
    /// The source or the destination is not a balance of the ledger.
    UnknownAccount,
    /// The source or the destination is frozen.
    AccountFrozen,
    /// The authority is not the source's owner.
    OwnerMismatch,
    /// The source holds less than the amount.
    InsufficientFunds,
    /// The destination's quantity would exceed the largest `u64`.
    Overflow,
}

/// All balances of one asset, indexed by account number, and the asset's
/// canonical decimal precision.
#[derive(Debug)]
pub struct Ledger {
    pub accounts: Vec<TokenBalance>,
    pub decimals: u8,
}

/// The outcome of one checked transfer of `amount` from `from` to `to`.
pub open spec fn step(
    accounts: Seq<TokenBalance>,
    canonical: u8,
    from: int,
    to: int,
    authority: u64,
    amount: u64,
    decimals: u8,
) -> Result<Seq<TokenBalance>, TransferError> {
    if decimals != canonical {
        Err(TransferError::DecimalsMismatch)
    } else if !(0 <= from < accounts.len()) || !(0 <= to < accounts.len()) {
        Err(TransferError::UnknownAccount)
    } else if accounts[from].frozen || accounts[to].frozen {
        Err(TransferError::AccountFrozen)
    } else if accounts[from].owner != authority {
        Err(TransferError::OwnerMismatch)
    } else if accounts[from].amount < amount {
        Err(TransferError::InsufficientFunds)
    } else if from == to {
        Ok(accounts)
    } else if accounts[to].amount + amount > u64::MAX {
        Err(TransferError::Overflow)
    } else {
        Ok(
            accounts.update(
                from,
                TokenBalance { amount: (accounts[from].amount - amount) as u64, ..accounts[from] },
            ).update(
                to,
                TokenBalance { amount: (accounts[to].amount + amount) as u64, ..accounts[to] },
            ),
        )
    }
}

impl Ledger {
    /// Moves `amount` units from `from` to `to`, authorized by `authority`,
    /// provided `decimals` is the asset's precision. On any refusal nothing
    /// changes.
    pub fn transfer_checked(
        &mut self,
        from: usize,
        to: usize,
        authority: u64,
        amount: u64,
        decimals: u8,
    ) -> (r: Result<(), TransferError>)
        ensures
            final(self).decimals == old(self).decimals,
            match step(
                old(self).accounts@,
                old(self).decimals,
                from as int,
                to as int,
                authority,
                amount,
                decimals,
            ) {
                Ok(after) => r == Ok::<(), TransferError>(()) && final(self).accounts@ == after,
                Err(e) => r == Err::<(), TransferError>(e) && final(self).accounts@ == old(
                    self,
                ).accounts@,
            },
    {
        if decimals != self.decimals {
            return Err(TransferError::DecimalsMismatch);
        }
        if from >= self.accounts.len() || to >= self.accounts.len() {
            return Err(TransferError::UnknownAccount);
        }
        let src = self.accounts[from];
        let dst = self.accounts[to];
        if src.frozen || dst.frozen {
            return Err(TransferError::AccountFrozen);
        }
        if src.owner != authority {
            return Err(TransferError::OwnerMismatch);
        }
        if src.amount < amount {
            return Err(TransferError::InsufficientFunds);
        }
        if from == to {
            return Ok(());
        }
        if dst.amount > u64::MAX - amount {
            return Err(TransferError::Overflow);
        }
        self.accounts.set(from, TokenBalance { amount: src.amount - amount, ..src });
        self.accounts.set(to, TokenBalance { amount: dst.amount + amount, ..dst });
        Ok(())
    }
}

} // verus!
