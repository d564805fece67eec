use splitter::ledger::{Ledger, TokenBalance, TransferError};
use splitter::record::{validate_recipient, ACCOUNT_LEN};
use splitter::splitter::{send_to_all, validate_all, ErrorCode, RecipientRef, SendTokens};

const AUTHORITY: u64 = 7;
const DECIMALS: u8 = 6;

/// Bytes of an initialized token account with no delegate, no close
/// authority and no extensions.
fn token_account_bytes(mint: u8, owner: u8, amount: u64) -> Vec<u8> {
    let mut data = vec![0u8; ACCOUNT_LEN];
    for b in &mut data[0..32] {
        *b = mint;
    }
    for b in &mut data[32..64] {
        *b = owner;
    }
    data[64..72].copy_from_slice(&amount.to_le_bytes());
    // account state: initialized
    data[108] = 1;
    data
}

fn valid(account: usize) -> RecipientRef {
    RecipientRef { account, data: token_account_bytes(9, account as u8, 0) }
}

fn malformed(account: usize) -> RecipientRef {
    RecipientRef { account, data: vec![1, 2, 3, 4, 5] }
}

fn balance(amount: u64) -> TokenBalance {
    TokenBalance { owner: 100, amount, frozen: false }
}

/// Source at index 0 holding `source`, then `n` empty balances.
fn ledger(source: u64, n: usize) -> Ledger {
    let mut accounts = vec![TokenBalance { owner: AUTHORITY, amount: source, frozen: false }];
    for _ in 0..n {
        accounts.push(balance(0));
    }
    Ledger { accounts, decimals: DECIMALS }
}

fn sends() -> SendTokens {
    SendTokens { from: 0, authority: AUTHORITY, decimals: DECIMALS }
}

fn amounts(l: &Ledger) -> Vec<u64> {
    l.accounts.iter().map(|a| a.amount).collect()
}

#[test]
fn three_valid_recipients_each_paid() {
    let mut l = ledger(1000, 3);
    let r = send_to_all(&mut l, &sends(), 100, &vec![valid(1), valid(2), valid(3)]);
    assert_eq!(r, Ok(()));
    assert_eq!(amounts(&l), vec![700, 100, 100, 100]);
}

#[test]
fn malformed_recipient_aborts_whole_batch() {
    let mut l = ledger(1000, 3);
    let r = send_to_all(&mut l, &sends(), 100, &vec![valid(1), malformed(2), valid(3)]);
    assert_eq!(r, Err(ErrorCode::InvalidRecipient));
    assert_eq!(amounts(&l), vec![1000, 0, 0, 0]);
}

#[test]
fn malformed_last_recipient_aborts_whole_batch() {
    let mut l = ledger(1000, 3);
    let r = send_to_all(&mut l, &sends(), 100, &vec![valid(1), valid(2), malformed(3)]);
    assert_eq!(r, Err(ErrorCode::InvalidRecipient));
    assert_eq!(amounts(&l), vec![1000, 0, 0, 0]);
}

#[test]
fn wrong_decimals_fails_without_transfers() {
    let mut l = ledger(1000, 2);
    let s = SendTokens { decimals: DECIMALS + 1, ..sends() };
    let r = send_to_all(&mut l, &s, 50, &vec![valid(1), valid(2)]);
    assert_eq!(r, Err(ErrorCode::UnderlyingTransferFailed(TransferError::DecimalsMismatch)));
    assert_eq!(amounts(&l), vec![1000, 0, 0]);
}

#[test]
fn conservation_over_five_recipients() {
    let mut l = ledger(1000, 5);
    let list = vec![valid(1), valid(2), valid(3), valid(4), valid(5)];
    assert_eq!(send_to_all(&mut l, &sends(), 37, &list), Ok(()));
    assert_eq!(l.accounts[0].amount, 1000 - 37 * 5);
    for i in 1..=5 {
        assert_eq!(l.accounts[i].amount, 37);
    }
    assert_eq!(l.accounts.iter().map(|a| a.amount).sum::<u64>(), 1000);
}

#[test]
fn permuted_recipients_same_balances() {
    let mut a = ledger(500, 3);
    let mut b = ledger(500, 3);
    assert_eq!(send_to_all(&mut a, &sends(), 20, &vec![valid(1), valid(2), valid(3), valid(2)]), Ok(()));
    assert_eq!(send_to_all(&mut b, &sends(), 20, &vec![valid(2), valid(3), valid(2), valid(1)]), Ok(()));
    assert_eq!(a.accounts, b.accounts);
    assert_eq!(amounts(&a), vec![420, 20, 40, 20]);
}

#[test]
fn duplicate_recipient_paid_twice() {
    let mut l = ledger(1000, 2);
    assert_eq!(send_to_all(&mut l, &sends(), 100, &vec![valid(1), valid(2), valid(1)]), Ok(()));
    assert_eq!(amounts(&l), vec![700, 200, 100]);
}

#[test]
fn empty_recipient_list_changes_nothing() {
    let mut l = ledger(1000, 2);
    assert_eq!(send_to_all(&mut l, &sends(), 100, &vec![]), Ok(()));
    assert_eq!(amounts(&l), vec![1000, 0, 0]);
}

#[test]
fn empty_list_with_wrong_decimals_succeeds() {
    let mut l = ledger(1000, 1);
    let s = SendTokens { decimals: 0, ..sends() };
    assert_eq!(send_to_all(&mut l, &s, 100, &vec![]), Ok(()));
    assert_eq!(amounts(&l), vec![1000, 0]);
}

#[test]
fn insufficient_funds_midway_rolls_back() {
    let mut l = ledger(250, 3);
    let r = send_to_all(&mut l, &sends(), 100, &vec![valid(1), valid(2), valid(3)]);
    assert_eq!(r, Err(ErrorCode::UnderlyingTransferFailed(TransferError::InsufficientFunds)));
    assert_eq!(amounts(&l), vec![250, 0, 0, 0]);
}

#[test]
fn wrong_authority_fails() {
    let mut l = ledger(1000, 1);
    let s = SendTokens { authority: AUTHORITY + 1, ..sends() };
    let r = send_to_all(&mut l, &s, 1, &vec![valid(1)]);
    assert_eq!(r, Err(ErrorCode::UnderlyingTransferFailed(TransferError::OwnerMismatch)));
    assert_eq!(amounts(&l), vec![1000, 0]);
}

#[test]
fn frozen_destination_fails_and_rolls_back() {
    let mut l = ledger(1000, 2);
    l.accounts[2].frozen = true;
    let r = send_to_all(&mut l, &sends(), 10, &vec![valid(1), valid(2)]);
    assert_eq!(r, Err(ErrorCode::UnderlyingTransferFailed(TransferError::AccountFrozen)));
    assert_eq!(amounts(&l), vec![1000, 0, 0]);
}

#[test]
fn unknown_destination_fails() {
    let mut l = ledger(1000, 1);
    let r = send_to_all(&mut l, &sends(), 10, &vec![valid(1), valid(5)]);
    assert_eq!(r, Err(ErrorCode::UnderlyingTransferFailed(TransferError::UnknownAccount)));
    assert_eq!(amounts(&l), vec![1000, 0]);
}

#[test]
fn destination_overflow_fails() {
    let mut l = ledger(1000, 1);
    l.accounts[1].amount = u64::MAX - 5;
    let r = send_to_all(&mut l, &sends(), 10, &vec![valid(1)]);
    assert_eq!(r, Err(ErrorCode::UnderlyingTransferFailed(TransferError::Overflow)));
    assert_eq!(amounts(&l), vec![1000, u64::MAX - 5]);
}

#[test]
fn source_paying_itself_keeps_its_balance() {
    let mut l = ledger(1000, 1);
    assert_eq!(send_to_all(&mut l, &sends(), 100, &vec![valid(0), valid(1)]), Ok(()));
    assert_eq!(amounts(&l), vec![900, 100]);
}

#[test]
fn transfer_checked_moves_amount() {
    let mut l = ledger(1000, 1);
    assert_eq!(l.transfer_checked(0, 1, AUTHORITY, 1000, DECIMALS), Ok(()));
    assert_eq!(amounts(&l), vec![0, 1000]);
    assert_eq!(l.transfer_checked(0, 1, AUTHORITY, 1, DECIMALS), Err(TransferError::InsufficientFunds));
    assert_eq!(amounts(&l), vec![0, 1000]);
}

#[test]
fn validate_recipient_reads_fields() {
    let data = token_account_bytes(3, 4, 0x0102_0304_0506_0708);
    let rec = validate_recipient(&data).expect("well-formed account");
    assert_eq!(rec.mint, [3u8; 32]);
    assert_eq!(rec.owner, [4u8; 32]);
    assert_eq!(rec.amount, 0x0102_0304_0506_0708);
}

#[test]
fn validate_recipient_rejects_malformed() {
    assert!(validate_recipient(&[]).is_none());
    assert!(validate_recipient(&[0u8; 64]).is_none());
    // uninitialized state
    let mut data = token_account_bytes(3, 4, 10);
    data[108] = 0;
    assert!(validate_recipient(&data).is_none());
    // the length of a multisig account
    let mut data = token_account_bytes(3, 4, 10);
    data.resize(355, 0);
    assert!(validate_recipient(&data).is_none());
}

#[test]
fn validate_all_returns_destinations_in_order() {
    assert_eq!(validate_all(&vec![valid(3), valid(1), valid(3)]), Ok(vec![3, 1, 3]));
    assert_eq!(validate_all(&vec![valid(3), malformed(1)]), Err(ErrorCode::InvalidRecipient));
    assert_eq!(validate_all(&vec![]), Ok(vec![]));
}
