//! What a distribution does to the balances, stated over the run of
//! transfers that `send_to_all` commits.

use crate::ledger::{TokenBalance, TransferError};
use crate::ledger::step;
use crate::splitter::{run, SendTokens};
use vstd::prelude::*;

verus! {

broadcast use vstd::seq_lib::group_to_multiset_ensures, vstd::multiset::group_multiset_axioms;

/// How many of the transfers go to balance `k`.
pub open spec fn times_paid(dests: Seq<usize>, k: int) -> nat {
    if 0 <= k <= usize::MAX {
        dests.to_multiset().count(k as usize)
    } else {
        0
    }
}

/// The quantity of balance `k` after paying `amount` to each of `dests` out
/// of balance `from`.
pub open spec fn paid_out(
    accounts: Seq<TokenBalance>,
    from: int,
    amount: u64,
    dests: Seq<usize>,
    k: int,
) -> int {
    accounts[k].amount + amount * times_paid(dests, k) - (if k == from {
        amount * dests.len()
    } else {
        0
    })
}

/// Conservation: when every transfer of a distribution succeeds, the source
/// loses `amount` once per recipient, each balance gains `amount` once per
/// time it is listed, and nothing else about any balance changes.
pub proof fn lemma_conservation(
    accounts: Seq<TokenBalance>,
    canonical: u8,
    sends: SendTokens,
    amount: u64,
    dests: Seq<usize>,
    after: Seq<TokenBalance>,
)
    requires
        run(accounts, canonical, sends, amount, dests) == Ok::<Seq<TokenBalance>, TransferError>(after),
    ensures
        after.len() == accounts.len(),
        forall|k: int|
            #![trigger after[k]]
            0 <= k < accounts.len() ==> {
                &&& after[k].amount == paid_out(accounts, sends.from as int, amount, dests, k)
                &&& after[k].owner == accounts[k].owner
                &&& after[k].frozen == accounts[k].frozen
            },
    decreases dests.len(),
{
    let from = sends.from as int;
    if dests.len() == 0 {
        assert(amount * 0 == 0) by (nonlinear_arith);
        assert(after == accounts);
        assert forall|k: int| 0 <= k < accounts.len() implies after[k].amount == paid_out(
            accounts,
            from,
            amount,
            dests,
            k,
        ) by {
            if 0 <= k <= usize::MAX {
                assert(!dests.contains(k as usize));
            }
            assert(times_paid(dests, k) == 0);
            assert(amount * times_paid(dests, k) == 0);
            assert(amount * dests.len() == 0);
        }
    } else {
        let prev = dests.drop_last();
        let last = dests.last();
        let mid = run(accounts, canonical, sends, amount, prev)->Ok_0;
        lemma_conservation(accounts, canonical, sends, amount, prev, mid);
        assert(dests =~= prev.push(last));
        assert(dests.to_multiset() =~= prev.to_multiset().insert(last));
        assert forall|k: int| 0 <= k < accounts.len() implies after[k].amount == paid_out(
            accounts,
            from,
            amount,
            dests,
            k,
        ) && after[k].owner == accounts[k].owner && after[k].frozen == accounts[k].frozen by {
            let c = times_paid(prev, k);
            let hit: nat = if k == last as int { 1 } else { 0 };
            assert(times_paid(dests, k) == c + hit);
            assert(amount * (c + hit) == amount * c + amount * hit) by (nonlinear_arith);
            assert(amount * dests.len() == amount * prev.len() + amount) by (nonlinear_arith)
                requires
                    dests.len() == prev.len() + 1,
            ;
            assert(hit == 1 ==> amount * hit == amount) by (nonlinear_arith);
            assert(hit == 0 ==> amount * hit == 0) by (nonlinear_arith);
            assert(mid[k].amount == paid_out(accounts, from, amount, prev, k));
            if from == last as int {
                assert(after == mid);
            } else if k == from {
                assert(after[k].amount == mid[k].amount - amount);
            } else if k == last as int {
                assert(after[k].amount == mid[k].amount + amount);
            } else {
                assert(after[k] == mid[k]);
            }
        }
    }
}

/// Duplicate recipients: a balance listed twice (and not the source) is
/// paid at least twice, `amount` each time.
pub proof fn lemma_duplicate_recipient(
    accounts: Seq<TokenBalance>,
    canonical: u8,
    sends: SendTokens,
    amount: u64,
    dests: Seq<usize>,
    after: Seq<TokenBalance>,
    i: int,
    j: int,
)
    requires
        run(accounts, canonical, sends, amount, dests) == Ok::<Seq<TokenBalance>, TransferError>(after),
        0 <= i < j < dests.len(),
        dests[i] == dests[j],
        dests[i] != sends.from,
    ensures
        times_paid(dests, dests[i] as int) >= 2,
        after[dests[i] as int].amount == accounts[dests[i] as int].amount + amount * times_paid(
            dests,
            dests[i] as int,
        ),
{
    let k = dests[i];
    lemma_conservation(accounts, canonical, sends, amount, dests, after);
    lemma_run_in_range(accounts, canonical, sends, amount, dests, j);
    assert(dests.remove(j)[i] == k);
    assert(dests.remove(j).contains(k));
    assert(dests.remove(j).to_multiset().count(k) >= 1);
    assert(after[k as int].amount == paid_out(accounts, sends.from as int, amount, dests, k as int));
}

/// Every balance a successful run pays is a balance of the ledger.
pub proof fn lemma_run_in_range(
    accounts: Seq<TokenBalance>,
    canonical: u8,
    sends: SendTokens,
    amount: u64,
    dests: Seq<usize>,
    j: int,
)
    requires
        run(accounts, canonical, sends, amount, dests) is Ok,
        0 <= j < dests.len(),
    ensures
        dests[j] < accounts.len(),
    decreases dests.len(),
{
    let prev = dests.drop_last();
    let mid = run(accounts, canonical, sends, amount, prev)->Ok_0;
    lemma_conservation(accounts, canonical, sends, amount, prev, mid);
    if j < prev.len() {
        lemma_run_in_range(accounts, canonical, sends, amount, prev, j);
    }
}

/// Order independence: two orderings of the same recipients that both
/// succeed leave identical balances.
pub proof fn lemma_order_independent(
    accounts: Seq<TokenBalance>,
    canonical: u8,
    sends: SendTokens,
    amount: u64,
    dests1: Seq<usize>,
    dests2: Seq<usize>,
    after1: Seq<TokenBalance>,
    after2: Seq<TokenBalance>,
)
    requires
        dests1.to_multiset() == dests2.to_multiset(),
        run(accounts, canonical, sends, amount, dests1) == Ok::<Seq<TokenBalance>, TransferError>(after1),
        run(accounts, canonical, sends, amount, dests2) == Ok::<Seq<TokenBalance>, TransferError>(after2),
    ensures
        after1 == after2,
{
    lemma_conservation(accounts, canonical, sends, amount, dests1, after1);
    lemma_conservation(accounts, canonical, sends, amount, dests2, after2);
    assert(dests1.to_multiset().len() == dests1.len());
    assert(dests2.to_multiset().len() == dests2.len());
    assert forall|k: int| 0 <= k < after1.len() implies after1[k] == after2[k] by {
        assert(after1[k].amount == paid_out(accounts, sends.from as int, amount, dests1, k));
        assert(after2[k].amount == paid_out(accounts, sends.from as int, amount, dests2, k));
    }
    assert(after1 =~= after2);
}

/// Decimals enforcement: with a precision other than the asset's, a
/// distribution to at least one recipient fails on its first transfer.
pub proof fn lemma_decimals_enforced(
    accounts: Seq<TokenBalance>,
    canonical: u8,
    sends: SendTokens,
    amount: u64,
    dests: Seq<usize>,
)
    requires
        sends.decimals != canonical,
        dests.len() > 0,
    ensures
        run(accounts, canonical, sends, amount, dests) == Err::<Seq<TokenBalance>, TransferError>(
            TransferError::DecimalsMismatch,
        ),
    decreases dests.len(),
{
    if dests.len() == 1 {
        assert(run(accounts, canonical, sends, amount, dests.drop_last()) == Ok::<
            Seq<TokenBalance>,
            TransferError,
        >(accounts));
    } else {
        lemma_decimals_enforced(accounts, canonical, sends, amount, dests.drop_last());
    }
}

/// When a distribution whose source is not among its recipients succeeds:
/// the precision is the asset's, the source may be debited by the authority
/// and holds `amount` for every recipient, and every recipient is a balance
/// that is not frozen and has room for all it is paid.
pub open spec fn can_pay(
    accounts: Seq<TokenBalance>,
    canonical: u8,
    sends: SendTokens,
    amount: u64,
    dests: Seq<usize>,
) -> bool {
    dests.len() == 0 || {
        &&& sends.decimals == canonical
        &&& sends.from < accounts.len()
        &&& !accounts[sends.from as int].frozen
        &&& accounts[sends.from as int].owner == sends.authority
        &&& amount * dests.len() <= accounts[sends.from as int].amount
        &&& forall|i: int|
            #![trigger dests[i]]
            0 <= i < dests.len() ==> {
                &&& dests[i] < accounts.len()
                &&& !accounts[dests[i] as int].frozen
                &&& accounts[dests[i] as int].amount + amount * times_paid(dests, dests[i] as int)
                    <= u64::MAX
            }
    }
}

proof fn lemma_times_paid_push(dests: Seq<usize>, k: int)
    requires
        dests.len() > 0,
    ensures
        times_paid(dests, k) == times_paid(dests.drop_last(), k) + (if k == dests.last() as int {
            1int
        } else {
            0int
        }),
{
    assert(dests =~= dests.drop_last().push(dests.last()));
    assert(dests.to_multiset() =~= dests.drop_last().to_multiset().insert(dests.last()));
}

proof fn lemma_can_pay_prefix(
    accounts: Seq<TokenBalance>,
    canonical: u8,
    sends: SendTokens,
    amount: u64,
    dests: Seq<usize>,
)
    requires
        dests.len() > 0,
        can_pay(accounts, canonical, sends, amount, dests),
    ensures
        can_pay(accounts, canonical, sends, amount, dests.drop_last()),
{
    let prev = dests.drop_last();
    assert(amount * prev.len() <= amount * dests.len()) by (nonlinear_arith)
        requires
            prev.len() <= dests.len(),
    ;
    assert forall|i: int| 0 <= i < prev.len() implies {
        &&& prev[i] < accounts.len()
        &&& !accounts[prev[i] as int].frozen
        &&& accounts[prev[i] as int].amount + amount * times_paid(prev, prev[i] as int) <= u64::MAX
    } by {
        assert(prev[i] == dests[i]);
        lemma_times_paid_push(dests, prev[i] as int);
        let c = times_paid(prev, prev[i] as int);
        let d = times_paid(dests, prev[i] as int);
        assert(amount * c <= amount * d) by (nonlinear_arith)
            requires
                c <= d,
        ;
    }
}

/// A distribution whose source is not among its recipients succeeds exactly
/// when `can_pay` holds.
pub proof fn lemma_run_ok_iff(
    accounts: Seq<TokenBalance>,
    canonical: u8,
    sends: SendTokens,
    amount: u64,
    dests: Seq<usize>,
)
    requires
        !dests.contains(sends.from),
    ensures
        (run(accounts, canonical, sends, amount, dests) is Ok) == can_pay(
            accounts,
            canonical,
            sends,
            amount,
            dests,
        ),
    decreases dests.len(),
{
    if dests.len() > 0 {
        let prev = dests.drop_last();
        let last = dests.last();
        let from = sends.from as int;
        assert(!prev.contains(sends.from)) by {
            if prev.contains(sends.from) {
                let j = choose|j: int| 0 <= j < prev.len() && prev[j] == sends.from;
                assert(dests[j] == sends.from);
            }
        }
        assert(dests[dests.len() - 1] == last);
        lemma_run_ok_iff(accounts, canonical, sends, amount, prev);
        if run(accounts, canonical, sends, amount, prev) is Err {
            if can_pay(accounts, canonical, sends, amount, dests) {
                lemma_can_pay_prefix(accounts, canonical, sends, amount, dests);
            }
        } else {
            let mid = run(accounts, canonical, sends, amount, prev)->Ok_0;
            lemma_conservation(accounts, canonical, sends, amount, prev, mid);
            let n = dests.len() as int;
            let c = times_paid(prev, last as int);
            lemma_times_paid_push(dests, last as int);
            assert(times_paid(prev, from) == 0) by {
                if 0 <= from <= usize::MAX {
                    assert(!prev.contains(from as usize));
                }
            }
            assert(amount * n == amount * (n - 1) + amount) by (nonlinear_arith);
            assert(amount * (c + 1) == amount * c + amount) by (nonlinear_arith);
            assert(amount * 0int == 0) by (nonlinear_arith);
            let ok = step(mid, canonical, from, last as int, sends.authority, amount, sends.decimals) is Ok;
            if can_pay(accounts, canonical, sends, amount, dests) {
                lemma_can_pay_prefix(accounts, canonical, sends, amount, dests);
                assert(dests[n - 1] == last);
                if n > 1 {
                    assert(mid[from].amount == accounts[from].amount - amount * (n - 1));
                } else {
                    assert(amount * (n - 1) == 0) by (nonlinear_arith)
                        requires
                            n == 1,
                    ;
                }
                assert(mid[last as int].amount == accounts[last as int].amount + amount * c);
                assert(ok);
            }
            if ok {
                assert(mid[last as int].amount == accounts[last as int].amount + amount * c);
                if n > 1 {
                    assert(mid[from].amount == accounts[from].amount - amount * (n - 1));
                } else {
                    assert(amount * (n - 1) == 0) by (nonlinear_arith)
                        requires
                            n == 1,
                    ;
                }
                assert forall|i: int| 0 <= i < dests.len() implies {
                    &&& dests[i] < accounts.len()
                    &&& !accounts[dests[i] as int].frozen
                    &&& accounts[dests[i] as int].amount + amount * times_paid(dests, dests[i] as int)
                        <= u64::MAX
                } by {
                    if i < n - 1 {
                        assert(prev[i] == dests[i]);
                        lemma_times_paid_push(dests, dests[i] as int);
                    }
                }
                assert(can_pay(accounts, canonical, sends, amount, dests));
            }
        }
    }
}

/// Order independence of the outcome: when the source is not among the
/// recipients, any reordering of the recipients succeeds exactly when the
/// original order does, and then leaves the same balances.
pub proof fn lemma_order_independent_outcome(
    accounts: Seq<TokenBalance>,
    canonical: u8,
    sends: SendTokens,
    amount: u64,
    dests1: Seq<usize>,
    dests2: Seq<usize>,
)
    requires
        dests1.to_multiset() == dests2.to_multiset(),
        !dests1.contains(sends.from),
    ensures
        (run(accounts, canonical, sends, amount, dests1) is Ok) == (run(
            accounts,
            canonical,
            sends,
            amount,
            dests2,
        ) is Ok),
        run(accounts, canonical, sends, amount, dests1) is Ok ==> run(
            accounts,
            canonical,
            sends,
            amount,
            dests1,
        ) == run(accounts, canonical, sends, amount, dests2),
{
    assert(dests1.to_multiset().len() == dests1.len());
    assert(dests2.to_multiset().len() == dests2.len());
    assert(dests1.to_multiset().count(sends.from) == 0);
    assert(!dests2.contains(sends.from));
    lemma_run_ok_iff(accounts, canonical, sends, amount, dests1);
    lemma_run_ok_iff(accounts, canonical, sends, amount, dests2);
    assert forall|a: Seq<usize>, b: Seq<usize>|
        a.to_multiset() == b.to_multiset() && a.len() == b.len() && can_pay(
            accounts,
            canonical,
            sends,
            amount,
            a,
        ) implies can_pay(accounts, canonical, sends, amount, b) by {
        if b.len() > 0 {
            assert forall|i: int| 0 <= i < b.len() implies {
                &&& b[i] < accounts.len()
                &&& !accounts[b[i] as int].frozen
                &&& accounts[b[i] as int].amount + amount * times_paid(b, b[i] as int) <= u64::MAX
            } by {
                assert(b.contains(b[i]));
                assert(b.to_multiset().count(b[i]) > 0);
                assert(a.to_multiset().count(b[i]) > 0);
                assert(a.contains(b[i]));
                let j = choose|j: int| 0 <= j < a.len() && a[j] == b[i];
                assert(a[j] == b[i]);
            }
        }
    }
    if run(accounts, canonical, sends, amount, dests1) is Ok {
        lemma_order_independent(
            accounts,
            canonical,
            sends,
            amount,
            dests1,
            dests2,
            run(accounts, canonical, sends, amount, dests1)->Ok_0,
            run(accounts, canonical, sends, amount, dests2)->Ok_0,
        );
    }
}

} // verus!
