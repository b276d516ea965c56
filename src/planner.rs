use vstd::prelude::*;
use crate::seqs::{as_ints, fits};
use crate::types::{Account, Settlement};

verus! {

/// The members of the first `k` positions that owe money, in member order, each with
/// the magnitude of its debt.
pub open spec fn debtors_upto(members: Seq<Account>, bal: Seq<int>, k: int) -> Seq<(Account, int)>
    decreases k,
{
    if k <= 0 {
        seq![]
    } else if bal[k - 1] < 0 {
        debtors_upto(members, bal, k - 1).push((members[k - 1], -bal[k - 1]))
    } else {
        debtors_upto(members, bal, k - 1)
    }
}

/// The members of the first `k` positions that are owed money, in member order, each
/// with its credit.
pub open spec fn creditors_upto(members: Seq<Account>, bal: Seq<int>, k: int) -> Seq<(Account, int)>
    decreases k,
{
    if k <= 0 {
        seq![]
    } else if bal[k - 1] > 0 {
        creditors_upto(members, bal, k - 1).push((members[k - 1], bal[k - 1]))
    } else {
        creditors_upto(members, bal, k - 1)
    }
}

pub open spec fn debtors_of(members: Seq<Account>, bal: Seq<int>) -> Seq<(Account, int)> {
    debtors_upto(members, bal, members.len() as int)
}

pub open spec fn creditors_of(members: Seq<Account>, bal: Seq<int>) -> Seq<(Account, int)> {
    creditors_upto(members, bal, members.len() as int)
}

/// The smaller of two integers.
pub open spec fn min_of(a: int, b: int) -> int {
    if a < b {
        a
    } else {
        b
    }
}

/// A queue of parties after its head has been reduced by `amt`: the head leaves when
/// nothing remains of it, and otherwise keeps its place with what remains.
pub open spec fn reduce_head(s: Seq<(Account, int)>, amt: int) -> Seq<(Account, int)> {
    if s[0].1 - amt == 0 {
        s.drop_first()
    } else {
        s.update(0, (s[0].0, s[0].1 - amt))
    }
}

/// Greedy head matching: while both queues hold parties, the head debtor pays the head
/// creditor the smaller of their two amounts. Each payment is `(from, to, amount)`.
pub open spec fn plan(d: Seq<(Account, int)>, c: Seq<(Account, int)>) -> Seq<(Account, Account, int)>
    decreases d.len() + c.len(),
{
    if d.len() == 0 || c.len() == 0 {
        seq![]
    } else {
        let amt = min_of(d[0].1, c[0].1);
        seq![(d[0].0, c[0].0, amt)] + plan(reduce_head(d, amt), reduce_head(c, amt))
    }
}

/// The payments proposed for a group whose balances, in member order, are `bal`.
pub open spec fn settlement_plan(members: Seq<Account>, bal: Seq<int>) -> Seq<(Account, Account, int)> {
    plan(debtors_of(members, bal), creditors_of(members, bal))
}

pub open spec fn payments(s: Seq<Settlement>) -> Seq<(Account, Account, int)> {
    s.map_values(|x: Settlement| (x.from, x.to, x.amount as int))
}

pub open spec fn parties(s: Seq<(Account, i128)>) -> Seq<(Account, int)> {
    s.map_values(|x: (Account, i128)| (x.0, x.1 as int))
}

/// Every party of the queue holds a positive amount that fits in `i128`.
pub open spec fn positive_parties(s: Seq<(Account, i128)>) -> bool {
    forall|i: int| 0 <= i < s.len() ==> 0 < #[trigger] s[i].1
}

/// Splits the members of a group into debtors and creditors, in member order; members
/// with a zero balance are in neither.
fn partition_balances(members: &Vec<Account>, balances: &Vec<i128>) -> (r: (
    Vec<(Account, i128)>,
    Vec<(Account, i128)>,
))
    requires
        members@.len() == balances@.len(),
        forall|j: int| 0 <= j < balances@.len() ==> fits(#[trigger] balances@[j] as int),
    ensures
        parties(r.0@) == debtors_of(members@, as_ints(balances@)),
        parties(r.1@) == creditors_of(members@, as_ints(balances@)),
        positive_parties(r.0@),
        positive_parties(r.1@),
{
    let ghost bal = as_ints(balances@);
    let mut debtors: Vec<(Account, i128)> = Vec::new();
    let mut creditors: Vec<(Account, i128)> = Vec::new();
    let mut k: usize = 0;
    assert(parties(debtors@) =~= debtors_upto(members@, bal, 0));
    assert(parties(creditors@) =~= creditors_upto(members@, bal, 0));
    while k < members.len()
        invariant
            0 <= k <= members@.len() == balances@.len(),
            bal == as_ints(balances@),
            forall|j: int| 0 <= j < balances@.len() ==> fits(#[trigger] balances@[j] as int),
            parties(debtors@) == debtors_upto(members@, bal, k as int),
            parties(creditors@) == creditors_upto(members@, bal, k as int),
            positive_parties(debtors@),
            positive_parties(creditors@),
        decreases members.len() - k,
    {
        let b = balances[k];
        assert(fits(balances@[k as int] as int));
        if b < 0 {
            debtors.push((members[k], -b));
            assert(parties(debtors@) =~= debtors_upto(members@, bal, k as int + 1));
        } else if b > 0 {
            creditors.push((members[k], b));
            assert(parties(creditors@) =~= creditors_upto(members@, bal, k as int + 1));
        }
        k = k + 1;
    }
    (debtors, creditors)
}

/// Proposes payments that settle a group, by greedy matching of the head debtor with
/// the head creditor.
pub fn plan_settlements(members: &Vec<Account>, balances: &Vec<i128>) -> (r: Vec<Settlement>)
    requires
        members@.len() == balances@.len(),
        forall|j: int| 0 <= j < balances@.len() ==> fits(#[trigger] balances@[j] as int),
    ensures
        payments(r@) == settlement_plan(members@, as_ints(balances@)),
{
    let (mut debtors, mut creditors) = partition_balances(members, balances);
    let ghost whole = plan(parties(debtors@), parties(creditors@));
    let mut settlements: Vec<Settlement> = Vec::new();
    assert(payments(settlements@) + whole =~= whole);
    while debtors.len() > 0 && creditors.len() > 0
        invariant
            positive_parties(debtors@),
            positive_parties(creditors@),
            payments(settlements@) + plan(parties(debtors@), parties(creditors@)) == whole,
        decreases debtors@.len() + creditors@.len(),
    {
        let (d_addr, d_amt) = debtors[0];
        let (c_addr, c_amt) = creditors[0];
        let settle_amt = if d_amt < c_amt {
            d_amt
        } else {
            c_amt
        };
        let ghost dp = parties(debtors@);
        let ghost cp = parties(creditors@);
        let ghost before = payments(settlements@);
        settlements.push(Settlement { from: d_addr, to: c_addr, amount: settle_amt });
        let new_d = d_amt - settle_amt;
        let new_c = c_amt - settle_amt;
        if new_d == 0 {
            debtors.remove(0);
        } else {
            debtors.set(0, (d_addr, new_d));
        }
        if new_c == 0 {
            creditors.remove(0);
        } else {
            creditors.set(0, (c_addr, new_c));
        }
        proof {
            let amt = settle_amt as int;
            assert(amt == min_of(dp[0].1, cp[0].1));
            assert(parties(debtors@) =~= reduce_head(dp, amt));
            assert(parties(creditors@) =~= reduce_head(cp, amt));
            assert(payments(settlements@) =~= before.push((d_addr, c_addr, amt)));
            assert(plan(dp, cp) == seq![(dp[0].0, cp[0].0, amt)] + plan(reduce_head(dp, amt), reduce_head(cp, amt)));
            assert(payments(settlements@) + plan(parties(debtors@), parties(creditors@)) =~= before + plan(dp, cp));
        }
    }
    assert(plan(parties(debtors@), parties(creditors@)) == Seq::<(Account, Account, int)>::empty());
    assert(payments(settlements@) =~= payments(settlements@) + Seq::<(Account, Account, int)>::empty());
    settlements
}

} // verus!
