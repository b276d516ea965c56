use vstd::prelude::*;
use crate::seqs::{as_ints, count_of, distinct, fits, index_in, lemma_distinct_pos, lemma_sum_update, sum};
use crate::types::Account;

verus! {

/// The share of the participant at position `i` when `amount` is divided among `n`
/// participants: the first `amount % n` positions carry one extra unit.
pub open spec fn share_of(amount: int, n: int, i: int) -> int {
    if i < amount % n {
        amount / n + 1
    } else {
        amount / n
    }
}

/// The sum of the shares of the first `k` positions.
pub open spec fn shares_sum(amount: int, n: int, k: int) -> int
    decreases k,
{
    if k <= 0 {
        0
    } else {
        shares_sum(amount, n, k - 1) + share_of(amount, n, k - 1)
    }
}

/// What the participant at position `i` of an expense adds to the balance of `m`:
/// nothing unless that participant is `m`; the payer gains what it lent beyond its
/// own share, anyone else owes its share.
pub open spec fn position_delta(payer: Account, amount: int, parts: Seq<Account>, i: int, m: Account) -> int {
    if parts[i] != m {
        0
    } else if m == payer {
        amount - share_of(amount, parts.len() as int, i)
    } else {
        -share_of(amount, parts.len() as int, i)
    }
}

/// The change in the balance of `m` made by the first `k` positions of an expense.
pub open spec fn expense_delta_upto(payer: Account, amount: int, parts: Seq<Account>, k: int, m: Account) -> int
    decreases k,
{
    if k <= 0 {
        0
    } else {
        expense_delta_upto(payer, amount, parts, k - 1, m) + position_delta(payer, amount, parts, k - 1, m)
    }
}

/// The change in the balance of `m` made by a whole expense.
pub open spec fn expense_delta(payer: Account, amount: int, parts: Seq<Account>, m: Account) -> int {
    expense_delta_upto(payer, amount, parts, parts.len() as int, m)
}

/// The balances of `members` (in the same order) once an expense has been applied.
pub open spec fn balances_after_expense(
    members: Seq<Account>,
    bal: Seq<int>,
    payer: Account,
    amount: int,
    parts: Seq<Account>,
) -> Seq<int> {
    Seq::new(bal.len(), |j: int| bal[j] + expense_delta(payer, amount, parts, members[j]))
}

/// Every share lies between zero and the whole amount.
pub proof fn lemma_share_bounds(amount: int, n: int, i: int)
    requires
        amount >= 1,
        n >= 1,
        0 <= i,
    ensures
        0 <= share_of(amount, n, i) <= amount,
{
    let q = amount / n;
    let r = amount % n;
    assert(amount == q * n + r && 0 <= r < n) by (nonlinear_arith)
        requires n >= 1, q == amount / n, r == amount % n;
    assert(q >= 0 && q <= amount) by (nonlinear_arith)
        requires n >= 1, amount >= 1, amount == q * n + r, 0 <= r < n;
    if i < r {
        assert(q + 1 <= amount) by (nonlinear_arith)
            requires n >= 2, amount >= 1, amount == q * n + r, 0 < r < n, q >= 0;
    }
}

/// The first `k` shares sum to `k` times the base share plus one unit for each of
/// them that carries the remainder.
pub proof fn lemma_shares_sum(amount: int, n: int, k: int)
    requires
        amount >= 0,
        n >= 1,
        0 <= k <= n,
    ensures
        shares_sum(amount, n, k) == k * (amount / n) + if k < amount % n { k } else { amount % n },
    decreases k,
{
    let q = amount / n;
    let r = amount % n;
    assert(0 <= r < n && q >= 0) by (nonlinear_arith)
        requires n >= 1, amount >= 0, q == amount / n, r == amount % n;
    if k == 0 {
        assert(0 * q == 0);
    } else {
        lemma_shares_sum(amount, n, k - 1);
        assert(shares_sum(amount, n, k) == shares_sum(amount, n, k - 1) + share_of(amount, n, k - 1));
        assert((k - 1) * q + q == k * q) by (nonlinear_arith);
    }
}

/// Splitting is exact: over `n` positions the shares sum to the whole amount.
pub proof fn lemma_split_exact(amount: int, n: int)
    requires
        amount >= 1,
        n >= 1,
    ensures
        shares_sum(amount, n, n) == amount,
        forall|i: int| 0 <= i < n ==> #[trigger] share_of(amount, n, i) == if i < amount % n {
            amount / n + 1
        } else {
            amount / n
        },
{
    lemma_shares_sum(amount, n, n);
    let q = amount / n;
    let r = amount % n;
    assert(amount == n * q + r && 0 <= r < n) by (nonlinear_arith)
        requires n >= 1, q == amount / n, r == amount % n;
}

/// The payer's balance only grows during an expense and anyone else's only shrinks.
proof fn lemma_delta_sign(payer: Account, amount: int, parts: Seq<Account>, j: int, k: int, m: Account)
    requires
        amount >= 1,
        parts.len() >= 1,
        0 <= j <= k,
    ensures
        m == payer ==> 0 <= expense_delta_upto(payer, amount, parts, j, m) <= expense_delta_upto(
            payer,
            amount,
            parts,
            k,
            m,
        ),
        m != payer ==> expense_delta_upto(payer, amount, parts, k, m) <= expense_delta_upto(
            payer,
            amount,
            parts,
            j,
            m,
        ) <= 0,
    decreases k,
{
    if k > 0 {
        lemma_share_bounds(amount, parts.len() as int, k - 1);
        if j == k {
            lemma_delta_sign(payer, amount, parts, j - 1, k - 1, m);
        } else {
            lemma_delta_sign(payer, amount, parts, j, k - 1, m);
        }
    }
}

/// The balances after the first `k` positions of an expense, as a sequence.
pub open spec fn balances_upto(
    members: Seq<Account>,
    bal: Seq<int>,
    payer: Account,
    amount: int,
    parts: Seq<Account>,
    k: int,
) -> Seq<int> {
    Seq::new(bal.len(), |j: int| bal[j] + expense_delta_upto(payer, amount, parts, k, members[j]))
}

/// Over a group whose members are distinct and include every participant, an expense
/// changes the total of the balances by what the payer's listings lent minus the
/// shares handed out.
pub proof fn lemma_expense_total(
    members: Seq<Account>,
    bal: Seq<int>,
    payer: Account,
    amount: int,
    parts: Seq<Account>,
    k: int,
)
    requires
        distinct(members),
        bal.len() == members.len(),
        forall|i: int| 0 <= i < parts.len() ==> members.contains(#[trigger] parts[i]),
        0 <= k <= parts.len(),
    ensures
        sum(balances_upto(members, bal, payer, amount, parts, k)) == sum(bal) + count_of(
            parts.take(k),
            payer,
        ) * amount - shares_sum(amount, parts.len() as int, k),
    decreases k,
{
    if k == 0 {
        assert(balances_upto(members, bal, payer, amount, parts, 0) =~= bal);
        assert(parts.take(0).len() == 0);
        assert(count_of(parts.take(0), payer) == 0);
        assert(0 * amount == 0);
    } else {
        lemma_expense_total(members, bal, payer, amount, parts, k - 1);
        let p = parts[k - 1];
        assert(members.contains(p));
        let jp = choose|j: int| 0 <= j < members.len() && members[j] == p;
        let prev = balances_upto(members, bal, payer, amount, parts, k - 1);
        let next = balances_upto(members, bal, payer, amount, parts, k);
        let pd = position_delta(payer, amount, parts, k - 1, p);
        assert(next =~= prev.update(jp, prev[jp] + pd));
        lemma_sum_update(prev, jp, prev[jp] + pd);
        assert(parts.take(k).drop_last() =~= parts.take(k - 1));
        assert(parts.take(k).last() == p);
        let n = parts.len() as int;
        assert(shares_sum(amount, n, k) == shares_sum(amount, n, k - 1) + share_of(amount, n, k - 1));
        if p != payer {
            assert(count_of(parts.take(k), payer) == count_of(parts.take(k - 1), payer));
            assert(pd == -share_of(amount, n, k - 1));
        } else {
            assert(pd == amount - share_of(amount, n, k - 1));
            assert(count_of(parts.take(k), payer) == count_of(parts.take(k - 1), payer) + 1);
            assert((count_of(parts.take(k - 1), payer) + 1) * amount == count_of(parts.take(k - 1), payer) * amount
                + amount) by (nonlinear_arith);
        }
    }
}

/// When the payer is listed exactly once, an expense leaves the total of a group's
/// balances unchanged.
pub proof fn lemma_expense_keeps_total(
    members: Seq<Account>,
    bal: Seq<int>,
    payer: Account,
    amount: int,
    parts: Seq<Account>,
)
    requires
        distinct(members),
        bal.len() == members.len(),
        forall|i: int| 0 <= i < parts.len() ==> members.contains(#[trigger] parts[i]),
        amount >= 1,
        parts.len() >= 1,
        count_of(parts, payer) == 1,
    ensures
        sum(balances_after_expense(members, bal, payer, amount, parts)) == sum(bal),
{
    lemma_expense_total(members, bal, payer, amount, parts, parts.len() as int);
    lemma_split_exact(amount, parts.len() as int);
    assert(parts.take(parts.len() as int) =~= parts);
    assert(count_of(parts, payer) * amount == amount);
    assert(balances_upto(members, bal, payer, amount, parts, parts.len() as int) =~= balances_after_expense(
        members,
        bal,
        payer,
        amount,
        parts,
    ));
}

/// The share of the participant at position `i` of an expense of `amount` split among
/// `n` participants.
pub fn participant_share(amount: i128, n: usize, i: usize) -> (r: i128)
    requires
        amount > 0,
        n > 0,
    ensures
        r == share_of(amount as int, n as int, i as int),
{
    let count = n as i128;
    let base = amount / count;
    let remainder = amount % count;
    proof {
        lemma_share_bounds(amount as int, n as int, i as int);
    }
    if (i as i128) < remainder {
        base + 1
    } else {
        base
    }
}

/// Applies an expense to the balances of a group, held in the order of `members`.
pub fn apply_expense(
    balances: &mut Vec<i128>,
    members: &Vec<Account>,
    payer: Account,
    amount: i128,
    participants: &Vec<Account>,
)
    requires
        amount > 0,
        participants@.len() > 0,
        distinct(members@),
        old(balances)@.len() == members@.len(),
        forall|i: int| 0 <= i < participants@.len() ==> members@.contains(#[trigger] participants@[i]),
        forall|j: int| 0 <= j < members@.len() ==> fits(#[trigger] old(balances)@[j] as int),
        forall|j: int|
            0 <= j < members@.len() ==> fits(
                #[trigger] balances_after_expense(
                    members@,
                    as_ints(old(balances)@),
                    payer,
                    amount as int,
                    participants@,
                )[j],
            ),
    ensures
        as_ints(final(balances)@) == balances_after_expense(
            members@,
            as_ints(old(balances)@),
            payer,
            amount as int,
            participants@,
        ),
{
    let ghost bal0 = as_ints(balances@);
    let ghost parts = participants@;
    let n = participants.len();
    let mut i: usize = 0;
    assert(as_ints(balances@) =~= balances_upto(members@, bal0, payer, amount as int, parts, 0));
    while i < n
        invariant
            0 <= i <= n == parts.len(),
            parts == participants@,
            amount > 0,
            distinct(members@),
            bal0.len() == members@.len(),
            balances@.len() == members@.len(),
            forall|i: int| 0 <= i < parts.len() ==> members@.contains(#[trigger] parts[i]),
            forall|j: int| 0 <= j < members@.len() ==> fits(#[trigger] bal0[j]),
            forall|j: int|
                0 <= j < members@.len() ==> fits(
                    #[trigger] balances_after_expense(members@, bal0, payer, amount as int, parts)[j],
                ),
            as_ints(balances@) == balances_upto(members@, bal0, payer, amount as int, parts, i as int),
        decreases n - i,
    {
        let p = participants[i];
        let share = participant_share(amount, n, i);
        let j = index_in(members, p);
        proof {
            lemma_share_bounds(amount as int, n as int, i as int);
            lemma_delta_sign(payer, amount as int, parts, i as int + 1, n as int, p);
            lemma_delta_sign(payer, amount as int, parts, 0, n as int, p);
            assert(balances_after_expense(members@, bal0, payer, amount as int, parts)[j as int]
                == bal0[j as int] + expense_delta(payer, amount as int, parts, p));
            assert(as_ints(balances@)[j as int] == balances@[j as int] as int);
        }
        let cur = balances[j];
        let next = if p == payer {
            cur + (amount - share)
        } else {
            cur - share
        };
        let ghost before = balances@;
        balances.set(j, next);
        proof {
            assert(parts[i as int] == p);
            assert forall|k: int| 0 <= k < members@.len() implies #[trigger] as_ints(balances@)[k]
                == balances_upto(members@, bal0, payer, amount as int, parts, i as int + 1)[k] by {
                assert(expense_delta_upto(payer, amount as int, parts, i as int + 1, members@[k])
                    == expense_delta_upto(payer, amount as int, parts, i as int, members@[k])
                    + position_delta(payer, amount as int, parts, i as int, members@[k]));
                assert(as_ints(before)[k] == balances_upto(members@, bal0, payer, amount as int, parts, i as int)[k]);
                if k != j {
                    lemma_distinct_pos(members@, k);
                    assert(members@[k] != p);
                    assert(balances@[k] == before[k]);
                } else {
                    assert(balances@[k] == next);
                }
            }
            assert(as_ints(balances@) =~= balances_upto(
                members@,
                bal0,
                payer,
                amount as int,
                parts,
                i as int + 1,
            ));
        }
        i = i + 1;
    }
    assert(balances_upto(members@, bal0, payer, amount as int, parts, n as int) =~= balances_after_expense(
        members@,
        bal0,
        payer,
        amount as int,
        parts,
    ));
}

} // verus!
