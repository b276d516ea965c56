use vstd::prelude::*;
use crate::ledger::{GroupView, LedgerView};
use crate::planner::{creditors_of, creditors_upto, debtors_of, debtors_upto, min_of, plan, reduce_head, settlement_plan};
use crate::seqs::{first_pos, fits, lemma_distinct_pos, lemma_first_pos, sum};
use crate::types::Account;

verus! {

/// Registering an account twice keeps only the second name, and the account stays
/// registered.
pub proof fn lemma_register_twice(l: LedgerView, user: Account, first: String, second: String)
    ensures
        l.after_register(user, first).after_register(user, second).registered(user),
        l.after_register(user, first).after_register(user, second).names[user.id] == second,
        l.after_register(user, first).after_register(user, second).display_name(user) == second@,
{
}

/// The ledger after each payment of `s` has gone through `settle_debt` in order, or
/// `None` where `settle_debt` would refuse one or could not be called on it.
pub open spec fn settle_all(l: LedgerView, gid: u32, s: Seq<(Account, Account, int)>) -> Option<LedgerView>
    decreases s.len(),
{
    if s.len() == 0 {
        Some(l)
    } else if l.settle_error(s[0].0, gid, s[0].1, s[0].2) is Some || !l.settle_fits(s[0].0, gid, s[0].1, s[0].2)
        || !l.log_has_room(gid) || s[0].2 > i128::MAX {
        None
    } else {
        settle_all(l.after_settle(s[0].0, gid, s[0].1, s[0].2), gid, s.drop_first())
    }
}

/// Whether `m` is one of the parties of a queue.
pub open spec fn holds(s: Seq<(Account, int)>, m: Account) -> bool {
    exists|i: int| 0 <= i < s.len() && (#[trigger] s[i]).0 == m
}

/// The total amount of a queue of parties.
pub open spec fn amount_sum(s: Seq<(Account, int)>) -> int
    decreases s.len(),
{
    if s.len() == 0 {
        0
    } else {
        s[0].1 + amount_sum(s.drop_first())
    }
}

proof fn lemma_amount_sum_push(s: Seq<(Account, int)>, x: (Account, int))
    ensures
        amount_sum(s.push(x)) == amount_sum(s) + x.1,
    decreases s.len(),
{
    if s.len() > 0 {
        assert(s.push(x).drop_first() =~= s.drop_first().push(x));
        assert(s.push(x)[0] == s[0]);
        lemma_amount_sum_push(s.drop_first(), x);
        assert(amount_sum(s.push(x)) == s[0].1 + amount_sum(s.push(x).drop_first()));
    } else {
        assert(s.push(x).drop_first() =~= Seq::<(Account, int)>::empty());
        assert(s.push(x)[0] == x);
        assert(amount_sum(Seq::<(Account, int)>::empty()) == 0);
        assert(amount_sum(s) == 0);
    }
}

proof fn lemma_amount_sum_positive(s: Seq<(Account, int)>)
    requires
        forall|i: int| 0 <= i < s.len() ==> (#[trigger] s[i]).1 > 0,
    ensures
        amount_sum(s) >= 0,
        s.len() > 0 ==> amount_sum(s) > 0,
    decreases s.len(),
{
    if s.len() > 0 {
        assert forall|i: int| 0 <= i < s.drop_first().len() implies (#[trigger] s.drop_first()[i]).1 > 0 by {
            assert(s.drop_first()[i] == s[i + 1]);
        }
        lemma_amount_sum_positive(s.drop_first());
    }
}

/// What holds of the queues while the plan is carried out on group `gid` of `l`.
pub open spec fn queues_match(l: LedgerView, gid: u32, d: Seq<(Account, int)>, c: Seq<(Account, int)>) -> bool {
    let g = l.group(gid)->0;
    &&& l.wf()
    &&& l.group(gid) is Some
    &&& forall|i: int|
        0 <= i < d.len() ==> {
            &&& (#[trigger] d[i]).1 > 0
            &&& g.members.contains(d[i].0)
            &&& g.balance_of(d[i].0) == -d[i].1
        }
    &&& forall|i: int|
        0 <= i < c.len() ==> {
            &&& (#[trigger] c[i]).1 > 0
            &&& g.members.contains(c[i].0)
            &&& g.balance_of(c[i].0) == c[i].1
        }
    &&& forall|i: int, k: int| 0 <= i < k < d.len() ==> (#[trigger] d[i]).0 != (#[trigger] d[k]).0
    &&& forall|i: int, k: int| 0 <= i < k < c.len() ==> (#[trigger] c[i]).0 != (#[trigger] c[k]).0
    &&& forall|m: Account|
        g.members.contains(m) && !holds(d, m) && !holds(c, m) ==> #[trigger] g.balance_of(m) == 0
    &&& amount_sum(d) == amount_sum(c)
    &&& l.log(gid).len() + d.len() + c.len() < u32::MAX
}

/// All members of group `gid` have a zero balance.
pub open spec fn all_settled(l: LedgerView, gid: u32) -> bool {
    &&& l.group(gid) is Some
    &&& forall|m: Account| #[trigger] l.group(gid)->0.members.contains(m) ==> l.balance(gid, m) == 0
}

/// The members of a well-formed group have their balances at their own positions.
proof fn lemma_balance_at(g: GroupView, j: int)
    requires
        g.wf(),
        0 <= j < g.members.len(),
    ensures
        g.balance_of(g.members[j]) == g.balances[j],
        first_pos(g.members, g.members[j]) == j,
{
    lemma_distinct_pos(g.members, j);
    assert(g.members.contains(g.members[j]));
}

/// Carrying out the greedy plan on queues that match the group settles every member.
proof fn lemma_plan_settles(l: LedgerView, gid: u32, d: Seq<(Account, int)>, c: Seq<(Account, int)>)
    requires
        queues_match(l, gid, d, c),
    ensures
        settle_all(l, gid, plan(d, c)) is Some,
        all_settled(settle_all(l, gid, plan(d, c))->0, gid),
    decreases d.len() + c.len(),
{
    let g = l.group(gid)->0;
    if d.len() == 0 || c.len() == 0 {
        lemma_amount_sum_positive(d);
        lemma_amount_sum_positive(c);
        assert(d.len() == 0 && c.len() == 0);
        assert(plan(d, c) =~= Seq::<(Account, Account, int)>::empty());
        assert forall|m: Account| #[trigger] g.members.contains(m) implies l.balance(gid, m) == 0 by {
            assert(!holds(d, m) && !holds(c, m));
        }
    } else {
        let from = d[0].0;
        let to = c[0].0;
        let amt = min_of(d[0].1, c[0].1);
        assert(g.wf());
        lemma_first_pos(g.members, from);
        lemma_first_pos(g.members, to);
        let jf = first_pos(g.members, from);
        let jt = first_pos(g.members, to);
        assert(from != to);
        assert(jf != jt);
        assert(l.settle_error(from, gid, to, amt) is None);
        let nb = l.settled_balances(from, gid, to, amt);
        assert forall|j: int| 0 <= j < g.members.len() implies #[trigger] nb[j] == if j == jf {
            g.balances[j] + amt
        } else if j == jt {
            g.balances[j] - amt
        } else {
            g.balances[j]
        } by {}
        assert(g.balances[jf] == -d[0].1);
        assert(g.balances[jt] == c[0].1);
        assert(l.settle_fits(from, gid, to, amt));
        assert(amt <= i128::MAX) by {
            assert(fits(g.balances[jt]));
        }
        let l2 = l.after_settle(from, gid, to, amt);
        let g2 = l2.group(gid)->0;
        assert(l2.group(gid) == Some(GroupView { balances: nb, ..g }));
        assert(l2.log(gid).len() == l.log(gid).len() + 1);
        assert(l2.wf()) by {
            assert forall|i: int| 0 <= i < l2.groups.len() && #[trigger] l2.groups[i] is Some implies l2.groups[i]->0.wf() by {
                if i != gid - 1 {
                    assert(l.groups[i] is Some);
                }
            }
        }
        assert forall|m: Account| g.members.contains(m) implies #[trigger] g2.balance_of(m) == if m == from {
            g.balance_of(m) + amt
        } else if m == to {
            g.balance_of(m) - amt
        } else {
            g.balance_of(m)
        } by {
            lemma_first_pos(g.members, m);
        }
        let d2 = reduce_head(d, amt);
        let c2 = reduce_head(c, amt);
        assert(d.update(0, (d[0].0, d[0].1 - amt)).drop_first() =~= d.drop_first());
        assert(c.update(0, (c[0].0, c[0].1 - amt)).drop_first() =~= c.drop_first());
        assert(amount_sum(d2) == amount_sum(d) - amt);
        assert(amount_sum(c2) == amount_sum(c) - amt);
        assert forall|i: int| 0 <= i < d2.len() implies {
            &&& (#[trigger] d2[i]).1 > 0
            &&& g2.members.contains(d2[i].0)
            &&& g2.balance_of(d2[i].0) == -d2[i].1
        } by {
            if d[0].1 - amt == 0 {
                assert(d2[i] == d[i + 1]);
                assert(d[0].0 != d[i + 1].0);
                assert(d[i + 1].0 != to) by {
                    assert(g.balance_of(d[i + 1].0) < 0);
                }
            } else if i > 0 {
                assert(d[0].0 != d[i].0);
                assert(d[i].0 != to) by {
                    assert(g.balance_of(d[i].0) < 0);
                }
            }
        }
        assert forall|i: int| 0 <= i < c2.len() implies {
            &&& (#[trigger] c2[i]).1 > 0
            &&& g2.members.contains(c2[i].0)
            &&& g2.balance_of(c2[i].0) == c2[i].1
        } by {
            if c[0].1 - amt == 0 {
                assert(c2[i] == c[i + 1]);
                assert(c[0].0 != c[i + 1].0);
                assert(c[i + 1].0 != from) by {
                    assert(g.balance_of(c[i + 1].0) > 0);
                }
            } else if i > 0 {
                assert(c[0].0 != c[i].0);
                assert(c[i].0 != from) by {
                    assert(g.balance_of(c[i].0) > 0);
                }
            }
        }
        assert forall|i: int, k: int| 0 <= i < k < d2.len() implies (#[trigger] d2[i]).0 != (#[trigger] d2[k]).0 by {
            if d[0].1 - amt == 0 {
                assert(d2[i] == d[i + 1] && d2[k] == d[k + 1]);
            } else if i == 0 {
                assert(d2[k] == d[k]);
            } else {
                assert(d2[i] == d[i] && d2[k] == d[k]);
            }
        }
        assert forall|i: int, k: int| 0 <= i < k < c2.len() implies (#[trigger] c2[i]).0 != (#[trigger] c2[k]).0 by {
            if c[0].1 - amt == 0 {
                assert(c2[i] == c[i + 1] && c2[k] == c[k + 1]);
            } else if i == 0 {
                assert(c2[k] == c[k]);
            } else {
                assert(c2[i] == c[i] && c2[k] == c[k]);
            }
        }
        assert forall|m: Account| g2.members.contains(m) && !holds(d2, m) && !holds(c2, m) implies #[trigger] g2.balance_of(
            m,
        ) == 0 by {
            if m == from {
                if d[0].1 - amt != 0 {
                    assert(d2[0].0 == m);
                }
            } else if m == to {
                if c[0].1 - amt != 0 {
                    assert(c2[0].0 == m);
                }
            } else {
                if holds(d, m) {
                    let i = choose|i: int| 0 <= i < d.len() && (#[trigger] d[i]).0 == m;
                    if d[0].1 - amt == 0 {
                        assert(d2[i - 1] == d[i]);
                    } else {
                        assert(d2[i] == d[i]);
                    }
                }
                if holds(c, m) {
                    let i = choose|i: int| 0 <= i < c.len() && (#[trigger] c[i]).0 == m;
                    if c[0].1 - amt == 0 {
                        assert(c2[i - 1] == c[i]);
                    } else {
                        assert(c2[i] == c[i]);
                    }
                }
            }
        }
        assert(queues_match(l2, gid, d2, c2));
        lemma_plan_settles(l2, gid, d2, c2);
        let p = plan(d, c);
        assert(p[0] == (from, to, amt));
        assert(p.drop_first() =~= plan(d2, c2));
    }
}

/// The queues that the planner builds from a group match it.
proof fn lemma_queues_start(l: LedgerView, gid: u32, k: int)
    requires
        l.wf(),
        l.group(gid) is Some,
        0 <= k <= l.group(gid)->0.members.len(),
    ensures
        ({
            let g = l.group(gid)->0;
            let d = debtors_upto(g.members, g.balances, k);
            let c = creditors_upto(g.members, g.balances, k);
            &&& forall|i: int|
                0 <= i < d.len() ==> exists|j: int|
                    0 <= j < k && g.balances[j] < 0 && (#[trigger] d[i]) == (g.members[j], -g.balances[j])
            &&& forall|i: int|
                0 <= i < c.len() ==> exists|j: int|
                    0 <= j < k && g.balances[j] > 0 && (#[trigger] c[i]) == (g.members[j], g.balances[j])
            &&& forall|i: int, i2: int| 0 <= i < i2 < d.len() ==> (#[trigger] d[i]).0 != (#[trigger] d[i2]).0
            &&& forall|i: int, i2: int| 0 <= i < i2 < c.len() ==> (#[trigger] c[i]).0 != (#[trigger] c[i2]).0
            &&& forall|j: int| 0 <= j < k && g.balances[j] < 0 ==> holds(d, #[trigger] g.members[j])
            &&& forall|j: int| 0 <= j < k && g.balances[j] > 0 ==> holds(c, #[trigger] g.members[j])
            &&& amount_sum(c) - amount_sum(d) == sum(g.balances.take(k))
            &&& d.len() + c.len() <= k
        }),
    decreases k,
{
    let g = l.group(gid)->0;
    assert(g.wf()) by {
        assert(l.groups[gid - 1] is Some);
    }
    if k == 0 {
        assert(g.balances.take(0) =~= Seq::<int>::empty());
    } else {
        lemma_queues_start(l, gid, k - 1);
        let d0 = debtors_upto(g.members, g.balances, k - 1);
        let c0 = creditors_upto(g.members, g.balances, k - 1);
        let d = debtors_upto(g.members, g.balances, k);
        let c = creditors_upto(g.members, g.balances, k);
        let b = g.balances[k - 1];
        let m = g.members[k - 1];
        assert(g.balances.take(k).drop_last() =~= g.balances.take(k - 1));
        assert(sum(g.balances.take(k)) == sum(g.balances.take(k - 1)) + b);
        if b < 0 {
            lemma_amount_sum_push(d0, (m, -b));
            assert(d == d0.push((m, -b)));
            assert forall|i: int| 0 <= i < d0.len() implies (#[trigger] d0[i]).0 != m by {
                let j = choose|j: int|
                    0 <= j < k - 1 && g.balances[j] < 0 && (#[trigger] d0[i]) == (g.members[j], -g.balances[j]);
                assert(g.members[j] != g.members[k - 1]);
            }
            assert forall|i: int| 0 <= i < d.len() implies exists|j: int|
                0 <= j < k && g.balances[j] < 0 && (#[trigger] d[i]) == (g.members[j], -g.balances[j]) by {
                if i == d.len() - 1 {
                    assert(d[i] == (g.members[k - 1], -g.balances[k - 1]));
                } else {
                    assert(d[i] == d0[i]);
                }
            }
            assert forall|i: int, i2: int| 0 <= i < i2 < d.len() implies (#[trigger] d[i]).0 != (#[trigger] d[i2]).0 by {
                assert(d[i] == d0[i]);
                if i2 < d.len() - 1 {
                    assert(d[i2] == d0[i2]);
                }
            }
            assert forall|j: int| 0 <= j < k && g.balances[j] < 0 implies holds(d, #[trigger] g.members[j]) by {
                if j == k - 1 {
                    assert(d[d.len() - 1].0 == g.members[j]);
                } else {
                    let i = choose|i: int| 0 <= i < d0.len() && (#[trigger] d0[i]).0 == g.members[j];
                    assert(d[i] == d0[i]);
                }
            }
            assert forall|j: int| 0 <= j < k && g.balances[j] > 0 implies holds(c, #[trigger] g.members[j]) by {
                assert(j < k - 1);
            }
        } else if b > 0 {
            lemma_amount_sum_push(c0, (m, b));
            assert(c == c0.push((m, b)));
            assert forall|i: int| 0 <= i < c0.len() implies (#[trigger] c0[i]).0 != m by {
                let j = choose|j: int|
                    0 <= j < k - 1 && g.balances[j] > 0 && (#[trigger] c0[i]) == (g.members[j], g.balances[j]);
                assert(g.members[j] != g.members[k - 1]);
            }
            assert forall|i: int| 0 <= i < c.len() implies exists|j: int|
                0 <= j < k && g.balances[j] > 0 && (#[trigger] c[i]) == (g.members[j], g.balances[j]) by {
                if i == c.len() - 1 {
                    assert(c[i] == (g.members[k - 1], g.balances[k - 1]));
                } else {
                    assert(c[i] == c0[i]);
                }
            }
            assert forall|i: int, i2: int| 0 <= i < i2 < c.len() implies (#[trigger] c[i]).0 != (#[trigger] c[i2]).0 by {
                assert(c[i] == c0[i]);
                if i2 < c.len() - 1 {
                    assert(c[i2] == c0[i2]);
                }
            }
            assert forall|j: int| 0 <= j < k && g.balances[j] > 0 implies holds(c, #[trigger] g.members[j]) by {
                if j == k - 1 {
                    assert(c[c.len() - 1].0 == g.members[j]);
                } else {
                    let i = choose|i: int| 0 <= i < c0.len() && (#[trigger] c0[i]).0 == g.members[j];
                    assert(c[i] == c0[i]);
                }
            }
            assert forall|j: int| 0 <= j < k && g.balances[j] < 0 implies holds(d, #[trigger] g.members[j]) by {
                assert(j < k - 1);
            }
        } else {
            assert forall|j: int| 0 <= j < k && g.balances[j] < 0 implies holds(d, #[trigger] g.members[j]) by {
                assert(j < k - 1);
            }
            assert forall|j: int| 0 <= j < k && g.balances[j] > 0 implies holds(c, #[trigger] g.members[j]) by {
                assert(j < k - 1);
            }
        }
    }
}

/// Settlement correctness: on a group whose balances sum to zero, carrying out every
/// payment that the planner proposes through `settle_debt`, in order, is accepted at
/// each step and leaves every member of the group with a zero balance.
pub proof fn lemma_settlements_clear_group(l: LedgerView, gid: u32)
    requires
        l.wf(),
        l.group(gid) is Some,
        l.group(gid)->0.total() == 0,
        l.log(gid).len() + l.group(gid)->0.members.len() < u32::MAX,
    ensures
        settle_all(l, gid, settlement_plan(l.group(gid)->0.members, l.group(gid)->0.balances)) is Some,
        all_settled(
            settle_all(l, gid, settlement_plan(l.group(gid)->0.members, l.group(gid)->0.balances))->0,
            gid,
        ),
{
    let g = l.group(gid)->0;
    let n = g.members.len() as int;
    assert(g.wf()) by {
        assert(l.groups[gid - 1] is Some);
    }
    lemma_queues_start(l, gid, n);
    let d = debtors_of(g.members, g.balances);
    let c = creditors_of(g.members, g.balances);
    assert(g.balances.take(n) =~= g.balances);
    assert forall|i: int|
        0 <= i < d.len() implies {
            &&& (#[trigger] d[i]).1 > 0
            &&& g.members.contains(d[i].0)
            &&& g.balance_of(d[i].0) == -d[i].1
        } by {
        let j = choose|j: int| 0 <= j < n && g.balances[j] < 0 && (#[trigger] d[i]) == (g.members[j], -g.balances[j]);
        lemma_balance_at(g, j);
    }
    assert forall|i: int|
        0 <= i < c.len() implies {
            &&& (#[trigger] c[i]).1 > 0
            &&& g.members.contains(c[i].0)
            &&& g.balance_of(c[i].0) == c[i].1
        } by {
        let j = choose|j: int| 0 <= j < n && g.balances[j] > 0 && (#[trigger] c[i]) == (g.members[j], g.balances[j]);
        lemma_balance_at(g, j);
    }
    assert forall|m: Account| g.members.contains(m) && !holds(d, m) && !holds(c, m) implies #[trigger] g.balance_of(m)
        == 0 by {
        let j = choose|j: int| 0 <= j < n && g.members[j] == m;
        lemma_balance_at(g, j);
    }
    assert(queues_match(l, gid, d, c));
    lemma_plan_settles(l, gid, d, c);
}

} // verus!
