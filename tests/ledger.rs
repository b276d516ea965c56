use lumen_split::ledger::LumenSplit;
use lumen_split::types::{Account, ActivityType, Error, Event};

fn account(id: u64) -> Account {
    Account { id }
}

fn name(s: &str) -> String {
    String::from(s)
}

/// A ledger with the given accounts registered.
fn ledger_with(users: &[(Account, &str)]) -> LumenSplit {
    let mut l = LumenSplit::new();
    for (a, n) in users {
        l.register(*a, name(n));
    }
    l
}

#[test]
fn test_create_group() {
    let creator = account(1);
    let member1 = account(2);
    let member2 = account(3);
    let mut l = ledger_with(&[(creator, "Creator"), (member1, "Member 1"), (member2, "Member 2")]);

    let group_id = l.create_group(creator, name("Pizza Night"), vec![member1, member2]).unwrap();
    assert_eq!(group_id, 1);

    let group = l.get_group(group_id).unwrap();
    assert_eq!(group.name, "Pizza Night");
    assert!(group.members.contains(&creator));
    assert!(group.members.contains(&member1));
    assert!(group.members.contains(&member2));

    assert_eq!(l.get_balance(group_id, creator), 0);
    assert_eq!(l.get_balance(group_id, member1), 0);
}

#[test]
fn test_add_expense_equal_split() {
    let creator = account(1);
    let member1 = account(2);
    let member2 = account(3);
    let mut l = ledger_with(&[(creator, "Creator"), (member1, "Member 1"), (member2, "Member 2")]);
    let group_id = l.create_group(creator, name("Trip"), vec![member1, member2]).unwrap();

    l.add_expense(creator, group_id, 300, vec![creator, member1, member2]).unwrap();

    assert_eq!(l.get_balance(group_id, creator), 200);
    assert_eq!(l.get_balance(group_id, member1), -100);
    assert_eq!(l.get_balance(group_id, member2), -100);
}

#[test]
fn test_settle_debt() {
    let creator = account(1);
    let member1 = account(2);
    let mut l = ledger_with(&[(creator, "Creator"), (member1, "Member 1")]);
    let group_id = l.create_group(creator, name("Settlement Test"), vec![member1]).unwrap();

    l.add_expense(creator, group_id, 100, vec![creator, member1]).unwrap();
    assert_eq!(l.get_balance(group_id, creator), 50);
    assert_eq!(l.get_balance(group_id, member1), -50);

    l.settle_debt(member1, group_id, creator, 50).unwrap();
    assert_eq!(l.get_balance(group_id, creator), 0);
    assert_eq!(l.get_balance(group_id, member1), 0);
}

#[test]
fn test_add_expense_non_member() {
    let creator = account(1);
    let non_member = account(2);
    let mut l = ledger_with(&[(creator, "Creator"), (non_member, "Non Member")]);
    let group_id = l.create_group(creator, name("Test"), vec![]).unwrap();

    let result = l.add_expense(non_member, group_id, 100, vec![creator]);
    assert_eq!(result, Err(Error::NotAMember));
}

#[test]
fn test_add_member() {
    let creator = account(1);
    let member1 = account(2);
    let member2 = account(3);
    let mut l = ledger_with(&[(creator, "Creator"), (member1, "Member 1"), (member2, "Member 2")]);
    let group_id = l.create_group(creator, name("Add Member"), vec![member1]).unwrap();

    l.add_member(creator, group_id, member2).unwrap();

    let group = l.get_group(group_id).unwrap();
    assert!(group.members.contains(&creator));
    assert!(group.members.contains(&member1));
    assert!(group.members.contains(&member2));
    assert_eq!(l.get_balance(group_id, member2), 0);
}

#[test]
fn test_settle_debt_safety_over_settle() {
    let creator = account(1);
    let member1 = account(2);
    let mut l = ledger_with(&[(creator, "Creator"), (member1, "Member 1")]);
    let group_id = l.create_group(creator, name("Safety Test"), vec![member1]).unwrap();
    l.add_expense(creator, group_id, 100, vec![creator, member1]).unwrap();

    // member1 owes 50: settling 60 is refused.
    assert_eq!(l.settle_debt(member1, group_id, creator, 60), Err(Error::InvalidAmount));
    assert_eq!(Error::InvalidAmount.code(), 3);
    assert_eq!(l.get_balance(group_id, member1), -50);
}

#[test]
fn test_settle_debt_safety_no_debt() {
    let creator = account(1);
    let member1 = account(2);
    let mut l = ledger_with(&[(creator, "Creator"), (member1, "Member 1")]);
    let group_id = l.create_group(creator, name("Safety Test 2"), vec![member1]).unwrap();

    // member1 has a zero balance: there is nothing to settle.
    assert_eq!(l.settle_debt(member1, group_id, creator, 10), Err(Error::InvalidAmount));
}

#[test]
fn test_create_group_unregistered_member() {
    let creator = account(1);
    let member1 = account(2);
    let mut l = ledger_with(&[(creator, "Creator")]);

    let result = l.create_group(creator, name("Bad Group"), vec![member1]);
    assert_eq!(result, Err(Error::UserNotRegistered));
    assert_eq!(Error::UserNotRegistered.code(), 6);
    assert_eq!(l.get_group_count(), 0);
}

#[test]
fn test_add_unregistered_member() {
    let creator = account(1);
    let member1 = account(2);
    let mut l = ledger_with(&[(creator, "Creator")]);
    let group_id = l.create_group(creator, name("Good Group"), vec![]).unwrap();

    assert_eq!(l.add_member(creator, group_id, member1), Err(Error::UserNotRegistered));
}

#[test]
fn test_activity_log() {
    let creator = account(1);
    let member1 = account(2);
    let mut l = ledger_with(&[(creator, "Creator"), (member1, "Member 1")]);

    let group_id = l.create_group(creator, name("Activity Test"), vec![member1]).unwrap();
    let activities = l.get_activities(group_id);
    assert_eq!(activities.len(), 1);
    let a1 = activities[0];
    assert_eq!(a1.id, 1);
    assert_eq!(a1.actor, creator);
    assert_eq!(a1.amount, 0);

    l.add_expense(creator, group_id, 100, vec![creator, member1]).unwrap();
    let activities = l.get_activities(group_id);
    assert_eq!(activities.len(), 2);
    let a2 = activities[1];
    assert_eq!(a2.id, 2);
    assert_eq!(a2.kind, ActivityType::Expense);
    assert_eq!(a2.amount, 100);

    l.settle_debt(member1, group_id, creator, 50).unwrap();
    let activities = l.get_activities(group_id);
    assert_eq!(activities.len(), 3);
    let a3 = activities[2];
    assert_eq!(a3.id, 3);
    assert_eq!(a3.kind, ActivityType::Settlement);
    assert_eq!(a3.actor, member1);
    assert_eq!(a3.recipient, Some(creator));
    assert_eq!(a3.amount, 50);

    let member2 = account(3);
    l.register(member2, name("Member 2"));
    l.add_member(creator, group_id, member2).unwrap();
    let activities = l.get_activities(group_id);
    assert_eq!(activities.len(), 4);
    let a4 = activities[3];
    assert_eq!(a4.id, 4);
    assert_eq!(a4.kind, ActivityType::MemberAdded);
    assert_eq!(a4.recipient, Some(member2));
}

/// C, M1 and M2 registered, and group 1 "Trip" of C with M1 and M2.
fn trip() -> (LumenSplit, Account, Account, Account) {
    let c = account(10);
    let m1 = account(11);
    let m2 = account(12);
    let mut l = ledger_with(&[(c, "C"), (m1, "M1"), (m2, "M2")]);
    assert_eq!(l.create_group(c, name("Trip"), vec![m1, m2]), Ok(1));
    (l, c, m1, m2)
}

fn group_total(l: &LumenSplit, group_id: u32) -> i128 {
    let g = l.get_group(group_id).unwrap();
    g.members.iter().map(|m| l.get_balance(group_id, *m)).sum()
}

#[test]
fn scenario_create_trip() {
    let (l, c, m1, m2) = trip();
    let g = l.get_group(1).unwrap();
    assert_eq!(g.members, vec![m1, m2, c]);
    assert_eq!(g.creator, c);
    for m in [c, m1, m2] {
        assert_eq!(l.get_balance(1, m), 0);
    }
    let log = l.get_activities(1);
    assert_eq!(log.len(), 1);
    assert_eq!(log[0].id, 1);
    assert_eq!(log[0].kind, ActivityType::MemberAdded);
    assert_eq!(log[0].actor, c);
    assert_eq!(log[0].recipient, None);
    assert_eq!(log[0].amount, 0);
}

#[test]
fn scenario_expense_on_trip() {
    let (mut l, c, m1, m2) = trip();
    l.add_expense(c, 1, 300, vec![c, m1, m2]).unwrap();
    assert_eq!(l.get_balance(1, c), 200);
    assert_eq!(l.get_balance(1, m1), -100);
    assert_eq!(l.get_balance(1, m2), -100);
    let log = l.get_activities(1);
    assert_eq!(log[1].id, 2);
    assert_eq!(log[1].kind, ActivityType::Expense);
    assert_eq!(log[1].amount, 300);
}

#[test]
fn scenario_settle_exact_debt() {
    let (mut l, c, m1, m2) = trip();
    l.add_expense(c, 1, 300, vec![c, m1, m2]).unwrap();
    assert_eq!(l.settle_debt(m1, 1, c, 101), Err(Error::InvalidAmount));
    assert_eq!(l.get_balance(1, m1), -100);
    assert_eq!(l.get_activities(1).len(), 2);
    l.settle_debt(m1, 1, c, 100).unwrap();
    assert_eq!(l.get_balance(1, m1), 0);
    assert_eq!(l.get_balance(1, c), 100);
}

#[test]
fn scenario_add_unregistered_changes_nothing() {
    let (mut l, c, m1, m2) = trip();
    l.add_expense(c, 1, 300, vec![c, m1, m2]).unwrap();
    let stranger = account(99);
    assert_eq!(l.add_member(c, 1, stranger), Err(Error::UserNotRegistered));
    assert_eq!(l.get_group(1).unwrap().members, vec![m1, m2, c]);
    assert_eq!(l.get_balance(1, c), 200);
    assert_eq!(l.get_balance(1, stranger), 0);
    assert_eq!(l.get_activities(1).len(), 2);
    assert!(l.get_groups_for_member(stranger).is_empty());
}

#[test]
fn scenario_delete_by_non_creator_refused() {
    let (mut l, c, m1, m2) = trip();
    l.add_expense(c, 1, 300, vec![c, m1, m2]).unwrap();
    assert_eq!(l.delete_group(m1, 1), Err(Error::NotAuthorized));
    assert_eq!(l.get_group(1).unwrap().members, vec![m1, m2, c]);
    assert_eq!(l.get_balance(1, c), 200);
    assert_eq!(l.get_balance(1, m1), -100);
    for m in [c, m1, m2] {
        assert_eq!(l.get_groups_for_member(m), vec![1]);
    }
}

#[test]
fn create_group_without_members_holds_creator_only() {
    let c = account(5);
    let mut l = ledger_with(&[(c, "Solo")]);
    let id = l.create_group(c, name("Alone"), vec![]).unwrap();
    let g = l.get_group(id).unwrap();
    assert_eq!(g.members, vec![c]);
    assert_eq!(l.get_balance(id, c), 0);
}

#[test]
fn register_twice_keeps_latest_name() {
    let a = account(7);
    let mut l = LumenSplit::new();
    assert!(!l.is_registered(a));
    assert_eq!(l.get_user_name(a), "Unknown");
    l.register(a, name("First"));
    l.register(a, name("Second"));
    assert!(l.is_registered(a));
    assert_eq!(l.get_user_name(a), "Second");
}

#[test]
fn split_remainder_goes_to_first_participants() {
    let (mut l, c, m1, m2) = trip();
    // 100 over three: shares 34, 33, 33 in listed order.
    l.add_expense(c, 1, 100, vec![m1, c, m2]).unwrap();
    assert_eq!(l.get_balance(1, m1), -34);
    assert_eq!(l.get_balance(1, c), 67);
    assert_eq!(l.get_balance(1, m2), -33);
    assert_eq!(group_total(&l, 1), 0);
}

#[test]
fn split_listing_a_participant_twice_charges_twice() {
    let (mut l, c, m1, _m2) = trip();
    // 10 over [m1, m1, c]: shares 4, 3, 3.
    l.add_expense(c, 1, 10, vec![m1, m1, c]).unwrap();
    assert_eq!(l.get_balance(1, m1), -7);
    assert_eq!(l.get_balance(1, c), 7);
    assert_eq!(group_total(&l, 1), 0);
}

#[test]
fn expense_where_payer_does_not_share() {
    let (mut l, c, m1, m2) = trip();
    l.add_expense(c, 1, 10, vec![m1, m2]).unwrap();
    assert_eq!(l.get_balance(1, m1), -5);
    assert_eq!(l.get_balance(1, m2), -5);
    assert_eq!(l.get_balance(1, c), 0);
}

#[test]
fn expense_errors() {
    let (mut l, c, m1, _m2) = trip();
    let outsider = account(50);
    l.register(outsider, name("Out"));
    assert_eq!(l.add_expense(c, 1, 0, vec![c]), Err(Error::InvalidAmount));
    assert_eq!(l.add_expense(c, 1, -5, vec![c]), Err(Error::InvalidAmount));
    assert_eq!(l.add_expense(c, 9, 10, vec![c]), Err(Error::GroupNotFound));
    assert_eq!(l.add_expense(c, 1, 10, vec![m1, outsider]), Err(Error::NotAMember));
    assert_eq!(l.add_expense(c, 1, 10, vec![]), Err(Error::InvalidAmount));
    assert!(l.get_expenses(1).is_empty());
    assert_eq!(l.get_activities(1).len(), 1);
}

#[test]
fn member_errors() {
    let (mut l, c, m1, _m2) = trip();
    let outsider = account(50);
    l.register(outsider, name("Out"));
    assert_eq!(l.add_member(c, 1, m1), Err(Error::AlreadyMember));
    assert_eq!(l.add_member(c, 2, outsider), Err(Error::GroupNotFound));
    let other = account(51);
    l.register(other, name("Other"));
    assert_eq!(l.add_member(outsider, 1, other), Err(Error::NotAMember));
    assert_eq!(Error::AlreadyMember.code(), 4);
}

#[test]
fn settle_errors() {
    let (mut l, c, m1, m2) = trip();
    l.add_expense(c, 1, 300, vec![c, m1, m2]).unwrap();
    let outsider = account(50);
    assert_eq!(l.settle_debt(m1, 1, c, 0), Err(Error::InvalidAmount));
    assert_eq!(l.settle_debt(m1, 4, c, 10), Err(Error::GroupNotFound));
    assert_eq!(l.settle_debt(m1, 1, outsider, 10), Err(Error::NotAMember));
    assert_eq!(l.settle_debt(c, 1, m1, 10), Err(Error::InvalidAmount));
}

#[test]
fn settle_to_a_non_creditor_is_accepted() {
    let (mut l, c, m1, m2) = trip();
    l.add_expense(c, 1, 300, vec![c, m1, m2]).unwrap();
    l.settle_debt(m1, 1, m2, 40).unwrap();
    assert_eq!(l.get_balance(1, m1), -60);
    assert_eq!(l.get_balance(1, m2), -140);
    assert_eq!(group_total(&l, 1), 0);
}

#[test]
fn settlements_follow_head_matching() {
    let a = account(1);
    let b = account(2);
    let c = account(3);
    let d = account(4);
    let mut l = ledger_with(&[(a, "A"), (b, "B"), (c, "C"), (d, "D")]);
    let id = l.create_group(a, name("Flat"), vec![b, c, d]).unwrap();
    // Members in order: b, c, d, a.
    l.add_expense(a, id, 90, vec![a, b, c]).unwrap();
    l.add_expense(d, id, 40, vec![d, b]).unwrap();
    assert_eq!(l.get_balance(id, b), -50);
    assert_eq!(l.get_balance(id, c), -30);
    assert_eq!(l.get_balance(id, d), 20);
    assert_eq!(l.get_balance(id, a), 60);
    let s = l.get_settlements(id).unwrap();
    let got: Vec<(Account, Account, i128)> = s.iter().map(|x| (x.from, x.to, x.amount)).collect();
    assert_eq!(got, vec![(b, d, 20), (b, a, 30), (c, a, 30)]);
}

#[test]
fn settlements_when_carried_out_clear_the_group() {
    let a = account(1);
    let b = account(2);
    let c = account(3);
    let d = account(4);
    let mut l = ledger_with(&[(a, "A"), (b, "B"), (c, "C"), (d, "D")]);
    let id = l.create_group(a, name("House"), vec![b, c, d]).unwrap();
    l.add_expense(a, id, 101, vec![a, b, c, d]).unwrap();
    l.add_expense(c, id, 77, vec![b, c]).unwrap();
    l.add_expense(d, id, 13, vec![a, d, c]).unwrap();
    assert_eq!(group_total(&l, id), 0);
    let plan = l.get_settlements(id).unwrap();
    assert!(!plan.is_empty());
    for s in &plan {
        assert!(s.amount > 0);
        l.settle_debt(s.from, id, s.to, s.amount).unwrap();
    }
    for m in [a, b, c, d] {
        assert_eq!(l.get_balance(id, m), 0);
    }
    assert!(l.get_settlements(id).unwrap().is_empty());
}

#[test]
fn settlements_of_missing_group() {
    let l = LumenSplit::new();
    assert_eq!(l.get_settlements(3).map(|s| s.len()), Err(Error::GroupNotFound));
    assert_eq!(Error::GroupNotFound.code(), 1);
}

#[test]
fn balances_sum_to_zero_through_a_session() {
    let (mut l, c, m1, m2) = trip();
    let m3 = account(13);
    l.register(m3, name("M3"));
    l.add_expense(c, 1, 301, vec![c, m1, m2]).unwrap();
    assert_eq!(group_total(&l, 1), 0);
    l.add_member(m1, 1, m3).unwrap();
    assert_eq!(group_total(&l, 1), 0);
    l.add_expense(m3, 1, 7, vec![m2, m3]).unwrap();
    assert_eq!(group_total(&l, 1), 0);
    l.settle_debt(m2, 1, c, 50).unwrap();
    assert_eq!(group_total(&l, 1), 0);
}

#[test]
fn delete_group_by_creator() {
    let (mut l, c, m1, m2) = trip();
    let id2 = l.create_group(m1, name("Second"), vec![c]).unwrap();
    assert_eq!(id2, 2);
    l.add_expense(c, 1, 300, vec![c, m1, m2]).unwrap();
    assert_eq!(l.delete_group(c, 1), Ok(()));
    assert_eq!(l.get_group(1).map(|g| g.name), Err(Error::GroupNotFound));
    assert_eq!(l.get_balance(1, c), 0);
    assert!(l.get_expenses(1).is_empty());
    assert_eq!(l.get_groups_for_member(c), vec![2]);
    assert!(l.get_groups_for_member(m2).is_empty());
    // The log stays behind as an audit trail.
    assert_eq!(l.get_activities(1).len(), 2);
    assert_eq!(l.delete_group(c, 1), Err(Error::GroupNotFound));
    assert_eq!(Error::NotAuthorized.code(), 5);
    // Ids are never reused.
    assert_eq!(l.create_group(c, name("Third"), vec![]), Ok(3));
    assert_eq!(l.get_group_count(), 3);
}

#[test]
fn create_group_drops_repeated_members() {
    let c = account(1);
    let m = account(2);
    let mut l = ledger_with(&[(c, "C"), (m, "M")]);
    let id = l.create_group(c, name("Twice"), vec![m, c, m]).unwrap();
    assert_eq!(l.get_group(id).unwrap().members, vec![m, c]);
    assert_eq!(l.get_groups_for_member(m), vec![id]);
    assert_eq!(Error::NotAMember.code(), 2);
}

#[test]
fn group_with_balances_joins_names() {
    let (mut l, c, m1, m2) = trip();
    l.add_expense(c, 1, 300, vec![c, m1, m2]).unwrap();
    let v = l.get_group_with_balances(1).unwrap();
    assert_eq!(v.name, "Trip");
    assert_eq!(v.creator, c);
    let rows: Vec<(Account, String, i128)> =
        v.members.iter().map(|m| (m.address, m.name.clone(), m.balance)).collect();
    assert_eq!(
        rows,
        vec![(m1, name("M1"), -100), (m2, name("M2"), -100), (c, name("C"), 200)]
    );
    assert!(l.get_group_with_balances(2).is_err());
}

#[test]
fn expenses_and_timestamps_are_recorded() {
    let (mut l, c, m1, m2) = trip();
    l.set_timestamp(1_700);
    assert_eq!(l.timestamp(), 1_700);
    l.add_expense(c, 1, 30, vec![c, m1, m2]).unwrap();
    let e = l.get_expenses(1);
    assert_eq!(e.len(), 1);
    assert_eq!(e[0].payer, c);
    assert_eq!(e[0].amount, 30);
    assert_eq!(e[0].participants, vec![c, m1, m2]);
    assert_eq!(e[0].timestamp, 1_700);
    assert_eq!(l.get_activities(1)[1].timestamp, 1_700);
}

#[test]
fn events_are_emitted_in_order() {
    let (mut l, c, m1, m2) = trip();
    l.add_expense(c, 1, 30, vec![c, m1, m2]).unwrap();
    l.settle_debt(m1, 1, c, 10).unwrap();
    l.delete_group(c, 1).unwrap();
    let ev = l.events();
    assert_eq!(
        ev[3..].to_vec(),
        vec![
            Event::GroupCreated { group_id: 1, creator: c },
            Event::ExpenseAdded { group_id: 1, payer: c, amount: 30 },
            Event::DebtSettled { group_id: 1, from: m1, to: c, amount: 10 },
            Event::GroupDeleted { group_id: 1 },
        ]
    );
    assert_eq!(ev[0], Event::UserRegistered { user: c });
}
