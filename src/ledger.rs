use std::collections::HashMap;
use vstd::prelude::*;
use crate::planner::{payments, plan_settlements, settlement_plan};
use crate::seqs::{as_ints, contains_account, contains_id, count_of, distinct, first_pos, fits, index_in};
use crate::split::{apply_expense, balances_after_expense};
use crate::types::{
    Account, Activity, ActivityType, Error, Event, Expense, ExpenseView, Group, GroupWithBalances, MemberInfo,
    Settlement,
};

verus! {

broadcast use vstd::std_specs::hash::group_hash_axioms;

/// What a group is: its record together with its balances (in member order) and its
/// expenses.
pub ghost struct GroupView {
    pub name: String,
    pub creator: Account,
    pub members: Seq<Account>,
    pub balances: Seq<int>,
    pub expenses: Seq<ExpenseView>,
}

/// What the ledger is. Group `id` lives in slot `id - 1` of `groups` and of
/// `activities`; a deleted group leaves `None` in its slot and keeps its log.
pub ghost struct LedgerView {
    pub names: Map<u64, String>,
    pub groups: Seq<Option<GroupView>>,
    pub activities: Seq<Seq<Activity>>,
    pub member_groups: Map<u64, Seq<u32>>,
    pub events: Seq<Event>,
    pub now: u64,
}

/// The accounts of `s` with repeats left out, in order of first occurrence.
pub open spec fn dedup(s: Seq<Account>) -> Seq<Account>
    decreases s.len(),
{
    if s.len() == 0 {
        seq![]
    } else if dedup(s.drop_last()).contains(s.last()) {
        dedup(s.drop_last())
    } else {
        dedup(s.drop_last()).push(s.last())
    }
}

/// The groups listed for an account in a membership index.
pub open spec fn listed(mg: Map<u64, Seq<u32>>, a: Account) -> Seq<u32> {
    if mg.contains_key(a.id) {
        mg[a.id]
    } else {
        seq![]
    }
}

/// Lists `gid` for `a`, unless it is listed already.
pub open spec fn index_add(mg: Map<u64, Seq<u32>>, a: Account, gid: u32) -> Map<u64, Seq<u32>> {
    if listed(mg, a).contains(gid) {
        mg
    } else {
        mg.insert(a.id, listed(mg, a).push(gid))
    }
}

pub open spec fn index_add_all(mg: Map<u64, Seq<u32>>, accts: Seq<Account>, gid: u32) -> Map<u64, Seq<u32>>
    decreases accts.len(),
{
    if accts.len() == 0 {
        mg
    } else {
        index_add(index_add_all(mg, accts.drop_last(), gid), accts.last(), gid)
    }
}

/// Takes the first listing of `gid` away from `a`, if there is one.
pub open spec fn index_remove(mg: Map<u64, Seq<u32>>, a: Account, gid: u32) -> Map<u64, Seq<u32>> {
    if listed(mg, a).contains(gid) {
        mg.insert(a.id, listed(mg, a).remove(first_pos(listed(mg, a), gid)))
    } else {
        mg
    }
}

pub open spec fn index_remove_all(mg: Map<u64, Seq<u32>>, accts: Seq<Account>, gid: u32) -> Map<u64, Seq<u32>>
    decreases accts.len(),
{
    if accts.len() == 0 {
        mg
    } else {
        index_remove(index_remove_all(mg, accts.drop_last(), gid), accts.last(), gid)
    }
}

impl GroupView {
    /// The balance of `a`; zero for an account that is not a member.
    pub open spec fn balance_of(self, a: Account) -> int {
        if self.members.contains(a) {
            self.balances[first_pos(self.members, a)]
        } else {
            0
        }
    }

    /// The sum of the balances of all members.
    pub open spec fn total(self) -> int {
        crate::seqs::sum(self.balances)
    }

    pub open spec fn wf(self) -> bool {
        &&& distinct(self.members)
        &&& self.members.contains(self.creator)
        &&& self.balances.len() == self.members.len()
        &&& forall|j: int| 0 <= j < self.balances.len() ==> fits(#[trigger] self.balances[j])
    }
}

impl LedgerView {
    pub open spec fn wf(self) -> bool {
        &&& self.groups.len() == self.activities.len()
        &&& self.groups.len() <= u32::MAX
        &&& forall|i: int| 0 <= i < self.groups.len() && #[trigger] self.groups[i] is Some ==> self.groups[i]->0.wf()
    }

    pub open spec fn registered(self, a: Account) -> bool {
        self.names.contains_key(a.id)
    }

    /// The display name of `a`, or "Unknown".
    pub open spec fn display_name(self, a: Account) -> Seq<char> {
        if self.registered(a) {
            self.names[a.id]@
        } else {
            "Unknown"@
        }
    }

    pub open spec fn group(self, gid: u32) -> Option<GroupView> {
        if 1 <= gid <= self.groups.len() {
            self.groups[gid - 1]
        } else {
            None
        }
    }

    pub open spec fn is_member(self, gid: u32, a: Account) -> bool {
        self.group(gid) is Some && self.group(gid)->0.members.contains(a)
    }

    /// The balance of `a` in group `gid`; zero when there is none.
    pub open spec fn balance(self, gid: u32, a: Account) -> int {
        match self.group(gid) {
            Some(g) => g.balance_of(a),
            None => 0,
        }
    }

    /// The activity log of group `gid`; empty when there is none.
    pub open spec fn log(self, gid: u32) -> Seq<Activity> {
        if 1 <= gid <= self.activities.len() {
            self.activities[gid - 1]
        } else {
            seq![]
        }
    }

    pub open spec fn groups_for(self, a: Account) -> Seq<u32> {
        listed(self.member_groups, a)
    }

    /// Every group's balances sum to zero.
    pub open spec fn balanced(self) -> bool {
        forall|gid: u32| #[trigger] self.group(gid) is Some ==> self.group(gid)->0.total() == 0
    }

    /// Whether the log of group `gid` can take one more entry.
    pub open spec fn log_has_room(self, gid: u32) -> bool {
        self.log(gid).len() < u32::MAX
    }

    /// The ledger with `kind` appended to the log of group `gid`, numbered one past
    /// the entries already there.
    pub open spec fn with_activity(
        self,
        gid: u32,
        kind: ActivityType,
        actor: Account,
        recipient: Option<Account>,
        amount: int,
    ) -> LedgerView {
        let entry = Activity {
            id: (self.log(gid).len() + 1) as u32,
            kind,
            actor,
            recipient,
            amount: amount as i128,
            timestamp: self.now,
        };
        LedgerView { activities: self.activities.update(gid - 1, self.log(gid).push(entry)), ..self }
    }

    pub open spec fn with_group(self, gid: u32, g: Option<GroupView>) -> LedgerView {
        LedgerView { groups: self.groups.update(gid - 1, g), ..self }
    }

    pub open spec fn with_event(self, e: Event) -> LedgerView {
        LedgerView { events: self.events.push(e), ..self }
    }

    pub open spec fn after_register(self, user: Account, name: String) -> LedgerView {
        LedgerView { names: self.names.insert(user.id, name), ..self }.with_event(
            Event::UserRegistered { user },
        )
    }

    pub open spec fn create_group_error(self, creator: Account, members: Seq<Account>) -> Option<Error> {
        if !self.registered(creator) || exists|i: int|
            0 <= i < members.len() && !self.registered(#[trigger] members[i]) {
            Some(Error::UserNotRegistered)
        } else {
            None
        }
    }

    /// The members of a new group: those listed, without repeats, and the creator.
    pub open spec fn founding_members(creator: Account, members: Seq<Account>) -> Seq<Account> {
        dedup(members.push(creator))
    }

    pub open spec fn after_create_group(self, creator: Account, name: String, members: Seq<Account>) -> LedgerView {
        let gid = (self.groups.len() + 1) as u32;
        let all = Self::founding_members(creator, members);
        let g = GroupView {
            name,
            creator,
            members: all,
            balances: Seq::new(all.len(), |j: int| 0int),
            expenses: seq![],
        };
        LedgerView {
            groups: self.groups.push(Some(g)),
            activities: self.activities.push(seq![]),
            member_groups: index_add_all(self.member_groups, all, gid),
            ..self
        }.with_activity(gid, ActivityType::MemberAdded, creator, None, 0).with_event(
            Event::GroupCreated { group_id: gid, creator },
        )
    }

    pub open spec fn add_member_error(self, actor: Account, gid: u32, new_member: Account) -> Option<Error> {
        if !self.registered(actor) || !self.registered(new_member) {
            Some(Error::UserNotRegistered)
        } else if self.group(gid) is None {
            Some(Error::GroupNotFound)
        } else if !self.is_member(gid, actor) {
            Some(Error::NotAMember)
        } else if self.is_member(gid, new_member) {
            Some(Error::AlreadyMember)
        } else {
            None
        }
    }

    pub open spec fn after_add_member(self, actor: Account, gid: u32, new_member: Account) -> LedgerView {
        let g = self.group(gid)->0;
        let g2 = GroupView { members: g.members.push(new_member), balances: g.balances.push(0), ..g };
        LedgerView {
            member_groups: index_add(self.member_groups, new_member, gid),
            ..self.with_group(gid, Some(g2))
        }.with_activity(gid, ActivityType::MemberAdded, actor, Some(new_member), 0).with_event(
            Event::MemberAdded { group_id: gid, member: new_member, actor },
        )
    }

    pub open spec fn add_expense_error(self, payer: Account, gid: u32, amount: int, participants: Seq<Account>) -> Option<
        Error,
    > {
        if amount <= 0 {
            Some(Error::InvalidAmount)
        } else if self.group(gid) is None {
            Some(Error::GroupNotFound)
        } else if !self.is_member(gid, payer) {
            Some(Error::NotAMember)
        } else if exists|i: int| 0 <= i < participants.len() && !self.is_member(gid, #[trigger] participants[i]) {
            Some(Error::NotAMember)
        } else if participants.len() == 0 {
            Some(Error::InvalidAmount)
        } else {
            None
        }
    }

    /// The balances of group `gid` once the expense is applied.
    pub open spec fn expense_balances(self, payer: Account, gid: u32, amount: int, participants: Seq<Account>) -> Seq<int> {
        let g = self.group(gid)->0;
        balances_after_expense(g.members, g.balances, payer, amount, participants)
    }

    /// Whether every balance that the expense produces stays in range.
    pub open spec fn expense_fits(self, payer: Account, gid: u32, amount: int, participants: Seq<Account>) -> bool {
        self.add_expense_error(payer, gid, amount, participants) is None ==> forall|j: int|
            0 <= j < self.group(gid)->0.members.len() ==> fits(
                #[trigger] self.expense_balances(payer, gid, amount, participants)[j],
            )
    }

    pub open spec fn after_add_expense(self, payer: Account, gid: u32, amount: int, participants: Seq<Account>) -> LedgerView {
        let g = self.group(gid)->0;
        let e = ExpenseView { payer, amount, participants, timestamp: self.now };
        let g2 = GroupView {
            balances: self.expense_balances(payer, gid, amount, participants),
            expenses: g.expenses.push(e),
            ..g
        };
        self.with_group(gid, Some(g2)).with_activity(gid, ActivityType::Expense, payer, None, amount).with_event(
            Event::ExpenseAdded { group_id: gid, payer, amount: amount as i128 },
        )
    }

    pub open spec fn settle_error(self, from: Account, gid: u32, to: Account, amount: int) -> Option<Error> {
        if amount <= 0 {
            Some(Error::InvalidAmount)
        } else if self.group(gid) is None {
            Some(Error::GroupNotFound)
        } else if !self.is_member(gid, from) || !self.is_member(gid, to) {
            Some(Error::NotAMember)
        } else if self.balance(gid, from) >= 0 {
            Some(Error::InvalidAmount)
        } else if amount > -self.balance(gid, from) {
            Some(Error::InvalidAmount)
        } else {
            None
        }
    }

    /// The balances of group `gid` once `amount` has moved from `from` to `to`: first
    /// `from` is credited, then `to` is debited.
    pub open spec fn settled_balances(self, from: Account, gid: u32, to: Account, amount: int) -> Seq<int> {
        let g = self.group(gid)->0;
        let jf = first_pos(g.members, from);
        let jt = first_pos(g.members, to);
        let b1 = g.balances.update(jf, g.balances[jf] + amount);
        b1.update(jt, b1[jt] - amount)
    }

    /// Whether the balances that the settlement produces stay in range.
    pub open spec fn settle_fits(self, from: Account, gid: u32, to: Account, amount: int) -> bool {
        self.settle_error(from, gid, to, amount) is None ==> forall|j: int|
            0 <= j < self.group(gid)->0.members.len() ==> fits(
                #[trigger] self.settled_balances(from, gid, to, amount)[j],
            )
    }

    pub open spec fn after_settle(self, from: Account, gid: u32, to: Account, amount: int) -> LedgerView {
        let g = self.group(gid)->0;
        let g2 = GroupView { balances: self.settled_balances(from, gid, to, amount), ..g };
        self.with_group(gid, Some(g2)).with_activity(gid, ActivityType::Settlement, from, Some(to), amount).with_event(
            Event::DebtSettled { group_id: gid, from, to, amount: amount as i128 },
        )
    }

    pub open spec fn delete_error(self, actor: Account, gid: u32) -> Option<Error> {
        if self.group(gid) is None {
            Some(Error::GroupNotFound)
        } else if actor != self.group(gid)->0.creator {
            Some(Error::NotAuthorized)
        } else {
            None
        }
    }

    /// The group's record, balances and expenses go, and so does its listing in each
    /// member's index; its activity log is kept as an audit trail.
    pub open spec fn after_delete(self, gid: u32) -> LedgerView {
        let g = self.group(gid)->0;
        LedgerView {
            member_groups: index_remove_all(self.member_groups, g.members, gid),
            ..self.with_group(gid, None)
        }.with_event(Event::GroupDeleted { group_id: gid })
    }
}

} // verus!

verus! {

/// A group together with the state that lives and dies with it.
struct GroupRecord {
    group: Group,
    balances: Vec<i128>,
    expenses: Vec<Expense>,
}

impl GroupRecord {
    closed spec fn view(&self) -> GroupView {
        GroupView {
            name: self.group.name,
            creator: self.group.creator,
            members: self.group.members@,
            balances: as_ints(self.balances@),
            expenses: self.expenses@.map_values(|e: Expense| e@),
        }
    }
}

pub open spec fn index_view(m: Map<u64, Vec<u32>>) -> Map<u64, Seq<u32>> {
    m.map_values(|v: Vec<u32>| v@)
}

/// The shared-expense ledger: a directory of users, groups with their balances and
/// expenses, per-group activity logs, a per-account index of groups, and the domain
/// events emitted so far.
pub struct LumenSplit {
    names: HashMap<u64, String>,
    groups: Vec<Option<GroupRecord>>,
    activities: Vec<Vec<Activity>>,
    member_groups: HashMap<u64, Vec<u32>>,
    events: Vec<Event>,
    now: u64,
}

impl View for LumenSplit {
    type V = LedgerView;

    closed spec fn view(&self) -> LedgerView {
        LedgerView {
            names: self.names@,
            groups: self.groups@.map_values(|g: Option<GroupRecord>| match g {
                Some(r) => Some(r.view()),
                None => None,
            }),
            activities: self.activities@.map_values(|v: Vec<Activity>| v@),
            member_groups: index_view(self.member_groups@),
            events: self.events@,
            now: self.now,
        }
    }
}

/// Lists `gid` for `a` in the index, unless it is listed already.
fn link_group(index: &mut HashMap<u64, Vec<u32>>, a: Account, gid: u32)
    ensures
        index_view(final(index)@) == index_add(index_view(old(index)@), a, gid),
{
    let ghost before = index_view(index@);
    let mut list = match index.remove(&a.id) {
        Some(v) => v,
        None => Vec::new(),
    };
    assert(list@ == listed(before, a));
    let present = contains_id(&list, gid);
    if !present {
        list.push(gid);
    }
    index.insert(a.id, list);
    assert(index_view(index@) =~= index_add(before, a, gid));
}

/// Takes the first listing of `gid` away from `a`, if there is one.
fn unlink_group(index: &mut HashMap<u64, Vec<u32>>, a: Account, gid: u32)
    ensures
        index_view(final(index)@) == index_remove(index_view(old(index)@), a, gid),
{
    let ghost before = index_view(index@);
    match index.remove(&a.id) {
        Some(mut list) => {
            assert(list@ == listed(before, a));
            let mut i: usize = 0;
            while i < list.len() && list[i] != gid
                invariant
                    0 <= i <= list@.len(),
                    list@ == listed(before, a),
                    forall|k: int| 0 <= k < i ==> list@[k] != gid,
                decreases list.len() - i,
            {
                i = i + 1;
            }
            proof {
                crate::seqs::lemma_first_pos(list@, gid);
            }
            if i < list.len() {
                assert(i == first_pos(list@, gid));
                list.remove(i);
            }
            index.insert(a.id, list);
            assert(index_view(index@) =~= index_remove(before, a, gid));
        },
        None => {
            assert(index_view(index@) =~= index_remove(before, a, gid));
        },
    }
}

impl LumenSplit {
    /// An empty ledger at time zero.
    pub fn new() -> (r: LumenSplit)
        ensures
            r@.wf(),
            r@.balanced(),
            r@.names == Map::<u64, String>::empty(),
            r@.groups == Seq::<Option<GroupView>>::empty(),
            r@.activities == Seq::<Seq<Activity>>::empty(),
            r@.member_groups == Map::<u64, Seq<u32>>::empty(),
            r@.events == Seq::<Event>::empty(),
            r@.now == 0,
    {
        let r = LumenSplit {
            names: HashMap::new(),
            groups: Vec::new(),
            activities: Vec::new(),
            member_groups: HashMap::new(),
            events: Vec::new(),
            now: 0,
        };
        assert(r@.groups =~= Seq::<Option<GroupView>>::empty());
        assert(r@.activities =~= Seq::<Seq<Activity>>::empty());
        assert(r@.member_groups =~= Map::<u64, Seq<u32>>::empty());
        assert(r@.balanced());
        r
    }

    /// Sets the ledger time that new expenses and activities are stamped with.
    pub fn set_timestamp(&mut self, now: u64)
        ensures
            final(self)@ == (LedgerView { now, ..old(self)@ }),
    {
        self.now = now;
    }

    /// The ledger time.
    pub fn timestamp(&self) -> (r: u64)
        ensures
            r == self@.now,
    {
        self.now
    }

    /// The domain events emitted so far, oldest first.
    pub fn events(&self) -> (r: Vec<Event>)
        ensures
            r@ == self@.events,
    {
        self.events.clone()
    }

    /// Registers `user` under `name`; a second registration replaces the name.
    pub fn register(&mut self, user: Account, name: String)
        ensures
            final(self)@ == old(self)@.after_register(user, name),
            old(self)@.wf() ==> final(self)@.wf(),
            old(self)@.balanced() ==> final(self)@.balanced(),
    {
        self.names.insert(user.id, name);
        self.events.push(Event::UserRegistered { user });
        assert(self@.groups == old(self)@.groups);
        assert forall|gid: u32| #[trigger] self@.group(gid) is Some implies self@.group(gid) == old(self)@.group(gid) by {}
    }

    pub fn is_registered(&self, user: Account) -> (r: bool)
        ensures
            r == self@.registered(user),
    {
        self.names.contains_key(&user.id)
    }

    /// The display name of `user`, or "Unknown" for an account never registered.
    pub fn get_user_name(&self, user: Account) -> (r: String)
        ensures
            r@ == self@.display_name(user),
    {
        match self.names.get(&user.id) {
            Some(name) => name.clone(),
            None => {
                let r = String::from_str("Unknown");
                proof {
                    reveal_strlit("Unknown");
                }
                r
            },
        }
    }
}

} // verus!

verus! {

fn clone_accounts(v: &Vec<Account>) -> (r: Vec<Account>)
    ensures
        r@ == v@,
{
    let mut r: Vec<Account> = Vec::new();
    let mut i: usize = 0;
    while i < v.len()
        invariant
            0 <= i <= v@.len(),
            r@ == v@.take(i as int),
        decreases v.len() - i,
    {
        r.push(v[i]);
        i = i + 1;
        assert(r@ =~= v@.take(i as int));
    }
    assert(v@.take(v@.len() as int) =~= v@);
    r
}

fn clone_expense(e: &Expense) -> (r: Expense)
    ensures
        r@ == e@,
{
    Expense {
        payer: e.payer,
        amount: e.amount,
        participants: clone_accounts(&e.participants),
        timestamp: e.timestamp,
    }
}

fn clone_group(g: &Group) -> (r: Group)
    ensures
        r.name == g.name,
        r.members@ == g.members@,
        r.creator == g.creator,
{
    Group { name: g.name.clone(), members: clone_accounts(&g.members), creator: g.creator }
}

impl LumenSplit {
    /// The record of group `gid`, if it exists.
    fn find_group(&self, gid: u32) -> (r: Option<&GroupRecord>)
        ensures
            match r {
                Some(rec) => self@.group(gid) == Some(rec.view()),
                None => self@.group(gid) is None,
            },
    {
        if gid == 0 || gid as usize > self.groups.len() {
            return None;
        }
        let i = (gid - 1) as usize;
        match &self.groups[i] {
            Some(rec) => Some(rec),
            None => None,
        }
    }

    /// Takes the record of group `gid` out of its slot, which is left empty.
    fn take_group(&mut self, gid: u32) -> (r: Option<GroupRecord>)
        ensures
            match r {
                Some(rec) => old(self)@.group(gid) == Some(rec.view()) && final(self)@ == old(self)@.with_group(
                    gid,
                    None,
                ),
                None => old(self)@.group(gid) is None && final(self)@ == old(self)@,
            },
    {
        if gid == 0 || gid as usize > self.groups.len() {
            return None;
        }
        let i = (gid - 1) as usize;
        let mut slot: Option<GroupRecord> = None;
        std::mem::swap(&mut self.groups[i], &mut slot);
        match slot {
            Some(rec) => {
                assert(self@.groups =~= old(self)@.groups.update(gid - 1, None));
                Some(rec)
            },
            None => {
                assert(self@.groups =~= old(self)@.groups);
                None
            },
        }
    }

    /// Puts `rec` into the slot of group `gid`.
    fn put_group(&mut self, gid: u32, rec: GroupRecord)
        requires
            1 <= gid <= old(self)@.groups.len(),
        ensures
            final(self)@ == old(self)@.with_group(gid, Some(rec.view())),
    {
        let ghost v = rec.view();
        let i = (gid - 1) as usize;
        self.groups.set(i, Some(rec));
        assert(self@.groups =~= old(self)@.groups.update(gid - 1, Some(v)));
    }

    /// Appends an entry to the log of group `gid`, numbered one past the last.
    fn record_activity(
        &mut self,
        gid: u32,
        kind: ActivityType,
        actor: Account,
        recipient: Option<Account>,
        amount: i128,
    )
        requires
            1 <= gid <= old(self)@.activities.len(),
            old(self)@.log_has_room(gid),
        ensures
            final(self)@ == old(self)@.with_activity(gid, kind, actor, recipient, amount as int),
    {
        let i = (gid - 1) as usize;
        let id = (self.activities[i].len() + 1) as u32;
        let entry = Activity { id, kind, actor, recipient, amount, timestamp: self.now };
        let mut log: Vec<Activity> = Vec::new();
        std::mem::swap(&mut self.activities[i], &mut log);
        log.push(entry);
        self.activities.set(i, log);
        assert(self@.activities =~= old(self)@.activities.update(gid - 1, old(self)@.log(gid).push(entry)));
    }

    /// The balance of `member` in group `group_id`; zero when it has none.
    pub fn get_balance(&self, group_id: u32, member: Account) -> (r: i128)
        requires
            self@.wf(),
        ensures
            r as int == self@.balance(group_id, member),
    {
        match self.find_group(group_id) {
            Some(rec) => {
                match crate::seqs::position_of(&rec.group.members, member) {
                    Some(j) => rec.balances[j],
                    None => 0,
                }
            },
            None => 0,
        }
    }

    pub fn get_group(&self, group_id: u32) -> (r: Result<Group, Error>)
        ensures
            match r {
                Ok(g) => self@.group(group_id) is Some && g.name == self@.group(group_id)->0.name
                    && g.members@ == self@.group(group_id)->0.members && g.creator == self@.group(
                    group_id,
                )->0.creator,
                Err(e) => self@.group(group_id) is None && e == Error::GroupNotFound,
            },
    {
        match self.find_group(group_id) {
            Some(rec) => Ok(clone_group(&rec.group)),
            None => Err(Error::GroupNotFound),
        }
    }

    /// How many groups have been created, deleted ones included; also the last id given.
    pub fn get_group_count(&self) -> (r: u32)
        requires
            self@.wf(),
        ensures
            r == self@.groups.len(),
    {
        self.groups.len() as u32
    }

    /// The ids of the groups that list `member`, in order of joining.
    pub fn get_groups_for_member(&self, member: Account) -> (r: Vec<u32>)
        ensures
            r@ == self@.groups_for(member),
    {
        match self.member_groups.get(&member.id) {
            Some(v) => {
                let r = v.clone();
                assert(r@ =~= v@);
                r
            },
            None => Vec::new(),
        }
    }

    /// The expenses of group `group_id`, oldest first; empty when there is no such group.
    pub fn get_expenses(&self, group_id: u32) -> (r: Vec<Expense>)
        ensures
            r@.map_values(|e: Expense| e@) == match self@.group(group_id) {
                Some(g) => g.expenses,
                None => Seq::<ExpenseView>::empty(),
            },
    {
        let mut r: Vec<Expense> = Vec::new();
        match self.find_group(group_id) {
            Some(rec) => {
                let ghost all = rec.expenses@.map_values(|e: Expense| e@);
                let mut i: usize = 0;
                while i < rec.expenses.len()
                    invariant
                        0 <= i <= rec.expenses@.len(),
                        all == rec.expenses@.map_values(|e: Expense| e@),
                        r@.map_values(|e: Expense| e@) == all.take(i as int),
                    decreases rec.expenses.len() - i,
                {
                    let e = clone_expense(&rec.expenses[i]);
                    let ghost prev = r@;
                    r.push(e);
                    assert(r@ == prev.push(e));
                    assert(all[i as int] == e@);
                    assert(prev.map_values(|e: Expense| e@).push(e@) =~= r@.map_values(|e: Expense| e@));
                    i = i + 1;
                    assert(r@.map_values(|e: Expense| e@) =~= all.take(i as int));
                }
                assert(all.take(i as int) =~= all);
            },
            None => {
                assert(r@.map_values(|e: Expense| e@) =~= Seq::<ExpenseView>::empty());
            },
        }
        r
    }

    /// The activity log of group `group_id`, oldest first; it outlives the group.
    pub fn get_activities(&self, group_id: u32) -> (r: Vec<Activity>)
        ensures
            r@ == self@.log(group_id),
    {
        if group_id == 0 || group_id as usize > self.activities.len() {
            return Vec::new();
        }
        let r = self.activities[(group_id - 1) as usize].clone();
        assert(r@ =~= self@.log(group_id));
        r
    }
}

} // verus!

verus! {

proof fn lemma_dedup(s: Seq<Account>)
    ensures
        distinct(dedup(s)),
        forall|x: Account| dedup(s).contains(x) <==> s.contains(x),
    decreases s.len(),
{
    if s.len() > 0 {
        let d = s.drop_last();
        let last = s.last();
        lemma_dedup(d);
        assert(s =~= d.push(last));
        assert forall|x: Account| dedup(s).contains(x) <==> s.contains(x) by {
            assert(d.push(last)[d.len() as int] == last);
            if d.contains(x) {
                let k = choose|k: int| 0 <= k < d.len() && d[k] == x;
                assert(d.push(last)[k] == x);
            }
            if s.contains(x) && x != last {
                let k = choose|k: int| 0 <= k < s.len() && s[k] == x;
                assert(d[k] == x);
            }
            if !dedup(d).contains(last) {
                let e = dedup(d).push(last);
                assert(e[dedup(d).len() as int] == last);
                if dedup(d).contains(x) {
                    let k = choose|k: int| 0 <= k < dedup(d).len() && dedup(d)[k] == x;
                    assert(e[k] == x);
                }
                if e.contains(x) && x != last {
                    let k = choose|k: int| 0 <= k < e.len() && e[k] == x;
                    assert(dedup(d)[k] == x);
                }
            }
        }
    }
}

proof fn lemma_sum_zeros(n: nat)
    ensures
        crate::seqs::sum(Seq::new(n, |j: int| 0int)) == 0,
    decreases n,
{
    if n > 0 {
        lemma_sum_zeros((n - 1) as nat);
        assert(Seq::new(n, |j: int| 0int).drop_last() =~= Seq::new((n - 1) as nat, |j: int| 0int));
    }
}

/// Whether every account of `parts` occurs in `members`.
fn all_contained(members: &Vec<Account>, parts: &Vec<Account>) -> (r: bool)
    ensures
        r == forall|i: int| 0 <= i < parts@.len() ==> members@.contains(#[trigger] parts@[i]),
{
    let mut k: usize = 0;
    while k < parts.len()
        invariant
            0 <= k <= parts@.len(),
            forall|i: int| 0 <= i < k ==> members@.contains(#[trigger] parts@[i]),
        decreases parts.len() - k,
    {
        if !contains_account(members, parts[k]) {
            return false;
        }
        k = k + 1;
    }
    true
}

impl LumenSplit {
    /// Records an expense paid by `payer` and shared by `participants`, and moves the
    /// balances of the group accordingly.
    pub fn add_expense(&mut self, payer: Account, group_id: u32, amount: i128, participants: Vec<Account>) -> (r:
        Result<(), Error>)
        requires
            old(self)@.wf(),
            old(self)@.log_has_room(group_id),
            old(self)@.expense_fits(payer, group_id, amount as int, participants@),
        ensures
            final(self)@.wf(),
            match r {
                Ok(()) => old(self)@.add_expense_error(payer, group_id, amount as int, participants@) is None
                    && final(self)@ == old(self)@.after_add_expense(payer, group_id, amount as int, participants@),
                Err(e) => old(self)@.add_expense_error(payer, group_id, amount as int, participants@) == Some(e)
                    && final(self)@ == old(self)@,
            },
            old(self)@.balanced() && count_of(participants@, payer) == 1 ==> final(self)@.balanced(),
    {
        if amount <= 0 {
            return Err(Error::InvalidAmount);
        }
        match self.find_group(group_id) {
            Some(rec) => {
                if !contains_account(&rec.group.members, payer) {
                    return Err(Error::NotAMember);
                }
                if !all_contained(&rec.group.members, &participants) {
                    return Err(Error::NotAMember);
                }
            },
            None => {
                return Err(Error::GroupNotFound);
            },
        }
        if participants.len() == 0 {
            return Err(Error::InvalidAmount);
        }
        let ghost old_view = self@;
        let ghost g = old_view.group(group_id)->0;
        let ghost new_bal = old_view.expense_balances(payer, group_id, amount as int, participants@);
        assert(old_view.add_expense_error(payer, group_id, amount as int, participants@) is None);
        assert(old_view.groups[group_id - 1] is Some);
        assert(g.wf());
        match self.take_group(group_id) {
            Some(mut rec) => {
                assert forall|j: int| 0 <= j < rec.balances@.len() implies fits(#[trigger] rec.balances@[j] as int) by {
                    assert(as_ints(rec.balances@)[j] == rec.balances@[j] as int);
                }
                apply_expense(&mut rec.balances, &rec.group.members, payer, amount, &participants);
                let ghost expense_view = ExpenseView {
                    payer,
                    amount: amount as int,
                    participants: participants@,
                    timestamp: self.now,
                };
                let ghost prev = rec.expenses@;
                rec.expenses.push(Expense { payer, amount, participants, timestamp: self.now });
                assert(rec.expenses@.map_values(|e: Expense| e@) =~= g.expenses.push(expense_view));
                self.put_group(group_id, rec);
                assert(self@ == old_view.with_group(
                    group_id,
                    Some(GroupView { balances: new_bal, expenses: g.expenses.push(expense_view), ..g }),
                )) by {
                    assert(self@.groups =~= old_view.groups.update(
                        group_id - 1,
                        Some(GroupView { balances: new_bal, expenses: g.expenses.push(expense_view), ..g }),
                    ));
                }
            },
            None => {},
        }
        self.record_activity(group_id, ActivityType::Expense, payer, None, amount);
        self.events.push(Event::ExpenseAdded { group_id, payer, amount });
        proof {
            let post = old_view.after_add_expense(payer, group_id, amount as int, participants@);
            assert(self@.events =~= post.events);
            assert(self@.groups =~= post.groups);
            assert(self@.activities =~= post.activities);
            assert forall|i: int| 0 <= i < self@.groups.len() && #[trigger] self@.groups[i] is Some implies self@.groups[i]->0.wf() by {
                if i != group_id - 1 {
                    assert(old_view.groups[i] is Some);
                }
            }
            if old_view.balanced() && count_of(participants@, payer) == 1 {
                assert forall|gid: u32| #[trigger] self@.group(gid) is Some implies self@.group(gid)->0.total() == 0 by {
                    if gid == group_id {
                        crate::split::lemma_expense_keeps_total(
                            g.members,
                            g.balances,
                            payer,
                            amount as int,
                            participants@,
                        );
                    } else {
                        assert(old_view.group(gid) is Some);
                    }
                }
            }
        }
        Ok(())
    }
}

} // verus!

verus! {

/// Whether every account of `accts` is registered.
fn all_registered(ledger: &LumenSplit, accts: &Vec<Account>) -> (r: bool)
    ensures
        r == forall|i: int| 0 <= i < accts@.len() ==> ledger@.registered(#[trigger] accts@[i]),
{
    let mut k: usize = 0;
    while k < accts.len()
        invariant
            0 <= k <= accts@.len(),
            forall|i: int| 0 <= i < k ==> ledger@.registered(#[trigger] accts@[i]),
        decreases accts.len() - k,
    {
        if !ledger.is_registered(accts[k]) {
            return false;
        }
        k = k + 1;
    }
    true
}

/// The accounts of `members` without repeats, followed by `creator` unless listed.
fn founding_members(creator: Account, members: &Vec<Account>) -> (r: Vec<Account>)
    ensures
        r@ == LedgerView::founding_members(creator, members@),
{
    let mut all: Vec<Account> = Vec::new();
    let mut k: usize = 0;
    assert(members@.take(0) =~= Seq::<Account>::empty());
    while k < members.len()
        invariant
            0 <= k <= members@.len(),
            all@ == dedup(members@.take(k as int)),
        decreases members.len() - k,
    {
        let m = members[k];
        assert(members@.take(k as int + 1).drop_last() =~= members@.take(k as int));
        assert(members@.take(k as int + 1).last() == m);
        if !contains_account(&all, m) {
            all.push(m);
        }
        k = k + 1;
    }
    assert(members@.take(members@.len() as int) =~= members@);
    assert(members@.push(creator).drop_last() =~= members@);
    if !contains_account(&all, creator) {
        all.push(creator);
    }
    all
}

impl LumenSplit {
    /// Creates a group of `creator` and `members` and returns its id, the next in
    /// sequence. Every account involved must be registered.
    pub fn create_group(&mut self, creator: Account, name: String, members: Vec<Account>) -> (r: Result<u32, Error>)
        requires
            old(self)@.wf(),
            old(self)@.groups.len() < u32::MAX,
        ensures
            final(self)@.wf(),
            match r {
                Ok(id) => old(self)@.create_group_error(creator, members@) is None && id == old(self)@.groups.len() + 1
                    && final(self)@ == old(self)@.after_create_group(creator, name, members@),
                Err(e) => old(self)@.create_group_error(creator, members@) == Some(e) && final(self)@ == old(self)@,
            },
            old(self)@.balanced() ==> final(self)@.balanced(),
    {
        if !self.is_registered(creator) {
            return Err(Error::UserNotRegistered);
        }
        if !all_registered(self, &members) {
            return Err(Error::UserNotRegistered);
        }
        let ghost old_view = self@;
        let all = founding_members(creator, &members);
        let gid = self.groups.len() as u32 + 1;
        proof {
            lemma_dedup(members@.push(creator));
            assert(members@.push(creator)[members@.len() as int] == creator);
        }
        let mut balances: Vec<i128> = Vec::new();
        let mut k: usize = 0;
        while k < all.len()
            invariant
                0 <= k <= all@.len(),
                balances@.len() == k,
                forall|j: int| 0 <= j < k ==> balances@[j] == 0,
            decreases all.len() - k,
        {
            let ghost prev = balances@;
            balances.push(0);
            assert(balances@ == prev.push(0i128));
            k = k + 1;
        }
        assert(as_ints(balances@) =~= Seq::new(all@.len(), |j: int| 0int));
        let mut k: usize = 0;
        assert(all@.take(0) =~= Seq::<Account>::empty());
        while k < all.len()
            invariant
                0 <= k <= all@.len(),
                self@ == (LedgerView {
                    member_groups: index_add_all(old_view.member_groups, all@.take(k as int), gid),
                    ..old_view
                }),
            decreases all.len() - k,
        {
            link_group(&mut self.member_groups, all[k], gid);
            assert(all@.take(k as int + 1).drop_last() =~= all@.take(k as int));
            k = k + 1;
        }
        assert(all@.take(all@.len() as int) =~= all@);
        let ghost g = GroupView {
            name,
            creator,
            members: all@,
            balances: Seq::new(all@.len(), |j: int| 0int),
            expenses: seq![],
        };
        let rec = GroupRecord { group: Group { name, members: all, creator }, balances, expenses: Vec::new() };
        assert(rec.view().expenses =~= Seq::<ExpenseView>::empty());
        assert(rec.view() == g);
        self.groups.push(Some(rec));
        self.activities.push(Vec::new());
        assert(self@.groups =~= old_view.groups.push(Some(g)));
        assert(self@.activities =~= old_view.activities.push(seq![]));
        self.record_activity(gid, ActivityType::MemberAdded, creator, None, 0);
        self.events.push(Event::GroupCreated { group_id: gid, creator });
        proof {
            let post = old_view.after_create_group(creator, name, members@);
            assert(self@.events =~= post.events);
            assert(self@.groups =~= post.groups);
            assert(self@.activities =~= post.activities);
            assert(self@ == post);
            assert forall|i: int| 0 <= i < self@.groups.len() && #[trigger] self@.groups[i] is Some implies self@.groups[i]->0.wf() by {
                if i < old_view.groups.len() {
                    assert(old_view.groups[i] is Some);
                } else {
                    assert(g.members.contains(creator));
                }
            }
            if old_view.balanced() {
                assert forall|id: u32| #[trigger] self@.group(id) is Some implies self@.group(id)->0.total() == 0 by {
                    if id == gid {
                        lemma_sum_zeros(all@.len());
                    } else {
                        assert(old_view.group(id) is Some);
                    }
                }
            }
        }
        Ok(gid)
    }

    /// Adds the registered account `new_member` to a group, on behalf of `actor`, a
    /// registered member of it.
    pub fn add_member(&mut self, actor: Account, group_id: u32, new_member: Account) -> (r: Result<(), Error>)
        requires
            old(self)@.wf(),
            old(self)@.log_has_room(group_id),
        ensures
            final(self)@.wf(),
            match r {
                Ok(()) => old(self)@.add_member_error(actor, group_id, new_member) is None && final(self)@ == old(
                    self,
                )@.after_add_member(actor, group_id, new_member),
                Err(e) => old(self)@.add_member_error(actor, group_id, new_member) == Some(e) && final(self)@ == old(
                    self,
                )@,
            },
            old(self)@.balanced() ==> final(self)@.balanced(),
    {
        if !self.is_registered(actor) {
            return Err(Error::UserNotRegistered);
        }
        if !self.is_registered(new_member) {
            return Err(Error::UserNotRegistered);
        }
        match self.find_group(group_id) {
            Some(rec) => {
                if !contains_account(&rec.group.members, actor) {
                    return Err(Error::NotAMember);
                }
                if contains_account(&rec.group.members, new_member) {
                    return Err(Error::AlreadyMember);
                }
            },
            None => {
                return Err(Error::GroupNotFound);
            },
        }
        let ghost old_view = self@;
        let ghost g = old_view.group(group_id)->0;
        let ghost g2 = GroupView { members: g.members.push(new_member), balances: g.balances.push(0), ..g };
        assert(old_view.groups[group_id - 1] is Some);
        match self.take_group(group_id) {
            Some(mut rec) => {
                rec.group.members.push(new_member);
                rec.balances.push(0);
                assert(as_ints(rec.balances@) =~= g.balances.push(0));
                assert(rec.view() == g2);
                self.put_group(group_id, rec);
                assert(self@.groups =~= old_view.groups.update(group_id - 1, Some(g2)));
            },
            None => {},
        }
        link_group(&mut self.member_groups, new_member, group_id);
        self.events.push(Event::MemberAdded { group_id, member: new_member, actor });
        self.record_activity(group_id, ActivityType::MemberAdded, actor, Some(new_member), 0);
        proof {
            let post = old_view.after_add_member(actor, group_id, new_member);
            assert(self@.events =~= post.events);
            assert(self@.groups =~= post.groups);
            assert(self@.activities =~= post.activities);
            assert(self@ == post);
            assert forall|i: int| 0 <= i < self@.groups.len() && #[trigger] self@.groups[i] is Some implies self@.groups[i]->0.wf() by {
                if i != group_id - 1 {
                    assert(old_view.groups[i] is Some);
                } else {
                    assert(g.wf());
                    assert(g2.members.contains(g.creator)) by {
                        let k = choose|k: int| 0 <= k < g.members.len() && g.members[k] == g.creator;
                        assert(g2.members[k] == g.creator);
                    }
                    assert(distinct(g2.members));
                }
            }
            if old_view.balanced() {
                assert forall|id: u32| #[trigger] self@.group(id) is Some implies self@.group(id)->0.total() == 0 by {
                    assert(old_view.group(id) is Some);
                    if id == group_id {
                        assert(g2.balances.drop_last() =~= g.balances);
                    }
                }
            }
        }
        Ok(())
    }
}

} // verus!

verus! {

impl LumenSplit {
    /// Pays `amount` of the debt of `from` in a group to `to`. Only a debtor may pay,
    /// and no more than it owes.
    pub fn settle_debt(&mut self, from: Account, group_id: u32, to: Account, amount: i128) -> (r: Result<(), Error>)
        requires
            old(self)@.wf(),
            old(self)@.log_has_room(group_id),
            old(self)@.settle_fits(from, group_id, to, amount as int),
        ensures
            final(self)@.wf(),
            match r {
                Ok(()) => old(self)@.settle_error(from, group_id, to, amount as int) is None && final(self)@ == old(
                    self,
                )@.after_settle(from, group_id, to, amount as int),
                Err(e) => old(self)@.settle_error(from, group_id, to, amount as int) == Some(e) && final(self)@
                    == old(self)@,
            },
            old(self)@.balanced() ==> final(self)@.balanced(),
    {
        if amount <= 0 {
            return Err(Error::InvalidAmount);
        }
        let ghost old_view = self@;
        let ghost g = old_view.group(group_id)->0;
        match self.find_group(group_id) {
            Some(rec) => {
                if !contains_account(&rec.group.members, from) || !contains_account(&rec.group.members, to) {
                    return Err(Error::NotAMember);
                }
                let jf = index_in(&rec.group.members, from);
                assert(g.balance_of(from) == as_ints(rec.balances@)[jf as int]);
                let from_balance = rec.balances[jf];
                if from_balance >= 0 {
                    return Err(Error::InvalidAmount);
                }
                if amount + from_balance > 0 {
                    return Err(Error::InvalidAmount);
                }
            },
            None => {
                return Err(Error::GroupNotFound);
            },
        }
        assert(old_view.settle_error(from, group_id, to, amount as int) is None);
        assert(old_view.groups[group_id - 1] is Some);
        assert(g.wf());
        let ghost new_bal = old_view.settled_balances(from, group_id, to, amount as int);
        let ghost g2 = GroupView { balances: new_bal, ..g };
        match self.take_group(group_id) {
            Some(mut rec) => {
                let jf = index_in(&rec.group.members, from);
                let jt = index_in(&rec.group.members, to);
                assert(as_ints(rec.balances@)[jf as int] == rec.balances@[jf as int] as int);
                let fb = rec.balances[jf];
                rec.balances.set(jf, fb + amount);
                let ghost b1 = as_ints(rec.balances@);
                assert(b1 =~= g.balances.update(jf as int, g.balances[jf as int] + amount));
                assert(new_bal[jt as int] == b1[jt as int] - amount);
                assert(fits(new_bal[jt as int]));
                let tb = rec.balances[jt];
                rec.balances.set(jt, tb - amount);
                assert(as_ints(rec.balances@) =~= new_bal);
                assert(rec.view() == g2);
                self.put_group(group_id, rec);
                assert(self@.groups =~= old_view.groups.update(group_id - 1, Some(g2)));
                proof {
                    if old_view.balanced() {
                        crate::seqs::lemma_sum_update(g.balances, jf as int, g.balances[jf as int] + amount);
                        crate::seqs::lemma_sum_update(b1, jt as int, b1[jt as int] - amount);
                        assert(old_view.group(group_id) is Some);
                    }
                }
            },
            None => {},
        }
        self.events.push(Event::DebtSettled { group_id, from, to, amount });
        self.record_activity(group_id, ActivityType::Settlement, from, Some(to), amount);
        proof {
            let post = old_view.after_settle(from, group_id, to, amount as int);
            assert(self@.events =~= post.events);
            assert(self@.groups =~= post.groups);
            assert(self@.activities =~= post.activities);
            assert(self@ == post);
            assert forall|i: int| 0 <= i < self@.groups.len() && #[trigger] self@.groups[i] is Some implies self@.groups[i]->0.wf() by {
                if i != group_id - 1 {
                    assert(old_view.groups[i] is Some);
                }
            }
            if old_view.balanced() {
                assert forall|id: u32| #[trigger] self@.group(id) is Some implies self@.group(id)->0.total() == 0 by {
                    assert(old_view.group(id) is Some);
                }
            }
        }
        Ok(())
    }

    /// Deletes a group, on behalf of its creator: its record, balances and expenses go,
    /// and it leaves each member's index. Its activity log stays.
    pub fn delete_group(&mut self, actor: Account, group_id: u32) -> (r: Result<(), Error>)
        requires
            old(self)@.wf(),
        ensures
            final(self)@.wf(),
            match r {
                Ok(()) => old(self)@.delete_error(actor, group_id) is None && final(self)@ == old(self)@.after_delete(
                    group_id,
                ),
                Err(e) => old(self)@.delete_error(actor, group_id) == Some(e) && final(self)@ == old(self)@,
            },
            old(self)@.balanced() ==> final(self)@.balanced(),
    {
        match self.find_group(group_id) {
            Some(rec) => {
                if actor != rec.group.creator {
                    return Err(Error::NotAuthorized);
                }
            },
            None => {
                return Err(Error::GroupNotFound);
            },
        }
        let ghost old_view = self@;
        let ghost g = old_view.group(group_id)->0;
        match self.take_group(group_id) {
            Some(rec) => {
                let mut k: usize = 0;
                let ghost mid = self@;
                assert(rec.group.members@.take(0) =~= Seq::<Account>::empty());
                while k < rec.group.members.len()
                    invariant
                        0 <= k <= rec.group.members@.len(),
                        rec.group.members@ == g.members,
                        self@ == (LedgerView {
                            member_groups: index_remove_all(mid.member_groups, g.members.take(k as int), group_id),
                            ..mid
                        }),
                    decreases rec.group.members.len() - k,
                {
                    unlink_group(&mut self.member_groups, rec.group.members[k], group_id);
                    assert(g.members.take(k as int + 1).drop_last() =~= g.members.take(k as int));
                    k = k + 1;
                }
                assert(g.members.take(g.members.len() as int) =~= g.members);
            },
            None => {},
        }
        self.events.push(Event::GroupDeleted { group_id });
        proof {
            let post = old_view.after_delete(group_id);
            assert(self@.events =~= post.events);
            assert(self@ == post);
            assert forall|i: int| 0 <= i < self@.groups.len() && #[trigger] self@.groups[i] is Some implies self@.groups[i]->0.wf() by {
                assert(old_view.groups[i] is Some);
            }
            if old_view.balanced() {
                assert forall|id: u32| #[trigger] self@.group(id) is Some implies self@.group(id)->0.total() == 0 by {
                    assert(old_view.group(id) is Some);
                }
            }
        }
        Ok(())
    }

    /// The payments that settle a group: greedy matching of debtors with creditors, each
    /// side taken in member order.
    pub fn get_settlements(&self, group_id: u32) -> (r: Result<Vec<Settlement>, Error>)
        requires
            self@.wf(),
        ensures
            match r {
                Ok(s) => self@.group(group_id) is Some && payments(s@) == settlement_plan(
                    self@.group(group_id)->0.members,
                    self@.group(group_id)->0.balances,
                ),
                Err(e) => self@.group(group_id) is None && e == Error::GroupNotFound,
            },
    {
        match self.find_group(group_id) {
            Some(rec) => {
                assert(self@.groups[group_id - 1] is Some);
                assert forall|j: int| 0 <= j < rec.balances@.len() implies fits(#[trigger] rec.balances@[j] as int) by {
                    assert(as_ints(rec.balances@)[j] == rec.balances@[j] as int);
                }
                Ok(plan_settlements(&rec.group.members, &rec.balances))
            },
            None => Err(Error::GroupNotFound),
        }
    }

    /// A group with each member's display name and balance, in member order.
    pub fn get_group_with_balances(&self, group_id: u32) -> (r: Result<GroupWithBalances, Error>)
        requires
            self@.wf(),
        ensures
            match r {
                Ok(v) => {
                    let g = self@.group(group_id)->0;
                    &&& self@.group(group_id) is Some
                    &&& v.name == g.name
                    &&& v.creator == g.creator
                    &&& v.members@.len() == g.members.len()
                    &&& forall|j: int|
                        0 <= j < g.members.len() ==> {
                            &&& (#[trigger] v.members@[j]).address == g.members[j]
                            &&& v.members@[j].name@ == self@.display_name(g.members[j])
                            &&& v.members@[j].balance as int == g.balances[j]
                        }
                },
                Err(e) => self@.group(group_id) is None && e == Error::GroupNotFound,
            },
    {
        match self.find_group(group_id) {
            Some(rec) => {
                assert(self@.groups[group_id - 1] is Some);
                let ghost g = rec.view();
                let mut members: Vec<MemberInfo> = Vec::new();
                let mut j: usize = 0;
                while j < rec.group.members.len()
                    invariant
                        0 <= j <= rec.group.members@.len(),
                        g == rec.view(),
                        g.balances.len() == g.members.len(),
                        members@.len() == j,
                        forall|k: int|
                            0 <= k < j ==> {
                                &&& (#[trigger] members@[k]).address == g.members[k]
                                &&& members@[k].name@ == self@.display_name(g.members[k])
                                &&& members@[k].balance as int == g.balances[k]
                            },
                    decreases rec.group.members.len() - j,
                {
                    let address = rec.group.members[j];
                    let name = self.get_user_name(address);
                    assert(as_ints(rec.balances@)[j as int] == rec.balances@[j as int] as int);
                    members.push(MemberInfo { address, name, balance: rec.balances[j] });
                    j = j + 1;
                }
                Ok(GroupWithBalances { name: rec.group.name.clone(), members, creator: rec.group.creator })
            },
            None => Err(Error::GroupNotFound),
        }
    }
}

} // verus!
