use vstd::prelude::*;

verus! {

/// An opaque participant identifier. The ledger only ever compares identifiers for equality.
#[derive(Clone, Copy, Debug, PartialEq, Eq, Hash, Structural)]
pub struct Account {
    pub id: u64,
}

/// Why an operation was rejected. A rejected operation leaves the ledger unchanged.
#[derive(Clone, Copy, Debug, PartialEq, Eq, PartialOrd, Ord, Hash, Structural)]
pub enum Error {
    GroupNotFound,
    NotAMember,
    InvalidAmount,
    AlreadyMember,
    NotAuthorized,
    UserNotRegistered,
}

impl Error {
    /// The numeric code of the error, as exposed to hosts.
    pub fn code(&self) -> (r: u32)
        ensures
            r == self.spec_code(),
    {
        match self {
            Error::GroupNotFound => 1,
            Error::NotAMember => 2,
            Error::InvalidAmount => 3,
            Error::AlreadyMember => 4,
            Error::NotAuthorized => 5,
            Error::UserNotRegistered => 6,
        }
    }

    pub open spec fn spec_code(&self) -> u32 {
        match self {
            Error::GroupNotFound => 1,
            Error::NotAMember => 2,
            Error::InvalidAmount => 3,
            Error::AlreadyMember => 4,
            Error::NotAuthorized => 5,
            Error::UserNotRegistered => 6,
        }
    }
}

/// The kind of an entry of a group's activity log.
#[derive(Clone, Copy, Debug, PartialEq, Eq, Hash, Structural)]
pub enum ActivityType {
    Expense,
    Settlement,
    MemberAdded,
}

/// One entry of a group's append-only activity log.
#[derive(Clone, Copy, Debug, PartialEq, Eq, Structural)]
pub struct Activity {
    pub id: u32,
    pub kind: ActivityType,
    pub actor: Account,
    pub recipient: Option<Account>,
    pub amount: i128,
    pub timestamp: u64,
}

/// A recorded expense: who paid, how much, and who shares it.
#[derive(Clone, Debug)]
pub struct Expense {
    pub payer: Account,
    pub amount: i128,
    pub participants: Vec<Account>,
    pub timestamp: u64,
}

/// The mathematical content of an [`Expense`].
pub ghost struct ExpenseView {
    pub payer: Account,
    pub amount: int,
    pub participants: Seq<Account>,
    pub timestamp: u64,
}

impl View for Expense {
    type V = ExpenseView;

    open spec fn view(&self) -> ExpenseView {
        ExpenseView {
            payer: self.payer,
            amount: self.amount as int,
            participants: self.participants@,
            timestamp: self.timestamp,
        }
    }
}

/// A group: its name, its creator and its members in order of joining.
#[derive(Clone, Debug)]
pub struct Group {
    pub name: String,
    pub members: Vec<Account>,
    pub creator: Account,
}

/// One member of a group together with the display name and the balance.
#[derive(Clone, Debug)]
pub struct MemberInfo {
    pub address: Account,
    pub name: String,
    pub balance: i128,
}

/// A group with every member's display name and balance.
#[derive(Clone, Debug)]
pub struct GroupWithBalances {
    pub name: String,
    pub members: Vec<MemberInfo>,
    pub creator: Account,
}

/// A proposed payment from a debtor to a creditor.
#[derive(Clone, Copy, Debug, PartialEq, Eq, Structural)]
pub struct Settlement {
    pub from: Account,
    pub to: Account,
    pub amount: i128,
}

/// A domain event, emitted by each successful mutating operation.
#[derive(Clone, Copy, Debug, PartialEq, Eq, Structural)]
pub enum Event {
    UserRegistered { user: Account },
    GroupCreated { group_id: u32, creator: Account },
    ExpenseAdded { group_id: u32, payer: Account, amount: i128 },
    MemberAdded { group_id: u32, member: Account, actor: Account },
    DebtSettled { group_id: u32, from: Account, to: Account, amount: i128 },
    GroupDeleted { group_id: u32 },
}

} // verus!
