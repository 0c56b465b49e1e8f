use vstd::prelude::*;

verus! {

/// The record kept for each registered attendee.
/// `refunded` means that the attendee has received its share of the distribution.
#[derive(Clone, Copy, Debug, PartialEq, Eq, Structural)]
pub struct Attendee {
    pub fee: i128,
    pub attended: bool,
    pub refunded: bool,
}

/// Why an operation of the contract was refused. A refused operation changes nothing.
#[derive(Clone, Copy, Debug, PartialEq, Eq, Structural)]
pub enum ContractError {
    NotInitialized,
    AlreadyInitialized,
    InvalidPrice,
    Unauthorized,
    ForbiddenIdentity,
    AlreadyRegistered,
    NotRegistered,
    AlreadyAttended,
    InvalidRange,
    NoAttendees,
    InsufficientDistribution,
    Overflow,
}

/// The largest number of sequence indices that one withdrawal may cover.
pub const MAX_BATCH: u32 = 10;

/// The abstract state of the contract.
pub struct ContractModel {
    pub initialized: bool,
    pub admin: Seq<u8>,
    pub price: i128,
    pub token: Seq<u8>,
    /// Attendee records by identity.
    pub records: Map<Seq<u8>, Attendee>,
    /// The identities confirmed as attended, by sequence index.
    pub sequence: Seq<Seq<u8>>,
    /// The fees of registered attendees not yet confirmed as attended.
    pub unclaimed: int,
}

impl ContractModel {
    /// The invariant that every reachable state satisfies.
    pub open spec fn inv(self) -> bool {
        &&& self.initialized ==> self.price > 0
        &&& !self.initialized ==> self.records.is_empty() && self.sequence.len() == 0
            && self.unclaimed == 0
        &&& !self.records.contains_key(self.admin)
        &&& forall|id: Seq<u8>| #[trigger]
            self.records.contains_key(id) ==> {
                &&& self.records[id].fee == self.price
                &&& self.records[id].refunded ==> self.records[id].attended
                &&& self.records[id].attended ==> self.sequence.contains(id)
            }
        &&& self.sequence.no_duplicates()
        &&& self.sequence.len() <= u32::MAX
        &&& forall|k: int| 0 <= k < self.sequence.len() ==> {
                &&& self.records.contains_key(#[trigger] self.sequence[k])
                &&& self.records[self.sequence[k]].attended
            }
        &&& self.unclaimed >= 0
    }

    /// The state before `initialize`.
    pub open spec fn empty() -> ContractModel {
        ContractModel {
            initialized: false,
            admin: Seq::empty(),
            price: 0,
            token: Seq::empty(),
            records: Map::empty(),
            sequence: Seq::empty(),
            unclaimed: 0,
        }
    }

    /// Why `initialize` is refused, if it is.
    pub open spec fn initialize_error(self, price: i128) -> Option<ContractError> {
        if self.initialized {
            Some(ContractError::AlreadyInitialized)
        } else if price <= 0 {
            Some(ContractError::InvalidPrice)
        } else {
            None
        }
    }

    /// The state after `initialize`.
    pub open spec fn initialized_with(self, admin: Seq<u8>, price: i128, token: Seq<u8>) -> ContractModel {
        ContractModel { initialized: true, admin, price, token, ..self }
    }

    /// The admin guard: `None` exactly when `caller` is the configured administrator.
    pub open spec fn admin_error(self, caller: Seq<u8>) -> Option<ContractError> {
        if !self.initialized {
            Some(ContractError::NotInitialized)
        } else if caller != self.admin {
            Some(ContractError::Unauthorized)
        } else {
            None
        }
    }

    /// Why a deposit by `id` is refused, if it is: checked in this order.
    pub open spec fn deposit_error(self, id: Seq<u8>) -> Option<ContractError> {
        if !self.initialized {
            Some(ContractError::NotInitialized)
        } else if id == self.admin {
            Some(ContractError::ForbiddenIdentity)
        } else if self.records.contains_key(id) {
            Some(ContractError::AlreadyRegistered)
        } else if self.unclaimed + self.price > i128::MAX {
            Some(ContractError::Overflow)
        } else {
            None
        }
    }

    /// The state after `id` has registered and paid the price.
    pub open spec fn deposited(self, id: Seq<u8>) -> ContractModel {
        ContractModel {
            records: self.records.insert(id, Attendee { fee: self.price, attended: false, refunded: false }),
            unclaimed: self.unclaimed + self.price,
            ..self
        }
    }

    /// Why confirming `id` on the authority of `caller` is refused, if it is: checked in this
    /// order.
    pub open spec fn attend_error(self, caller: Seq<u8>, id: Seq<u8>) -> Option<ContractError> {
        if self.admin_error(caller) is Some {
            self.admin_error(caller)
        } else if id == self.admin {
            Some(ContractError::ForbiddenIdentity)
        } else if !self.records.contains_key(id) {
            Some(ContractError::NotRegistered)
        } else if self.records[id].attended {
            Some(ContractError::AlreadyAttended)
        } else if self.sequence.len() >= u32::MAX {
            Some(ContractError::Overflow)
        } else {
            None
        }
    }

    /// The state after `id` has been confirmed as attended: it takes the next sequence index
    /// and its fee leaves the unclaimed pool.
    pub open spec fn attended(self, id: Seq<u8>) -> ContractModel {
        ContractModel {
            records: self.records.insert(id, Attendee { attended: true, ..self.records[id] }),
            sequence: self.sequence.push(id),
            unclaimed: self.unclaimed - self.price,
            ..self
        }
    }

    /// What each attendee receives: the price and an equal share of the unclaimed pool.
    pub open spec fn distribution_amount(self) -> int {
        self.price + self.unclaimed / (self.sequence.len() as int)
    }

    /// Why a withdrawal over `[low, high)` on the authority of `caller` is refused, if it is:
    /// checked in this order.
    pub open spec fn withdraw_error(self, caller: Seq<u8>, high: u32, low: u32) -> Option<ContractError> {
        if self.admin_error(caller) is Some {
            self.admin_error(caller)
        } else if high < low || high - low > MAX_BATCH {
            Some(ContractError::InvalidRange)
        } else if self.sequence.len() == 0 {
            Some(ContractError::NoAttendees)
        } else if self.distribution_amount() > i128::MAX {
            Some(ContractError::Overflow)
        } else if self.distribution_amount() < self.price {
            Some(ContractError::InsufficientDistribution)
        } else {
            None
        }
    }

    /// The end of the populated part of the range `[low, high)`.
    pub open spec fn range_end(self, high: u32) -> int {
        if high as int <= self.sequence.len() {
            high as int
        } else {
            self.sequence.len() as int
        }
    }

    /// The identities with a sequence index in `[lo, hi)` that have not been paid, in index order.
    pub open spec fn payees(self, lo: int, hi: int) -> Seq<Seq<u8>>
        decreases hi - lo,
    {
        if hi <= lo {
            Seq::empty()
        } else {
            let id = self.sequence[hi - 1];
            let rest = self.payees(lo, hi - 1);
            if self.records[id].refunded {
                rest
            } else {
                rest.push(id)
            }
        }
    }

    /// Whether `id` holds a sequence index in `[lo, hi)`.
    pub open spec fn indexed_in(self, id: Seq<u8>, lo: int, hi: int) -> bool {
        exists|k: int| lo <= k < hi && #[trigger] self.sequence[k] == id
    }

    /// The state after every attendee with a sequence index in `[low, high)` has been paid.
    pub open spec fn withdrawn(self, high: u32, low: u32) -> ContractModel {
        ContractModel {
            records: Map::new(
                |id: Seq<u8>| self.records.contains_key(id),
                |id: Seq<u8>|
                    if self.indexed_in(id, low as int, self.range_end(high)) {
                        Attendee { refunded: true, ..self.records[id] }
                    } else {
                        self.records[id]
                    },
            ),
            ..self
        }
    }
}

/// The sum of the fees of the records not marked as attended.
pub open spec fn unattended_fees(s: Seq<Attendee>) -> int
    decreases s.len(),
{
    if s.len() == 0 {
        0
    } else {
        unattended_fees(s.drop_last()) + unattended_fee(s.last())
    }
}

/// The fee of a record if it is not marked as attended, else zero.
pub open spec fn unattended_fee(a: Attendee) -> int {
    if a.attended {
        0
    } else {
        a.fee as int
    }
}

pub proof fn lemma_unattended_fees_push(s: Seq<Attendee>, a: Attendee)
    ensures
        unattended_fees(s.push(a)) == unattended_fees(s) + unattended_fee(a),
{
    assert(s.push(a).drop_last() =~= s);
}

pub proof fn lemma_unattended_fees_update(s: Seq<Attendee>, j: int, a: Attendee)
    requires
        0 <= j < s.len(),
    ensures
        unattended_fees(s.update(j, a)) == unattended_fees(s) - unattended_fee(s[j]) + unattended_fee(a),
    decreases s.len(),
{
    let t = s.update(j, a);
    if j == s.len() - 1 {
        assert(t.drop_last() =~= s.drop_last());
    } else {
        assert(t.drop_last() =~= s.drop_last().update(j, a));
        lemma_unattended_fees_update(s.drop_last(), j, a);
    }
}

pub proof fn lemma_unattended_fees_nonneg(s: Seq<Attendee>)
    requires
        forall|j: int| 0 <= j < s.len() ==> #[trigger] s[j].fee >= 0,
    ensures
        unattended_fees(s) >= 0,
    decreases s.len(),
{
    if s.len() > 0 {
        lemma_unattended_fees_nonneg(s.drop_last());
    }
}

} // verus!
