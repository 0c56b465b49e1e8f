use vstd::prelude::*;

use crate::identity::Identity;
use crate::model::{
    lemma_unattended_fees_nonneg, lemma_unattended_fees_push, lemma_unattended_fees_update,
    unattended_fees, Attendee, ContractError, ContractModel, MAX_BATCH,
};

verus! {

/// The slots of the contract's persistent state, for a host that stores it key by key.
#[derive(Clone, Copy, Debug, PartialEq, Eq, Structural)]
pub enum DataKey {
    Admin,
    Attendee,
    Count,
    Unclaimed,
    Price,
    Token,
}

/// The outcome of one batched withdrawal: every identity in `recipients` is to be paid `amount`
/// by the host, in the same call.
pub struct Withdrawal {
    /// The number of new payouts, the length of `recipients`.
    pub refund_count: i32,
    pub amount: i128,
    pub recipients: Vec<Identity>,
}

impl Withdrawal {
    pub open spec fn payee_ids(&self) -> Seq<Seq<u8>> {
        self.recipients@.map_values(|i: Identity| i@)
    }
}

/// The configuration fixed by `initialize`.
struct Config {
    admin: Identity,
    price: i128,
    token: Identity,
}

/// The escrow and distribution state of one event.
///
/// Attendee records are kept in registration order, in `ids` and `records`; `order` maps each
/// sequence index to the position of the attendee that received it.
pub struct DistributionContract {
    config: Option<Config>,
    ids: Vec<Identity>,
    records: Vec<Attendee>,
    order: Vec<usize>,
    unclaimed: i128,
    /// The position of each registered identity.
    index: Ghost<Map<Seq<u8>, int>>,
}

impl View for DistributionContract {
    type V = ContractModel;

    closed spec fn view(&self) -> ContractModel {
        ContractModel {
            initialized: self.config is Some,
            admin: match self.config {
                Some(c) => c.admin@,
                None => Seq::empty(),
            },
            price: match self.config {
                Some(c) => c.price,
                None => 0,
            },
            token: match self.config {
                Some(c) => c.token@,
                None => Seq::empty(),
            },
            records: Map::new(
                |id: Seq<u8>| self.index@.contains_key(id),
                |id: Seq<u8>| self.records@[self.index@[id]],
            ),
            sequence: Seq::new(self.order@.len(), |k: int| self.ids@[self.order@[k] as int]@),
            unclaimed: self.unclaimed as int,
        }
    }
}

impl DistributionContract {
    /// Well-formedness: the positions are a bijection between `ids` and the registered
    /// identities, every fee is the price, nobody is paid before attending, `order` lists each
    /// attended position exactly once, and the unclaimed pool is the sum of the fees of the
    /// attendees not yet confirmed.
    pub closed spec fn wf(&self) -> bool {
        let n = self.ids@.len();
        let m = self.order@.len();
        &&& self.records@.len() == n
        &&& forall|id: Seq<u8>| #[trigger]
            self.index@.contains_key(id) ==> 0 <= self.index@[id] < n && self.ids@[self.index@[id]]@
                == id
        &&& forall|j: int|
            0 <= j < n ==> self.index@.contains_key(#[trigger] self.ids@[j]@) && self.index@[self.ids@[j]@]
                == j
        &&& match self.config {
            None => n == 0 && m == 0 && self.unclaimed == 0,
            Some(c) => {
                &&& c.price > 0
                &&& !self.index@.contains_key(c.admin@)
                &&& forall|j: int| 0 <= j < n ==> #[trigger] self.records@[j].fee == c.price
            },
        }
        &&& forall|j: int|
            0 <= j < n ==> (#[trigger] self.records@[j]).refunded ==> self.records@[j].attended
        &&& m <= u32::MAX
        &&& forall|k: int|
            0 <= k < m ==> #[trigger] self.order@[k] < n && self.records@[self.order@[k] as int].attended
        &&& forall|k1: int, k2: int|
            0 <= k1 < m && 0 <= k2 < m && k1 != k2 ==> #[trigger] self.order@[k1]
                != #[trigger] self.order@[k2]
        &&& forall|j: int|
            0 <= j < n && (#[trigger] self.records@[j]).attended ==> exists|k: int|
                0 <= k < m && self.order@[k] == j
        &&& self.unclaimed == unattended_fees(self.records@)
    }

    /// Every well-formed contract has a state that satisfies the model's invariant.
    pub proof fn lemma_inv(&self)
        requires
            self.wf(),
        ensures
            self@.inv(),
    {
        let v = self@;
        if self.config is None {
            assert(v.records =~= Map::<Seq<u8>, Attendee>::empty());
        } else {
            lemma_unattended_fees_nonneg(self.records@);
        }
        assert forall|id: Seq<u8>| #[trigger]
            v.records.contains_key(id) && v.records[id].attended implies v.sequence.contains(id) by {
            let j = self.index@[id];
            {
                let k = choose|k: int| 0 <= k < self.order@.len() && self.order@[k] == j;
                assert(v.sequence[k] == id);
            }
        }
        assert forall|k1: int, k2: int|
            0 <= k1 < v.sequence.len() && 0 <= k2 < v.sequence.len() && k1 != k2 implies v.sequence[k1]
            != v.sequence[k2] by {
            let j1 = self.order@[k1] as int;
            let j2 = self.order@[k2] as int;
            assert(self.index@[self.ids@[j1]@] == j1);
            assert(self.index@[self.ids@[j2]@] == j2);
        }
        assert forall|k: int| 0 <= k < v.sequence.len() implies {
            &&& v.records.contains_key(#[trigger] v.sequence[k])
            &&& v.records[v.sequence[k]].attended
        } by {
            let j = self.order@[k] as int;
            assert(self.index@[self.ids@[j]@] == j);
        }
    }

    /// A contract that has not been initialized.
    pub fn new() -> (r: DistributionContract)
        ensures
            r.wf(),
            r@ == ContractModel::empty(),
    {
        let r = DistributionContract {
            config: None,
            ids: Vec::new(),
            records: Vec::new(),
            order: Vec::new(),
            unclaimed: 0,
            index: Ghost(Map::empty()),
        };
        assert(r@.records =~= Map::<Seq<u8>, Attendee>::empty());
        assert(r@.sequence =~= Seq::<Seq<u8>>::empty());
        r
    }

    /// Sets the administrator, the price and the token, once.
    pub fn initialize(&mut self, admin: Identity, price: i128, token: Identity) -> (r: Result<
        (),
        ContractError,
    >)
        requires
            old(self).wf(),
        ensures
            final(self).wf(),
            match old(self)@.initialize_error(price) {
                Some(e) => r == Err::<(), ContractError>(e) && final(self)@ == old(self)@,
                None => r == Ok::<(), ContractError>(()) && final(self)@ == old(self)@.initialized_with(
                    admin@,
                    price,
                    token@,
                ),
            },
    {
        if self.config.is_some() {
            return Err(ContractError::AlreadyInitialized);
        }
        if price <= 0 {
            return Err(ContractError::InvalidPrice);
        }
        let ghost before = self@;
        self.config = Some(Config { admin, price, token });
        assert(self@.records =~= before.records);
        assert(self@.sequence =~= before.sequence);
        Ok(())
    }

    /// The position of `id` among the registered attendees.
    fn find(&self, id: &Identity) -> (r: Option<usize>)
        requires
            self.wf(),
        ensures
            match r {
                Some(j) => j < self.ids@.len() && self.index@.contains_key(id@) && self.index@[id@]
                    == j,
                None => !self.index@.contains_key(id@),
            },
    {
        let mut j: usize = 0;
        while j < self.ids.len()
            invariant
                self.wf(),
                0 <= j <= self.ids@.len(),
                forall|i: int| 0 <= i < j ==> self.ids@[i]@ != id@,
            decreases self.ids@.len() - j,
        {
            if self.ids[j].same_as(id) {
                return Some(j);
            }
            j = j + 1;
        }
        proof {
            if self.index@.contains_key(id@) {
                assert(self.ids@[self.index@[id@]]@ == id@);
            }
        }
        None
    }

    /// Registers `attendee` at the current price. On success returns the amount that the host
    /// must debit from the attendee to the contract, as part of the same call.
    pub fn deposit(&mut self, attendee: &Identity) -> (r: Result<i128, ContractError>)
        requires
            old(self).wf(),
        ensures
            final(self).wf(),
            match old(self)@.deposit_error(attendee@) {
                Some(e) => r == Err::<i128, ContractError>(e) && final(self)@ == old(self)@,
                None => r == Ok::<i128, ContractError>(old(self)@.price) && final(self)@
                    == old(self)@.deposited(attendee@),
            },
    {
        let price = match &self.config {
            None => {
                return Err(ContractError::NotInitialized);
            },
            Some(c) => {
                if c.admin.same_as(attendee) {
                    return Err(ContractError::ForbiddenIdentity);
                }
                c.price
            },
        };
        if self.find(attendee).is_some() {
            return Err(ContractError::AlreadyRegistered);
        }
        if self.unclaimed > i128::MAX - price {
            return Err(ContractError::Overflow);
        }
        let ghost before = self@;
        let ghost old_records = self.records@;
        let ghost old_order = self.order@;
        let rec = Attendee { fee: price, attended: false, refunded: false };
        proof {
            lemma_unattended_fees_push(self.records@, rec);
        }
        let n = self.ids.len();
        self.ids.push(attendee.duplicate());
        self.records.push(rec);
        self.unclaimed = self.unclaimed + price;
        self.index = Ghost(self.index@.insert(attendee@, n as int));
        assert(self.records@ =~= old_records.push(rec));
        assert forall|j: int|
            0 <= j < self.ids@.len() && (#[trigger] self.records@[j]).attended implies exists|k: int|
            0 <= k < self.order@.len() && self.order@[k] == j by {
            assert(j < n);
            assert(old(self).records@[j] == self.records@[j]);
            assert(old(self).records@[j].attended);
            let k = choose|k: int| 0 <= k < old_order.len() && old_order[k] == j;
            assert(self.order@[k] == j);
        }
        assert(self@.records =~= before.records.insert(attendee@, rec));
        assert(self@.sequence =~= before.sequence);
        Ok(price)
    }

    /// Confirms that `attendee` attended, on the administrator's authority. On success returns
    /// the sequence index assigned to the attendee.
    pub fn attend(&mut self, caller: &Identity, attendee: &Identity) -> (r: Result<u32, ContractError>)
        requires
            old(self).wf(),
        ensures
            final(self).wf(),
            match old(self)@.attend_error(caller@, attendee@) {
                Some(e) => r == Err::<u32, ContractError>(e) && final(self)@ == old(self)@,
                None => r == Ok::<u32, ContractError>(old(self)@.sequence.len() as u32) && final(self)@
                    == old(self)@.attended(attendee@),
            },
    {
        let price = match &self.config {
            None => {
                return Err(ContractError::NotInitialized);
            },
            Some(c) => {
                if !c.admin.same_as(caller) {
                    return Err(ContractError::Unauthorized);
                }
                if c.admin.same_as(attendee) {
                    return Err(ContractError::ForbiddenIdentity);
                }
                c.price
            },
        };
        let j = match self.find(attendee) {
            None => {
                return Err(ContractError::NotRegistered);
            },
            Some(j) => j,
        };
        let rec = self.records[j];
        if rec.attended {
            return Err(ContractError::AlreadyAttended);
        }
        if self.order.len() >= u32::MAX as usize {
            return Err(ContractError::Overflow);
        }
        let ghost before = self@;
        let ghost old_records = self.records@;
        let ghost old_order = self.order@;
        let updated = Attendee { attended: true, ..rec };
        proof {
            lemma_unattended_fees_update(old_records, j as int, updated);
            lemma_unattended_fees_nonneg(old_records.update(j as int, updated));
        }
        let k = self.order.len() as u32;
        self.records.set(j, updated);
        self.order.push(j);
        self.unclaimed = self.unclaimed - price;
        assert forall|i: int|
            0 <= i < self.ids@.len() && (#[trigger] self.records@[i]).attended implies exists|k2: int|
            0 <= k2 < self.order@.len() && self.order@[k2] == i by {
            if i == j {
                assert(self.order@[old_order.len() as int] == i);
            } else {
                assert(old(self).records@[i] == self.records@[i]);
                let k2 = choose|k2: int| 0 <= k2 < old_order.len() && old_order[k2] == i;
                assert(self.order@[k2] == i);
            }
        }
        assert forall|k1: int, k2: int|
            0 <= k1 < self.order@.len() && 0 <= k2 < self.order@.len() && k1 != k2 implies #[trigger] self.order@[k1]
            != #[trigger] self.order@[k2] by {
            if k1 == old_order.len() {
                assert(old_records[old_order[k2] as int].attended);
            } else if k2 == old_order.len() {
                assert(old_records[old_order[k1] as int].attended);
            }
        }
        assert(self@.records =~= before.records.insert(attendee@, updated));
        assert(self@.sequence =~= before.sequence.push(attendee@));
        Ok(k)
    }

    /// Pays every attendee with a sequence index in `[low, high)` that has not been paid yet, on
    /// the administrator's authority. Indices past the last assigned one are skipped, and so are
    /// attendees already paid, so that repeating a range has no effect.
    pub fn withdraw(&mut self, caller: &Identity, high: u32, low: u32) -> (r: Result<
        Withdrawal,
        ContractError,
    >)
        requires
            old(self).wf(),
        ensures
            final(self).wf(),
            match old(self)@.withdraw_error(caller@, high, low) {
                Some(e) => r is Err && r->Err_0 == e && final(self)@ == old(self)@,
                None => {
                    &&& r is Ok
                    &&& r->Ok_0.amount == old(self)@.distribution_amount()
                    &&& r->Ok_0.payee_ids() == old(self)@.payees(low as int, old(self)@.range_end(high))
                    &&& r->Ok_0.refund_count == r->Ok_0.recipients@.len()
                    &&& final(self)@ == old(self)@.withdrawn(high, low)
                },
            },
    {
        let price = match &self.config {
            None => {
                return Err(ContractError::NotInitialized);
            },
            Some(c) => {
                if !c.admin.same_as(caller) {
                    return Err(ContractError::Unauthorized);
                }
                c.price
            },
        };
        if high < low || high - low > MAX_BATCH {
            return Err(ContractError::InvalidRange);
        }
        let count = self.order.len();
        if count == 0 {
            return Err(ContractError::NoAttendees);
        }
        proof {
            lemma_unattended_fees_nonneg(self.records@);
        }
        let pool = self.unclaimed as u128;
        let share_wide = pool / (count as u128);
        assert(share_wide <= pool) by (nonlinear_arith)
            requires
                share_wide == pool / (count as u128),
                count >= 1,
        ;
        let share = share_wide as i128;
        if share > i128::MAX - price {
            return Err(ContractError::Overflow);
        }
        let amount = price + share;
        if amount < price {
            return Err(ContractError::InsufficientDistribution);
        }
        let end: usize = if (high as usize) <= count {
            high as usize
        } else {
            count
        };
        let ghost before = self@;
        let ghost old_records = self.records@;
        let mut recipients: Vec<Identity> = Vec::new();
        let mut k: usize = low as usize;
        while k < end
            invariant
                self.wf(),
                old(self).wf(),
                before == old(self)@,
                old_records == old(self).records@,
                old_records.len() == self.ids@.len(),
                self.config == old(self).config,
                self.ids == old(self).ids,
                self.order == old(self).order,
                self.index == old(self).index,
                self.unclaimed == old(self).unclaimed,
                count == self.order@.len(),
                end <= count,
                end <= high,
                high - low <= MAX_BATCH,
                low <= k,
                k <= end || k == low,
                k - low <= MAX_BATCH,
                recipients@.len() <= k - low,
                recipients@.map_values(|i: Identity| i@) == before.payees(low as int, k as int),
                forall|j: int|
                    0 <= j < old_records.len() ==> #[trigger] self.records@[j] == if exists|k2: int|
                        low <= k2 < k && self.order@[k2] == j {
                        Attendee { refunded: true, ..old_records[j] }
                    } else {
                        old_records[j]
                    },
            decreases end - k,
        {
            let j = self.order[k];
            let rec = self.records[j];
            assert(before.sequence[k as int] == self.ids@[j as int]@);
            assert(self.index@[self.ids@[j as int]@] == j);
            assert(self.records@[j as int] == old_records[j as int]) by {
                assert forall|k2: int| low <= k2 < k implies self.order@[k2] != j by {
                    assert(self.order@[k2] != self.order@[k as int]);
                }
            }
            let ghost prev = recipients@;
            if !rec.refunded {
                let updated = Attendee { refunded: true, ..rec };
                proof {
                    lemma_unattended_fees_update(self.records@, j as int, updated);
                }
                recipients.push(self.ids[j].duplicate());
                self.records.set(j, updated);
                assert(recipients@.map_values(|i: Identity| i@) =~= prev.map_values(
                    |i: Identity| i@,
                ).push(before.sequence[k as int]));
            }
            assert forall|i: int|
                0 <= i < old_records.len() implies #[trigger] self.records@[i] == if exists|k2: int|
                    low <= k2 < k + 1 && self.order@[k2] == i {
                    Attendee { refunded: true, ..old_records[i] }
                } else {
                    old_records[i]
                } by {
                if i == j {
                    assert(self.order@[k as int] == i);
                } else {
                    if exists|k2: int| low <= k2 < k + 1 && self.order@[k2] == i {
                        let k2 = choose|k2: int| low <= k2 < k + 1 && self.order@[k2] == i;
                        assert(k2 != k);
                    }
                }
            }
            assert forall|i: int|
                0 <= i < self.ids@.len() && (#[trigger] self.records@[i]).attended implies exists|k2: int|
                0 <= k2 < self.order@.len() && self.order@[k2] == i by {
                assert(old(self).records@[i].attended);
                let k2 = choose|k2: int|
                    0 <= k2 < old(self).order@.len() && old(self).order@[k2] == i;
                assert(self.order@[k2] == i);
            }
            k = k + 1;
        }
        let ghost hi = before.range_end(high);
        assert(before.payees(low as int, k as int) == before.payees(low as int, hi));
        assert(self@.records =~= before.withdrawn(high, low).records) by {
            assert forall|id: Seq<u8>| #[trigger] self@.records.contains_key(id) implies self@.records[id]
                == before.withdrawn(high, low).records[id] by {
                let j = self.index@[id];
                if before.indexed_in(id, low as int, hi) {
                    let k2 = choose|k2: int| low <= k2 < hi && #[trigger] before.sequence[k2] == id;
                    assert(self.order@[k2] == j);
                } else {
                    if exists|k2: int| low <= k2 < k && self.order@[k2] == j {
                        let k2 = choose|k2: int| low <= k2 < k && self.order@[k2] == j;
                        assert(before.sequence[k2] == id);
                    }
                }
            }
        }
        assert(self@.sequence =~= before.sequence);
        Ok(Withdrawal { refund_count: recipients.len() as i32, amount, recipients })
    }

    pub fn has_administrator(&self) -> (r: bool)
        ensures
            r == self@.initialized,
    {
        self.config.is_some()
    }

    /// The administrator, once initialized.
    pub fn administrator(&self) -> (r: Option<Identity>)
        ensures
            r is Some == self@.initialized,
            r is Some ==> r->Some_0@ == self@.admin,
    {
        match &self.config {
            None => None,
            Some(c) => Some(c.admin.duplicate()),
        }
    }

    /// The token in which fees are paid, once initialized.
    pub fn token(&self) -> (r: Option<Identity>)
        ensures
            r is Some == self@.initialized,
            r is Some ==> r->Some_0@ == self@.token,
    {
        match &self.config {
            None => None,
            Some(c) => Some(c.token.duplicate()),
        }
    }

    /// The price, or zero before initialization.
    pub fn price(&self) -> (r: i128)
        ensures
            r == self@.price,
    {
        match &self.config {
            None => 0,
            Some(c) => c.price,
        }
    }

    /// The number of sequence indices assigned so far.
    pub fn count(&self) -> (r: u32)
        requires
            self.wf(),
        ensures
            r == self@.sequence.len(),
    {
        self.order.len() as u32
    }

    pub fn unclaimed(&self) -> (r: i128)
        ensures
            r == self@.unclaimed,
    {
        self.unclaimed
    }

    /// The record of `id`, if it is registered.
    pub fn attendee(&self, id: &Identity) -> (r: Option<Attendee>)
        requires
            self.wf(),
        ensures
            r is Some == self@.records.contains_key(id@),
            r is Some ==> r->Some_0 == self@.records[id@],
    {
        match self.find(id) {
            None => None,
            Some(j) => Some(self.records[j]),
        }
    }

    /// The identity that holds sequence index `index`, if one does.
    pub fn attendee_at(&self, index: u32) -> (r: Option<Identity>)
        requires
            self.wf(),
        ensures
            r is Some == (index < self@.sequence.len()),
            r is Some ==> r->Some_0@ == self@.sequence[index as int],
    {
        if (index as usize) < self.order.len() {
            let j = self.order[index as usize];
            Some(self.ids[j].duplicate())
        } else {
            None
        }
    }
}

/// The admin guard: succeeds exactly when `auth_id` is the configured administrator.
pub fn check_admin(contract: &DistributionContract, auth_id: &Identity) -> (r: Result<
    (),
    ContractError,
>)
    ensures
        match contract@.admin_error(auth_id@) {
            Some(e) => r == Err::<(), ContractError>(e),
            None => r == Ok::<(), ContractError>(()),
        },
{
    match &contract.config {
        None => Err(ContractError::NotInitialized),
        Some(c) => {
            if c.admin.same_as(auth_id) {
                Ok(())
            } else {
                Err(ContractError::Unauthorized)
            }
        },
    }
}

} // verus!
