use vstd::prelude::*;

use crate::model::{ContractError, ContractModel, MAX_BATCH};

verus! {

/// A second deposit by an identity whose first deposit succeeded fails with `AlreadyRegistered`.
pub proof fn lemma_deposit_twice(m: ContractModel, id: Seq<u8>)
    requires
        m.deposit_error(id) is None,
    ensures
        m.deposited(id).deposit_error(id) == Some(ContractError::AlreadyRegistered),
{
}

/// The administrator can neither deposit nor attend: both fail with `ForbiddenIdentity`
/// (an `attend` by anyone else is refused before that, as unauthorized).
pub proof fn lemma_admin_forbidden(m: ContractModel, caller: Seq<u8>)
    requires
        m.initialized,
    ensures
        m.deposit_error(m.admin) == Some(ContractError::ForbiddenIdentity),
        m.attend_error(caller, m.admin) is Some,
        caller == m.admin ==> m.attend_error(caller, m.admin) == Some(ContractError::ForbiddenIdentity),
{
}

/// Confirming an identity that never deposited fails with `NotRegistered`.
pub proof fn lemma_attend_unregistered(m: ContractModel, id: Seq<u8>)
    requires
        m.initialized,
        id != m.admin,
        !m.records.contains_key(id),
    ensures
        m.attend_error(m.admin, id) == Some(ContractError::NotRegistered),
{
}

/// Confirming the same attendee a second time fails with `AlreadyAttended`.
pub proof fn lemma_attend_twice(m: ContractModel, caller: Seq<u8>, id: Seq<u8>)
    requires
        m.attend_error(caller, id) is None,
    ensures
        m.attended(id).attend_error(caller, id) == Some(ContractError::AlreadyAttended),
{
}

/// Every range that is reversed or wider than `MAX_BATCH` is refused with `InvalidRange`.
pub proof fn lemma_invalid_range(m: ContractModel, caller: Seq<u8>, high: u32, low: u32)
    requires
        m.initialized,
        caller == m.admin,
        high < low || high - low > MAX_BATCH,
    ensures
        m.withdraw_error(caller, high, low) == Some(ContractError::InvalidRange),
{
}

/// An empty range is never refused as invalid, and a withdrawal over it pays nobody and changes
/// nothing.
pub proof fn lemma_empty_range(m: ContractModel, caller: Seq<u8>, high: u32, low: u32)
    requires
        high == low,
    ensures
        m.withdraw_error(caller, high, low) != Some(ContractError::InvalidRange),
        m.payees(low as int, m.range_end(high)) == Seq::<Seq<u8>>::empty(),
        m.withdrawn(high, low) == m,
{
    assert(m.withdrawn(high, low).records =~= m.records);
}

proof fn lemma_payees_all_paid(m: ContractModel, lo: int, hi: int)
    requires
        forall|k: int| lo <= k < hi ==> (#[trigger] m.records[m.sequence[k]]).refunded,
    ensures
        m.payees(lo, hi) == Seq::<Seq<u8>>::empty(),
    decreases hi - lo,
{
    if hi > lo {
        lemma_payees_all_paid(m, lo, hi - 1);
    }
}

proof fn lemma_payees_unpaid(m: ContractModel, lo: int, hi: int)
    ensures
        forall|x: Seq<u8>| #[trigger]
            m.payees(lo, hi).contains(x) ==> !m.records[x].refunded && m.indexed_in(x, lo, hi),
    decreases hi - lo,
{
    if hi > lo {
        lemma_payees_unpaid(m, lo, hi - 1);
        let id = m.sequence[hi - 1];
        let rest = m.payees(lo, hi - 1);
        assert forall|x: Seq<u8>| #[trigger] m.payees(lo, hi).contains(x) implies !m.records[x].refunded
            && m.indexed_in(x, lo, hi) by {
            if rest.contains(x) {
                let k = choose|k: int| lo <= k < hi - 1 && #[trigger] m.sequence[k] == x;
                assert(m.sequence[k] == x);
            } else {
                assert(x == id);
                assert(m.sequence[hi - 1] == x);
            }
        }
    }
}

/// After a withdrawal every attendee in its range is marked as paid.
proof fn lemma_withdrawn_paid(m: ContractModel, high: u32, low: u32)
    requires
        m.inv(),
    ensures
        forall|k: int|
            low <= k < m.range_end(high) ==> (#[trigger] m.withdrawn(high, low).records[m.sequence[k]]).refunded,
{
    assert forall|k: int| low <= k < m.range_end(high) implies (#[trigger] m.withdrawn(
        high,
        low,
    ).records[m.sequence[k]]).refunded by {
        assert(m.records.contains_key(m.sequence[k]));
        assert(m.indexed_in(m.sequence[k], low as int, m.range_end(high)));
    }
}

/// Repeating a withdrawal with the same range, with no deposit or attendance in between,
/// succeeds again, pays nobody and changes nothing.
pub proof fn lemma_withdraw_idempotent(m: ContractModel, caller: Seq<u8>, high: u32, low: u32)
    requires
        m.inv(),
        m.withdraw_error(caller, high, low) is None,
    ensures
        m.withdrawn(high, low).withdraw_error(caller, high, low) is None,
        m.withdrawn(high, low).payees(low as int, m.withdrawn(high, low).range_end(high))
            == Seq::<Seq<u8>>::empty(),
        m.withdrawn(high, low).withdrawn(high, low) == m.withdrawn(high, low),
{
    let m2 = m.withdrawn(high, low);
    lemma_withdrawn_paid(m, high, low);
    lemma_payees_all_paid(m2, low as int, m2.range_end(high));
    assert(m2.withdrawn(high, low).records =~= m2.records);
}

/// What one settlement pays, the distribution amount to each attendee, is covered by the fees
/// held for the attendee set: the price paid by each attendee and the unclaimed pool.
pub proof fn lemma_distribution_within_funds(m: ContractModel)
    requires
        m.inv(),
        m.sequence.len() > 0,
    ensures
        m.distribution_amount() * m.sequence.len() <= m.price * m.sequence.len() + m.unclaimed,
{
    let c = m.sequence.len() as int;
    let u = m.unclaimed;
    assert((u / c) * c <= u) by (nonlinear_arith)
        requires
            u >= 0,
            c > 0,
    ;
    assert(m.distribution_amount() * c == m.price * c + (u / c) * c) by (nonlinear_arith)
        requires
            m.distribution_amount() == m.price + u / c,
    ;
}

/// Within a settlement each attendee is paid at most once: a withdrawal leaves the price, the
/// pool and the sequence as they were, so the distribution amount stays the same, and no later
/// withdrawal, over any range, pays again an attendee that it paid.
pub proof fn lemma_paid_at_most_once(
    m: ContractModel,
    caller: Seq<u8>,
    high: u32,
    low: u32,
    high2: u32,
    low2: u32,
)
    requires
        m.inv(),
        m.withdraw_error(caller, high, low) is None,
    ensures
        m.withdrawn(high, low).distribution_amount() == m.distribution_amount(),
        forall|x: Seq<u8>| #[trigger]
            m.payees(low as int, m.range_end(high)).contains(x) ==> !m.withdrawn(high, low).payees(
                low2 as int,
                m.withdrawn(high, low).range_end(high2),
            ).contains(x),
{
    let m2 = m.withdrawn(high, low);
    lemma_payees_unpaid(m, low as int, m.range_end(high));
    lemma_payees_unpaid(m2, low2 as int, m2.range_end(high2));
    assert forall|x: Seq<u8>| #[trigger]
        m.payees(low as int, m.range_end(high)).contains(x) implies !m2.payees(
        low2 as int,
        m2.range_end(high2),
    ).contains(x) by {
        let k = choose|k: int| low <= k < m.range_end(high) && #[trigger] m.sequence[k] == x;
        assert(m.records.contains_key(m.sequence[k]));
        assert(m2.records[x].refunded);
    }
}


/// The state after withdrawals over each of `ranges`, as `(high, low)`, in turn, on the
/// authority of `caller`; a refused withdrawal changes nothing.
pub open spec fn settled(m: ContractModel, caller: Seq<u8>, ranges: Seq<(u32, u32)>) -> ContractModel
    decreases ranges.len(),
{
    if ranges.len() == 0 {
        m
    } else {
        let prev = settled(m, caller, ranges.drop_last());
        let (high, low) = ranges.last();
        if prev.withdraw_error(caller, high, low) is None {
            prev.withdrawn(high, low)
        } else {
            prev
        }
    }
}

/// The tokens paid out by the withdrawals of `settled`.
pub open spec fn paid_out(m: ContractModel, caller: Seq<u8>, ranges: Seq<(u32, u32)>) -> int
    decreases ranges.len(),
{
    if ranges.len() == 0 {
        0
    } else {
        let prev = settled(m, caller, ranges.drop_last());
        let (high, low) = ranges.last();
        paid_out(m, caller, ranges.drop_last()) + if prev.withdraw_error(caller, high, low) is None {
            prev.distribution_amount() * prev.payees(low as int, prev.range_end(high)).len()
        } else {
            0
        }
    }
}

/// The number of sequence indices below `n` whose attendee has been paid.
pub open spec fn paid_count(m: ContractModel, n: int) -> int
    decreases n,
{
    if n <= 0 {
        0
    } else {
        paid_count(m, n - 1) + if m.records[m.sequence[n - 1]].refunded {
            1int
        } else {
            0int
        }
    }
}

proof fn lemma_paid_count_bounds(m: ContractModel, n: int)
    requires
        n >= 0,
    ensures
        0 <= paid_count(m, n) <= n,
    decreases n,
{
    if n > 0 {
        lemma_paid_count_bounds(m, n - 1);
    }
}

proof fn lemma_withdrawn_inv(m: ContractModel, high: u32, low: u32)
    requires
        m.inv(),
    ensures
        m.withdrawn(high, low).inv(),
{
    let w = m.withdrawn(high, low);
    assert(w.records.dom() =~= m.records.dom());
    assert forall|id: Seq<u8>| #[trigger] w.records.contains_key(id) implies {
        &&& w.records[id].fee == w.price
        &&& w.records[id].refunded ==> w.records[id].attended
        &&& w.records[id].attended ==> w.sequence.contains(id)
    } by {
        if m.indexed_in(id, low as int, m.range_end(high)) {
            let k = choose|k: int| low <= k < m.range_end(high) && #[trigger] m.sequence[k] == id;
            assert(m.records[m.sequence[k]].attended);
        }
    }
}

/// A withdrawal adds to the paid indices below `n` exactly its payees below `n`.
proof fn lemma_withdrawn_paid_count(m: ContractModel, high: u32, low: u32, n: int)
    requires
        m.inv(),
        0 <= n <= m.sequence.len(),
    ensures
        paid_count(m.withdrawn(high, low), n) == paid_count(m, n) + m.payees(
            low as int,
            if n <= m.range_end(high) {
                n
            } else {
                m.range_end(high)
            },
        ).len(),
    decreases n,
{
    let w = m.withdrawn(high, low);
    let end = m.range_end(high);
    if n > 0 {
        lemma_withdrawn_paid_count(m, high, low, n - 1);
        let id = m.sequence[n - 1];
        assert(m.records.contains_key(id));
        if low <= n - 1 < end {
            assert(m.indexed_in(id, low as int, end));
            assert(w.records[id].refunded);
        } else {
            assert(!m.indexed_in(id, low as int, end)) by {
                if m.indexed_in(id, low as int, end) {
                    let k = choose|k: int| low <= k < end && #[trigger] m.sequence[k] == id;
                    assert(m.sequence[k] == m.sequence[n - 1]);
                }
            }
            assert(w.records[id] == m.records[id]);
        }
    }
}

proof fn lemma_settled(m: ContractModel, caller: Seq<u8>, ranges: Seq<(u32, u32)>)
    requires
        m.inv(),
        m.sequence.len() > 0,
    ensures
        settled(m, caller, ranges).inv(),
        settled(m, caller, ranges).sequence == m.sequence,
        settled(m, caller, ranges).price == m.price,
        settled(m, caller, ranges).unclaimed == m.unclaimed,
        settled(m, caller, ranges).initialized == m.initialized,
        settled(m, caller, ranges).admin == m.admin,
        paid_out(m, caller, ranges) == m.distribution_amount() * (paid_count(
            settled(m, caller, ranges),
            m.sequence.len() as int,
        ) - paid_count(m, m.sequence.len() as int)),
    decreases ranges.len(),
{
    if ranges.len() > 0 {
        let rest = ranges.drop_last();
        lemma_settled(m, caller, rest);
        let prev = settled(m, caller, rest);
        let (high, low) = ranges.last();
        if prev.withdraw_error(caller, high, low) is None {
            lemma_withdrawn_inv(prev, high, low);
            let c = m.sequence.len() as int;
            lemma_withdrawn_paid_count(prev, high, low, c);
            let a = m.distribution_amount();
            let p0 = paid_count(m, c);
            let p1 = paid_count(prev, c);
            let p2 = paid_count(prev.withdrawn(high, low), c);
            assert(a * (p1 - p0) + a * (p2 - p1) == a * (p2 - p0)) by (nonlinear_arith);
        }
    }
}

/// Conservation: from a state in which nobody has been paid yet, the withdrawals over any
/// ranges, in any order and repeated or not, pay out in total no more than the fees held for the
/// attendee set: the price paid by each attendee confirmed so far and the unclaimed pool.
pub proof fn lemma_settlement_within_funds(m: ContractModel, caller: Seq<u8>, ranges: Seq<(u32, u32)>)
    requires
        m.inv(),
        paid_count(m, m.sequence.len() as int) == 0,
    ensures
        paid_out(m, caller, ranges) <= m.price * m.sequence.len() + m.unclaimed,
{
    let c = m.sequence.len() as int;
    if c == 0 {
        lemma_nothing_paid_without_attendees(m, caller, ranges);
    } else {
        lemma_settled(m, caller, ranges);
        lemma_distribution_within_funds(m);
        let s = settled(m, caller, ranges);
        lemma_paid_count_bounds(s, c);
        let a = m.distribution_amount();
        let p = paid_count(s, c);
        assert(a >= 0) by {
            assert(m.unclaimed / c >= 0) by (nonlinear_arith)
                requires
                    m.unclaimed >= 0,
                    c > 0,
            ;
        }
        assert(a * p <= a * c) by (nonlinear_arith)
            requires
                a >= 0,
                0 <= p <= c,
        ;
    }
}

proof fn lemma_nothing_paid_without_attendees(
    m: ContractModel,
    caller: Seq<u8>,
    ranges: Seq<(u32, u32)>,
)
    requires
        m.sequence.len() == 0,
    ensures
        paid_out(m, caller, ranges) == 0,
        settled(m, caller, ranges) == m,
    decreases ranges.len(),
{
    if ranges.len() > 0 {
        lemma_nothing_paid_without_attendees(m, caller, ranges.drop_last());
    }
}

} // verus!
