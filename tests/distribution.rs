use event_distribution::{
    check_admin, Attendee, ContractError, DistributionContract, Identity, MAX_BATCH,
};

const PRICE: i128 = 200;
const START_BALANCE: i128 = 1000;

fn id(n: u8) -> Identity {
    Identity::new(vec![n, n.wrapping_mul(7), 42])
}

fn admin() -> Identity {
    id(100)
}

fn token() -> Identity {
    id(200)
}

fn contract_account() -> Identity {
    id(201)
}

/// Token balances kept beside the contract, moved by the transfers that it asks for.
struct Ledger {
    accounts: Vec<(Vec<u8>, i128)>,
}

impl Ledger {
    fn new() -> Ledger {
        Ledger { accounts: Vec::new() }
    }

    fn balance(&self, who: &Identity) -> i128 {
        for (k, b) in &self.accounts {
            if *k == who.bytes {
                return *b;
            }
        }
        0
    }

    fn add(&mut self, who: &Identity, amount: i128) {
        for (k, b) in self.accounts.iter_mut() {
            if *k == who.bytes {
                *b += amount;
                return;
            }
        }
        self.accounts.push((who.bytes.clone(), amount));
    }

    fn transfer(&mut self, from: &Identity, to: &Identity, amount: i128) {
        assert!(self.balance(from) >= amount, "insufficient balance");
        self.add(from, -amount);
        self.add(to, amount);
    }
}

struct DistributionTest {
    attendee_users: [Identity; 3],
    ledger: Ledger,
    contract: DistributionContract,
}

impl DistributionTest {
    fn setup() -> Self {
        let attendee_users = [id(1), id(2), id(3)];
        let mut ledger = Ledger::new();
        for a in attendee_users.iter() {
            ledger.add(a, START_BALANCE);
        }
        ledger.add(&admin(), START_BALANCE);
        let mut contract = DistributionContract::new();
        assert_eq!(contract.initialize(admin(), PRICE, token()), Ok(()));
        DistributionTest { attendee_users, ledger, contract }
    }

    fn deposit(&mut self, who: &Identity) -> Result<i128, ContractError> {
        let r = self.contract.deposit(who);
        if let Ok(amount) = r {
            self.ledger.transfer(who, &contract_account(), amount);
        }
        r
    }

    fn attend(&mut self, who: &Identity) -> Result<u32, ContractError> {
        self.contract.attend(&admin(), who)
    }

    fn withdraw(&mut self, high: u32, low: u32) -> Result<i32, ContractError> {
        self.withdraw_as(&admin(), high, low)
    }

    fn withdraw_as(&mut self, caller: &Identity, high: u32, low: u32) -> Result<i32, ContractError> {
        let w = self.contract.withdraw(caller, high, low)?;
        for r in w.recipients.iter() {
            self.ledger.transfer(&contract_account(), r, w.amount);
        }
        Ok(w.refund_count)
    }

    fn balance(&self, i: usize) -> i128 {
        self.ledger.balance(&self.attendee_users[i])
    }

    fn user(&self, i: usize) -> Identity {
        self.attendee_users[i].duplicate()
    }
}

#[test]
fn test_unauthorized_withdrawal() {
    let mut test = DistributionTest::setup();
    let u = test.user(0);
    assert_eq!(test.withdraw_as(&u, 5, 0), Err(ContractError::Unauthorized));
}

#[test]
fn test_unauthorized_attendance() {
    let mut test = DistributionTest::setup();
    let u = test.user(0);
    assert_eq!(test.contract.attend(&u, &u), Err(ContractError::Unauthorized));
}

#[test]
fn test_attendee_added_twice() {
    let mut test = DistributionTest::setup();
    let u = test.user(0);
    assert_eq!(test.deposit(&u), Ok(200));
    assert_eq!(test.attend(&u), Ok(0));
    assert_eq!(test.attend(&u), Err(ContractError::AlreadyAttended));
}

#[test]
fn test_admin_deposits() {
    let mut test = DistributionTest::setup();
    assert_eq!(test.deposit(&admin()), Err(ContractError::ForbiddenIdentity));
}

#[test]
fn test_admin_attends() {
    let mut test = DistributionTest::setup();
    assert_eq!(test.attend(&admin()), Err(ContractError::ForbiddenIdentity));
}

#[test]
fn test_unregistered_attendee() {
    let mut test = DistributionTest::setup();
    let u = test.user(0);
    assert_eq!(test.attend(&u), Err(ContractError::NotRegistered));
}

#[test]
fn test_register_twice() {
    let mut test = DistributionTest::setup();
    let u = test.user(0);
    assert_eq!(test.deposit(&u), Ok(200));
    assert_eq!(test.deposit(&u), Err(ContractError::AlreadyRegistered));
}

#[test]
fn test_deposit_attend_and_claim() {
    let mut test = DistributionTest::setup();
    let (u0, u1) = (test.user(0), test.user(1));

    assert_eq!(test.balance(0), 1000);
    test.deposit(&u0).unwrap();
    test.deposit(&u1).unwrap();
    assert_eq!(test.balance(0), 800);
    assert_eq!(test.balance(1), 800);

    // User0 attends, but User1 doesn't
    test.attend(&u0).unwrap();
    assert_eq!(test.balance(0), 800);
    assert_eq!(test.balance(1), 800);

    // everything goes to User0
    test.withdraw(5, 0).unwrap();
    assert_eq!(test.balance(0), 1200);
    assert_eq!(test.balance(1), 800);

    // a second withdrawal has no effect
    test.withdraw(5, 0).unwrap();
    assert_eq!(test.balance(0), 1200);
    assert_eq!(test.balance(1), 800);
}

#[test]
fn test_batched_withdrawal() {
    let mut test = DistributionTest::setup();
    let (u0, u1, u2) = (test.user(0), test.user(1), test.user(2));

    test.deposit(&u0).unwrap();
    test.deposit(&u1).unwrap();
    test.deposit(&u2).unwrap();

    // two attend
    test.attend(&u0).unwrap();
    test.attend(&u2).unwrap();

    assert_eq!(test.withdraw(1, 0), Ok(1));
    assert_eq!(test.balance(0), 1100);
    assert_eq!(test.balance(1), 800);
    assert_eq!(test.balance(2), 800);

    assert_eq!(test.withdraw(2, 0), Ok(1));
    assert_eq!(test.balance(0), 1100);
    assert_eq!(test.balance(1), 800);
    assert_eq!(test.balance(2), 1100);

    assert_eq!(test.withdraw(2, 0), Ok(0));
    assert_eq!(test.balance(0), 1100);
    assert_eq!(test.balance(1), 800);
    assert_eq!(test.balance(2), 1100);
}

#[test]
fn three_attendees_two_show() {
    let mut test = DistributionTest::setup();
    let (a, b, c) = (test.user(0), test.user(1), test.user(2));
    for u in [&a, &b, &c] {
        assert_eq!(test.deposit(u), Ok(200));
    }
    assert_eq!(test.ledger.balance(&contract_account()), 600);
    assert_eq!(test.contract.unclaimed(), 600);
    assert_eq!(test.attend(&a), Ok(0));
    assert_eq!(test.attend(&c), Ok(1));
    assert_eq!(test.contract.unclaimed(), 200);
    assert_eq!(test.contract.count(), 2);

    let w = test.contract.withdraw(&admin(), 1, 0).unwrap();
    assert_eq!(w.amount, 300);
    assert_eq!(w.refund_count, 1);
    assert_eq!(w.recipients.len(), 1);
    assert_eq!(w.recipients[0].bytes, a.bytes);

    let w = test.contract.withdraw(&admin(), 2, 0).unwrap();
    assert_eq!(w.amount, 300);
    assert_eq!(w.refund_count, 1);
    assert_eq!(w.recipients[0].bytes, c.bytes);

    let rb = test.contract.attendee(&b).unwrap();
    assert_eq!(rb, Attendee { fee: 200, attended: false, refunded: false });
    assert_eq!(test.contract.unclaimed(), 200);
}

#[test]
fn empty_range_pays_nobody() {
    let mut test = DistributionTest::setup();
    let a = test.user(0);
    test.deposit(&a).unwrap();
    test.attend(&a).unwrap();
    let before = test.ledger.balance(&contract_account());
    assert_eq!(test.withdraw(0, 0), Ok(0));
    assert_eq!(test.withdraw(7, 7), Ok(0));
    assert_eq!(test.ledger.balance(&contract_account()), before);
    assert_eq!(test.contract.attendee(&a).unwrap().refunded, false);
}

#[test]
fn invalid_ranges_are_refused() {
    let mut test = DistributionTest::setup();
    let a = test.user(0);
    test.deposit(&a).unwrap();
    test.attend(&a).unwrap();
    assert_eq!(test.withdraw(0, 1), Err(ContractError::InvalidRange));
    assert_eq!(test.withdraw(11, 0), Err(ContractError::InvalidRange));
    assert_eq!(test.withdraw(u32::MAX, 0), Err(ContractError::InvalidRange));
    assert_eq!(test.withdraw(MAX_BATCH, 0), Ok(1));
    assert_eq!(test.withdraw(25, 15), Ok(0));
}

#[test]
fn repeated_withdrawal_changes_nothing() {
    let mut test = DistributionTest::setup();
    let (a, b) = (test.user(0), test.user(1));
    test.deposit(&a).unwrap();
    test.deposit(&b).unwrap();
    test.attend(&a).unwrap();
    test.attend(&b).unwrap();
    assert_eq!(test.withdraw(3, 0), Ok(2));
    let balances = (test.balance(0), test.balance(1), test.ledger.balance(&contract_account()));
    assert_eq!(test.withdraw(3, 0), Ok(0));
    assert_eq!(
        (test.balance(0), test.balance(1), test.ledger.balance(&contract_account())),
        balances
    );
}

#[test]
fn payouts_stay_within_deposits() {
    let mut test = DistributionTest::setup();
    let users: Vec<Identity> = (10u8..17).map(id).collect();
    for u in users.iter() {
        test.ledger.add(u, START_BALANCE);
        test.deposit(u).unwrap();
    }
    for u in users.iter().take(3) {
        test.attend(u).unwrap();
    }
    let held = test.ledger.balance(&contract_account());
    assert_eq!(held, 1400);
    assert_eq!(test.withdraw(2, 0), Ok(2));
    assert_eq!(test.withdraw(5, 1), Ok(1));
    // 200 + 800 / 3 = 466 each, the remainder stays in the contract
    assert_eq!(test.balance(0), 1000);
    assert_eq!(test.ledger.balance(&users[0]), 800 + 466);
    assert_eq!(test.ledger.balance(&contract_account()), 1400 - 3 * 466);
    assert!(test.ledger.balance(&contract_account()) >= 0);
}

#[test]
fn deposit_before_initialize_fails() {
    let mut c = DistributionContract::new();
    assert_eq!(c.deposit(&id(1)), Err(ContractError::NotInitialized));
    assert_eq!(c.attend(&admin(), &id(1)), Err(ContractError::NotInitialized));
    assert_eq!(c.withdraw(&admin(), 1, 0).err(), Some(ContractError::NotInitialized));
    assert_eq!(check_admin(&c, &admin()), Err(ContractError::NotInitialized));
    assert!(!c.has_administrator());
}

#[test]
fn initialize_only_once() {
    let mut c = DistributionContract::new();
    assert_eq!(c.initialize(admin(), 0, token()), Err(ContractError::InvalidPrice));
    assert_eq!(c.initialize(admin(), -5, token()), Err(ContractError::InvalidPrice));
    assert_eq!(c.initialize(admin(), 300, token()), Ok(()));
    assert_eq!(c.initialize(id(5), 100, token()), Err(ContractError::AlreadyInitialized));
    assert_eq!(c.price(), 300);
    assert_eq!(c.administrator().unwrap().bytes, admin().bytes);
    assert_eq!(c.token().unwrap().bytes, token().bytes);
    assert!(c.has_administrator());
}

#[test]
fn admin_guard() {
    let mut c = DistributionContract::new();
    c.initialize(admin(), 10, token()).unwrap();
    assert_eq!(check_admin(&c, &admin()), Ok(()));
    assert_eq!(check_admin(&c, &id(3)), Err(ContractError::Unauthorized));
    let longer = Identity::new(vec![100, 100u8.wrapping_mul(7), 42, 0]);
    assert_eq!(check_admin(&c, &longer), Err(ContractError::Unauthorized));
}

#[test]
fn withdraw_without_attendees_fails() {
    let mut test = DistributionTest::setup();
    let a = test.user(0);
    test.deposit(&a).unwrap();
    assert_eq!(test.withdraw(1, 0), Err(ContractError::NoAttendees));
}

#[test]
fn pool_overflow_is_refused() {
    let mut c = DistributionContract::new();
    c.initialize(admin(), i128::MAX, token()).unwrap();
    assert_eq!(c.deposit(&id(1)), Ok(i128::MAX));
    assert_eq!(c.deposit(&id(2)), Err(ContractError::Overflow));
    assert!(c.attendee(&id(2)).is_none());
    assert_eq!(c.attend(&admin(), &id(1)), Ok(0));
    assert_eq!(c.unclaimed(), 0);
    let w = c.withdraw(&admin(), 1, 0).unwrap();
    assert_eq!(w.amount, i128::MAX);
}

#[test]
fn distribution_amount_overflow_is_refused() {
    let mut c = DistributionContract::new();
    c.initialize(admin(), i128::MAX / 2 + 1, token()).unwrap();
    c.deposit(&id(1)).unwrap();
    assert_eq!(c.deposit(&id(2)), Err(ContractError::Overflow));
    let mut c = DistributionContract::new();
    let price = i128::MAX / 3 + 1;
    c.initialize(admin(), price, token()).unwrap();
    c.deposit(&id(1)).unwrap();
    c.deposit(&id(2)).unwrap();
    c.attend(&admin(), &id(1)).unwrap();
    c.deposit(&id(3)).unwrap();
    assert_eq!(c.unclaimed(), 2 * price);
    // price + 2 * price / 1 exceeds the largest amount
    assert_eq!(c.withdraw(&admin(), 1, 0).err(), Some(ContractError::Overflow));
    assert!(!c.attendee(&id(1)).unwrap().refunded);
}

#[test]
fn sequence_indices_follow_attendance() {
    let mut test = DistributionTest::setup();
    let (a, b, c) = (test.user(0), test.user(1), test.user(2));
    for u in [&a, &b, &c] {
        test.deposit(u).unwrap();
    }
    assert_eq!(test.attend(&c), Ok(0));
    assert_eq!(test.attend(&a), Ok(1));
    assert_eq!(test.contract.attendee_at(0).unwrap().bytes, c.bytes);
    assert_eq!(test.contract.attendee_at(1).unwrap().bytes, a.bytes);
    assert!(test.contract.attendee_at(2).is_none());
    assert_eq!(test.contract.count(), 2);
    assert_eq!(test.contract.attendee(&a), Some(Attendee { fee: 200, attended: true, refunded: false }));
    assert_eq!(test.contract.attendee(&id(99)), None);
}

#[test]
fn identity_comparison_and_copy() {
    let a = Identity::new(vec![1, 2, 3]);
    let b = Identity::new(vec![1, 2, 4]);
    let c = Identity::new(vec![1, 2]);
    assert!(a.same_as(&a.duplicate()));
    assert!(!a.same_as(&b));
    assert!(!a.same_as(&c));
    assert_eq!(a.duplicate().bytes, vec![1, 2, 3]);
}
