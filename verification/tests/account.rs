use ledger::account::{Account, DisputableTransaction, TransactionError};
use ledger::transaction::{Amount, Balance, Transaction, TransactionId, TransactionType};

fn amount(value: f64) -> Amount {
    Amount((value * 10_000.0).trunc() as i64)
}

fn balance(value: f64) -> Balance {
    Balance((value * 10_000.0).trunc() as i128)
}

fn account_with(available: f64, locked: bool) -> Account {
    Account::with_state(0, amount(available), amount(0.), locked)
}

fn deposit(value: f64, tx: TransactionId) -> Transaction {
    Transaction {
        kind: TransactionType::Deposit,
        amount: amount(value),
        tx,
        client: 0,
    }
}

fn withdrawal(value: f64, tx: TransactionId) -> Transaction {
    Transaction {
        kind: TransactionType::Withdrawal,
        amount: amount(value),
        tx,
        client: 0,
    }
}

fn dispute(tx: TransactionId) -> Transaction {
    Transaction {
        kind: TransactionType::Dispute,
        tx,
        client: 0,
        amount: amount(0.),
    }
}

fn resolve(tx: TransactionId) -> Transaction {
    Transaction {
        kind: TransactionType::Resolve,
        tx,
        client: 0,
        amount: amount(0.),
    }
}

fn chargeback(tx: TransactionId) -> Transaction {
    Transaction {
        kind: TransactionType::Chargeback,
        tx,
        client: 0,
        amount: amount(0.),
    }
}

fn balances(account: &Account) -> (Balance, Balance, Balance) {
    (account.available(), account.held(), account.total())
}

#[test]
fn transaction_id_should_be_unique() {
    let mut account = Account::default();
    account.apply(deposit(5., 0)).unwrap();

    assert!(account.apply(deposit(5., 0)).is_err());
}

#[test]
fn withdrawal_with_sufficient_funds_should_charge_account() {
    let mut account = account_with(5., false);

    account.apply(withdrawal(4., 0)).unwrap();

    assert_eq!(account.total(), balance(1.));
    assert_eq!(account.available(), balance(1.));
}

#[test]
fn withdrawal_with_unsufficient_funds_should_be_rejected() {
    let mut account = account_with(4., false);

    assert!(account.apply(withdrawal(5., 0)).is_err());
}

#[test]
fn dispute_to_already_disputed_tx_should_fail() {
    let mut account = Account::default();
    account.apply(deposit(5., 0)).unwrap();

    account.apply(dispute(0)).unwrap();

    assert!(account.apply(dispute(0)).is_err());
}

#[test]
fn dispute_to_deposit_should_freeze_funds() {
    let mut account = Account::default();
    account.apply(deposit(5., 0)).unwrap();

    account.apply(dispute(0)).unwrap();

    assert_eq!(account.total(), balance(5.));
    assert_eq!(account.available(), balance(0.));
    assert_eq!(account.held(), balance(5.));
}

#[test]
fn dispute_to_deposit_should_not_work_if_funds_already_withdrawn() {
    let mut account = Account::default();
    account.apply(deposit(5., 0)).unwrap();
    account.apply(withdrawal(4., 1)).unwrap();

    assert!(account.apply(dispute(0)).is_err());
}

#[test]
fn dispute_to_withdrawal_should_raise_held_funds() {
    let mut account = account_with(5., false);
    account.apply(withdrawal(5., 0)).unwrap();

    account.apply(dispute(0)).unwrap();

    assert_eq!(account.total(), balance(5.));
    assert_eq!(account.available(), balance(0.));
    assert_eq!(account.held(), balance(5.));
}

#[test]
fn resolving_and_charging_back_on_not_disputed_tx_should_fail() {
    let mut account = Account::default();
    account.apply(deposit(5., 0)).unwrap();

    assert!(account.apply(resolve(0)).is_err());
    assert!(account.apply(chargeback(0)).is_err());
}

#[test]
fn resolving_disputed_deposit_should_revert_dispute() {
    let mut account = Account::default();
    account.apply(deposit(5., 0)).unwrap();
    account.apply(dispute(0)).unwrap();

    account.apply(resolve(0)).unwrap();

    assert_eq!(account.total(), balance(5.));
    assert_eq!(account.available(), balance(5.));
    assert_eq!(account.held(), balance(0.));
    assert_eq!(account.stored(0).unwrap().disputed, false);
}

#[test]
fn resolving_disputed_withdrawal_should_revert_dispute() {
    let mut account = account_with(5., false);
    account.apply(withdrawal(5., 0)).unwrap();
    account.apply(dispute(0)).unwrap();

    account.apply(resolve(0)).unwrap();

    assert_eq!(account.total(), balance(0.));
    assert_eq!(account.available(), balance(0.));
    assert_eq!(account.held(), balance(0.));
    assert_eq!(account.stored(0).unwrap().disputed, false);
}

#[test]
fn charging_back_disputed_deposit_should_revert_transaction() {
    let mut account = Account::default();
    account.apply(deposit(5., 0)).unwrap();
    account.apply(dispute(0)).unwrap();

    account.apply(chargeback(0)).unwrap();

    assert_eq!(account.total(), balance(0.));
    assert_eq!(account.available(), balance(0.));
    assert_eq!(account.held(), balance(0.));
    assert_eq!(account.locked(), true);
}

#[test]
fn charging_back_disputed_withdrawal_should_revert_transaction() {
    let mut account = account_with(5., false);
    account.apply(withdrawal(5., 0)).unwrap();
    account.apply(dispute(0)).unwrap();

    account.apply(chargeback(0)).unwrap();

    assert_eq!(account.total(), balance(5.));
    assert_eq!(account.available(), balance(5.));
    assert_eq!(account.held(), balance(0.));
    assert_eq!(account.locked(), true);
}

#[test]
fn no_transaction_should_take_effect_on_locked_account() {
    let mut account = account_with(0., true);

    assert!(account.apply(deposit(555., 0)).is_err());
    assert!(account.apply(withdrawal(111., 0)).is_err());
    assert!(account.apply(dispute(0)).is_err());
}

#[test]
fn new_account_is_empty_and_open() {
    let account = Account::new(7);

    assert_eq!(account.id(), 7);
    assert_eq!(balances(&account), (Balance(0), Balance(0), Balance(0)));
    assert!(!account.locked());
    assert_eq!(account.stored(0), None);
    assert_eq!(Account::default().id(), 0);
}

#[test]
fn opening_state_sets_total_to_available_plus_held() {
    let account = Account::with_state(3, Amount(25_000), Amount(15_000), false);

    assert_eq!(account.id(), 3);
    assert_eq!(balances(&account), (Balance(25_000), Balance(15_000), Balance(40_000)));

    let summary = account.summary();
    assert_eq!(summary.client, 3);
    assert_eq!(summary.available, Balance(25_000));
    assert_eq!(summary.held, Balance(15_000));
    assert_eq!(summary.total, Balance(40_000));
    assert!(!summary.locked);
}

#[test]
fn deposit_credits_available_and_total() {
    let mut account = Account::new(1);

    let result = account.apply(Transaction {
        kind: TransactionType::Deposit,
        client: 1,
        tx: 1,
        amount: amount(1.0),
    });

    assert_eq!(result, Ok(()));
    assert_eq!(balances(&account), (balance(1.0), balance(0.), balance(1.0)));
    assert_eq!(
        account.stored(1),
        Some(DisputableTransaction {
            transaction: Transaction {
                kind: TransactionType::Deposit,
                client: 1,
                tx: 1,
                amount: Amount(10_000),
            },
            disputed: false,
        })
    );
}

#[test]
fn second_withdrawal_beyond_the_rest_is_rejected() {
    let mut account = account_with(5.0, false);

    assert_eq!(account.apply(withdrawal(4.0, 1)), Ok(()));
    assert_eq!(balances(&account), (balance(1.0), balance(0.), balance(1.0)));

    let too_much = withdrawal(5.0, 2);
    assert_eq!(
        account.apply(too_much),
        Err(TransactionError::UnsufficientFunds(too_much))
    );
    assert_eq!(balances(&account), (balance(1.0), balance(0.), balance(1.0)));
    assert_eq!(account.stored(2), None);
}

#[test]
fn withdrawal_of_the_whole_available_balance_is_accepted() {
    let mut account = account_with(5.0, false);

    assert_eq!(account.apply(withdrawal(5.0, 1)), Ok(()));
    assert_eq!(balances(&account), (Balance(0), Balance(0), Balance(0)));
}

#[test]
fn dispute_then_resolve_restores_the_deposit() {
    let mut account = Account::default();
    assert_eq!(account.apply(deposit(5.0, 0)), Ok(()));

    assert_eq!(account.apply(dispute(0)), Ok(()));
    assert_eq!(balances(&account), (balance(0.), balance(5.0), balance(5.0)));
    assert_eq!(account.stored(0).unwrap().disputed, true);

    assert_eq!(account.apply(resolve(0)), Ok(()));
    assert_eq!(balances(&account), (balance(5.0), balance(0.), balance(5.0)));
    assert!(!account.locked());
}

#[test]
fn chargeback_of_deposit_locks_the_account() {
    let mut account = Account::default();
    assert_eq!(account.apply(deposit(5.0, 0)), Ok(()));
    assert_eq!(account.apply(dispute(0)), Ok(()));

    assert_eq!(account.apply(chargeback(0)), Ok(()));
    assert_eq!(balances(&account), (Balance(0), Balance(0), Balance(0)));
    assert!(account.locked());

    assert_eq!(
        account.apply(deposit(1.0, 1)),
        Err(TransactionError::AccountLocked)
    );
    assert_eq!(balances(&account), (Balance(0), Balance(0), Balance(0)));
    assert_eq!(account.stored(1), None);
}

#[test]
fn disputed_withdrawal_is_held_and_charged_back_into_available() {
    let mut account = account_with(5.0, false);
    assert_eq!(account.apply(withdrawal(5.0, 0)), Ok(()));
    assert_eq!(balances(&account), (Balance(0), Balance(0), Balance(0)));

    assert_eq!(account.apply(dispute(0)), Ok(()));
    assert_eq!(balances(&account), (balance(0.), balance(5.0), balance(5.0)));

    assert_eq!(account.apply(chargeback(0)), Ok(()));
    assert_eq!(balances(&account), (balance(5.0), balance(0.), balance(5.0)));
    assert!(account.locked());
}

#[test]
fn dispute_of_spent_deposit_is_rejected_without_change() {
    let mut account = Account::default();
    assert_eq!(account.apply(deposit(5.0, 0)), Ok(()));
    assert_eq!(account.apply(withdrawal(4.0, 1)), Ok(()));

    let late = dispute(0);
    assert_eq!(
        account.apply(late),
        Err(TransactionError::UnsufficientFunds(late))
    );
    assert_eq!(balances(&account), (balance(1.0), balance(0.), balance(1.0)));
    assert_eq!(account.stored(0).unwrap().disputed, false);
    assert!(!account.locked());
}

#[test]
fn total_is_available_plus_held_after_every_step() {
    let steps = [
        deposit(10.5, 1),
        deposit(2.25, 2),
        withdrawal(3.0, 3),
        dispute(2),
        withdrawal(100.0, 4),
        dispute(3),
        resolve(2),
        deposit(0.0001, 5),
        dispute(9),
        chargeback(3),
        deposit(1.0, 6),
    ];
    let mut account = Account::new(0);
    for step in steps {
        let _ = account.apply(step);
        assert_eq!(
            account.total().0,
            account.available().0 + account.held().0
        );
    }
    assert_eq!(balances(&account), (Balance(127_501), Balance(0), Balance(127_501)));
    assert!(account.locked());
}

#[test]
fn locked_account_rejects_every_kind_and_keeps_its_balances() {
    let mut account = Account::default();
    account.apply(deposit(8.0, 0)).unwrap();
    account.apply(deposit(2.0, 1)).unwrap();
    account.apply(dispute(1)).unwrap();
    account.apply(chargeback(1)).unwrap();
    let frozen = balances(&account);
    assert_eq!(frozen, (balance(8.0), balance(0.), balance(8.0)));

    for tx in [
        deposit(1.0, 2),
        withdrawal(1.0, 3),
        dispute(0),
        resolve(1),
        chargeback(1),
    ] {
        assert_eq!(account.apply(tx), Err(TransactionError::AccountLocked));
        assert_eq!(balances(&account), frozen);
        assert!(account.locked());
    }
    assert_eq!(account.stored(0).unwrap().disputed, false);
    assert_eq!(account.stored(2), None);
}

#[test]
fn second_dispute_is_already_disputed_and_changes_nothing() {
    let mut account = Account::default();
    account.apply(deposit(5.0, 4)).unwrap();
    account.apply(dispute(4)).unwrap();
    let before = balances(&account);

    assert_eq!(
        account.apply(dispute(4)),
        Err(TransactionError::AlreadyDisputed(4))
    );
    assert_eq!(balances(&account), before);
    assert_eq!(account.stored(4).unwrap().disputed, true);
}

#[test]
fn duplicate_identifier_is_rejected_without_change() {
    let mut account = Account::default();
    account.apply(deposit(5.0, 0)).unwrap();

    assert_eq!(
        account.apply(deposit(7.0, 0)),
        Err(TransactionError::AlreadyExist(0))
    );
    assert_eq!(
        account.apply(withdrawal(1.0, 0)),
        Err(TransactionError::AlreadyExist(0))
    );
    assert_eq!(balances(&account), (balance(5.0), balance(0.), balance(5.0)));
    assert_eq!(account.stored(0).unwrap().transaction.amount, amount(5.0));
}

#[test]
fn withdrawal_without_funds_reports_funds_before_identifier() {
    let mut account = Account::default();
    account.apply(deposit(5.0, 0)).unwrap();

    let tx = withdrawal(6.0, 0);
    assert_eq!(
        account.apply(tx),
        Err(TransactionError::UnsufficientFunds(tx))
    );
}

#[test]
fn reference_to_unknown_transaction_is_not_found() {
    let mut account = Account::default();
    account.apply(deposit(5.0, 0)).unwrap();

    assert_eq!(account.apply(dispute(1)), Err(TransactionError::NotFound(1)));
    assert_eq!(account.apply(resolve(2)), Err(TransactionError::NotFound(2)));
    assert_eq!(
        account.apply(chargeback(3)),
        Err(TransactionError::NotFound(3))
    );
    assert_eq!(balances(&account), (balance(5.0), balance(0.), balance(5.0)));
}

#[test]
fn resolve_and_chargeback_need_an_open_dispute() {
    let mut account = Account::default();
    account.apply(deposit(5.0, 0)).unwrap();

    assert_eq!(
        account.apply(resolve(0)),
        Err(TransactionError::NotDisputed(0))
    );
    assert_eq!(
        account.apply(chargeback(0)),
        Err(TransactionError::NotDisputed(0))
    );
    assert!(!account.locked());

    account.apply(dispute(0)).unwrap();
    account.apply(resolve(0)).unwrap();
    assert_eq!(
        account.apply(resolve(0)),
        Err(TransactionError::NotDisputed(0))
    );
}

#[test]
fn resolved_transaction_can_be_disputed_again() {
    let mut account = Account::default();
    account.apply(deposit(5.0, 0)).unwrap();
    account.apply(dispute(0)).unwrap();
    account.apply(resolve(0)).unwrap();

    assert_eq!(account.apply(dispute(0)), Ok(()));
    assert_eq!(balances(&account), (balance(0.), balance(5.0), balance(5.0)));
}

#[test]
fn resolving_disputed_withdrawal_takes_the_hold_back() {
    let mut account = account_with(9.0, false);
    account.apply(withdrawal(4.0, 0)).unwrap();
    account.apply(dispute(0)).unwrap();
    assert_eq!(balances(&account), (balance(5.0), balance(4.0), balance(9.0)));

    account.apply(resolve(0)).unwrap();
    assert_eq!(balances(&account), (balance(5.0), balance(0.), balance(5.0)));
}

#[test]
fn amount_of_reference_is_ignored() {
    let mut account = Account::default();
    account.apply(deposit(5.0, 0)).unwrap();

    let loud = Transaction {
        kind: TransactionType::Dispute,
        client: 0,
        tx: 0,
        amount: amount(123.0),
    };
    assert_eq!(account.apply(loud), Ok(()));
    assert_eq!(balances(&account), (balance(0.), balance(5.0), balance(5.0)));
}

#[test]
fn save_tx_stores_once_and_leaves_balances() {
    let mut account = account_with(2.0, false);

    assert_eq!(account.save_tx(deposit(5.0, 8)), Ok(()));
    assert_eq!(
        account.save_tx(withdrawal(1.0, 8)),
        Err(TransactionError::AlreadyExist(8))
    );
    assert_eq!(balances(&account), (balance(2.0), balance(0.), balance(2.0)));
    assert_eq!(
        account.stored(8),
        Some(DisputableTransaction {
            transaction: deposit(5.0, 8),
            disputed: false,
        })
    );
}

#[test]
fn balances_grow_beyond_a_single_amount() {
    let mut account = Account::default();
    let most = Amount(i64::MAX);
    for tx in 0..4 {
        let step = Transaction {
            kind: TransactionType::Deposit,
            client: 0,
            tx,
            amount: most,
        };
        assert_eq!(account.apply(step), Ok(()));
    }
    assert_eq!(account.available(), Balance(4 * (i64::MAX as i128)));
    assert_eq!(account.total(), Balance(4 * (i64::MAX as i128)));

    let least = Transaction {
        kind: TransactionType::Withdrawal,
        client: 0,
        tx: 9,
        amount: Amount(i64::MIN),
    };
    assert_eq!(account.apply(least), Ok(()));
    assert_eq!(
        account.available(),
        Balance(4 * (i64::MAX as i128) - (i64::MIN as i128))
    );
}
