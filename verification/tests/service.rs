use ledger::account::{AccountSummary, TransactionError};
use ledger::service::Service;
use ledger::transaction::{Amount, Balance, ClientId, Transaction, TransactionId, TransactionType};

fn tx(kind: TransactionType, client: ClientId, tx: TransactionId, raw: i64) -> Transaction {
    Transaction {
        kind,
        client,
        tx,
        amount: Amount(raw),
    }
}

fn row(client: ClientId, available: i128, held: i128, locked: bool) -> AccountSummary {
    AccountSummary {
        client,
        available: Balance(available),
        held: Balance(held),
        total: Balance(available + held),
        locked,
    }
}

#[test]
fn new_service_has_no_accounts() {
    let service = Service::new();

    assert_eq!(service.snapshot(), vec![]);
    assert_eq!(service.account(0), None);
}

#[test]
fn first_transaction_creates_the_account() {
    let mut service = Service::new();

    assert_eq!(
        service.apply(tx(TransactionType::Deposit, 1, 1, 10_000)),
        Ok(())
    );

    assert_eq!(service.account(1), Some(row(1, 10_000, 0, false)));
    assert_eq!(service.account(2), None);
    assert_eq!(service.snapshot(), vec![row(1, 10_000, 0, false)]);
}

#[test]
fn rejected_first_transaction_still_creates_the_account() {
    let mut service = Service::new();
    let overdraw = tx(TransactionType::Withdrawal, 9, 1, 5);

    assert_eq!(
        service.apply(overdraw),
        Err(TransactionError::UnsufficientFunds(overdraw))
    );
    assert_eq!(
        service.apply(tx(TransactionType::Dispute, 4, 1, 0)),
        Err(TransactionError::NotFound(1))
    );

    assert_eq!(
        service.snapshot(),
        vec![row(4, 0, 0, false), row(9, 0, 0, false)]
    );
}

#[test]
fn transactions_reach_the_account_of_their_client_only() {
    let mut service = Service::new();
    service
        .apply(tx(TransactionType::Deposit, 2, 1, 50_000))
        .unwrap();
    service
        .apply(tx(TransactionType::Deposit, 1, 2, 30_000))
        .unwrap();
    service
        .apply(tx(TransactionType::Withdrawal, 2, 3, 20_000))
        .unwrap();

    // transaction 1 belongs to client 2, so client 1 cannot dispute it
    assert_eq!(
        service.apply(tx(TransactionType::Dispute, 1, 1, 0)),
        Err(TransactionError::NotFound(1))
    );
    service.apply(tx(TransactionType::Dispute, 1, 2, 0)).unwrap();

    assert_eq!(service.account(1), Some(row(1, 0, 30_000, false)));
    assert_eq!(service.account(2), Some(row(2, 30_000, 0, false)));
}

#[test]
fn failure_does_not_stop_the_stream() {
    let mut service = Service::new();
    let stream = [
        tx(TransactionType::Deposit, 1, 1, 10_000),
        tx(TransactionType::Deposit, 2, 2, 20_000),
        tx(TransactionType::Deposit, 1, 3, 20_000),
        tx(TransactionType::Withdrawal, 1, 4, 15_000),
        tx(TransactionType::Withdrawal, 2, 5, 30_000),
        tx(TransactionType::Dispute, 2, 2, 0),
        tx(TransactionType::Chargeback, 2, 2, 0),
        tx(TransactionType::Deposit, 2, 6, 10_000),
    ];
    let mut results = Vec::new();
    for step in stream {
        results.push(service.apply(step));
    }

    assert_eq!(
        results,
        vec![
            Ok(()),
            Ok(()),
            Ok(()),
            Ok(()),
            Err(TransactionError::UnsufficientFunds(stream[4])),
            Ok(()),
            Ok(()),
            Err(TransactionError::AccountLocked),
        ]
    );
    assert_eq!(
        service.snapshot(),
        vec![row(1, 15_000, 0, false), row(2, 0, 0, true)]
    );
}

#[test]
fn snapshot_lists_every_client_in_ascending_order() {
    let mut service = Service::new();
    let clients: [ClientId; 6] = [65_535, 300, 0, 7, 299, 12];
    for (i, client) in clients.iter().enumerate() {
        service
            .apply(tx(
                TransactionType::Deposit,
                *client,
                i as TransactionId,
                *client as i64 + 1,
            ))
            .unwrap();
    }

    let rows = service.snapshot();

    assert_eq!(
        rows,
        vec![
            row(0, 1, 0, false),
            row(7, 8, 0, false),
            row(12, 13, 0, false),
            row(299, 300, 0, false),
            row(300, 301, 0, false),
            row(65_535, 65_536, 0, false),
        ]
    );
}
