use ledger::Amount;
use ledger::Client;
use ledger::ClientError;
use ledger::TransactionId;

fn amt(s: &str) -> Amount {
    Amount::parse(s).unwrap()
}

fn check_client(client: &Client, available: &str, held: &str, total: &str, locked: bool) {
    assert_eq!(client.available(), amt(available));
    assert_eq!(client.held(), amt(held));
    assert_eq!(client.total(), amt(total));
    assert_eq!(client.locked(), locked);

    // Check the account invariant.
    let actual_held = client
        .deposit_records()
        .iter()
        .filter(|d| d.disputed)
        .map(|d| d.amount)
        .fold(Amount::default(), |acc, x| acc.checked_add(x).unwrap());
    assert_eq!(client.held(), actual_held);
    assert_eq!(
        client.total(),
        client.available().checked_add(client.held()).unwrap()
    );
}

#[test]
fn test_deposit() {
    // A deposit should increase the available and total funds.
    let mut client = Client::default();
    client.deposit(TransactionId::new(1), amt("1.0")).unwrap();
    check_client(&client, "1.0", "0.0", "1.0", false);
}

#[test]
fn test_deposit_duplicate_transaction_id() {
    // A deposit with a duplicate transaction ID should fail.
    let mut client = Client::default();
    client.deposit(TransactionId::new(1), amt("1.0")).unwrap();
    assert_eq!(
        client.deposit(TransactionId::new(1), amt("2.0")),
        Err(ClientError::DuplicateTransactionId)
    );
}

#[test]
fn test_withdrawal() {
    // A withdrawal should decrease the available and total funds.
    let mut client = Client::default();
    client.deposit(TransactionId::new(1), amt("2.0")).unwrap();
    check_client(&client, "2.0", "0.0", "2.0", false);

    client.withdraw(amt("1.0")).unwrap();
    check_client(&client, "1.0", "0.0", "1.0", false);
}

#[test]
fn test_withdrawal_insufficient_funds() {
    // A withdrawal should fail if there are insufficient funds, and the
    // total amount of funds should not change.
    let mut client = Client::default();
    client.deposit(TransactionId::new(1), amt("1.0")).unwrap();
    check_client(&client, "1.0", "0.0", "1.0", false);

    assert_eq!(client.withdraw(amt("2.0")), Err(ClientError::InsufficientFunds));
    check_client(&client, "1.0", "0.0", "1.0", false);
}

#[test]
fn test_dispute() {
    // A dispute should "hold" funds. The available balance should decrease,
    // the held balance should increase, and the total balance should not
    // change.
    let mut client = Client::default();
    client.deposit(TransactionId::new(1), amt("1.0")).unwrap();
    client.deposit(TransactionId::new(2), amt("2.0")).unwrap();
    check_client(&client, "3.0", "0.0", "3.0", false);

    client.dispute(TransactionId::new(1)).unwrap();
    check_client(&client, "2.0", "1.0", "3.0", false);
}

#[test]
fn test_dispute_unknown_transaction_id() {
    // Disputing an unknown transaction ID should report an error to the
    // caller - it's up to them whether to ignore it or do something else.
    let mut client = Client::default();
    check_client(&client, "0.0", "0.0", "0.0", false);
    assert_eq!(
        client.dispute(TransactionId::new(1)),
        Err(ClientError::UnknownTransactionId)
    );
    // The client should be unchanged.
    check_client(&client, "0.0", "0.0", "0.0", false);
}

#[test]
fn test_dispute_already_disputed() {
    // Disputing an already disputed transaction should report an error to
    // the caller.
    let mut client = Client::default();
    client.deposit(TransactionId::new(1), amt("1.0")).unwrap();
    check_client(&client, "1.0", "0.0", "1.0", false);
    client.dispute(TransactionId::new(1)).unwrap();
    check_client(&client, "0.0", "1.0", "1.0", false);
    assert_eq!(
        client.dispute(TransactionId::new(1)),
        Err(ClientError::AlreadyDisputed)
    );
    // The client should be unchanged.
    check_client(&client, "0.0", "1.0", "1.0", false);
}

#[test]
fn test_dispute_insufficient_funds() {
    // A deposit can't be disputed if the funds aren't available to hold.
    let mut client = Client::default();
    client.deposit(TransactionId::new(1), amt("2.0")).unwrap();
    client.deposit(TransactionId::new(2), amt("3.0")).unwrap();
    client.withdraw(amt("4.0")).unwrap();
    check_client(&client, "1.0", "0.0", "1.0", false);
    assert_eq!(
        client.dispute(TransactionId::new(1)),
        Err(ClientError::InsufficientFunds)
    );
    // The client should be unchanged.
    check_client(&client, "1.0", "0.0", "1.0", false);
}

#[test]
fn test_resolve() {
    // A resolve should release held funds. The available balance should
    // increase, the held balance should decrease, and the total balance
    // should not change.
    let mut client = Client::default();
    client.deposit(TransactionId::new(1), amt("1.0")).unwrap();
    client.deposit(TransactionId::new(2), amt("2.0")).unwrap();
    check_client(&client, "3.0", "0.0", "3.0", false);

    client.dispute(TransactionId::new(1)).unwrap();
    check_client(&client, "2.0", "1.0", "3.0", false);

    client.resolve(TransactionId::new(1)).unwrap();
    check_client(&client, "3.0", "0.0", "3.0", false);
}

#[test]
fn test_resolve_unknown_transaction_id() {
    let mut client = Client::default();
    assert_eq!(
        client.resolve(TransactionId::new(1)),
        Err(ClientError::UnknownTransactionId)
    );
}

#[test]
fn test_resolve_not_disputed() {
    let mut client = Client::default();
    client.deposit(TransactionId::new(1), amt("1.0")).unwrap();
    check_client(&client, "1.0", "0.0", "1.0", false);
    assert_eq!(
        client.resolve(TransactionId::new(1)),
        Err(ClientError::NotDisputed)
    );
    // The client should be unchanged.
    check_client(&client, "1.0", "0.0", "1.0", false);
}

#[test]
fn test_chargeback() {
    // A chargeback should release held funds to the client, decreasing the
    // held funds and total funds. The account should be frozen to prevent
    // further transactions.
    let mut client = Client::default();
    client.deposit(TransactionId::new(1), amt("1.0")).unwrap();
    client.deposit(TransactionId::new(2), amt("2.0")).unwrap();
    check_client(&client, "3.0", "0.0", "3.0", false);

    client.dispute(TransactionId::new(1)).unwrap();
    check_client(&client, "2.0", "1.0", "3.0", false);

    client.chargeback(TransactionId::new(1)).unwrap();
    check_client(&client, "2.0", "0.0", "2.0", true);

    // The account is frozen; any further transactions should fail without
    // changing client state.

    assert_eq!(
        client.deposit(TransactionId::new(3), amt("1.0")),
        Err(ClientError::Locked)
    );
    check_client(&client, "2.0", "0.0", "2.0", true);

    assert_eq!(client.withdraw(amt("1.0")), Err(ClientError::Locked));
    check_client(&client, "2.0", "0.0", "2.0", true);

    assert_eq!(client.dispute(TransactionId::new(2)), Err(ClientError::Locked));
    check_client(&client, "2.0", "0.0", "2.0", true);

    assert_eq!(client.resolve(TransactionId::new(2)), Err(ClientError::Locked));
    check_client(&client, "2.0", "0.0", "2.0", true);

    assert_eq!(
        client.chargeback(TransactionId::new(2)),
        Err(ClientError::Locked)
    );
    check_client(&client, "2.0", "0.0", "2.0", true);
}

#[test]
fn test_chargeback_unknown_transaction_id() {
    let mut client = Client::default();
    assert_eq!(
        client.chargeback(TransactionId::new(1)),
        Err(ClientError::UnknownTransactionId)
    );
}

#[test]
fn test_chargeback_not_disputed() {
    let mut client = Client::default();
    client.deposit(TransactionId::new(1), amt("1.0")).unwrap();
    check_client(&client, "1.0", "0.0", "1.0", false);
    assert_eq!(
        client.chargeback(TransactionId::new(1)),
        Err(ClientError::NotDisputed)
    );
    // The client should be unchanged.
    check_client(&client, "1.0", "0.0", "1.0", false);
}

#[test]
fn test_deposit_overflow() {
    // A deposit that would cause the total funds to overflow should fail,
    // even if the available funds wouldn't overflow.
    let mut client = Client::default();

    let amount = {
        let mut s = u64::MAX.to_string();
        s.insert(s.len() - 4, '.');
        Amount::parse(s.as_str()).unwrap()
    };
    client.deposit(TransactionId::new(1), amount).unwrap();
    client.dispute(TransactionId::new(1)).unwrap();
    assert_eq!(
        client.deposit(TransactionId::new(2), amt("1.0")),
        Err(ClientError::Overflow)
    );
}

#[test]
fn test_chargeback_forgets_the_deposit() {
    // After a chargeback the transaction id is forgotten: no record of it
    // remains in the account.
    let mut client = Client::default();
    client.deposit(TransactionId::new(1), amt("1.0")).unwrap();
    client.dispute(TransactionId::new(1)).unwrap();
    client.chargeback(TransactionId::new(1)).unwrap();
    assert!(client.deposit_records().is_empty());
}
