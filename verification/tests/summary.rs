use ledger::summarize_transactions;
use ledger::Amount;
use ledger::ClientError;
use ledger::ClientId;
use ledger::Clients;
use ledger::Transaction;
use ledger::TransactionData;
use ledger::TransactionId;

/// Read transactions from delimited text, as the surrounding program does:
/// a header line, then one record per line, with optional spaces and an
/// optional amount field.
fn load_transactions(input: &str) -> Vec<Transaction> {
    let mut reader = csv::ReaderBuilder::new()
        .flexible(true)
        .trim(csv::Trim::All)
        .from_reader(input.as_bytes());
    let mut transactions = Vec::new();
    for record in reader.records() {
        let record = record.unwrap();
        let transaction_id = TransactionId::new(record.get(2).unwrap().parse::<u32>().unwrap());
        let amount = record
            .get(3)
            .filter(|s| !s.is_empty())
            .map(|s| Amount::parse(s).unwrap());
        let data = match record.get(0).unwrap() {
            "deposit" => TransactionData::Deposit {
                transaction_id,
                amount: amount.unwrap(),
            },
            "withdrawal" => TransactionData::Withdrawal {
                transaction_id,
                amount: amount.unwrap(),
            },
            "dispute" => TransactionData::Dispute { transaction_id },
            "resolve" => TransactionData::Resolve { transaction_id },
            "chargeback" => TransactionData::Chargeback { transaction_id },
            other => panic!("unknown transaction type: {}", other),
        };
        transactions.push(Transaction {
            client_id: ClientId(record.get(1).unwrap().parse::<u16>().unwrap()),
            data,
        });
    }
    transactions
}

// High-level test covering a vertial slice of the whole program to make
// sure everything fits together.
#[test]
fn test_summarize_transactions() {
    let input = "type, client, tx, amount
deposit, 7, 1001, 1.0
deposit, 8, 1002, 2.0
deposit, 7, 1003, 2.0
withdrawal, 7, 1004, 1.5
withdrawal, 8, 1005, 3.0
deposit, 7, 1006, 1.0
dispute, 7, 1006
deposit, 8, 1007, 1.0
dispute, 8, 1007
chargeback, 8, 1007
";
    let transactions = load_transactions(input);
    let actual = summarize_transactions(&transactions);
    assert_eq!(
        actual,
        "client,available,held,total,locked
7,1.5000,1.0000,2.5000,false
8,2.0000,0.0000,2.0000,true
"
    );
}

#[test]
fn test_process_transaction_routes_errors() {
    // The registry propagates each account's outcome unchanged, and a bad
    // record does not halt processing of the rest.
    let mut clients = Clients::new();
    assert_eq!(
        clients.process_transaction(Transaction {
            client_id: ClientId(1),
            data: TransactionData::Withdrawal {
                transaction_id: TransactionId::new(1),
                amount: Amount::parse("1.0").unwrap(),
            },
        }),
        Err(ClientError::InsufficientFunds)
    );
    assert_eq!(
        clients.process_transaction(Transaction {
            client_id: ClientId(1),
            data: TransactionData::Deposit {
                transaction_id: TransactionId::new(2),
                amount: Amount::parse("1.0").unwrap(),
            },
        }),
        Ok(())
    );
}

#[test]
fn test_snapshot_sorted_by_client() {
    // Output rows come in ascending client order regardless of the order in
    // which clients were first seen, and a client stays in the summary even
    // when its only record failed.
    let mut clients = Clients::new();
    for (client, tx, amount) in [(9u16, 1u32, "3.0"), (2, 2, "1.0"), (5, 3, "2.0")] {
        clients
            .process_transaction(Transaction {
                client_id: ClientId(client),
                data: TransactionData::Deposit {
                    transaction_id: TransactionId::new(tx),
                    amount: Amount::parse(amount).unwrap(),
                },
            })
            .unwrap();
    }
    let _ = clients.process_transaction(Transaction {
        client_id: ClientId(3),
        data: TransactionData::Dispute {
            transaction_id: TransactionId::new(9),
        },
    });
    let rows = clients.snapshot();
    let ids: Vec<u16> = rows.iter().map(|r| r.client.0).collect();
    assert_eq!(ids, vec![2, 3, 5, 9]);
    assert_eq!(rows[0].available, Amount::parse("1.0").unwrap());
    assert_eq!(rows[1].total, Amount::parse("0.0").unwrap());
    assert_eq!(clients.render_summary(),
        "client,available,held,total,locked
2,1.0000,0.0000,1.0000,false
3,0.0000,0.0000,0.0000,false
5,2.0000,0.0000,2.0000,false
9,3.0000,0.0000,3.0000,false
"
    );
}
