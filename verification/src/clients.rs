use vstd::prelude::*;
use crate::amount::{amount_chars, dec_chars, dec_string, Amount};
use crate::client::{
    account_inv, apply, empty_account, lemma_apply_preserves_inv, AccountModel, Client, ClientError,
};
use crate::transaction::{ClientId, Transaction, TransactionData};

verus! {

/// One line of the final summary: a client and that account's balances.
#[derive(Debug, Clone, Copy, PartialEq, Eq, Structural)]
pub struct SummaryRow {
    pub client: ClientId,
    pub available: Amount,
    pub held: Amount,
    pub total: Amount,
    pub locked: bool,
}

/// Whether a row reports exactly the state of the account it names.
pub open spec fn row_matches(m: Map<ClientId, AccountModel>, row: SummaryRow) -> bool {
    &&& m.dom().contains(row.client)
    &&& row.available.0 == m[row.client].available
    &&& row.total.0 == m[row.client].total
    &&& row.held.0 == m[row.client].total - m[row.client].available
    &&& row.locked == m[row.client].locked
}

/// Whether a row sequence is the summary of the given accounts: one exact
/// row per account, in strictly ascending client order.
pub open spec fn is_summary_rows(rows: Seq<SummaryRow>, m: Map<ClientId, AccountModel>) -> bool {
    &&& forall|k: int| 0 <= k < rows.len() ==> row_matches(m, #[trigger] rows[k])
    &&& forall|k1: int, k2: int|
        0 <= k1 < k2 < rows.len() ==> rows[k1].client.0 < rows[k2].client.0
    &&& forall|id: ClientId| #[trigger]
        m.dom().contains(id) ==> exists|k: int|
            0 <= k < rows.len() && (#[trigger] rows[k]).client == id
}

/// The text of a boolean, as the output renders it.
pub open spec fn bool_chars(b: bool) -> Seq<char> {
    if b {
        seq!['t', 'r', 'u', 'e']
    } else {
        seq!['f', 'a', 'l', 's', 'e']
    }
}

/// The text of one summary line: client, available, held, total and lock
/// flag, comma separated, ending in a line break.
pub open spec fn row_chars(row: SummaryRow) -> Seq<char> {
    dec_chars(row.client.0 as nat) + seq![','] + amount_chars(row.available.0 as nat) + seq![',']
        + amount_chars(row.held.0 as nat) + seq![','] + amount_chars(row.total.0 as nat)
        + seq![','] + bool_chars(row.locked) + seq!['\n']
}

/// The text of a whole row sequence.
pub open spec fn rows_chars(rows: Seq<SummaryRow>) -> Seq<char>
    decreases rows.len(),
{
    if rows.len() == 0 {
        Seq::empty()
    } else {
        rows_chars(rows.drop_last()) + row_chars(rows.last())
    }
}

/// The accounts that result from replaying a transaction log, in order,
/// against an initially empty registry, with each record's own outcome
/// ignored: the account an operation touches is created, and kept, even
/// when the operation fails.
pub open spec fn run_log(ts: Seq<Transaction>) -> Map<ClientId, AccountModel>
    decreases ts.len(),
{
    if ts.len() == 0 {
        Map::empty()
    } else {
        let m = run_log(ts.drop_last());
        let t = ts.last();
        let pre = if m.dom().contains(t.client_id) {
            m[t.client_id]
        } else {
            empty_account()
        };
        m.insert(t.client_id, apply(pre, t.data).0)
    }
}

/// One registry slot: a client identifier and that client's account.
struct Entry {
    id: ClientId,
    account: Client,
}

/// The account registry: one account per client identifier, created lazily
/// the first time an identifier is seen. Entries are kept in ascending
/// identifier order so that the final summary is deterministic.
pub struct Clients {
    entries: Vec<Entry>,
}

/// The accounts a sequence of registry slots describes, as a map from
/// client identifier to account state.
spec fn accounts_of(s: Seq<Entry>) -> Map<ClientId, AccountModel>
    decreases s.len(),
{
    if s.len() == 0 {
        Map::empty()
    } else {
        accounts_of(s.drop_last()).insert(s.last().id, s.last().account@)
    }
}

/// Entries are in strictly ascending identifier order.
spec fn sorted_ids(s: Seq<Entry>) -> bool {
    forall|i: int, j: int| 0 <= i < j < s.len() ==> s[i].id.0 < s[j].id.0
}

proof fn lemma_accounts_of_dom(s: Seq<Entry>)
    ensures
        forall|id: ClientId| #[trigger]
            accounts_of(s).dom().contains(id) <==> (exists|i: int|
                0 <= i < s.len() && s[i].id == id),
    decreases s.len(),
{
    if s.len() > 0 {
        lemma_accounts_of_dom(s.drop_last());
        assert forall|id: ClientId| #[trigger]
            accounts_of(s).dom().contains(id) implies (exists|i: int|
            0 <= i < s.len() && s[i].id == id) by {
            if id == s.last().id {
                assert(s[s.len() - 1].id == id);
            } else {
                assert(accounts_of(s.drop_last()).dom().contains(id));
                let i = choose|i: int| 0 <= i < s.drop_last().len() && s.drop_last()[i].id == id;
                assert(s.drop_last()[i] == s[i]);
                assert(s[i].id == id);
            }
        }
        assert forall|id: ClientId| (exists|i: int|
            0 <= i < s.len() && s[i].id == id) implies #[trigger]
            accounts_of(s).dom().contains(id) by {
            let i = choose|i: int| 0 <= i < s.len() && s[i].id == id;
            if i < s.len() - 1 {
                assert(s.drop_last()[i].id == id);
                assert(exists|j: int| 0 <= j < s.drop_last().len() && s.drop_last()[j].id == id);
                assert(accounts_of(s.drop_last()).dom().contains(id));
            }
        }
    }
}

proof fn lemma_accounts_of_index(s: Seq<Entry>, i: int)
    requires
        forall|p: int, q: int| 0 <= p < q < s.len() ==> s[p].id != s[q].id,
        0 <= i < s.len(),
    ensures
        accounts_of(s).dom().contains(s[i].id),
        accounts_of(s)[s[i].id] == s[i].account@,
    decreases s.len(),
{
    if i < s.len() - 1 {
        lemma_accounts_of_index(s.drop_last(), i);
        assert(s.drop_last()[i] == s[i]);
        assert(s[i].id != s.last().id);
    }
}

proof fn lemma_accounts_of_update(s: Seq<Entry>, i: int, post: AccountModel)
    requires
        forall|p: int, q: int| 0 <= p < q < s.len() ==> s[p].id != s[q].id,
        0 <= i < s.len(),
    ensures
        forall|e: Entry|
            e.id == s[i].id && e.account@ == post ==> accounts_of(#[trigger] s.update(i, e))
                =~= accounts_of(s).insert(s[i].id, post),
    decreases s.len(),
{
    assert forall|e: Entry|
        e.id == s[i].id && e.account@ == post implies accounts_of(#[trigger] s.update(i, e))
        =~= accounts_of(s).insert(s[i].id, post) by {
        let t = s.update(i, e);
        if i == s.len() - 1 {
            assert(t.drop_last() =~= s.drop_last());
            assert(t.last() == e);
        } else {
            assert(t.drop_last() =~= s.drop_last().update(i, e));
            assert(t.last() == s.last());
            assert(s.drop_last()[i] == s[i]);
            lemma_accounts_of_update(s.drop_last(), i, post);
            assert(accounts_of(s.drop_last().update(i, e)) =~= accounts_of(
                s.drop_last(),
            ).insert(s[i].id, post));
            assert(s[i].id != s.last().id);
        }
    }
}

proof fn lemma_accounts_of_insert(s: Seq<Entry>, k: int, post: AccountModel, id: ClientId)
    requires
        0 <= k <= s.len(),
        forall|i: int| 0 <= i < s.len() ==> s[i].id != id,
    ensures
        forall|e: Entry|
            e.id == id && e.account@ == post ==> accounts_of(#[trigger] s.insert(k, e))
                =~= accounts_of(s).insert(id, post),
    decreases s.len(),
{
    assert forall|e: Entry|
        e.id == id && e.account@ == post implies accounts_of(#[trigger] s.insert(k, e))
        =~= accounts_of(s).insert(id, post) by {
        let t = s.insert(k, e);
        if k == s.len() {
            assert(t.drop_last() =~= s);
            assert(t.last() == e);
        } else {
            assert(t.drop_last() =~= s.drop_last().insert(k, e));
            assert(t.last() == s.last());
            lemma_accounts_of_insert(s.drop_last(), k, post, id);
            assert(accounts_of(s.drop_last().insert(k, e)) =~= accounts_of(s.drop_last()).insert(
                id,
                post,
            ));
            assert(s[s.len() - 1].id != id);
        }
    }
}

impl View for Clients {
    type V = Map<ClientId, AccountModel>;

    closed spec fn view(&self) -> Map<ClientId, AccountModel> {
        accounts_of(self.entries@)
    }
}

impl Clients {
    #[verifier::type_invariant]
    spec fn wf(self) -> bool {
        sorted_ids(self.entries@)
    }

    /// An empty registry: no client has been seen yet.
    pub fn new() -> (r: Self)
        ensures
            r@ == Map::<ClientId, AccountModel>::empty(),
    {
        Clients { entries: Vec::new() }
    }

    /// Take the whole registry out, leaving a fresh empty one behind.
    fn extract(&mut self) -> (c: Clients)
        ensures
            c == *old(self),
    {
        let mut c = Clients { entries: Vec::new() };
        core::mem::swap(self, &mut c);
        c
    }

    /// Route one transaction to the account of the client it names, creating
    /// that account empty if the identifier is new, and hand back the
    /// account's own outcome unchanged. The account is created, and kept,
    /// even when the operation itself fails.
    pub fn process_transaction(&mut self, transaction: Transaction) -> (r: Result<(), ClientError>)
        ensures
            ({
                let pre = if old(self)@.dom().contains(transaction.client_id) {
                    old(self)@[transaction.client_id]
                } else {
                    empty_account()
                };
                let (post, outcome) = apply(pre, transaction.data);
                final(self)@ == old(self)@.insert(transaction.client_id, post) && r == outcome
            }),
    {
        proof {
            use_type_invariant(&*self);
            lemma_accounts_of_dom(self.entries@);
        }
        let cid = transaction.client_id;
        let n = self.entries.len();
        let mut i: usize = 0;
        while i < n && self.entries[i].id.0 < cid.0
            invariant
                n == self.entries@.len(),
                i <= n,
                forall|j: int| 0 <= j < i ==> self.entries@[j].id.0 < cid.0,
            decreases n - i,
        {
            i = i + 1;
        }
        let ghost pre_entries = self.entries@;
        if i < n && self.entries[i].id.0 == cid.0 {
            proof {
                assert(pre_entries[i as int].id == cid);
                lemma_accounts_of_index(pre_entries, i as int);
            }
            let this = self.extract();
            let Clients { entries: mut entries } = this;
            let entry = entries.remove(i);
            let Entry { id, account: mut account } = entry;
            let r = dispatch(&mut account, transaction);
            entries.insert(i, Entry { id, account });
            proof {
                assert(entries@ =~= pre_entries.update(i as int, Entry { id, account: account }));
                lemma_accounts_of_update(pre_entries, i as int, account@);
                assert(sorted_ids(entries@));
            }
            *self = Clients { entries };
            r
        } else {
            proof {
                assert(forall|j: int| 0 <= j < pre_entries.len() ==> pre_entries[j].id != cid);
                assert(!old(self)@.dom().contains(cid));
            }
            let mut account = Client::default();
            let r = dispatch(&mut account, transaction);
            let this = self.extract();
            let Clients { entries: mut entries } = this;
            entries.insert(i, Entry { id: cid, account });
            proof {
                lemma_accounts_of_insert(pre_entries, i as int, account@, cid);
                assert(sorted_ids(entries@));
            }
            *self = Clients { entries };
            r
        }
    }
}

impl Clients {
    /// The final balances: one exact row per known client, in ascending
    /// client order.
    pub fn snapshot(&self) -> (rows: Vec<SummaryRow>)
        ensures
            is_summary_rows(rows@, self@),
    {
        let n = self.entries.len();
        let mut rows: Vec<SummaryRow> = Vec::new();
        let mut i: usize = 0;
        while i < n
            invariant
                n == self.entries@.len(),
                i <= n,
                rows@.len() == i as int,
                forall|k: int| 0 <= k < i ==> (#[trigger] rows@[k]).client == self.entries@[k].id,
                forall|k: int|
                    0 <= k < i ==> row_matches(accounts_of(self.entries@), #[trigger] rows@[k]),
            decreases n - i,
        {
            proof {
                use_type_invariant(&*self);
                lemma_accounts_of_index(self.entries@, i as int);
            }
            let e = &self.entries[i];
            let row = SummaryRow {
                client: e.id,
                available: e.account.available(),
                held: e.account.held(),
                total: e.account.total(),
                locked: e.account.locked(),
            };
            rows.push(row);
            i = i + 1;
        }
        proof {
            use_type_invariant(&*self);
            lemma_accounts_of_dom(self.entries@);
            assert forall|id: ClientId| #[trigger]
                self@.dom().contains(id) implies exists|k: int|
                0 <= k < rows@.len() && (#[trigger] rows@[k]).client == id by {
                let j = choose|j: int| 0 <= j < self.entries@.len() && self.entries@[j].id == id;
                assert(rows@[j].client == id);
            }
        }
        rows
    }

    /// Render the summary as delimited text: the header line, then one row
    /// per known client in ascending client order, each amount with exactly
    /// four fractional digits.
    #[verifier::rlimit(80)]
    pub fn render_summary(&self) -> (out: String)
        ensures
            exists|rows: Seq<SummaryRow>|
                is_summary_rows(rows, self@) && out@ == "client,available,held,total,locked\n"@
                    + rows_chars(rows),
    {
        let rows = self.snapshot();
        let mut out = String::from_str("client,available,held,total,locked\n");
        let n = rows.len();
        let mut i: usize = 0;
        while i < n
            invariant
                n == rows@.len(),
                i <= n,
                out@ == "client,available,held,total,locked\n"@ + rows_chars(
                    rows@.take(i as int),
                ),
            decreases n - i,
        {
            let row = rows[i];
            let client_text = dec_string(row.client.0 as u64);
            out.append(client_text.as_str());
            out.append(",");
            let available_text = row.available.format();
            out.append(available_text.as_str());
            out.append(",");
            let held_text = row.held.format();
            out.append(held_text.as_str());
            out.append(",");
            let total_text = row.total.format();
            out.append(total_text.as_str());
            out.append(",");
            if row.locked {
                out.append("true");
            } else {
                out.append("false");
            }
            out.append("\n");
            proof {
                reveal_strlit(",");
                reveal_strlit("\n");
                reveal_strlit("true");
                reveal_strlit("false");
                assert(","@ =~= seq![',']);
                assert("\n"@ =~= seq!['\n']);
                assert("true"@ =~= seq!['t', 'r', 'u', 'e']);
                assert("false"@ =~= seq!['f', 'a', 'l', 's', 'e']);
                assert(rows@.take(i + 1).drop_last() =~= rows@.take(i as int));
                assert(rows@.take(i + 1).last() == rows@[i as int]);
                assert(rows_chars(rows@.take(i + 1)) == rows_chars(rows@.take(i as int))
                    + row_chars(rows@[i as int]));
                assert(out@ =~= "client,available,held,total,locked\n"@ + rows_chars(
                    rows@.take(i + 1),
                ));
            }
            i = i + 1;
        }
        proof {
            assert(rows@.take(n as int) =~= rows@);
        }
        out
    }
}

/// Replay a transaction log, in order, against an initially empty registry,
/// ignoring each record's own outcome, and render the final summary.
pub fn summarize_transactions(transactions: &Vec<Transaction>) -> (out: String)
    ensures
        exists|rows: Seq<SummaryRow>|
            is_summary_rows(rows, run_log(transactions@)) && out@
                == "client,available,held,total,locked\n"@ + rows_chars(rows),
{
    let mut clients = Clients::new();
    let n = transactions.len();
    let mut i: usize = 0;
    while i < n
        invariant
            n == transactions@.len(),
            i <= n,
            clients@ == run_log(transactions@.take(i as int)),
        decreases n - i,
    {
        let t = transactions[i];
        let _ = clients.process_transaction(t);
        proof {
            assert(transactions@.take(i + 1).drop_last() =~= transactions@.take(i as int));
            assert(transactions@.take(i + 1).last() == transactions@[i as int]);
        }
        i = i + 1;
    }
    proof {
        assert(transactions@.take(n as int) =~= transactions@);
    }
    clients.render_summary()
}

proof fn lemma_summary_rows_agree_at(
    rows1: Seq<SummaryRow>,
    rows2: Seq<SummaryRow>,
    m: Map<ClientId, AccountModel>,
    k: int,
)
    requires
        is_summary_rows(rows1, m),
        is_summary_rows(rows2, m),
        0 <= k < rows1.len(),
        k < rows2.len(),
    ensures
        rows1[k] == rows2[k],
    decreases k,
{
    let c1 = rows1[k].client;
    let c2 = rows2[k].client;
    assert(m.dom().contains(c1));
    assert(m.dom().contains(c2));
    let j = choose|j: int| 0 <= j < rows2.len() && rows2[j].client == c1;
    assert(rows2[j].client == c1);
    if j < k {
        lemma_summary_rows_agree_at(rows1, rows2, m, j);
        assert(rows1[j].client.0 < rows1[k].client.0);
        assert(false);
    }
    let i = choose|i: int| 0 <= i < rows1.len() && rows1[i].client == c2;
    assert(rows1[i].client == c2);
    if i < k {
        lemma_summary_rows_agree_at(rows1, rows2, m, i);
        assert(rows2[i].client.0 < rows2[k].client.0);
        assert(false);
    }
    if j > k {
        assert(c2.0 < c1.0);
        assert(i > k ==> c1.0 < c2.0);
        assert(false);
    }
    assert(c1 == c2);
    assert(row_matches(m, rows1[k]));
    assert(row_matches(m, rows2[k]));
}

/// The summary is deterministic: for one and the same set of accounts there
/// is exactly one row sequence that summarizes it.
pub proof fn lemma_summary_rows_unique(
    rows1: Seq<SummaryRow>,
    rows2: Seq<SummaryRow>,
    m: Map<ClientId, AccountModel>,
)
    requires
        is_summary_rows(rows1, m),
        is_summary_rows(rows2, m),
    ensures
        rows1 == rows2,
{
    if rows1.len() < rows2.len() {
        let c = rows2[rows1.len() as int].client;
        assert(m.dom().contains(c));
        let k = choose|k: int| 0 <= k < rows1.len() && rows1[k].client == c;
        lemma_summary_rows_agree_at(rows1, rows2, m, k);
        assert(rows2[k].client.0 < rows2[rows1.len() as int].client.0);
        assert(false);
    }
    if rows2.len() < rows1.len() {
        let c = rows1[rows2.len() as int].client;
        assert(m.dom().contains(c));
        let k = choose|k: int| 0 <= k < rows2.len() && rows2[k].client == c;
        lemma_summary_rows_agree_at(rows1, rows2, m, k);
        assert(rows1[k].client.0 < rows1[rows2.len() as int].client.0);
        assert(false);
    }
    assert forall|k: int| 0 <= k < rows1.len() implies rows1[k] == rows2[k] by {
        lemma_summary_rows_agree_at(rows1, rows2, m, k);
    }
    assert(rows1 =~= rows2);
}

/// Replaying any transaction log, from the empty registry, leaves every
/// account satisfying the account invariant: its total equals its available
/// balance plus its held balance, over records with distinct ids.
pub proof fn lemma_replay_preserves_inv(ts: Seq<Transaction>)
    ensures
        forall|id: ClientId| #[trigger]
            run_log(ts).dom().contains(id) ==> account_inv(run_log(ts)[id]),
    decreases ts.len(),
{
    if ts.len() > 0 {
        lemma_replay_preserves_inv(ts.drop_last());
        let m = run_log(ts.drop_last());
        let t = ts.last();
        let pre = if m.dom().contains(t.client_id) {
            m[t.client_id]
        } else {
            empty_account()
        };
        assert(account_inv(empty_account()));
        lemma_apply_preserves_inv(pre, t.data);
    }
}

/// Apply a transaction's operation to one account, handing back the
/// account's own outcome unchanged. The registry adds no checks of its own.
fn dispatch(account: &mut Client, transaction: Transaction) -> (r: Result<(), ClientError>)
    ensures
        ({
            let (post, outcome) = apply(old(account)@, transaction.data);
            final(account)@ == post && r == outcome
        }),
        account_inv(final(account)@),
{
    match transaction.data {
        TransactionData::Deposit { transaction_id, amount } => account.deposit(
            transaction_id,
            amount,
        ),
        TransactionData::Withdrawal { transaction_id: _, amount } => account.withdraw(amount),
        TransactionData::Dispute { transaction_id } => account.dispute(transaction_id),
        TransactionData::Resolve { transaction_id } => account.resolve(transaction_id),
        TransactionData::Chargeback { transaction_id } => account.chargeback(transaction_id),
    }
}

} // verus!
