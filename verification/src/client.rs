use vstd::prelude::*;
use crate::amount::Amount;
use crate::transaction::{TransactionData, TransactionId};

verus! {

/// One deposit known to an account: its transaction id, its amount, and
/// whether it is currently under dispute.
#[derive(Debug, Clone, Copy, PartialEq, Eq, Structural)]
pub struct DepositRecord {
    pub tx: TransactionId,
    pub amount: Amount,
    pub disputed: bool,
}

/// The abstract state of one account: the balances, the lock flag, and the
/// deposits that may still be disputed, in the order they were made.
#[verifier::ext_equal]
pub ghost struct AccountModel {
    pub available: u64,
    pub total: u64,
    pub locked: bool,
    pub deposits: Seq<DepositRecord>,
}

/// The error outcomes of the account operations. All are recoverable at the
/// call site: a failed operation leaves the account unchanged.
#[derive(Debug, Clone, Copy, PartialEq, Eq, Structural)]
pub enum ClientError {
    Overflow,
    InsufficientFunds,
    UnknownTransactionId,
    DuplicateTransactionId,
    AlreadyDisputed,
    NotDisputed,
    Locked,
}

/// What a record contributes to the held balance: its amount if it is
/// disputed, nothing otherwise.
pub open spec fn held_part(r: DepositRecord) -> int {
    if r.disputed {
        r.amount.0 as int
    } else {
        0
    }
}

/// The held balance: the sum of the amounts of all disputed deposits.
pub open spec fn held_of(s: Seq<DepositRecord>) -> int
    decreases s.len(),
{
    if s.len() == 0 {
        0
    } else {
        held_of(s.drop_last()) + held_part(s.last())
    }
}

/// Whether some record carries the given transaction id.
pub open spec fn has_tx(s: Seq<DepositRecord>, tx: TransactionId) -> bool {
    exists|i: int| 0 <= i < s.len() && s[i].tx == tx
}

/// The position of the record carrying the given transaction id; meaningful
/// only when `has_tx` holds and the ids are distinct.
pub open spec fn tx_index(s: Seq<DepositRecord>, tx: TransactionId) -> int {
    choose|i: int| 0 <= i < s.len() && s[i].tx == tx
}

/// No two records share a transaction id.
pub open spec fn distinct_txs(s: Seq<DepositRecord>) -> bool {
    forall|i: int, j: int| 0 <= i < j < s.len() ==> s[i].tx != s[j].tx
}

/// The account invariant: the total is exactly the available balance plus
/// the held balance, and deposit records are keyed by distinct ids.
pub open spec fn account_inv(m: AccountModel) -> bool {
    &&& m.available + held_of(m.deposits) == m.total
    &&& distinct_txs(m.deposits)
}

/// The state of a freshly created account.
pub open spec fn empty_account() -> AccountModel {
    AccountModel { available: 0, total: 0, locked: false, deposits: Seq::empty() }
}

/// What a deposit does: it fails on a locked account, on a total that would
/// overflow, or on a reused transaction id; otherwise it grows the available
/// and total balances and records the deposit, undisputed.
pub open spec fn deposit_model(m: AccountModel, tx: TransactionId, amount: Amount) -> (AccountModel, Result<
    (),
    ClientError,
>) {
    if m.locked {
        (m, Err(ClientError::Locked))
    } else if m.total + amount.0 > u64::MAX {
        (m, Err(ClientError::Overflow))
    } else if has_tx(m.deposits, tx) {
        (m, Err(ClientError::DuplicateTransactionId))
    } else {
        (
            AccountModel {
                available: (m.available + amount.0) as u64,
                total: (m.total + amount.0) as u64,
                locked: m.locked,
                deposits: m.deposits.push(
                    DepositRecord { tx, amount, disputed: false },
                ),
            },
            Ok(()),
        )
    }
}

/// What a withdrawal does: it fails on a locked account or when the amount
/// exceeds the available balance; otherwise it shrinks the available and
/// total balances. Withdrawals are not recorded and can never be disputed.
pub open spec fn withdraw_model(m: AccountModel, amount: Amount) -> (AccountModel, Result<
    (),
    ClientError,
>) {
    if m.locked {
        (m, Err(ClientError::Locked))
    } else if amount.0 > m.available {
        (m, Err(ClientError::InsufficientFunds))
    } else {
        (
            AccountModel {
                available: (m.available - amount.0) as u64,
                total: (m.total - amount.0) as u64,
                locked: m.locked,
                deposits: m.deposits,
            },
            Ok(()),
        )
    }
}

/// What a dispute does: it fails on a locked account, on an unknown id, on a
/// deposit already disputed, or when the deposit's amount no longer fits in
/// the available balance; otherwise it moves the amount from available to
/// held by marking the record, leaving the total unchanged.
pub open spec fn dispute_model(m: AccountModel, tx: TransactionId) -> (AccountModel, Result<
    (),
    ClientError,
>) {
    if m.locked {
        (m, Err(ClientError::Locked))
    } else if !has_tx(m.deposits, tx) {
        (m, Err(ClientError::UnknownTransactionId))
    } else {
        let i = tx_index(m.deposits, tx);
        let r = m.deposits[i];
        if r.disputed {
            (m, Err(ClientError::AlreadyDisputed))
        } else if r.amount.0 > m.available {
            (m, Err(ClientError::InsufficientFunds))
        } else {
            (
                AccountModel {
                    available: (m.available - r.amount.0) as u64,
                    total: m.total,
                    locked: m.locked,
                    deposits: m.deposits.update(
                        i,
                        DepositRecord { tx: r.tx, amount: r.amount, disputed: true },
                    ),
                },
                Ok(()),
            )
        }
    }
}

/// What a resolve does: it fails on a locked account, on an unknown id, or
/// on a deposit not under dispute; otherwise it releases the held amount
/// back to available by unmarking the record, leaving the total unchanged.
pub open spec fn resolve_model(m: AccountModel, tx: TransactionId) -> (AccountModel, Result<
    (),
    ClientError,
>) {
    if m.locked {
        (m, Err(ClientError::Locked))
    } else if !has_tx(m.deposits, tx) {
        (m, Err(ClientError::UnknownTransactionId))
    } else {
        let i = tx_index(m.deposits, tx);
        let r = m.deposits[i];
        if !r.disputed {
            (m, Err(ClientError::NotDisputed))
        } else {
            (
                AccountModel {
                    available: (m.available + r.amount.0) as u64,
                    total: m.total,
                    locked: m.locked,
                    deposits: m.deposits.update(
                        i,
                        DepositRecord { tx: r.tx, amount: r.amount, disputed: false },
                    ),
                },
                Ok(()),
            )
        }
    }
}

/// What a chargeback does: it fails on a locked account, on an unknown id,
/// or on a deposit not under dispute; otherwise it removes the deposit's
/// amount from the total, forgets the record, and locks the account for
/// good. The available balance is untouched.
pub open spec fn chargeback_model(m: AccountModel, tx: TransactionId) -> (AccountModel, Result<
    (),
    ClientError,
>) {
    if m.locked {
        (m, Err(ClientError::Locked))
    } else if !has_tx(m.deposits, tx) {
        (m, Err(ClientError::UnknownTransactionId))
    } else {
        let i = tx_index(m.deposits, tx);
        let r = m.deposits[i];
        if !r.disputed {
            (m, Err(ClientError::NotDisputed))
        } else {
            (
                AccountModel {
                    available: m.available,
                    total: (m.total - r.amount.0) as u64,
                    locked: true,
                    deposits: m.deposits.remove(i),
                },
                Ok(()),
            )
        }
    }
}

/// The account state machine in one function: what each transaction kind
/// does to an account, and with which outcome.
pub open spec fn apply(m: AccountModel, data: TransactionData) -> (AccountModel, Result<
    (),
    ClientError,
>) {
    match data {
        TransactionData::Deposit { transaction_id, amount } => deposit_model(
            m,
            transaction_id,
            amount,
        ),
        TransactionData::Withdrawal { transaction_id: _, amount } => withdraw_model(m, amount),
        TransactionData::Dispute { transaction_id } => dispute_model(m, transaction_id),
        TransactionData::Resolve { transaction_id } => resolve_model(m, transaction_id),
        TransactionData::Chargeback { transaction_id } => chargeback_model(m, transaction_id),
    }
}

proof fn lemma_held_nonneg(s: Seq<DepositRecord>)
    ensures
        held_of(s) >= 0,
    decreases s.len(),
{
    if s.len() > 0 {
        lemma_held_nonneg(s.drop_last());
    }
}

proof fn lemma_held_push(s: Seq<DepositRecord>, r: DepositRecord)
    ensures
        held_of(s.push(r)) == held_of(s) + held_part(r),
{
    assert(s.push(r).drop_last() =~= s);
    assert(s.push(r).last() == r);
}

proof fn lemma_held_update(s: Seq<DepositRecord>, i: int, r: DepositRecord)
    requires
        0 <= i < s.len(),
    ensures
        held_of(s.update(i, r)) == held_of(s) - held_part(s[i]) + held_part(r),
    decreases s.len(),
{
    if i == s.len() - 1 {
        assert(s.update(i, r).drop_last() =~= s.drop_last());
        assert(s.update(i, r).last() == r);
    } else {
        assert(s.update(i, r).drop_last() =~= s.drop_last().update(i, r));
        assert(s.update(i, r).last() == s.last());
        lemma_held_update(s.drop_last(), i, r);
    }
}

proof fn lemma_held_remove(s: Seq<DepositRecord>, i: int)
    requires
        0 <= i < s.len(),
    ensures
        held_of(s.remove(i)) == held_of(s) - held_part(s[i]),
    decreases s.len(),
{
    if i == s.len() - 1 {
        assert(s.remove(i) =~= s.drop_last());
    } else {
        assert(s.remove(i).drop_last() =~= s.drop_last().remove(i));
        assert(s.remove(i).last() == s.last());
        lemma_held_remove(s.drop_last(), i);
    }
}

proof fn lemma_disputed_le_held(s: Seq<DepositRecord>, i: int)
    requires
        0 <= i < s.len(),
        s[i].disputed,
    ensures
        s[i].amount.0 <= held_of(s),
    decreases s.len(),
{
    lemma_held_nonneg(s.drop_last());
    if i < s.len() - 1 {
        lemma_disputed_le_held(s.drop_last(), i);
    }
}

proof fn lemma_tx_index_agrees(s: Seq<DepositRecord>, tx: TransactionId, i: int)
    requires
        distinct_txs(s),
        0 <= i < s.len(),
        s[i].tx == tx,
    ensures
        has_tx(s, tx),
        tx_index(s, tx) == i,
{
    assert(has_tx(s, tx));
    let j = tx_index(s, tx);
    assert(0 <= j < s.len() && s[j].tx == tx);
}

proof fn lemma_distinct_update_same_tx(s: Seq<DepositRecord>, i: int, r: DepositRecord)
    requires
        distinct_txs(s),
        0 <= i < s.len(),
        r.tx == s[i].tx,
    ensures
        distinct_txs(s.update(i, r)),
{
}

proof fn lemma_distinct_push_fresh(s: Seq<DepositRecord>, r: DepositRecord)
    requires
        distinct_txs(s),
        !has_tx(s, r.tx),
    ensures
        distinct_txs(s.push(r)),
{
    let t = s.push(r);
    assert forall|i: int, j: int| 0 <= i < j < t.len() implies t[i].tx != t[j].tx by {
        if j < s.len() {
            assert(s[i].tx != s[j].tx);
        } else {
            assert(t[i] == s[i]);
            assert(!(s[i].tx == r.tx));
        }
    }
}

/// Every transition preserves the account invariant: after any operation,
/// successful or not, the total still equals available plus held, over
/// records with distinct transaction ids.
pub proof fn lemma_apply_preserves_inv(m: AccountModel, data: TransactionData)
    requires
        account_inv(m),
    ensures
        account_inv(apply(m, data).0),
{
    lemma_held_nonneg(m.deposits);
    match data {
        TransactionData::Deposit { transaction_id, amount } => {
            if !m.locked && m.total + amount.0 <= u64::MAX && !has_tx(m.deposits, transaction_id) {
                let record = DepositRecord { tx: transaction_id, amount, disputed: false };
                lemma_held_push(m.deposits, record);
                lemma_distinct_push_fresh(m.deposits, record);
            }
        },
        TransactionData::Withdrawal { transaction_id: _, amount: _ } => {},
        TransactionData::Dispute { transaction_id } => {
            if !m.locked && has_tx(m.deposits, transaction_id) {
                let i = tx_index(m.deposits, transaction_id);
                assert(0 <= i < m.deposits.len() && m.deposits[i].tx == transaction_id);
                let r = m.deposits[i];
                if !r.disputed && r.amount.0 <= m.available {
                    let marked = DepositRecord { tx: r.tx, amount: r.amount, disputed: true };
                    lemma_held_update(m.deposits, i, marked);
                    lemma_distinct_update_same_tx(m.deposits, i, marked);
                }
            }
        },
        TransactionData::Resolve { transaction_id } => {
            if !m.locked && has_tx(m.deposits, transaction_id) {
                let i = tx_index(m.deposits, transaction_id);
                assert(0 <= i < m.deposits.len() && m.deposits[i].tx == transaction_id);
                let r = m.deposits[i];
                if r.disputed {
                    lemma_disputed_le_held(m.deposits, i);
                    let unmarked = DepositRecord { tx: r.tx, amount: r.amount, disputed: false };
                    lemma_held_update(m.deposits, i, unmarked);
                    lemma_distinct_update_same_tx(m.deposits, i, unmarked);
                }
            }
        },
        TransactionData::Chargeback { transaction_id } => {
            if !m.locked && has_tx(m.deposits, transaction_id) {
                let i = tx_index(m.deposits, transaction_id);
                assert(0 <= i < m.deposits.len() && m.deposits[i].tx == transaction_id);
                if m.deposits[i].disputed {
                    lemma_disputed_le_held(m.deposits, i);
                    lemma_held_remove(m.deposits, i);
                    lemma_distinct_remove(m.deposits, i);
                }
            }
        },
    }
}

/// An operation that fails leaves the account exactly as it was.
pub proof fn lemma_failure_changes_nothing(m: AccountModel, data: TransactionData)
    ensures
        apply(m, data).1 is Err ==> apply(m, data).0 == m,
{
    match data {
        TransactionData::Deposit { transaction_id: _, amount: _ } => {},
        TransactionData::Withdrawal { transaction_id: _, amount: _ } => {},
        TransactionData::Dispute { transaction_id: _ } => {},
        TransactionData::Resolve { transaction_id: _ } => {},
        TransactionData::Chargeback { transaction_id: _ } => {},
    }
}

/// The lock is absorbing: once an account is locked, every operation is
/// refused with `Locked` and changes nothing.
pub proof fn lemma_locked_is_absorbing(m: AccountModel, data: TransactionData)
    requires
        m.locked,
    ensures
        apply(m, data).0 == m,
        apply(m, data).1 == Err::<(), ClientError>(ClientError::Locked),
{
}

/// One client's account: its balances, its lock flag, and the deposits that
/// may still be disputed. The invariant `total == available + held` holds of
/// every value of this type.
#[derive(Debug)]
pub struct Client {
    deposits: Vec<DepositRecord>,
    available: Amount,
    total: Amount,
    locked: bool,
}

impl View for Client {
    type V = AccountModel;

    closed spec fn view(&self) -> AccountModel {
        AccountModel {
            available: self.available.0,
            total: self.total.0,
            locked: self.locked,
            deposits: self.deposits@,
        }
    }
}

impl Client {
    #[verifier::type_invariant]
    spec fn wf(self) -> bool {
        account_inv(self@)
    }

    /// Take the whole account out, leaving a fresh empty one behind.
    fn extract(&mut self) -> (c: Client)
        ensures
            c == *old(self),
    {
        let mut c = Client {
            deposits: Vec::new(),
            available: Amount(0),
            total: Amount(0),
            locked: false,
        };
        core::mem::swap(self, &mut c);
        c
    }

    /// The position of the record with the given transaction id, if any.
    fn find_record(&self, transaction_id: TransactionId) -> (r: Option<usize>)
        ensures
            match r {
                Some(i) => 0 <= i < self@.deposits.len() && self@.deposits[i as int].tx
                    == transaction_id,
                None => !has_tx(self@.deposits, transaction_id),
            },
    {
        let n = self.deposits.len();
        let mut i: usize = 0;
        while i < n
            invariant
                n == self@.deposits.len(),
                i <= n,
                forall|j: int| 0 <= j < i ==> self@.deposits[j].tx != transaction_id,
            decreases n - i,
        {
            if self.deposits[i].tx == transaction_id {
                return Some(i);
            }
            i = i + 1;
        }
        None
    }

    /// Record a deposit: on success the available and total balances grow by
    /// `amount` and a new undisputed record is stored under `transaction_id`.
    pub fn deposit(&mut self, transaction_id: TransactionId, amount: Amount) -> (r: Result<
        (),
        ClientError,
    >)
        ensures
            ({
                let (post, outcome) = deposit_model(old(self)@, transaction_id, amount);
                final(self)@ == post && r == outcome
            }),
            account_inv(final(self)@),
            r is Err ==> *final(self) == *old(self),
    {
        proof {
            use_type_invariant(&*self);
        }
        if self.locked {
            return Err(ClientError::Locked);
        }
        let total = match self.total.checked_add(amount) {
            Some(t) => t,
            None => {
                return Err(ClientError::Overflow);
            },
        };
        if self.find_record(transaction_id).is_some() {
            return Err(ClientError::DuplicateTransactionId);
        }
        proof {
            lemma_held_nonneg(self@.deposits);
        }
        let available = self.available.checked_add(amount).unwrap();
        let record = DepositRecord { tx: transaction_id, amount, disputed: false };
        proof {
            lemma_held_push(self@.deposits, record);
            lemma_distinct_push_fresh(self@.deposits, record);
        }
        let this = self.extract();
        let Client { deposits: mut deposits, available: _, total: _, locked } = this;
        deposits.push(record);
        *self = Client { deposits, available, total, locked };
        Ok(())
    }

    /// Withdraw funds: on success the available and total balances shrink by
    /// `amount`. Withdrawals are not tracked and can never be disputed.
    pub fn withdraw(&mut self, amount: Amount) -> (r: Result<(), ClientError>)
        ensures
            ({
                let (post, outcome) = withdraw_model(old(self)@, amount);
                final(self)@ == post && r == outcome
            }),
            account_inv(final(self)@),
            r is Err ==> *final(self) == *old(self),
    {
        proof {
            use_type_invariant(&*self);
        }
        if self.locked {
            return Err(ClientError::Locked);
        }
        let available = match self.available.checked_sub(amount) {
            Some(a) => a,
            None => {
                return Err(ClientError::InsufficientFunds);
            },
        };
        proof {
            lemma_held_nonneg(self@.deposits);
        }
        let total = self.total.checked_sub(amount).unwrap();
        let this = self.extract();
        let Client { deposits, available: _, total: _, locked } = this;
        *self = Client { deposits, available, total, locked };
        Ok(())
    }

    /// Dispute a deposit: on success its amount moves from available to held
    /// and the record is marked disputed; the total is unchanged.
    pub fn dispute(&mut self, transaction_id: TransactionId) -> (r: Result<(), ClientError>)
        ensures
            ({
                let (post, outcome) = dispute_model(old(self)@, transaction_id);
                final(self)@ == post && r == outcome
            }),
            account_inv(final(self)@),
            r is Err ==> *final(self) == *old(self),
    {
        proof {
            use_type_invariant(&*self);
        }
        if self.locked {
            return Err(ClientError::Locked);
        }
        let i = match self.find_record(transaction_id) {
            Some(i) => i,
            None => {
                return Err(ClientError::UnknownTransactionId);
            },
        };
        proof {
            lemma_tx_index_agrees(self@.deposits, transaction_id, i as int);
        }
        let record = self.deposits[i];
        if record.disputed {
            return Err(ClientError::AlreadyDisputed);
        }
        let available = match self.available.checked_sub(record.amount) {
            Some(a) => a,
            None => {
                return Err(ClientError::InsufficientFunds);
            },
        };
        let marked = DepositRecord { tx: record.tx, amount: record.amount, disputed: true };
        let ghost pre = self@.deposits;
        proof {
            lemma_held_update(pre, i as int, marked);
            lemma_distinct_update_same_tx(pre, i as int, marked);
        }
        let this = self.extract();
        let Client { deposits: mut deposits, available: _, total, locked } = this;
        deposits.remove(i);
        deposits.insert(i, marked);
        proof {
            assert(deposits@ =~= pre.update(i as int, marked));
        }
        *self = Client { deposits, available, total, locked };
        Ok(())
    }

    /// Resolve a dispute: on success the held amount returns to available
    /// and the record is unmarked; the total is unchanged.
    pub fn resolve(&mut self, transaction_id: TransactionId) -> (r: Result<(), ClientError>)
        ensures
            ({
                let (post, outcome) = resolve_model(old(self)@, transaction_id);
                final(self)@ == post && r == outcome
            }),
            account_inv(final(self)@),
            r is Err ==> *final(self) == *old(self),
    {
        proof {
            use_type_invariant(&*self);
        }
        if self.locked {
            return Err(ClientError::Locked);
        }
        let i = match self.find_record(transaction_id) {
            Some(i) => i,
            None => {
                return Err(ClientError::UnknownTransactionId);
            },
        };
        proof {
            lemma_tx_index_agrees(self@.deposits, transaction_id, i as int);
        }
        let record = self.deposits[i];
        if !record.disputed {
            return Err(ClientError::NotDisputed);
        }
        proof {
            lemma_disputed_le_held(self@.deposits, i as int);
        }
        let available = self.available.checked_add(record.amount).unwrap();
        let unmarked = DepositRecord { tx: record.tx, amount: record.amount, disputed: false };
        let ghost pre = self@.deposits;
        proof {
            lemma_held_update(pre, i as int, unmarked);
            lemma_distinct_update_same_tx(pre, i as int, unmarked);
        }
        let this = self.extract();
        let Client { deposits: mut deposits, available: _, total, locked } = this;
        deposits.remove(i);
        deposits.insert(i, unmarked);
        proof {
            assert(deposits@ =~= pre.update(i as int, unmarked));
        }
        *self = Client { deposits, available, total, locked };
        Ok(())
    }

    /// Charge a disputed deposit back: on success its amount leaves the
    /// total, the record is forgotten, and the account is locked for good.
    /// The available balance is untouched.
    pub fn chargeback(&mut self, transaction_id: TransactionId) -> (r: Result<(), ClientError>)
        ensures
            ({
                let (post, outcome) = chargeback_model(old(self)@, transaction_id);
                final(self)@ == post && r == outcome
            }),
            account_inv(final(self)@),
            r is Err ==> *final(self) == *old(self),
    {
        proof {
            use_type_invariant(&*self);
        }
        if self.locked {
            return Err(ClientError::Locked);
        }
        let i = match self.find_record(transaction_id) {
            Some(i) => i,
            None => {
                return Err(ClientError::UnknownTransactionId);
            },
        };
        proof {
            lemma_tx_index_agrees(self@.deposits, transaction_id, i as int);
        }
        let record = self.deposits[i];
        if !record.disputed {
            return Err(ClientError::NotDisputed);
        }
        proof {
            lemma_disputed_le_held(self@.deposits, i as int);
            lemma_held_nonneg(self@.deposits);
        }
        let total = self.total.checked_sub(record.amount).unwrap();
        let ghost pre = self@.deposits;
        proof {
            lemma_held_remove(pre, i as int);
            lemma_distinct_remove(pre, i as int);
        }
        let this = self.extract();
        let Client { deposits: mut deposits, available, total: _, locked: _ } = this;
        deposits.remove(i);
        *self = Client { deposits, available, total, locked: true };
        Ok(())
    }

    /// The funds the client may currently withdraw or spend.
    pub fn available(&self) -> (a: Amount)
        ensures
            a.0 == self@.available,
    {
        self.available
    }

    /// The funds frozen pending dispute resolution: total minus available,
    /// which is exactly the sum of the disputed deposits.
    pub fn held(&self) -> (h: Amount)
        ensures
            h.0 == self@.total - self@.available,
            h.0 == held_of(self@.deposits),
    {
        proof {
            use_type_invariant(&*self);
            lemma_held_nonneg(self@.deposits);
        }
        self.total.checked_sub(self.available).unwrap()
    }

    /// The client's full balance: available plus held.
    pub fn total(&self) -> (t: Amount)
        ensures
            t.0 == self@.total,
    {
        self.total
    }

    /// Whether a chargeback has permanently locked the account.
    pub fn locked(&self) -> (l: bool)
        ensures
            l == self@.locked,
    {
        self.locked
    }

    /// The deposit records the account currently knows, oldest first.
    pub fn deposit_records(&self) -> (r: Vec<DepositRecord>)
        ensures
            r@ == self@.deposits,
    {
        let n = self.deposits.len();
        let mut r: Vec<DepositRecord> = Vec::new();
        let mut i: usize = 0;
        while i < n
            invariant
                n == self@.deposits.len(),
                i <= n,
                r@ =~= self@.deposits.take(i as int),
            decreases n - i,
        {
            r.push(self.deposits[i]);
            i = i + 1;
        }
        proof {
            assert(r@ =~= self@.deposits);
        }
        r
    }
}

impl Default for Client {
    /// A fresh account: no funds, no deposits, unlocked.
    fn default() -> (r: Self)
        ensures
            r@ == empty_account(),
    {
        Client { deposits: Vec::new(), available: Amount(0), total: Amount(0), locked: false }
    }
}

proof fn lemma_distinct_remove(s: Seq<DepositRecord>, i: int)
    requires
        distinct_txs(s),
        0 <= i < s.len(),
    ensures
        distinct_txs(s.remove(i)),
{
    let t = s.remove(i);
    assert forall|p: int, q: int| 0 <= p < q < t.len() implies t[p].tx != t[q].tx by {
        let p0 = if p < i {
            p
        } else {
            p + 1
        };
        let q0 = if q < i {
            q
        } else {
            q + 1
        };
        assert(t[p] == s[p0]);
        assert(t[q] == s[q0]);
        assert(s[p0].tx != s[q0].tx);
    }
}

} // verus!
