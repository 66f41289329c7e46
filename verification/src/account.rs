//! The per-account state machine.
//!
//! `apply_record` is the mathematical transition an account makes on one
//! input record; `LiveAccount::process_transaction` is proved to realise it
//! exactly. Domain-level invalidity — an unknown transaction id, a wrong
//! dispute stage, a locked account, a missing amount, or a balance that
//! would leave the representable range — is absorbed as a silent no-op,
//! never an error.

use crate::alist::{
    alist_map, keys_unique, lemma_alist_contains, lemma_alist_get, lemma_alist_push,
    lemma_alist_update,
};
use crate::amount::in_amount_range;
use crate::record::{Record, TxKind};

verus! {

/// A retained deposit or withdrawal: its fixed-point amount and whether it
/// is currently under dispute.
#[derive(Clone, Copy, Debug, PartialEq, Eq, Structural)]
pub struct StoredTransaction {
    pub amount: i64,
    pub disputed: bool,
}

/// One client's balances: spendable funds, funds held pending disputes,
/// their sum, and the terminal frozen flag.
#[derive(Clone, Copy, Debug, PartialEq, Eq, Structural)]
pub struct AccountDetails {
    pub client: u16,
    pub available: i64,
    pub held: i64,
    pub total: i64,
    pub locked: bool,
}

/// The mathematical state of one account: exact integer balances plus the
/// transaction table read as a map.
#[verifier::ext_equal]
pub struct AccountView {
    pub client: u16,
    pub available: int,
    pub held: int,
    pub total: int,
    pub locked: bool,
    pub txs: Map<u32, StoredTransaction>,
}

/// The state a client's account is created in: all balances zero, not
/// locked, no stored transactions.
pub open spec fn fresh_account(client: u16) -> AccountView {
    AccountView {
        client,
        available: 0,
        held: 0,
        total: 0,
        locked: false,
        txs: Map::empty(),
    }
}

/// A deposit: unless the account is locked or the amount is absent,
/// increase the available funds, store the transaction undisputed, and
/// recompute the total. A duplicate transaction id overwrites the prior
/// stored transaction. A balance that would leave the representable range
/// makes the whole record a no-op.
pub open spec fn apply_deposit(a: AccountView, r: Record) -> AccountView {
    if a.locked {
        a
    } else {
        match r.amount {
            Option::None => a,
            Option::Some(amt) => {
                let available = a.available + amt;
                let total = available + a.held;
                if in_amount_range(available) && in_amount_range(total) {
                    AccountView {
                        available,
                        total,
                        txs: a.txs.insert(r.tx, StoredTransaction { amount: amt, disputed: false }),
                        ..a
                    }
                } else {
                    a
                }
            },
        }
    }
}

/// A withdrawal: as a deposit, but decreasing the available funds. No
/// sufficiency check is made — available funds may go negative.
pub open spec fn apply_withdrawal(a: AccountView, r: Record) -> AccountView {
    if a.locked {
        a
    } else {
        match r.amount {
            Option::None => a,
            Option::Some(amt) => {
                let available = a.available - amt;
                let total = available + a.held;
                if in_amount_range(available) && in_amount_range(total) {
                    AccountView {
                        available,
                        total,
                        txs: a.txs.insert(r.tx, StoredTransaction { amount: amt, disputed: false }),
                        ..a
                    }
                } else {
                    a
                }
            },
        }
    }
}

/// A dispute: unless the account is locked, the transaction is unknown, or
/// it is already under dispute, reclassify its amount from available to
/// held and mark it disputed. No new funds are created.
pub open spec fn apply_dispute(a: AccountView, r: Record) -> AccountView {
    if a.locked || !a.txs.contains_key(r.tx) || a.txs[r.tx].disputed {
        a
    } else {
        let st = a.txs[r.tx];
        let available = a.available - st.amount;
        let held = a.held + st.amount;
        let total = available + held;
        if in_amount_range(available) && in_amount_range(held) && in_amount_range(total) {
            AccountView {
                available,
                held,
                total,
                txs: a.txs.insert(r.tx, StoredTransaction { amount: st.amount, disputed: true }),
                ..a
            }
        } else {
            a
        }
    }
}

/// A resolve: unless the account is locked, the transaction is unknown, or
/// it is not under dispute, move its amount back from held to available
/// and clear the dispute — the exact reverse of the matching dispute.
pub open spec fn apply_resolve(a: AccountView, r: Record) -> AccountView {
    if a.locked || !a.txs.contains_key(r.tx) || !a.txs[r.tx].disputed {
        a
    } else {
        let st = a.txs[r.tx];
        let available = a.available + st.amount;
        let held = a.held - st.amount;
        let total = available + held;
        if in_amount_range(available) && in_amount_range(held) && in_amount_range(total) {
            AccountView {
                available,
                held,
                total,
                txs: a.txs.insert(r.tx, StoredTransaction { amount: st.amount, disputed: false }),
                ..a
            }
        } else {
            a
        }
    }
}

/// A chargeback: unless the transaction is unknown or not under dispute,
/// withdraw its amount from the held funds and lock the account. The
/// policy here is that a chargeback requires a current dispute but is not
/// gated on `locked` — locking is what a chargeback causes, so it cannot
/// be blocked by it. The stored transaction keeps its disputed mark; the
/// account is frozen afterwards in any case.
pub open spec fn apply_chargeback(a: AccountView, r: Record) -> AccountView {
    if !a.txs.contains_key(r.tx) || !a.txs[r.tx].disputed {
        a
    } else {
        let st = a.txs[r.tx];
        let held = a.held - st.amount;
        let total = a.available + held;
        if in_amount_range(held) && in_amount_range(total) {
            AccountView { held, total, locked: true, ..a }
        } else {
            a
        }
    }
}

/// The account transition one record makes: dispatch on the kind; an
/// unrecognised kind changes nothing.
pub open spec fn apply_record(a: AccountView, r: Record) -> AccountView {
    match r.kind {
        TxKind::Deposit => apply_deposit(a, r),
        TxKind::Withdrawal => apply_withdrawal(a, r),
        TxKind::Dispute => apply_dispute(a, r),
        TxKind::Resolve => apply_resolve(a, r),
        TxKind::Chargeback => apply_chargeback(a, r),
        TxKind::Unknown => a,
    }
}

/// One client's live account: the stored transactions, keyed by
/// transaction id, and the current balances.
pub struct LiveAccount {
    pub transaction_record: Vec<(u32, StoredTransaction)>,
    pub account_details: AccountDetails,
}

impl View for LiveAccount {
    type V = AccountView;

    open spec fn view(&self) -> AccountView {
        AccountView {
            client: self.account_details.client,
            available: self.account_details.available as int,
            held: self.account_details.held as int,
            total: self.account_details.total as int,
            locked: self.account_details.locked,
            txs: alist_map(self.transaction_record@),
        }
    }
}

impl LiveAccount {
    /// Transaction table keys are pairwise distinct; construction
    /// establishes this and every operation preserves it.
    pub open spec fn wf(&self) -> bool {
        keys_unique(self.transaction_record@)
    }

    /// Creates the account a client starts with: zero balances, unlocked,
    /// no stored transactions.
    pub fn new(client: u16) -> (a: LiveAccount)
        ensures
            a@ == fresh_account(client),
            a.wf(),
    {
        let a = LiveAccount {
            transaction_record: Vec::new(),
            account_details: AccountDetails {
                client,
                available: 0,
                held: 0,
                total: 0,
                locked: false,
            },
        };
        proof {
            assert(a@ =~= fresh_account(client));
        }
        a
    }

    /// Index of the stored transaction with the given id, if any.
    fn find_tx(&self, tx: u32) -> (r: Option<usize>)
        ensures
            match r {
                Option::Some(i) => i < self.transaction_record@.len()
                    && self.transaction_record@[i as int].0 == tx,
                Option::None => forall|j: int|
                    0 <= j < self.transaction_record@.len()
                        ==> self.transaction_record@[j].0 != tx,
            },
    {
        let mut i: usize = 0;
        while i < self.transaction_record.len()
            invariant
                i <= self.transaction_record@.len(),
                forall|j: int| 0 <= j < i ==> self.transaction_record@[j].0 != tx,
            decreases self.transaction_record@.len() - i,
        {
            if self.transaction_record[i].0 == tx {
                return Option::Some(i);
            }
            i += 1;
        }
        Option::None
    }

    /// Stores a transaction under its id, overwriting any prior entry with
    /// that id.
    fn store_tx(&mut self, tx: u32, st: StoredTransaction)
        requires
            old(self).wf(),
        ensures
            final(self).wf(),
            alist_map(final(self).transaction_record@) == alist_map(old(self).transaction_record@)
                .insert(tx, st),
            final(self).account_details == old(self).account_details,
    {
        match self.find_tx(tx) {
            Option::Some(i) => {
                proof {
                    lemma_alist_update(self.transaction_record@, i as int, st);
                }
                self.transaction_record[i] = (tx, st);
            },
            Option::None => {
                proof {
                    lemma_alist_push(self.transaction_record@, tx, st);
                }
                self.transaction_record.push((tx, st));
            },
        }
    }

    /// Applies one record to this account, realising `apply_record`
    /// exactly; every invalid or unrecognised record is a silent no-op.
    pub fn process_transaction(&mut self, record: Record)
        requires
            old(self).wf(),
        ensures
            final(self)@ == apply_record(old(self)@, record),
            final(self).wf(),
    {
        match record.kind {
            TxKind::Deposit => self.deposit(record),
            TxKind::Withdrawal => self.withdraw(record),
            TxKind::Dispute => self.dispute(record),
            TxKind::Resolve => self.resolve(record),
            TxKind::Chargeback => self.chargeback(record),
            TxKind::Unknown => {},
        }
    }

    fn deposit(&mut self, record: Record)
        requires
            old(self).wf(),
        ensures
            final(self)@ == apply_deposit(old(self)@, record),
            final(self).wf(),
    {
        if self.account_details.locked {
            return;
        }
        let amt = match record.amount {
            Option::Some(a) => a,
            Option::None => {
                return;
            },
        };
        let available = match self.account_details.available.checked_add(amt) {
            Option::Some(v) => v,
            Option::None => {
                return;
            },
        };
        let total = match available.checked_add(self.account_details.held) {
            Option::Some(v) => v,
            Option::None => {
                return;
            },
        };
        self.store_tx(record.tx, StoredTransaction { amount: amt, disputed: false });
        self.account_details.available = available;
        self.account_details.total = total;
    }

    fn withdraw(&mut self, record: Record)
        requires
            old(self).wf(),
        ensures
            final(self)@ == apply_withdrawal(old(self)@, record),
            final(self).wf(),
    {
        if self.account_details.locked {
            return;
        }
        let amt = match record.amount {
            Option::Some(a) => a,
            Option::None => {
                return;
            },
        };
        let available = match self.account_details.available.checked_sub(amt) {
            Option::Some(v) => v,
            Option::None => {
                return;
            },
        };
        let total = match available.checked_add(self.account_details.held) {
            Option::Some(v) => v,
            Option::None => {
                return;
            },
        };
        self.store_tx(record.tx, StoredTransaction { amount: amt, disputed: false });
        self.account_details.available = available;
        self.account_details.total = total;
    }

    fn dispute(&mut self, record: Record)
        requires
            old(self).wf(),
        ensures
            final(self)@ == apply_dispute(old(self)@, record),
            final(self).wf(),
    {
        proof {
            lemma_alist_contains(self.transaction_record@, record.tx);
        }
        if self.account_details.locked {
            return;
        }
        let i = match self.find_tx(record.tx) {
            Option::Some(i) => i,
            Option::None => {
                return;
            },
        };
        proof {
            lemma_alist_get(self.transaction_record@, i as int);
        }
        let st = self.transaction_record[i].1;
        if st.disputed {
            return;
        }
        let available = match self.account_details.available.checked_sub(st.amount) {
            Option::Some(v) => v,
            Option::None => {
                return;
            },
        };
        let held = match self.account_details.held.checked_add(st.amount) {
            Option::Some(v) => v,
            Option::None => {
                return;
            },
        };
        let total = match available.checked_add(held) {
            Option::Some(v) => v,
            Option::None => {
                return;
            },
        };
        proof {
            lemma_alist_update(
                self.transaction_record@,
                i as int,
                StoredTransaction { amount: st.amount, disputed: true },
            );
        }
        self.transaction_record[i] = (
            record.tx,
            StoredTransaction { amount: st.amount, disputed: true },
        );
        self.account_details.available = available;
        self.account_details.held = held;
        self.account_details.total = total;
    }

    fn resolve(&mut self, record: Record)
        requires
            old(self).wf(),
        ensures
            final(self)@ == apply_resolve(old(self)@, record),
            final(self).wf(),
    {
        proof {
            lemma_alist_contains(self.transaction_record@, record.tx);
        }
        if self.account_details.locked {
            return;
        }
        let i = match self.find_tx(record.tx) {
            Option::Some(i) => i,
            Option::None => {
                return;
            },
        };
        proof {
            lemma_alist_get(self.transaction_record@, i as int);
        }
        let st = self.transaction_record[i].1;
        if !st.disputed {
            return;
        }
        let available = match self.account_details.available.checked_add(st.amount) {
            Option::Some(v) => v,
            Option::None => {
                return;
            },
        };
        let held = match self.account_details.held.checked_sub(st.amount) {
            Option::Some(v) => v,
            Option::None => {
                return;
            },
        };
        let total = match available.checked_add(held) {
            Option::Some(v) => v,
            Option::None => {
                return;
            },
        };
        proof {
            lemma_alist_update(
                self.transaction_record@,
                i as int,
                StoredTransaction { amount: st.amount, disputed: false },
            );
        }
        self.transaction_record[i] = (
            record.tx,
            StoredTransaction { amount: st.amount, disputed: false },
        );
        self.account_details.available = available;
        self.account_details.held = held;
        self.account_details.total = total;
    }

    fn chargeback(&mut self, record: Record)
        requires
            old(self).wf(),
        ensures
            final(self)@ == apply_chargeback(old(self)@, record),
            final(self).wf(),
    {
        proof {
            lemma_alist_contains(self.transaction_record@, record.tx);
        }
        let i = match self.find_tx(record.tx) {
            Option::Some(i) => i,
            Option::None => {
                return;
            },
        };
        proof {
            lemma_alist_get(self.transaction_record@, i as int);
        }
        let st = self.transaction_record[i].1;
        if !st.disputed {
            return;
        }
        let held = match self.account_details.held.checked_sub(st.amount) {
            Option::Some(v) => v,
            Option::None => {
                return;
            },
        };
        let total = match self.account_details.available.checked_add(held) {
            Option::Some(v) => v,
            Option::None => {
                return;
            },
        };
        self.account_details.held = held;
        self.account_details.total = total;
        self.account_details.locked = true;
    }
}

/// Law: after any record, the total is exactly the sum of the available
/// and held funds. On fixed-point values the four-decimal rounding the
/// rules prescribe is the identity, so the rounded and exact identities
/// coincide.
pub proof fn lemma_balance_invariant(a: AccountView, r: Record)
    requires
        a.total == a.available + a.held,
    ensures
        apply_record(a, r).total == apply_record(a, r).available + apply_record(a, r).held,
{
}

/// Law: the lock is terminal. Once an account is locked it stays locked,
/// its available funds never change again, and of all record kinds only a
/// chargeback of a transaction already under dispute still takes effect —
/// it moves held funds only; every other record is a no-op.
pub proof fn lemma_lock_monotonic(a: AccountView, r: Record)
    requires
        a.locked,
    ensures
        apply_record(a, r).locked,
        apply_record(a, r).available == a.available,
        !(r.kind == TxKind::Chargeback && a.txs.contains_key(r.tx) && a.txs[r.tx].disputed)
            ==> apply_record(a, r) == a,
{
}

/// Law: no record ever clears the lock.
pub proof fn lemma_lock_never_cleared(a: AccountView, r: Record)
    ensures
        a.locked ==> apply_record(a, r).locked,
{
}

/// Law: a dispute followed by its matching resolve restores the account
/// exactly, whenever the referenced transaction is not already under
/// dispute beforehand.
pub proof fn lemma_dispute_resolve_round_trip(a: AccountView, d: Record, s: Record)
    requires
        d.kind == TxKind::Dispute,
        s.kind == TxKind::Resolve,
        d.tx == s.tx,
        in_amount_range(a.available),
        in_amount_range(a.held),
        a.total == a.available + a.held,
        a.txs.contains_key(d.tx) ==> !a.txs[d.tx].disputed,
    ensures
        apply_record(apply_record(a, d), s) == a,
{
    let mid = apply_record(a, d);
    if !a.locked && a.txs.contains_key(d.tx) && mid != a {
        let st = a.txs[d.tx];
        assert(mid.txs[s.tx] == StoredTransaction { amount: st.amount, disputed: true });
        let back = apply_record(mid, s);
        assert(back.txs =~= a.txs);
        assert(back =~= a);
    } else {
        assert(mid == a);
    }
}

/// Law: a dispute, resolve, or chargeback naming a transaction this
/// account never stored leaves the account unchanged.
pub proof fn lemma_unknown_tx_no_op(a: AccountView, r: Record)
    requires
        r.kind == TxKind::Dispute || r.kind == TxKind::Resolve || r.kind == TxKind::Chargeback,
        !a.txs.contains_key(r.tx),
    ensures
        apply_record(a, r) == a,
{
}

/// Law: a dispute of a transaction already under dispute is a no-op.
pub proof fn lemma_double_dispute_no_op(a: AccountView, r: Record)
    requires
        r.kind == TxKind::Dispute,
        a.txs.contains_key(r.tx),
        a.txs[r.tx].disputed,
    ensures
        apply_record(a, r) == a,
{
}

/// Law: a record of unrecognised kind changes nothing.
pub proof fn lemma_unknown_kind_no_op(a: AccountView, r: Record)
    requires
        r.kind == TxKind::Unknown,
    ensures
        apply_record(a, r) == a,
{
}

} // verus!

use vstd::prelude::*;
