//! The account registry: owns every client's account, routes each record to
//! it — creating the account lazily on first sight of the client — and
//! exposes the final snapshot.

use vstd::prelude::*;

use crate::account::{
    apply_record, fresh_account, lemma_balance_invariant, lemma_lock_never_cleared, AccountDetails,
    AccountView, LiveAccount,
};
use crate::alist::{alist_map, keys_unique, lemma_alist_contains, lemma_alist_get, lemma_alist_push,
    lemma_alist_update};
use crate::record::Record;

verus! {

/// The client/account pair sequence read at the account level.
pub open spec fn account_entries(s: Seq<(u16, LiveAccount)>) -> Seq<(u16, AccountView)> {
    s.map_values(|p: (u16, LiveAccount)| (p.0, p.1@))
}

/// The registry transition one record makes: the addressed account — fresh
/// if this client was never seen — advances by `apply_record`; no other
/// account is touched.
pub open spec fn route_record(m: Map<u16, AccountView>, r: Record) -> Map<u16, AccountView> {
    let prior = if m.contains_key(r.client) {
        m[r.client]
    } else {
        fresh_account(r.client)
    };
    m.insert(r.client, apply_record(prior, r))
}

/// The balance identity one account must satisfy at rest.
pub open spec fn balance_ok(a: AccountView) -> bool {
    a.total == a.available + a.held
}

/// All accounts, keyed by client id. An entry is created on the first
/// record naming its client and never removed.
pub struct AccountRegistry {
    pub accounts: Vec<(u16, LiveAccount)>,
}

impl View for AccountRegistry {
    type V = Map<u16, AccountView>;

    open spec fn view(&self) -> Map<u16, AccountView> {
        alist_map(account_entries(self.accounts@))
    }
}

impl AccountRegistry {
    /// Client ids are pairwise distinct, every account's table is well
    /// formed, and each account carries the client id it is filed under.
    pub open spec fn wf(&self) -> bool {
        &&& keys_unique(self.accounts@)
        &&& forall|i: int|
            0 <= i < self.accounts@.len() ==> (#[trigger] self.accounts@[i]).1.wf()
        &&& forall|i: int|
            0 <= i < self.accounts@.len()
                ==> (#[trigger] self.accounts@[i]).1.account_details.client == self.accounts@[i].0
    }

    /// Creates an empty registry.
    pub fn new() -> (r: AccountRegistry)
        ensures
            r@ == Map::<u16, AccountView>::empty(),
            r.wf(),
    {
        let r = AccountRegistry { accounts: Vec::new() };
        proof {
            assert(account_entries(r.accounts@) =~= Seq::<(u16, AccountView)>::empty());
            assert(r@ =~= Map::<u16, AccountView>::empty());
        }
        r
    }

    /// Index of the account filed under a client id, if any.
    fn find_account(&self, client: u16) -> (r: Option<usize>)
        ensures
            match r {
                Option::Some(i) => i < self.accounts@.len() && self.accounts@[i as int].0
                    == client,
                Option::None => forall|j: int|
                    0 <= j < self.accounts@.len() ==> self.accounts@[j].0 != client,
            },
    {
        let mut i: usize = 0;
        while i < self.accounts.len()
            invariant
                i <= self.accounts@.len(),
                forall|j: int| 0 <= j < i ==> self.accounts@[j].0 != client,
            decreases self.accounts@.len() - i,
        {
            if self.accounts[i].0 == client {
                return Option::Some(i);
            }
            i += 1;
        }
        Option::None
    }

    /// Files a fresh zero-balance account under a client id not yet
    /// present, and returns its index.
    fn add_account(&mut self, client: u16) -> (i: usize)
        requires
            old(self).wf(),
            forall|j: int| 0 <= j < old(self).accounts@.len() ==> old(self).accounts@[j].0 != client,
        ensures
            final(self).wf(),
            final(self)@ == old(self)@.insert(client, fresh_account(client)),
            final(self).accounts@.len() == old(self).accounts@.len() + 1,
            i + 1 == final(self).accounts@.len(),
            final(self).accounts@[i as int].0 == client,
            final(self).accounts@[i as int].1@ == fresh_account(client),
    {
        let i = self.accounts.len();
        let fresh = LiveAccount::new(client);
        proof {
            let entries = account_entries(self.accounts@);
            assert(keys_unique(entries));
            assert(forall|j: int| 0 <= j < entries.len() ==> entries[j].0 != client);
            lemma_alist_push(entries, client, fresh@);
            assert(account_entries(self.accounts@.push((client, fresh))) =~= entries.push(
                (client, fresh@)));
        }
        self.accounts.push((client, fresh));
        i
    }

    /// Routes one record: looks the addressed account up — creating it if
    /// the client is new — and lets it apply the record. Never fails; any
    /// invalidity is absorbed by the account's no-op policy.
    pub fn process_record(&mut self, record: Record)
        requires
            old(self).wf(),
        ensures
            final(self).wf(),
            final(self)@ == route_record(old(self)@, record),
    {
        proof {
            lemma_alist_contains(account_entries(self.accounts@), record.client);
        }
        let i = match self.find_account(record.client) {
            Option::Some(i) => i,
            Option::None => self.add_account(record.client),
        };
        proof {
            lemma_alist_get(account_entries(self.accounts@), i as int);
        }
        let ghost pre = self.accounts@;
        let account = &mut self.accounts[i].1;
        account.process_transaction(record);
        proof {
            let entries = account_entries(pre);
            assert(account_entries(self.accounts@) =~= entries.update(
                i as int,
                (record.client, apply_record(entries[i as int].1, record)),
            ));
            lemma_alist_update(
                entries,
                i as int,
                apply_record(entries[i as int].1, record),
            );
        }
    }

    /// The final snapshot: one balances row per account ever created, each
    /// client exactly once, in no promised order.
    pub fn output_records(&self) -> (rows: Vec<AccountDetails>)
        requires
            self.wf(),
        ensures
            rows@.len() == self.accounts@.len(),
            forall|i: int, j: int|
                0 <= i < j < rows@.len() ==> rows@[i].client != rows@[j].client,
            forall|i: int|
                0 <= i < rows@.len() ==> self@.contains_key(#[trigger] rows@[i].client)
                    && details_match(rows@[i], self@[rows@[i].client]),
            forall|k: u16|
                self@.contains_key(k) ==> exists|i: int|
                    0 <= i < rows@.len() && #[trigger] rows@[i].client == k,
    {
        let mut rows: Vec<AccountDetails> = Vec::new();
        let mut i: usize = 0;
        while i < self.accounts.len()
            invariant
                self.wf(),
                i <= self.accounts@.len(),
                rows@.len() == i,
                forall|j: int|
                    0 <= j < i ==> #[trigger] rows@[j] == self.accounts@[j].1.account_details,
            decreases self.accounts@.len() - i,
        {
            rows.push(self.accounts[i].1.account_details);
            i += 1;
        }
        proof {
            let entries = account_entries(self.accounts@);
            assert forall|j: int| 0 <= j < rows@.len() implies self@.contains_key(
                #[trigger] rows@[j].client,
            ) && details_match(rows@[j], self@[rows@[j].client]) by {
                lemma_alist_get(entries, j);
            }
            assert forall|k: u16| self@.contains_key(k) implies exists|j: int|
                0 <= j < rows@.len() && #[trigger] rows@[j].client == k by {
                lemma_alist_contains(entries, k);
                let j = choose|j: int| 0 <= j < entries.len() && entries[j].0 == k;
                assert(rows@[j].client == k);
            }
        }
        rows
    }
}

/// The balances row that describes an account state.
pub open spec fn details_match(d: AccountDetails, a: AccountView) -> bool {
    &&& d.client == a.client
    &&& d.available == a.available
    &&& d.held == a.held
    &&& d.total == a.total
    &&& d.locked == a.locked
}

/// Law: the balance identity `total == available + held` holds of every
/// account after every processed record, provided it held before; a fresh
/// account satisfies it trivially. On fixed-point values the prescribed
/// four-decimal rounding is exact, so this is the rounded identity too.
pub proof fn lemma_registry_balance_invariant(m: Map<u16, AccountView>, r: Record)
    requires
        forall|k: u16| m.contains_key(k) ==> balance_ok(#[trigger] m[k]),
    ensures
        forall|k: u16|
            route_record(m, r).contains_key(k) ==> balance_ok(#[trigger] route_record(m, r)[k]),
{
    let prior = if m.contains_key(r.client) {
        m[r.client]
    } else {
        fresh_account(r.client)
    };
    lemma_balance_invariant(prior, r);
}

/// Law: locks are monotonic across the whole registry — an account locked
/// before a record is still locked after it, whatever the record is.
pub proof fn lemma_registry_lock_monotonic(m: Map<u16, AccountView>, r: Record)
    ensures
        forall|k: u16|
            m.contains_key(k) && m[k].locked ==> route_record(m, r).contains_key(k)
                && route_record(m, r)[k].locked,
{
    let prior = if m.contains_key(r.client) {
        m[r.client]
    } else {
        fresh_account(r.client)
    };
    lemma_lock_never_cleared(prior, r);
}

} // verus!
