//! The ledger service: every account, by client.

use crate::account::{Account, AccountState, AccountSummary, TransactionResult};
use crate::transaction::{ClientId, Transaction};
use std::collections::HashMap;
use vstd::prelude::*;

verus! {

broadcast use vstd::std_specs::hash::group_hash_axioms;

/// A container for all user accounts.
///
/// It hands each transaction to the account of its client and creates that
/// account where it does not exist yet.
#[derive(Debug)]
pub struct Service {
    accounts: HashMap<ClientId, Account>,
}

impl View for Service {
    type V = Map<ClientId, AccountState>;

    closed spec fn view(&self) -> Map<ClientId, AccountState> {
        Map::new(
            |client: ClientId| self.accounts@.contains_key(client),
            |client: ClientId| self.accounts@[client]@,
        )
    }
}

/// The account that `client` has in `accounts`: the stored one, or a fresh
/// one where the client was never seen.
pub open spec fn account_of(accounts: Map<ClientId, AccountState>, client: ClientId) -> AccountState {
    if accounts.contains_key(client) {
        accounts[client]
    } else {
        AccountState::fresh(client)
    }
}

/// The accounts after `tx` was handed to the account of its client.
pub open spec fn dispatched(accounts: Map<ClientId, AccountState>, tx: Transaction) -> Map<
    ClientId,
    AccountState,
> {
    accounts.insert(tx.client, account_of(accounts, tx.client).after(tx))
}

/// Every account satisfies its invariant and is stored under its own client.
pub open spec fn accounts_sound(accounts: Map<ClientId, AccountState>) -> bool {
    forall|client: ClientId| #[trigger]
        accounts.contains_key(client) ==> accounts[client].inv() && accounts[client].id == client
}

/// After a transaction its client has an account, whether the transaction
/// was accepted or not, and the account of every other client is as it was.
pub proof fn lemma_dispatch_is_local(accounts: Map<ClientId, AccountState>, tx: Transaction)
    ensures
        dispatched(accounts, tx).contains_key(tx.client),
        forall|other: ClientId|
            other != tx.client ==> (#[trigger] dispatched(accounts, tx).contains_key(other)
                <==> accounts.contains_key(other)),
        forall|other: ClientId|
            other != tx.client && accounts.contains_key(other) ==> #[trigger] dispatched(
                accounts,
                tx,
            )[other] == accounts[other],
{
}

/// Sound accounts stay sound, whatever transaction is handed to them.
pub proof fn lemma_dispatch_keeps_sound(accounts: Map<ClientId, AccountState>, tx: Transaction)
    requires
        accounts_sound(accounts),
    ensures
        accounts_sound(dispatched(accounts, tx)),
{
    account_of(accounts, tx.client).lemma_after_keeps_inv(tx);
    assert forall|client: ClientId| #[trigger]
        dispatched(accounts, tx).contains_key(client) implies dispatched(accounts, tx)[client].inv()
        && dispatched(accounts, tx)[client].id == client by {
        if client != tx.client {
            assert(accounts.contains_key(client));
        }
    }
}

impl Service {
    /// Well-formedness: every account is well-formed and stored under its
    /// own client.
    pub closed spec fn wf(&self) -> bool {
        forall|client: ClientId| #[trigger]
            self.accounts@.contains_key(client) ==> self.accounts@[client].wf()
                && self.accounts@[client]@.id == client
    }

    /// The accounts of a well-formed service are sound.
    pub proof fn lemma_wf_sound(&self)
        requires
            self.wf(),
        ensures
            accounts_sound(self@),
    {
        assert forall|client: ClientId| #[trigger] self@.contains_key(client) implies self@[client].inv()
            && self@[client].id == client by {
            assert(self.accounts@.contains_key(client));
            self.accounts@[client].lemma_wf_inv();
        }
    }

    /// Create a new service, without accounts.
    pub fn new() -> (service: Service)
        ensures
            service.wf(),
            service@ == Map::<ClientId, AccountState>::empty(),
    {
        let service = Service { accounts: HashMap::new() };
        assert(service@ =~= Map::<ClientId, AccountState>::empty());
        service
    }

    /// Dispatch a transaction to the account of its client, and create that
    /// account first if it doesn't exist yet. The account exists afterwards
    /// whether the transaction was accepted or not.
    pub fn apply(&mut self, tx: Transaction) -> (result: TransactionResult<()>)
        requires
            old(self).wf(),
        ensures
            final(self).wf(),
            result == account_of(old(self)@, tx.client).outcome(tx),
            final(self)@ == dispatched(old(self)@, tx),
    {
        let account = self.accounts.entry(tx.client).or_insert(Account::new(tx.client));
        proof {
            account.lemma_wf_inv();
            account@.lemma_after_keeps_inv(tx);
        }
        let result = account.apply(tx);
        assert(self@ =~= dispatched(old(self)@, tx));
        result
    }

    /// What is reported of the account of `client`, if the client was seen.
    pub fn account(&self, client: ClientId) -> (summary: Option<AccountSummary>)
        ensures
            summary is Some <==> self@.contains_key(client),
            summary is Some ==> self@[client].summarized(summary->0),
    {
        match self.accounts.get(&client) {
            Some(account) => Some(account.summary()),
            None => None,
        }
    }

    /// The state of every account that was ever referenced, one row each,
    /// in ascending order of the client.
    pub fn snapshot(&self) -> (rows: Vec<AccountSummary>)
        requires
            self.wf(),
        ensures
            forall|i: int|
                0 <= i < rows@.len() ==> self@.contains_key(#[trigger] rows@[i].client)
                    && self@[rows@[i].client].summarized(rows@[i]),
            forall|i: int, j: int|
                0 <= i < j < rows@.len() ==> (#[trigger] rows@[i]).client < (
                #[trigger] rows@[j]).client,
            forall|client: ClientId| #[trigger]
                self@.contains_key(client) ==> exists|i: int|
                    0 <= i < rows@.len() && (#[trigger] rows@[i]).client == client,
    {
        let mut rows: Vec<AccountSummary> = Vec::new();
        let mut next: u32 = 0;
        while next <= 0xffff
            invariant
                self.wf(),
                next <= 0x1_0000,
                forall|i: int|
                    0 <= i < rows@.len() ==> self@.contains_key(#[trigger] rows@[i].client)
                        && self@[rows@[i].client].summarized(rows@[i]) && rows@[i].client < next,
                forall|i: int, j: int|
                    0 <= i < j < rows@.len() ==> (#[trigger] rows@[i]).client < (
                    #[trigger] rows@[j]).client,
                forall|client: ClientId| #[trigger]
                    self@.contains_key(client) && client < next ==> exists|i: int|
                        0 <= i < rows@.len() && (#[trigger] rows@[i]).client == client,
            decreases 0x1_0000 - next,
        {
            let client: ClientId = next as ClientId;
            let ghost before = rows@;
            match self.accounts.get(&client) {
                Some(account) => {
                    assert(self.accounts@.contains_key(client) && self.accounts@[client] == *account);
                    rows.push(account.summary());
                    assert(rows@[before.len() as int].client == client);
                    assert forall|seen: ClientId| #[trigger]
                        self@.contains_key(seen) && seen < next + 1 implies exists|i: int|
                        0 <= i < rows@.len() && (#[trigger] rows@[i]).client == seen by {
                        if seen < next {
                            let i = choose|i: int|
                                0 <= i < before.len() && (#[trigger] before[i]).client == seen;
                            assert(rows@[i].client == seen);
                        }
                    }
                },
                None => {},
            }
            next = next + 1;
        }
        rows
    }
}

} // verus!
