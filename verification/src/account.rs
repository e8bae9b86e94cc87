//! One client's account: its balances, its transaction history and the rules
//! by which a transaction changes them.

use crate::transaction::{Amount, Balance, ClientId, Transaction, TransactionId, TransactionType};
use std::collections::HashMap;
use vstd::prelude::*;

verus! {

broadcast use vstd::std_specs::hash::group_hash_axioms;

/// Why an account rejected a transaction.
#[derive(Debug, Clone, Copy, PartialEq, Eq, Structural)]
pub enum TransactionError {
    /// The available balance does not cover the transaction.
    UnsufficientFunds(Transaction),
    /// The account was locked by a chargeback.
    AccountLocked,
    /// The referenced transaction is already under dispute.
    AlreadyDisputed(TransactionId),
    /// The referenced transaction is not under dispute.
    NotDisputed(TransactionId),
    /// No stored transaction has the referenced identifier.
    NotFound(TransactionId),
    /// A stored transaction already has this identifier.
    AlreadyExist(TransactionId),
}

/// Result type used when operating on an account.
pub type TransactionResult<T> = Result<T, TransactionError>;

/// A stored deposit or withdrawal, with a flag that tells whether a dispute
/// on it is open.
#[derive(Debug, Clone, Copy, PartialEq, Eq, Structural)]
pub struct DisputableTransaction {
    pub transaction: Transaction,
    pub disputed: bool,
}

/// What is reported of an account once the stream has ended.
#[derive(Debug, Clone, Copy, PartialEq, Eq, Structural)]
pub struct AccountSummary {
    pub client: ClientId,
    pub available: Balance,
    pub held: Balance,
    pub total: Balance,
    pub locked: bool,
}

/// The mathematical content of an account.
pub struct AccountState {
    pub id: ClientId,
    pub available: int,
    pub held: int,
    pub total: int,
    pub locked: bool,
    pub history: Map<TransactionId, DisputableTransaction>,
}

impl AccountState {
    /// An account with the given balances and no history.
    pub open spec fn opened(id: ClientId, available: int, held: int, locked: bool) -> AccountState {
        AccountState {
            id,
            available,
            held,
            total: available + held,
            locked,
            history: Map::empty(),
        }
    }

    /// The account a client has before its first transaction.
    pub open spec fn fresh(id: ClientId) -> AccountState {
        AccountState::opened(id, 0, 0, false)
    }

    /// The total is the sum of the available and the held balance.
    pub open spec fn balanced(self) -> bool {
        self.total == self.available + self.held
    }

    /// Every stored transaction is a deposit or a withdrawal and is stored
    /// under its own identifier.
    pub open spec fn history_sound(self) -> bool {
        forall|id: TransactionId| #[trigger]
            self.history.contains_key(id) ==> self.history[id].transaction.tx == id
                && self.history[id].transaction.kind.moves_funds()
    }

    /// What holds of every account, whatever was applied to it.
    pub open spec fn inv(self) -> bool {
        self.balanced() && self.history_sound()
    }

    /// The balances and the lock of the account, without its history.
    pub open spec fn summarized(self, summary: AccountSummary) -> bool {
        &&& summary.client == self.id
        &&& summary.available.0 == self.available
        &&& summary.held.0 == self.held
        &&& summary.total.0 == self.total
        &&& summary.locked == self.locked
    }

    /// The account with `tx` added to its history, not under dispute.
    pub open spec fn saved(self, tx: Transaction) -> AccountState {
        AccountState {
            history: self.history.insert(
                tx.tx,
                DisputableTransaction { transaction: tx, disputed: false },
            ),
            ..self
        }
    }

    /// The account with the dispute flag of the stored transaction `id` set
    /// to `disputed`.
    pub open spec fn flagged(self, id: TransactionId, disputed: bool) -> AccountState {
        AccountState {
            history: self.history.insert(
                id,
                DisputableTransaction { transaction: self.history[id].transaction, disputed },
            ),
            ..self
        }
    }

    /// Whether `tx` is accepted, and if not, why.
    ///
    /// A locked account rejects everything. A deposit or withdrawal needs a
    /// new identifier, a withdrawal also needs the funds. A dispute, resolve
    /// or chargeback needs a stored transaction in the matching dispute
    /// state, and a dispute of a deposit needs the deposited funds to be
    /// still available.
    pub open spec fn outcome(self, tx: Transaction) -> TransactionResult<()> {
        if self.locked {
            Err(TransactionError::AccountLocked)
        } else {
            match tx.kind {
                TransactionType::Deposit => {
                    if self.history.contains_key(tx.tx) {
                        Err(TransactionError::AlreadyExist(tx.tx))
                    } else {
                        Ok(())
                    }
                },
                TransactionType::Withdrawal => {
                    if self.available < tx.amount.0 {
                        Err(TransactionError::UnsufficientFunds(tx))
                    } else if self.history.contains_key(tx.tx) {
                        Err(TransactionError::AlreadyExist(tx.tx))
                    } else {
                        Ok(())
                    }
                },
                _ => {
                    if !self.history.contains_key(tx.tx) {
                        Err(TransactionError::NotFound(tx.tx))
                    } else {
                        let stored = self.history[tx.tx];
                        if tx.kind == TransactionType::Dispute {
                            if stored.disputed {
                                Err(TransactionError::AlreadyDisputed(tx.tx))
                            } else if stored.transaction.kind == TransactionType::Deposit
                                && self.available < stored.transaction.amount.0 {
                                Err(TransactionError::UnsufficientFunds(tx))
                            } else {
                                Ok(())
                            }
                        } else if !stored.disputed {
                            Err(TransactionError::NotDisputed(tx.tx))
                        } else {
                            Ok(())
                        }
                    }
                },
            }
        }
    }

    /// The account after `tx` was handed to it: unchanged where `tx` is
    /// rejected, else changed as the kind of `tx` and, for a dispute, resolve
    /// or chargeback, the kind of the stored transaction say.
    pub open spec fn after(self, tx: Transaction) -> AccountState {
        if self.outcome(tx) is Err {
            self
        } else {
            match tx.kind {
                TransactionType::Deposit => AccountState {
                    available: self.available + tx.amount.0,
                    total: self.total + tx.amount.0,
                    ..self.saved(tx)
                },
                TransactionType::Withdrawal => AccountState {
                    available: self.available - tx.amount.0,
                    total: self.total - tx.amount.0,
                    ..self.saved(tx)
                },
                _ => {
                    let stored = self.history[tx.tx].transaction;
                    let amount = stored.amount.0 as int;
                    let of_deposit = stored.kind == TransactionType::Deposit;
                    match tx.kind {
                        TransactionType::Dispute => if of_deposit {
                            AccountState {
                                available: self.available - amount,
                                held: self.held + amount,
                                ..self.flagged(tx.tx, true)
                            }
                        } else {
                            AccountState {
                                total: self.total + amount,
                                held: self.held + amount,
                                ..self.flagged(tx.tx, true)
                            }
                        },
                        TransactionType::Resolve => if of_deposit {
                            AccountState {
                                available: self.available + amount,
                                held: self.held - amount,
                                ..self.flagged(tx.tx, false)
                            }
                        } else {
                            AccountState {
                                total: self.total - amount,
                                held: self.held - amount,
                                ..self.flagged(tx.tx, false)
                            }
                        },
                        _ => if of_deposit {
                            AccountState {
                                total: self.total - amount,
                                held: self.held - amount,
                                locked: true,
                                ..self
                            }
                        } else {
                            AccountState {
                                available: self.available + amount,
                                held: self.held - amount,
                                locked: true,
                                ..self
                            }
                        },
                    }
                },
            }
        }
    }
}

impl AccountState {
    /// The account after each transaction of `txs` was handed to it in turn.
    pub open spec fn after_all(self, txs: Seq<Transaction>) -> AccountState
        decreases txs.len(),
    {
        if txs.len() == 0 {
            self
        } else {
            self.after(txs.first()).after_all(txs.drop_first())
        }
    }

    /// Whatever is handed to an account, accepted or not, its total stays
    /// the sum of its available and its held balance, and its history stays
    /// one of deposits and withdrawals stored under their own identifiers.
    pub proof fn lemma_after_keeps_inv(self, tx: Transaction)
        requires
            self.inv(),
        ensures
            self.after(tx).inv(),
            self.after(tx).total == self.after(tx).available + self.after(tx).held,
            self.after(tx).id == self.id,
    {
        let next = self.after(tx);
        if self.outcome(tx) is Ok {
            assert forall|id: TransactionId| #[trigger] next.history.contains_key(id) implies (
            next.history[id].transaction.tx == id
                && next.history[id].transaction.kind.moves_funds()) by {
                if id != tx.tx {
                    assert(self.history.contains_key(id));
                }
            }
        }
    }

    /// The invariant also survives any sequence of transactions.
    pub proof fn lemma_after_all_keeps_inv(self, txs: Seq<Transaction>)
        requires
            self.inv(),
        ensures
            self.after_all(txs).inv(),
        decreases txs.len(),
    {
        if txs.len() > 0 {
            self.lemma_after_keeps_inv(txs.first());
            self.after(txs.first()).lemma_after_all_keeps_inv(txs.drop_first());
        }
    }

    /// A rejected transaction changes nothing.
    pub proof fn lemma_rejected_changes_nothing(self, tx: Transaction)
        requires
            self.outcome(tx) is Err,
        ensures
            self.after(tx) == self,
    {
    }

    /// A locked account rejects every transaction as `AccountLocked` and
    /// stays as it is.
    pub proof fn lemma_locked_rejects(self, tx: Transaction)
        requires
            self.locked,
        ensures
            self.outcome(tx) == Err::<(), TransactionError>(TransactionError::AccountLocked),
            self.after(tx) == self,
    {
    }

    /// No sequence of transactions changes a locked account.
    pub proof fn lemma_locked_is_final(self, txs: Seq<Transaction>)
        requires
            self.locked,
        ensures
            self.after_all(txs) == self,
        decreases txs.len(),
    {
        if txs.len() > 0 {
            self.lemma_locked_rejects(txs.first());
            self.lemma_locked_is_final(txs.drop_first());
        }
    }

    /// An account is locked after a transaction exactly if it was locked
    /// before or the transaction is an accepted chargeback.
    pub proof fn lemma_locked_by_chargeback(self, tx: Transaction)
        ensures
            self.after(tx).locked <==> self.locked || (tx.kind == TransactionType::Chargeback
                && self.outcome(tx) is Ok),
    {
    }

    /// A dispute of a transaction that the account has just put under
    /// dispute, or that it has just refused to dispute because a dispute is
    /// open, is rejected as `AlreadyDisputed` and changes nothing.
    pub proof fn lemma_repeated_dispute_rejected(self, first: Transaction, second: Transaction)
        requires
            first.kind == TransactionType::Dispute,
            second.kind == TransactionType::Dispute,
            second.tx == first.tx,
            self.outcome(first) is Ok || self.outcome(first) == Err::<(), TransactionError>(
                TransactionError::AlreadyDisputed(first.tx),
            ),
        ensures
            self.after(first).outcome(second) == Err::<(), TransactionError>(
                TransactionError::AlreadyDisputed(first.tx),
            ),
            self.after(first).after(second) == self.after(first),
    {
    }

    /// A resolve that follows an accepted dispute of the same transaction is
    /// accepted and gives back the balances that the account had before the
    /// dispute.
    pub proof fn lemma_resolve_undoes_dispute(self, dispute: Transaction, resolve: Transaction)
        requires
            dispute.kind == TransactionType::Dispute,
            resolve.kind == TransactionType::Resolve,
            resolve.tx == dispute.tx,
            self.outcome(dispute) is Ok,
        ensures
            self.after(dispute).outcome(resolve) is Ok,
            self.after(dispute).after(resolve).available == self.available,
            self.after(dispute).after(resolve).held == self.held,
            self.after(dispute).after(resolve).total == self.total,
            self.after(dispute).after(resolve).history =~= self.history,
    {
    }
}

/// The three sums a history is tallied into.
enum Column {
    Available,
    Held,
    Entries,
}

/// What one stored transaction adds to a column: to the available balance
/// and to the held balance, as far as the transaction accounts for them, and
/// one to the number of entries.
spec fn share(column: Column, entry: DisputableTransaction) -> int {
    let amount = entry.transaction.amount.0 as int;
    match column {
        Column::Available => match entry.transaction.kind {
            TransactionType::Deposit => if entry.disputed {
                0
            } else {
                amount
            },
            _ => -amount,
        },
        Column::Held => if entry.disputed {
            amount
        } else {
            0
        },
        Column::Entries => 1,
    }
}

/// The sum of a column over the stored transactions with an identifier
/// below `n`.
spec fn tally(history: Map<TransactionId, DisputableTransaction>, column: Column, n: nat) -> int
    decreases n,
{
    if n == 0 {
        0
    } else {
        let id = (n - 1) as TransactionId;
        tally(history, column, (n - 1) as nat) + if history.contains_key(id) {
            share(column, history[id])
        } else {
            0
        }
    }
}

/// The number of transaction identifiers.
const ID_SPACE: u64 = 0x1_0000_0000;

/// The largest magnitude of an amount.
const AMOUNT_SPAN: u64 = 0x8000_0000_0000_0000;

/// A bound on the magnitude of the available and of the held balance of an
/// open account.
const BALANCE_SPAN: i128 = 0x10_0000_0000_0000_0000_0000_0000;

proof fn lemma_tally_empty(column: Column, n: nat)
    ensures
        tally(Map::empty(), column, n) == 0,
    decreases n,
{
    if n > 0 {
        lemma_tally_empty(column, (n - 1) as nat);
    }
}

proof fn lemma_tally_bounds(
    history: Map<TransactionId, DisputableTransaction>,
    column: Column,
    n: nat,
)
    requires
        n <= ID_SPACE,
    ensures
        -AMOUNT_SPAN * n <= tally(history, column, n) <= AMOUNT_SPAN * n,
        0 <= tally(history, Column::Entries, n) <= n,
    decreases n,
{
    if n > 0 {
        lemma_tally_bounds(history, column, (n - 1) as nat);
    }
}

proof fn lemma_tally_insert(
    history: Map<TransactionId, DisputableTransaction>,
    column: Column,
    n: nat,
    id: TransactionId,
    entry: DisputableTransaction,
)
    requires
        n <= ID_SPACE,
    ensures
        tally(history.insert(id, entry), column, n) == tally(history, column, n) + if id < n {
            share(column, entry) - if history.contains_key(id) {
                share(column, history[id])
            } else {
                0
            }
        } else {
            0
        },
    decreases n,
{
    if n > 0 {
        lemma_tally_insert(history, column, (n - 1) as nat, id, entry);
    }
}

/// Whether a balance stays within the room that a history of this size
/// leaves: the part of it that the stored transactions do not account for is
/// no larger than one amount for the opening balance and one for each entry.
spec fn within_room(
    balance: int,
    history: Map<TransactionId, DisputableTransaction>,
    column: Column,
) -> bool {
    let room = AMOUNT_SPAN * (1 + tally(history, Column::Entries, ID_SPACE as nat));
    let rest = balance - tally(history, column, ID_SPACE as nat);
    -room <= rest <= room
}

/// Model of a user account.
#[derive(Debug)]
pub struct Account {
    id: ClientId,
    available: Balance,
    held: Balance,
    total: Balance,
    locked: bool,
    tx_history: HashMap<TransactionId, DisputableTransaction>,
}

impl View for Account {
    type V = AccountState;

    closed spec fn view(&self) -> AccountState {
        AccountState {
            id: self.id,
            available: self.available.0 as int,
            held: self.held.0 as int,
            total: self.total.0 as int,
            locked: self.locked,
            history: self.tx_history@,
        }
    }
}

impl Default for Account {
    /// The empty account of client 0.
    fn default() -> (account: Account)
        ensures
            account.wf(),
            account@ == AccountState::fresh(0),
    {
        Account::new(0)
    }
}

impl Account {
    /// Well-formedness: the invariant of the state, and balances that leave
    /// room for every further transaction without overflow. Every
    /// constructor establishes it and every method preserves it.
    pub closed spec fn wf(&self) -> bool {
        &&& self@.inv()
        &&& !self.locked ==> within_room(self.available.0 as int, self.tx_history@, Column::Available)
        &&& !self.locked ==> within_room(self.held.0 as int, self.tx_history@, Column::Held)
    }

    /// A well-formed account satisfies the invariant of its state.
    pub proof fn lemma_wf_inv(&self)
        requires
            self.wf(),
        ensures
            self@.inv(),
    {
    }

    /// Create a new account assigned to `client_id`, with zero balances.
    pub fn new(client_id: ClientId) -> (account: Account)
        ensures
            account.wf(),
            account@ == AccountState::fresh(client_id),
    {
        Account::with_state(client_id, Amount(0), Amount(0), false)
    }

    /// Create an account that opens with the given available and held
    /// balances and an empty history.
    pub fn with_state(client_id: ClientId, available: Amount, held: Amount, locked: bool) -> (account:
        Account)
        ensures
            account.wf(),
            account@ == AccountState::opened(client_id, available.0 as int, held.0 as int, locked),
    {
        let account = Account {
            id: client_id,
            available: Balance::from_amount(available),
            held: Balance::from_amount(held),
            total: Balance(available.0 as i128 + held.0 as i128),
            locked,
            tx_history: HashMap::new(),
        };
        proof {
            lemma_tally_empty(Column::Available, ID_SPACE as nat);
            lemma_tally_empty(Column::Held, ID_SPACE as nat);
            lemma_tally_empty(Column::Entries, ID_SPACE as nat);
        }
        account
    }

    /// Get id assigned to given account.
    pub fn id(&self) -> (id: ClientId)
        ensures
            id == self@.id,
    {
        self.id
    }

    /// The balance the client may withdraw right now.
    pub fn available(&self) -> (balance: Balance)
        ensures
            balance.0 == self@.available,
    {
        self.available
    }

    /// The balance frozen by open disputes.
    pub fn held(&self) -> (balance: Balance)
        ensures
            balance.0 == self@.held,
    {
        self.held
    }

    /// The client's full balance.
    pub fn total(&self) -> (balance: Balance)
        ensures
            balance.0 == self@.total,
    {
        self.total
    }

    /// Whether a chargeback has locked the account.
    pub fn locked(&self) -> (locked: bool)
        ensures
            locked == self@.locked,
    {
        self.locked
    }

    /// The balances and the lock of the account, as they are reported.
    pub fn summary(&self) -> (summary: AccountSummary)
        ensures
            self@.summarized(summary),
    {
        AccountSummary {
            client: self.id,
            available: self.available,
            held: self.held,
            total: self.total,
            locked: self.locked,
        }
    }

    /// The stored transaction with identifier `id`, if there is one.
    pub fn stored(&self, id: TransactionId) -> (entry: Option<DisputableTransaction>)
        ensures
            entry == if self@.history.contains_key(id) {
                Some(self@.history[id])
            } else {
                None
            },
    {
        match self.tx_history.get(&id) {
            Some(entry) => Some(*entry),
            None => None,
        }
    }

    /// Put a transaction into the history, unless its identifier is taken.
    /// The balances stay as they are.
    pub fn save_tx(&mut self, tx: Transaction) -> (result: TransactionResult<()>)
        requires
            old(self).wf(),
            tx.kind.moves_funds(),
        ensures
            final(self).wf(),
            result == if old(self)@.history.contains_key(tx.tx) {
                Err::<(), TransactionError>(TransactionError::AlreadyExist(tx.tx))
            } else {
                Ok::<(), TransactionError>(())
            },
            final(self)@ == if result is Ok {
                old(self)@.saved(tx)
            } else {
                old(self)@
            },
    {
        if self.tx_history.contains_key(&tx.tx) {
            return Err(TransactionError::AlreadyExist(tx.tx));
        }
        let entry = DisputableTransaction { transaction: tx, disputed: false };
        proof {
            let n = ID_SPACE as nat;
            lemma_tally_insert(self.tx_history@, Column::Available, n, tx.tx, entry);
            lemma_tally_insert(self.tx_history@, Column::Held, n, tx.tx, entry);
            lemma_tally_insert(self.tx_history@, Column::Entries, n, tx.tx, entry);
        }
        self.tx_history.insert(tx.tx, entry);
        Ok(())
    }

    /// Try to apply a transaction on the account.
    ///
    /// The transaction is accepted or rejected as `AccountState::outcome`
    /// says, and the account changes as `AccountState::after` says; a
    /// rejected transaction changes nothing.
    pub fn apply(&mut self, tx: Transaction) -> (result: TransactionResult<()>)
        requires
            old(self).wf(),
        ensures
            final(self).wf(),
            result == old(self)@.outcome(tx),
            final(self)@ == old(self)@.after(tx),
            result is Err ==> final(self)@ == old(self)@,
            old(self)@.locked ==> result == Err::<(), TransactionError>(
                TransactionError::AccountLocked,
            ),
            final(self)@.total == final(self)@.available + final(self)@.held,
    {
        if self.locked {
            return Err(TransactionError::AccountLocked);
        }
        proof {
            self.lemma_balances_bounded();
        }
        match tx.kind {
            TransactionType::Deposit => {
                match self.save_tx(tx) {
                    Ok(()) => {
                        self.available.add_assign(tx.amount);
                        self.total.add_assign(tx.amount);
                        proof {
                            lemma_saved_room(*old(self), *self, tx);
                        }
                        Ok(())
                    },
                    Err(e) => Err(e),
                }
            },
            TransactionType::Withdrawal => {
                if self.available.0 >= tx.amount.0 as i128 {
                    match self.save_tx(tx) {
                        Ok(()) => {
                            self.available.sub_assign(tx.amount);
                            self.total.sub_assign(tx.amount);
                            proof {
                                lemma_saved_room(*old(self), *self, tx);
                            }
                            Ok(())
                        },
                        Err(e) => Err(e),
                    }
                } else {
                    Err(TransactionError::UnsufficientFunds(tx))
                }
            },
            _ => self.handle_disputes(tx),
        }
    }

    /// Handle disputing, resolving and charging back deposits and
    /// withdrawals. What a dispute does depends on the side of the ledger
    /// that the stored transaction touched: a disputed deposit is taken out
    /// of the available balance and held; a disputed withdrawal is put back
    /// into the total, held and not available. A resolve undoes the dispute,
    /// a chargeback undoes the stored transaction for good and locks the
    /// account.
    fn handle_disputes(&mut self, current_tx: Transaction) -> (result: TransactionResult<()>)
        requires
            old(self).wf(),
            !old(self)@.locked,
            !current_tx.kind.moves_funds(),
        ensures
            final(self).wf(),
            result == old(self)@.outcome(current_tx),
            final(self)@ == old(self)@.after(current_tx),
    {
        let stored = match self.tx_history.get(&current_tx.tx) {
            Some(entry) => *entry,
            None => {
                return Err(TransactionError::NotFound(current_tx.tx));
            },
        };
        // Do nothing when disputing an already disputed transaction
        // or resolving / charging back a transaction that is not disputed
        match (stored.disputed, current_tx.kind) {
            (true, TransactionType::Dispute) => {
                return Err(TransactionError::AlreadyDisputed(current_tx.tx));
            },
            (false, TransactionType::Resolve) => {
                return Err(TransactionError::NotDisputed(current_tx.tx));
            },
            (false, TransactionType::Chargeback) => {
                return Err(TransactionError::NotDisputed(current_tx.tx));
            },
            _ => (),
        }
        let amount = stored.transaction.amount;
        let of_deposit = match stored.transaction.kind {
            TransactionType::Deposit => true,
            _ => false,
        };
        proof {
            self.lemma_balances_bounded();
        }
        match current_tx.kind {
            TransactionType::Dispute => {
                if of_deposit {
                    // The client may have withdrawn what is to be held
                    if self.available.0 < amount.0 as i128 {
                        return Err(TransactionError::UnsufficientFunds(current_tx));
                    }
                    self.available.sub_assign(amount);
                    self.held.add_assign(amount);
                } else {
                    self.total.add_assign(amount);
                    self.held.add_assign(amount);
                }
                self.set_disputed(stored, true);
                proof {
                    lemma_flagged_room(*old(self), *self, current_tx.tx, true);
                }
            },
            TransactionType::Resolve => {
                if of_deposit {
                    self.available.add_assign(amount);
                    self.held.sub_assign(amount);
                } else {
                    self.total.sub_assign(amount);
                    self.held.sub_assign(amount);
                }
                self.set_disputed(stored, false);
                proof {
                    lemma_flagged_room(*old(self), *self, current_tx.tx, false);
                }
            },
            _ => {
                if of_deposit {
                    self.total.sub_assign(amount);
                    self.held.sub_assign(amount);
                } else {
                    self.available.add_assign(amount);
                    self.held.sub_assign(amount);
                }
                self.locked = true;
            },
        }
        Ok(())
    }

    /// Store `entry` again with its dispute flag set to `disputed`.
    fn set_disputed(&mut self, entry: DisputableTransaction, disputed: bool)
        requires
            old(self).tx_history@.contains_key(entry.transaction.tx),
            old(self).tx_history@[entry.transaction.tx] == entry,
        ensures
            final(self).tx_history@ == old(self).tx_history@.insert(
                entry.transaction.tx,
                DisputableTransaction { transaction: entry.transaction, disputed },
            ),
            final(self).id == old(self).id,
            final(self).available == old(self).available,
            final(self).held == old(self).held,
            final(self).total == old(self).total,
            final(self).locked == old(self).locked,
    {
        self.tx_history.insert(
            entry.transaction.tx,
            DisputableTransaction { transaction: entry.transaction, disputed },
        );
    }

    /// The balances of a well-formed open account are far from the limits
    /// of their type.
    proof fn lemma_balances_bounded(&self)
        requires
            self.wf(),
            !self.locked,
        ensures
            -BALANCE_SPAN <= self.available.0 <= BALANCE_SPAN,
            -BALANCE_SPAN <= self.held.0 <= BALANCE_SPAN,
            -2 * BALANCE_SPAN <= self.total.0 <= 2 * BALANCE_SPAN,
    {
        let n = ID_SPACE as nat;
        lemma_tally_bounds(self.tx_history@, Column::Available, n);
        lemma_tally_bounds(self.tx_history@, Column::Held, n);
        lemma_tally_bounds(self.tx_history@, Column::Entries, n);
        let entries = tally(self.tx_history@, Column::Entries, n);
        assert(AMOUNT_SPAN * (1 + entries) <= AMOUNT_SPAN * (1 + ID_SPACE)) by (nonlinear_arith)
            requires
                0 <= entries <= ID_SPACE,
        ;
        assert(AMOUNT_SPAN * (1 + ID_SPACE) + AMOUNT_SPAN * ID_SPACE <= BALANCE_SPAN);
    }
}

/// After `tx` went into the history of `before` and the balances moved by
/// its amount, the balances of `after` have the room they had.
proof fn lemma_saved_room(before: Account, after: Account, tx: Transaction)
    requires
        before.wf(),
        !before.locked,
        !after.locked,
        tx.kind.moves_funds(),
        !before.tx_history@.contains_key(tx.tx),
        after.tx_history@ == before.tx_history@.insert(
            tx.tx,
            DisputableTransaction { transaction: tx, disputed: false },
        ),
        after.held == before.held,
        after.available.0 == before.available.0 + share(
            Column::Available,
            DisputableTransaction { transaction: tx, disputed: false },
        ),
    ensures
        within_room(after.available.0 as int, after.tx_history@, Column::Available),
        within_room(after.held.0 as int, after.tx_history@, Column::Held),
{
    let n = ID_SPACE as nat;
    let entry = DisputableTransaction { transaction: tx, disputed: false };
    lemma_tally_insert(before.tx_history@, Column::Available, n, tx.tx, entry);
    lemma_tally_insert(before.tx_history@, Column::Held, n, tx.tx, entry);
    lemma_tally_insert(before.tx_history@, Column::Entries, n, tx.tx, entry);
}

/// After the dispute flag of the stored transaction `id` changed and the
/// balances moved with it, the balances of `after` have the room they had.
proof fn lemma_flagged_room(before: Account, after: Account, id: TransactionId, disputed: bool)
    requires
        before.wf(),
        !before.locked,
        !after.locked,
        before.tx_history@.contains_key(id),
        before.tx_history@[id].disputed != disputed,
        after.tx_history@ == before@.flagged(id, disputed).history,
        after.available.0 - before.available.0 == share(
            Column::Available,
            after.tx_history@[id],
        ) - share(Column::Available, before.tx_history@[id]),
        after.held.0 - before.held.0 == share(Column::Held, after.tx_history@[id]) - share(
            Column::Held,
            before.tx_history@[id],
        ),
    ensures
        within_room(after.available.0 as int, after.tx_history@, Column::Available),
        within_room(after.held.0 as int, after.tx_history@, Column::Held),
{
    let n = ID_SPACE as nat;
    let entry = after.tx_history@[id];
    lemma_tally_insert(before.tx_history@, Column::Available, n, id, entry);
    lemma_tally_insert(before.tx_history@, Column::Held, n, id, entry);
    lemma_tally_insert(before.tx_history@, Column::Entries, n, id, entry);
}

} // verus!
