//! Identifiers, amounts and the transaction record itself.

use crate::numeral::{fixed_of, fixed_text, format_fixed, lemma_read_inverts_write, parse_fixed};
use vstd::prelude::*;

verus! {

/// Identifies the account a transaction belongs to.
pub type ClientId = u16;

/// Identifies a transaction; unique over the whole input stream.
pub type TransactionId = u32;

/// The five kinds of transaction.
#[derive(Debug, Clone, Copy, PartialEq, Eq, Structural)]
pub enum TransactionType {
    Deposit,
    Withdrawal,
    Dispute,
    Resolve,
    Chargeback,
}

/// A monetary quantity carried by one transaction, counted in
/// ten-thousandths of a unit.
#[derive(Debug, Clone, Copy, PartialEq, Eq, Structural)]
pub struct Amount(pub i64);

/// A running balance: a sum of amounts, counted in ten-thousandths of a
/// unit. It is wide enough for every balance an account can reach.
#[derive(Debug, Clone, Copy, PartialEq, Eq, Structural)]
pub struct Balance(pub i128);

/// One transaction of the input stream.
///
/// `amount` is read only for deposits and withdrawals.
#[derive(Debug, Clone, Copy, PartialEq, Eq, Structural)]
pub struct Transaction {
    pub kind: TransactionType,
    pub client: ClientId,
    pub tx: TransactionId,
    pub amount: Amount,
}

impl Balance {
    /// The balance that equals a single amount.
    pub fn from_amount(amount: Amount) -> (balance: Balance)
        ensures
            balance.0 == amount.0,
    {
        Balance(amount.0 as i128)
    }

    /// Adds an amount in place.
    pub fn add_assign(&mut self, rhs: Amount)
        requires
            i128::MIN <= old(self).0 + rhs.0 <= i128::MAX,
        ensures
            final(self).0 == old(self).0 + rhs.0,
    {
        self.0 = self.0 + rhs.0 as i128;
    }

    /// Subtracts an amount in place.
    pub fn sub_assign(&mut self, rhs: Amount)
        requires
            i128::MIN <= old(self).0 - rhs.0 <= i128::MAX,
        ensures
            final(self).0 == old(self).0 - rhs.0,
    {
        self.0 = self.0 - rhs.0 as i128;
    }

    /// Writes the balance as a decimal numeral, with one to four decimal
    /// places.
    pub fn to_text(&self) -> (text: String)
        ensures
            text@ == fixed_text(self.0 as int),
    {
        format_fixed(self.0)
    }
}

impl Amount {
    /// The amount that a decimal numeral denotes, cut off after the fourth
    /// decimal place; none where `text` is no numeral or the amount does
    /// not fit.
    pub open spec fn of_text(text: Seq<char>) -> Option<Amount> {
        match fixed_of(text) {
            Some(value) => Some(Amount(value as i64)),
            None => None,
        }
    }

    /// The numeral written for the amount, with one to four decimal places.
    pub open spec fn text(self) -> Seq<char> {
        fixed_text(self.0 as int)
    }

    /// Reads an amount from a decimal numeral, truncating it toward zero to
    /// four decimal places.
    pub fn parse(text: &str) -> (amount: Option<Amount>)
        ensures
            amount == Amount::of_text(text@),
    {
        match parse_fixed(text) {
            Some(value) => Some(Amount(value)),
            None => None,
        }
    }

    /// Writes the amount as a decimal numeral.
    pub fn to_text(&self) -> (text: String)
        ensures
            text@ == self.text(),
    {
        format_fixed(self.0 as i128)
    }

    /// Reading what was written for an amount gives the amount back.
    pub proof fn lemma_parse_inverts_text(self)
        ensures
            Amount::of_text(self.text()) == Some(self),
    {
        lemma_read_inverts_write(self.0 as int);
    }

    /// An amount read from a numeral is written as a numeral that reads as
    /// the same amount.
    pub proof fn lemma_text_keeps_amount_read(text: Seq<char>)
        requires
            Amount::of_text(text) is Some,
        ensures
            Amount::of_text(Amount::of_text(text)->0.text()) == Amount::of_text(text),
    {
        Amount::of_text(text)->0.lemma_parse_inverts_text();
    }
}

impl TransactionType {
    /// Deposits and withdrawals move funds and are kept in an account's
    /// history; the other three kinds refer to such a stored transaction.
    pub open spec fn moves_funds(self) -> bool {
        self == TransactionType::Deposit || self == TransactionType::Withdrawal
    }

    /// The kind that a tag names. The tags are the lower-case names of the
    /// kinds.
    pub open spec fn of_tag(tag: Seq<char>) -> Option<TransactionType> {
        if tag == "deposit"@ {
            Some(TransactionType::Deposit)
        } else if tag == "withdrawal"@ {
            Some(TransactionType::Withdrawal)
        } else if tag == "dispute"@ {
            Some(TransactionType::Dispute)
        } else if tag == "resolve"@ {
            Some(TransactionType::Resolve)
        } else if tag == "chargeback"@ {
            Some(TransactionType::Chargeback)
        } else {
            None
        }
    }

    /// The tag that names the kind.
    pub open spec fn tag(self) -> Seq<char> {
        match self {
            TransactionType::Deposit => "deposit"@,
            TransactionType::Withdrawal => "withdrawal"@,
            TransactionType::Dispute => "dispute"@,
            TransactionType::Resolve => "resolve"@,
            TransactionType::Chargeback => "chargeback"@,
        }
    }

    /// Each kind is named by its own tag and by no other.
    pub proof fn lemma_tag_names_kind(self)
        ensures
            TransactionType::of_tag(self.tag()) == Some(self),
    {
        reveal_strlit("deposit");
        reveal_strlit("withdrawal");
        reveal_strlit("dispute");
        reveal_strlit("resolve");
        reveal_strlit("chargeback");
        assert("deposit"@[1] != "dispute"@[1]);
        assert("deposit"@[0] != "resolve"@[0]);
        assert("dispute"@[0] != "resolve"@[0]);
        assert("withdrawal"@[0] != "chargeback"@[0]);
    }

    /// Reads the kind of a transaction from its tag.
    pub fn from_tag(tag: &str) -> (kind: Option<TransactionType>)
        ensures
            kind == TransactionType::of_tag(tag@),
    {
        if same_text(tag, "deposit") {
            Some(TransactionType::Deposit)
        } else if same_text(tag, "withdrawal") {
            Some(TransactionType::Withdrawal)
        } else if same_text(tag, "dispute") {
            Some(TransactionType::Dispute)
        } else if same_text(tag, "resolve") {
            Some(TransactionType::Resolve)
        } else if same_text(tag, "chargeback") {
            Some(TransactionType::Chargeback)
        } else {
            None
        }
    }
}

/// Whether two strings hold the same characters.
fn same_text(a: &str, b: &str) -> (same: bool)
    ensures
        same == (a@ == b@),
{
    let left: String = a.to_owned();
    let right: String = b.to_owned();
    left == right
}

} // verus!
