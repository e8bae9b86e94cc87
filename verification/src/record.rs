//! Reading a transaction from one record of the input.
//!
//! A record has the fields type, client, tx and amount, in this order. A
//! dispute, resolve or chargeback may come without the amount.

use crate::numeral::{fixed_text, lemma_read_inverts_write, parse_unsigned, unsigned_of};
use crate::transaction::{Amount, ClientId, Transaction, TransactionId, TransactionType};
use vstd::prelude::*;

verus! {

/// A record of the `csv` crate: a row of text fields.
#[verifier::external_type_specification]
#[verifier::external_body]
pub struct ExStringRecord(csv::StringRecord);

/// The fields that a record holds, in their order.
pub uninterp spec fn record_fields(record: csv::StringRecord) -> Seq<Seq<char>>;

/// `csv::StringRecord::len`: the number of fields in the record.
pub assume_specification[ csv::StringRecord::len ](record: &csv::StringRecord) -> (count: usize)
    ensures
        count == record_fields(*record).len(),
;

/// `csv::StringRecord::get`: the field at index `i`, or `None` where the
/// record has no such field.
pub assume_specification<'a>[ csv::StringRecord::get ](
    record: &'a csv::StringRecord,
    i: usize,
) -> (field: Option<&'a str>)
    ensures
        field is Some <==> i < record_fields(*record).len(),
        field is Some ==> field->0@ == record_fields(*record)[i as int],
;

/// `csv::StringRecord::push_field`: adds `field` to the record as its last
/// field and leaves the others as they are.
pub assume_specification[ csv::StringRecord::push_field ](
    record: &mut csv::StringRecord,
    field: &str,
)
    ensures
        record_fields(*final(record)) == record_fields(*old(record)).push(field@),
;

/// Why a record is no transaction.
#[derive(Debug, Clone, Copy, PartialEq, Eq, Structural)]
pub enum RecordError {
    /// The record has fewer fields than a transaction of its type needs.
    MissingField,
    /// The type is none of the five tags.
    UnknownType,
    /// The client is no decimal integer of 16 bits.
    InvalidClient,
    /// The transaction identifier is no decimal integer of 32 bits.
    InvalidTransaction,
    /// The amount is no decimal numeral, or too large.
    InvalidAmount,
}

/// The amount that stands in for one that a record leaves out.
pub open spec fn placeholder() -> Seq<char> {
    "0.0"@
}

/// Whether a record whose type has this tag may leave the amount out.
pub open spec fn amount_may_be_absent(tag: Seq<char>) -> bool {
    tag == "dispute"@ || tag == "resolve"@ || tag == "chargeback"@
}

/// The fields of a record with the amount filled in where it was validly
/// left out: a record of exactly three fields whose type refers to an earlier
/// transaction gets the placeholder as its fourth.
pub open spec fn completed(fields: Seq<Seq<char>>) -> Seq<Seq<char>> {
    if fields.len() == 3 && amount_may_be_absent(fields[0]) {
        fields.push(placeholder())
    } else {
        fields
    }
}

/// The transaction that four fields spell, or the first of them that is
/// malformed.
pub open spec fn transaction_spelled(
    tag: Seq<char>,
    client: Seq<char>,
    tx: Seq<char>,
    amount: Seq<char>,
) -> Result<Transaction, RecordError> {
    if TransactionType::of_tag(tag) is None {
        Err(RecordError::UnknownType)
    } else if unsigned_of(client, ClientId::MAX as nat) is None {
        Err(RecordError::InvalidClient)
    } else if unsigned_of(tx, TransactionId::MAX as nat) is None {
        Err(RecordError::InvalidTransaction)
    } else if Amount::of_text(amount) is None {
        Err(RecordError::InvalidAmount)
    } else {
        Ok(
            Transaction {
                kind: TransactionType::of_tag(tag)->0,
                client: unsigned_of(client, ClientId::MAX as nat)->0 as ClientId,
                tx: unsigned_of(tx, TransactionId::MAX as nat)->0 as TransactionId,
                amount: Amount::of_text(amount)->0,
            },
        )
    }
}

/// The transaction that the fields of a complete record spell. Fields after
/// the fourth are ignored.
pub open spec fn transaction_of(fields: Seq<Seq<char>>) -> Result<Transaction, RecordError> {
    if fields.len() < 4 {
        Err(RecordError::MissingField)
    } else {
        transaction_spelled(fields[0], fields[1], fields[2], fields[3])
    }
}

/// The placeholder reads as the amount zero.
pub proof fn lemma_placeholder_is_zero()
    ensures
        Amount::of_text(placeholder()) == Some(Amount(0)),
{
    reveal_strlit("0.0");
    lemma_read_inverts_write(0);
    assert(fixed_text(0) =~= "0.0"@);
}

/// A dispute, resolve or chargeback without amount reads as one with the
/// placeholder for its amount.
pub proof fn lemma_absent_amount_is_placeholder(tag: Seq<char>, client: Seq<char>, tx: Seq<char>)
    requires
        amount_may_be_absent(tag),
    ensures
        transaction_of(completed(seq![tag, client, tx])) == transaction_spelled(
            tag,
            client,
            tx,
            placeholder(),
        ),
{
}

/// Reads a transaction from the text of its four fields.
pub fn spell_transaction(tag: &str, client: &str, tx: &str, amount: &str) -> (result: Result<
    Transaction,
    RecordError,
>)
    ensures
        result == transaction_spelled(tag@, client@, tx@, amount@),
{
    let kind = match TransactionType::from_tag(tag) {
        Some(kind) => kind,
        None => {
            return Err(RecordError::UnknownType);
        },
    };
    let client: ClientId = match parse_unsigned(client, 0xffff) {
        Some(client) => client as ClientId,
        None => {
            return Err(RecordError::InvalidClient);
        },
    };
    let tx: TransactionId = match parse_unsigned(tx, 0xffff_ffff) {
        Some(tx) => tx as TransactionId,
        None => {
            return Err(RecordError::InvalidTransaction);
        },
    };
    let amount = match Amount::parse(amount) {
        Some(amount) => amount,
        None => {
            return Err(RecordError::InvalidAmount);
        },
    };
    Ok(Transaction { kind, client, tx, amount })
}

/// Whether a record whose type has this tag may leave the amount out.
pub fn may_omit_amount(tag: &str) -> (may: bool)
    ensures
        may == amount_may_be_absent(tag@),
{
    proof {
        TransactionType::Dispute.lemma_tag_names_kind();
        TransactionType::Resolve.lemma_tag_names_kind();
        TransactionType::Chargeback.lemma_tag_names_kind();
    }
    match TransactionType::from_tag(tag) {
        Some(TransactionType::Dispute) | Some(TransactionType::Resolve) | Some(
            TransactionType::Chargeback,
        ) => true,
        _ => false,
    }
}

/// Fills in the amount where the record validly leaves it out.
pub fn complete_record(record: &mut csv::StringRecord)
    ensures
        record_fields(*final(record)) == completed(record_fields(*old(record))),
{
    if record.len() == 3 {
        let omitted = match record.get(0) {
            Some(tag) => may_omit_amount(tag),
            None => false,
        };
        if omitted {
            record.push_field("0.0");
        }
    }
}

/// Convert a record to a transaction.
///
/// In case the transaction is one of `dispute`, `resolve`, `chargeback`,
/// the `amount` field can be missing in the input, as it is not meaningful
/// there; a placeholder is then put in its place.
pub fn deserialize_record(record: csv::StringRecord) -> (result: Result<Transaction, RecordError>)
    ensures
        result == transaction_of(completed(record_fields(record))),
{
    let mut record = record;
    complete_record(&mut record);
    match (record.get(0), record.get(1), record.get(2), record.get(3)) {
        (Some(tag), Some(client), Some(tx), Some(amount)) => spell_transaction(
            tag,
            client,
            tx,
            amount,
        ),
        _ => Err(RecordError::MissingField),
    }
}

} // verus!
