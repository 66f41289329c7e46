//! Input records: the transaction kind and the one-line record shape.

use vstd::prelude::*;

verus! {

/// The kind of one input record. The five operational kinds are closed;
/// any other tag parses to `Unknown`, which every account treats as a
/// silent no-op.
#[derive(Clone, Copy, Debug, PartialEq, Eq, Structural)]
pub enum TxKind {
    Deposit,
    Withdrawal,
    Dispute,
    Resolve,
    Chargeback,
    Unknown,
}

/// One line of input: a kind, the addressed client, the transaction id,
/// and — for deposits and withdrawals only — a fixed-point amount in
/// units of 1/10000.
#[derive(Clone, Copy, Debug)]
pub struct Record {
    pub kind: TxKind,
    pub client: u16,
    pub tx: u32,
    pub amount: Option<i64>,
}

/// The kind named by a tag, exactly as the five operational spellings
/// read; every other tag is `Unknown`.
pub open spec fn kind_of_tag(s: Seq<char>) -> TxKind {
    if s == "deposit"@ {
        TxKind::Deposit
    } else if s == "withdrawal"@ {
        TxKind::Withdrawal
    } else if s == "dispute"@ {
        TxKind::Dispute
    } else if s == "resolve"@ {
        TxKind::Resolve
    } else if s == "chargeback"@ {
        TxKind::Chargeback
    } else {
        TxKind::Unknown
    }
}

/// Reads a record's kind tag. Tags are matched exactly, with no case
/// normalisation; an unrecognised tag yields `TxKind::Unknown`.
pub fn parse_kind(s: &str) -> (k: TxKind)
    ensures
        k == kind_of_tag(s@),
{
    let owned = s.to_owned();
    if owned == "deposit".to_owned() {
        TxKind::Deposit
    } else if owned == "withdrawal".to_owned() {
        TxKind::Withdrawal
    } else if owned == "dispute".to_owned() {
        TxKind::Dispute
    } else if owned == "resolve".to_owned() {
        TxKind::Resolve
    } else if owned == "chargeback".to_owned() {
        TxKind::Chargeback
    } else {
        TxKind::Unknown
    }
}

} // verus!
