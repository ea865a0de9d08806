//! The YPBank record, its two enumerations, and the traits that every
//! format implements.
/// Binary format support for `YPBank` records.
pub mod binary;
/// CSV format support for `YPBank` records.
pub mod csv;
/// Text format support for `YPBank` records.
pub mod txt;
/// What the text reader makes of documents.
pub mod txt_roundtrip;

use crate::chars::{chars_equal, string_from_chars};
use crate::decimal::decimal_chars;
use crate::errors::{ErrorKind, ParseError};
use vstd::prelude::*;

verus! {

/// Represents the type of a transaction.
#[derive(Debug, Clone, Copy, PartialEq, Eq, Structural)]
pub enum TransactionType {
    /// Money deposited into an account.
    Deposit,
    /// Money transferred between accounts.
    Transfer,
    /// Money withdrawn from an account.
    Withdrawal,
}

/// Represents the status of a transaction.
#[derive(Debug, Clone, Copy, PartialEq, Eq, Structural)]
pub enum TransactionStatus {
    /// Transaction completed successfully.
    Success,
    /// Transaction failed.
    Failure,
    /// Transaction is pending processing.
    Pending,
}

/// Represents a `YPBank` transaction record.
#[derive(Debug, Clone, PartialEq, Eq)]
pub struct YPBankRecord {
    /// Unique transaction identifier.
    pub tx_id: u64,
    /// Type of transaction (deposit, transfer, withdrawal).
    pub tx_type: TransactionType,
    /// ID of the user initiating the transaction.
    pub from_user_id: u64,
    /// ID of the user receiving the transaction.
    pub to_user_id: u64,
    /// Transaction amount in minimal currency units (e.g., cents).
    pub amount: u64,
    /// Unix timestamp of when the transaction occurred.
    pub timestamp: u64,
    /// Current status of the transaction.
    pub status: TransactionStatus,
    /// Human-readable description of the transaction.
    pub description: String,
}

/// A record as a mathematical value: its description is a sequence of
/// characters.
#[verifier::ext_equal]
pub struct RecordView {
    pub tx_id: u64,
    pub tx_type: TransactionType,
    pub from_user_id: u64,
    pub to_user_id: u64,
    pub amount: u64,
    pub timestamp: u64,
    pub status: TransactionStatus,
    pub description: Seq<char>,
}

impl View for YPBankRecord {
    type V = RecordView;

    open spec fn view(&self) -> RecordView {
        RecordView {
            tx_id: self.tx_id,
            tx_type: self.tx_type,
            from_user_id: self.from_user_id,
            to_user_id: self.to_user_id,
            amount: self.amount,
            timestamp: self.timestamp,
            status: self.status,
            description: self.description@,
        }
    }
}

impl DeepView for YPBankRecord {
    type V = RecordView;

    open spec fn deep_view(&self) -> RecordView {
        self@
    }
}

/// What a parse result stands for: the records, or the kind of error.
pub open spec fn records_result(r: Result<Vec<YPBankRecord>, ParseError>) -> Result<
    Seq<RecordView>,
    ErrorKind,
> {
    match r {
        Ok(v) => Ok(v.deep_view()),
        Err(e) => Err(e.kind()),
    }
}

/// The field names, in the order of the record's fields.
pub open spec fn field_names() -> Seq<Seq<char>> {
    seq![
        seq!['T', 'X', '_', 'I', 'D'],
        seq!['T', 'X', '_', 'T', 'Y', 'P', 'E'],
        seq!['F', 'R', 'O', 'M', '_', 'U', 'S', 'E', 'R', '_', 'I', 'D'],
        seq!['T', 'O', '_', 'U', 'S', 'E', 'R', '_', 'I', 'D'],
        seq!['A', 'M', 'O', 'U', 'N', 'T'],
        seq!['T', 'I', 'M', 'E', 'S', 'T', 'A', 'M', 'P'],
        seq!['S', 'T', 'A', 'T', 'U', 'S'],
        seq!['D', 'E', 'S', 'C', 'R', 'I', 'P', 'T', 'I', 'O', 'N'],
    ]
}

/// The characters of field name number `i` (in record order).
pub fn field_name(i: usize) -> (r: Vec<char>)
    requires
        i < 8,
    ensures
        r@ == field_names()[i as int],
{
    let r = if i == 0 {
        vec!['T', 'X', '_', 'I', 'D']
    } else if i == 1 {
        vec!['T', 'X', '_', 'T', 'Y', 'P', 'E']
    } else if i == 2 {
        vec!['F', 'R', 'O', 'M', '_', 'U', 'S', 'E', 'R', '_', 'I', 'D']
    } else if i == 3 {
        vec!['T', 'O', '_', 'U', 'S', 'E', 'R', '_', 'I', 'D']
    } else if i == 4 {
        vec!['A', 'M', 'O', 'U', 'N', 'T']
    } else if i == 5 {
        vec!['T', 'I', 'M', 'E', 'S', 'T', 'A', 'M', 'P']
    } else if i == 6 {
        vec!['S', 'T', 'A', 'T', 'U', 'S']
    } else {
        vec!['D', 'E', 'S', 'C', 'R', 'I', 'P', 'T', 'I', 'O', 'N']
    };
    assert(r@ =~= field_names()[i as int]);
    r
}

impl TransactionType {
    /// The name of the type, as the formats write it.
    pub open spec fn name(self) -> Seq<char> {
        match self {
            TransactionType::Deposit => seq!['D', 'E', 'P', 'O', 'S', 'I', 'T'],
            TransactionType::Transfer => seq!['T', 'R', 'A', 'N', 'S', 'F', 'E', 'R'],
            TransactionType::Withdrawal => seq!['W', 'I', 'T', 'H', 'D', 'R', 'A', 'W', 'A', 'L'],
        }
    }

    /// The type whose name is exactly `s`, if there is one.
    pub open spec fn from_name(s: Seq<char>) -> Option<TransactionType> {
        if s == TransactionType::Deposit.name() {
            Some(TransactionType::Deposit)
        } else if s == TransactionType::Transfer.name() {
            Some(TransactionType::Transfer)
        } else if s == TransactionType::Withdrawal.name() {
            Some(TransactionType::Withdrawal)
        } else {
            None
        }
    }

    /// The byte that the binary format stores for the type.
    pub open spec fn code(self) -> u8 {
        match self {
            TransactionType::Deposit => 0,
            TransactionType::Transfer => 1,
            TransactionType::Withdrawal => 2,
        }
    }

    /// The type that the binary format stores as `b`, if any.
    pub open spec fn from_code(b: u8) -> Option<TransactionType> {
        if b == 0 {
            Some(TransactionType::Deposit)
        } else if b == 1 {
            Some(TransactionType::Transfer)
        } else if b == 2 {
            Some(TransactionType::Withdrawal)
        } else {
            None
        }
    }

    /// The characters of the type's name.
    pub fn name_chars(&self) -> (r: Vec<char>)
        ensures
            r@ == self.name(),
    {
        let r = match self {
            TransactionType::Deposit => vec!['D', 'E', 'P', 'O', 'S', 'I', 'T'],
            TransactionType::Transfer => vec!['T', 'R', 'A', 'N', 'S', 'F', 'E', 'R'],
            TransactionType::Withdrawal => vec!['W', 'I', 'T', 'H', 'D', 'R', 'A', 'W', 'A', 'L'],
        };
        assert(r@ =~= self.name());
        r
    }

    /// The type's name, as the formats write it (`"DEPOSIT"`, ...).
    pub fn to_string(&self) -> (s: String)
        ensures
            s@ == self.name(),
    {
        string_from_chars(&self.name_chars())
    }

    /// The type whose name is exactly `s` (case matters).
    pub fn from_chars(s: &[char]) -> (r: Option<TransactionType>)
        ensures
            r == TransactionType::from_name(s@),
    {
        if chars_equal(s, &TransactionType::Deposit.name_chars()) {
            Some(TransactionType::Deposit)
        } else if chars_equal(s, &TransactionType::Transfer.name_chars()) {
            Some(TransactionType::Transfer)
        } else if chars_equal(s, &TransactionType::Withdrawal.name_chars()) {
            Some(TransactionType::Withdrawal)
        } else {
            None
        }
    }

    /// Parses a type from its name: `"DEPOSIT"`, `"TRANSFER"` or
    /// `"WITHDRAWAL"`; any other string gives `None`.
    pub fn from_str(s: &str) -> (r: Option<TransactionType>)
        ensures
            r == TransactionType::from_name(s@),
    {
        TransactionType::from_chars(&crate::chars::chars_of(s))
    }

    /// The byte that the binary format stores for the type.
    pub fn as_u8(&self) -> (b: u8)
        ensures
            b == self.code(),
    {
        match self {
            TransactionType::Deposit => 0,
            TransactionType::Transfer => 1,
            TransactionType::Withdrawal => 2,
        }
    }

    /// Decodes the binary format's type byte; bytes other than 0, 1 and 2
    /// are rejected with a `BinaryFormat` error.
    pub fn try_from(value: u8) -> (r: Result<TransactionType, ParseError>)
        ensures
            r matches Ok(t) ==> TransactionType::from_code(value) == Some(t),
            r matches Err(e) ==> TransactionType::from_code(value) is None,
            r matches Err(e) ==> (e matches ParseError::BinaryFormat(m) && m@ == "Invalid TX_TYPE: "@
                + crate::decimal::decimal(value as nat)),
    {
        if value == 0 {
            Ok(TransactionType::Deposit)
        } else if value == 1 {
            Ok(TransactionType::Transfer)
        } else if value == 2 {
            Ok(TransactionType::Withdrawal)
        } else {
            Err(ParseError::BinaryFormat(message_with_number("Invalid TX_TYPE: ", value as u64)))
        }
    }
}

impl TransactionStatus {
    /// The name of the status, as the formats write it.
    pub open spec fn name(self) -> Seq<char> {
        match self {
            TransactionStatus::Success => seq!['S', 'U', 'C', 'C', 'E', 'S', 'S'],
            TransactionStatus::Failure => seq!['F', 'A', 'I', 'L', 'U', 'R', 'E'],
            TransactionStatus::Pending => seq!['P', 'E', 'N', 'D', 'I', 'N', 'G'],
        }
    }

    /// The status whose name is exactly `s`, if there is one.
    pub open spec fn from_name(s: Seq<char>) -> Option<TransactionStatus> {
        if s == TransactionStatus::Success.name() {
            Some(TransactionStatus::Success)
        } else if s == TransactionStatus::Failure.name() {
            Some(TransactionStatus::Failure)
        } else if s == TransactionStatus::Pending.name() {
            Some(TransactionStatus::Pending)
        } else {
            None
        }
    }

    /// The byte that the binary format stores for the status.
    pub open spec fn code(self) -> u8 {
        match self {
            TransactionStatus::Success => 0,
            TransactionStatus::Failure => 1,
            TransactionStatus::Pending => 2,
        }
    }

    /// The status that the binary format stores as `b`, if any.
    pub open spec fn from_code(b: u8) -> Option<TransactionStatus> {
        if b == 0 {
            Some(TransactionStatus::Success)
        } else if b == 1 {
            Some(TransactionStatus::Failure)
        } else if b == 2 {
            Some(TransactionStatus::Pending)
        } else {
            None
        }
    }

    /// The characters of the status's name.
    pub fn name_chars(&self) -> (r: Vec<char>)
        ensures
            r@ == self.name(),
    {
        let r = match self {
            TransactionStatus::Success => vec!['S', 'U', 'C', 'C', 'E', 'S', 'S'],
            TransactionStatus::Failure => vec!['F', 'A', 'I', 'L', 'U', 'R', 'E'],
            TransactionStatus::Pending => vec!['P', 'E', 'N', 'D', 'I', 'N', 'G'],
        };
        assert(r@ =~= self.name());
        r
    }

    /// The status's name, as the formats write it (`"SUCCESS"`, ...).
    pub fn to_string(&self) -> (s: String)
        ensures
            s@ == self.name(),
    {
        string_from_chars(&self.name_chars())
    }

    /// The status whose name is exactly `s` (case matters).
    pub fn from_chars(s: &[char]) -> (r: Option<TransactionStatus>)
        ensures
            r == TransactionStatus::from_name(s@),
    {
        if chars_equal(s, &TransactionStatus::Success.name_chars()) {
            Some(TransactionStatus::Success)
        } else if chars_equal(s, &TransactionStatus::Failure.name_chars()) {
            Some(TransactionStatus::Failure)
        } else if chars_equal(s, &TransactionStatus::Pending.name_chars()) {
            Some(TransactionStatus::Pending)
        } else {
            None
        }
    }

    /// Parses a status from its name: `"SUCCESS"`, `"FAILURE"` or
    /// `"PENDING"`; any other string gives `None`.
    pub fn from_str(s: &str) -> (r: Option<TransactionStatus>)
        ensures
            r == TransactionStatus::from_name(s@),
    {
        TransactionStatus::from_chars(&crate::chars::chars_of(s))
    }

    /// The byte that the binary format stores for the status.
    pub fn as_u8(&self) -> (b: u8)
        ensures
            b == self.code(),
    {
        match self {
            TransactionStatus::Success => 0,
            TransactionStatus::Failure => 1,
            TransactionStatus::Pending => 2,
        }
    }

    /// Decodes the binary format's status byte; bytes other than 0, 1 and 2
    /// are rejected with a `BinaryFormat` error.
    pub fn try_from(value: u8) -> (r: Result<TransactionStatus, ParseError>)
        ensures
            r matches Ok(t) ==> TransactionStatus::from_code(value) == Some(t),
            r matches Err(e) ==> TransactionStatus::from_code(value) is None,
            r matches Err(e) ==> (e matches ParseError::BinaryFormat(m) && m@ == "Invalid STATUS: "@
                + crate::decimal::decimal(value as nat)),
    {
        if value == 0 {
            Ok(TransactionStatus::Success)
        } else if value == 1 {
            Ok(TransactionStatus::Failure)
        } else if value == 2 {
            Ok(TransactionStatus::Pending)
        } else {
            Err(ParseError::BinaryFormat(message_with_number("Invalid STATUS: ", value as u64)))
        }
    }
}

/// The name of a type reads back as that type.
pub proof fn lemma_transaction_type_name_roundtrip(t: TransactionType)
    ensures
        TransactionType::from_name(t.name()) == Some(t),
{
}

/// The byte of a type decodes back to that type.
pub proof fn lemma_transaction_type_code_roundtrip(t: TransactionType)
    ensures
        TransactionType::from_code(t.code()) == Some(t),
{
}

/// The name of a status reads back as that status.
pub proof fn lemma_transaction_status_name_roundtrip(s: TransactionStatus)
    ensures
        TransactionStatus::from_name(s.name()) == Some(s),
{
}

/// The byte of a status decodes back to that status.
pub proof fn lemma_transaction_status_code_roundtrip(s: TransactionStatus)
    ensures
        TransactionStatus::from_code(s.code()) == Some(s),
{
}

/// The binary format's type byte: `DEPOSIT` is 0, `TRANSFER` 1 and
/// `WITHDRAWAL` 2, and these are the only bytes that decode to a type.
pub proof fn lemma_transaction_type_byte_table(b: u8)
    ensures
        TransactionType::Deposit.code() == 0,
        TransactionType::Transfer.code() == 1,
        TransactionType::Withdrawal.code() == 2,
        TransactionType::from_code(b) is Some <==> b <= 2,
        TransactionType::from_code(b) matches Some(t) ==> t.code() == b,
{
}

/// The binary format's status byte: `SUCCESS` is 0, `FAILURE` 1 and
/// `PENDING` 2, and these are the only bytes that decode to a status.
pub proof fn lemma_transaction_status_byte_table(b: u8)
    ensures
        TransactionStatus::Success.code() == 0,
        TransactionStatus::Failure.code() == 1,
        TransactionStatus::Pending.code() == 2,
        TransactionStatus::from_code(b) is Some <==> b <= 2,
        TransactionStatus::from_code(b) matches Some(s) ==> s.code() == b,
{
}

/// `prefix` followed by the decimal digits of `n`.
pub fn message_with_number(prefix: &str, n: u64) -> (s: String)
    ensures
        s@ == prefix@ + crate::decimal::decimal(n as nat),
{
    let mut s = crate::chars::chars_of(prefix);
    let digits = decimal_chars(n);
    let mut i: usize = 0;
    let ghost start = s@;
    while i < digits.len()
        invariant
            0 <= i <= digits@.len(),
            s@ == start + digits@.take(i as int),
        decreases digits@.len() - i,
    {
        s.push(digits[i]);
        i = i + 1;
        assert(s@ =~= start + digits@.take(i as int));
    }
    assert(digits@.take(digits@.len() as int) =~= digits@);
    string_from_chars(&s)
}

/// Parser trait: turns the bytes of a document into items.
pub trait Parser {
    /// The type of item produced by the parser.
    type Item;

    /// The documents on which the parser is defined; on the others it would
    /// not return.
    spec fn accepts(data: Seq<u8>) -> bool;

    /// Parses the bytes of a whole document into a vector of items.
    fn parse(data: &[u8]) -> (res: Result<Vec<Self::Item>, ParseError>)
        requires
            Self::accepts(data@),
    ;
}

/// Serializer trait: turns items into the bytes of a document.
pub trait Serializer {
    /// The type of item to be serialized.
    type Item;

    /// Serializes a slice of items into the bytes of a document.
    fn serialize(data: &[Self::Item]) -> (res: Result<Vec<u8>, ParseError>);
}

/// Marker trait for types that can both parse and serialize data.
pub trait Format: Parser + Serializer {

}

impl<F: Parser + Serializer> Format for F {

}

} // verus!
