use parser::errors::ErrorKind;
use parser::formats::{TransactionStatus, TransactionType};

#[test]
fn transaction_type_from_str_and_to_string() {
    let tx_type = TransactionType::from_str("TRANSFER").unwrap();
    assert_eq!(tx_type, TransactionType::Transfer);
    assert_eq!(tx_type.to_string(), "TRANSFER");
    assert_eq!(TransactionType::from_str("transfer"), None);
    assert_eq!(TransactionType::from_str(""), None);
}

#[test]
fn transaction_status_from_str_and_to_string() {
    let status = TransactionStatus::from_str("SUCCESS").unwrap();
    assert_eq!(status, TransactionStatus::Success);
    assert_eq!(status.to_string(), "SUCCESS");
    assert_eq!(TransactionStatus::from_str("SUCCES"), None);
}

#[test]
fn names_read_back() {
    for t in [TransactionType::Deposit, TransactionType::Transfer, TransactionType::Withdrawal] {
        assert_eq!(TransactionType::from_str(&t.to_string()), Some(t));
    }
    for s in [TransactionStatus::Success, TransactionStatus::Failure, TransactionStatus::Pending] {
        assert_eq!(TransactionStatus::from_str(&s.to_string()), Some(s));
    }
}

#[test]
fn codes_read_back() {
    for t in [TransactionType::Deposit, TransactionType::Transfer, TransactionType::Withdrawal] {
        assert_eq!(TransactionType::try_from(t.as_u8()).unwrap(), t);
    }
    for s in [TransactionStatus::Success, TransactionStatus::Failure, TransactionStatus::Pending] {
        assert_eq!(TransactionStatus::try_from(s.as_u8()).unwrap(), s);
    }
    assert_eq!(TransactionType::Withdrawal.as_u8(), 2);
    assert_eq!(TransactionStatus::Failure.as_u8(), 1);
}

#[test]
fn invalid_codes_are_binary_format_errors() {
    assert_eq!(TransactionType::try_from(3).unwrap_err().error_kind(), ErrorKind::BinaryFormat);
    assert_eq!(TransactionStatus::try_from(255).unwrap_err().error_kind(), ErrorKind::BinaryFormat);
}

#[test]
fn result_alias_names_the_library_error() {
    let r: parser::Result<u8> = Err(TransactionType::try_from(9).unwrap_err());
    match r {
        Err(parser::ParseError::BinaryFormat(m)) => assert_eq!(m, "Invalid TX_TYPE: 9"),
        _ => panic!("unexpected result"),
    }
}
