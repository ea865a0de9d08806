use parser::errors::ErrorKind;
use parser::formats::binary::{binary_input_panics, YPBankBin};
use parser::formats::{Parser, Serializer, TransactionStatus, TransactionType, YPBankRecord};

fn record(
    tx_id: u64,
    tx_type: TransactionType,
    from_user_id: u64,
    to_user_id: u64,
    amount: u64,
    timestamp: u64,
    status: TransactionStatus,
    description: &str,
) -> YPBankRecord {
    YPBankRecord {
        tx_id,
        tx_type,
        from_user_id,
        to_user_id,
        amount,
        timestamp,
        status,
        description: description.to_string(),
    }
}

#[test]
fn test_binary_parsing_generated_data() {
    let test_records = vec![
        record(
            1_000_000_000_000_000,
            TransactionType::Deposit,
            0,
            9_223_372_036_854_775_807,
            100,
            1_633_036_860_000,
            TransactionStatus::Failure,
            "Record number 1",
        ),
        record(
            1_000_000_000_000_001,
            TransactionType::Transfer,
            9_223_372_036_854_775_807,
            1_234_567_890,
            50000,
            1_633_036_870_000,
            TransactionStatus::Success,
            "Transfer between accounts",
        ),
    ];

    let buffer = YPBankBin::serialize(&test_records).unwrap();

    let parsed_records: Vec<YPBankRecord> = YPBankBin::parse(buffer.as_slice()).unwrap();

    assert_eq!(parsed_records.len(), test_records.len());

    assert_eq!(parsed_records[0].tx_id, 1_000_000_000_000_000);
    assert_eq!(parsed_records[0].tx_type, TransactionType::Deposit);
    assert_eq!(parsed_records[0].from_user_id, 0);
    assert_eq!(parsed_records[0].to_user_id, 9_223_372_036_854_775_807);
    assert_eq!(parsed_records[0].amount, 100);
    assert_eq!(parsed_records[0].timestamp, 1_633_036_860_000);
    assert_eq!(parsed_records[0].status, TransactionStatus::Failure);
    assert_eq!(parsed_records[0].description, "Record number 1");
}

#[test]
fn test_binary_serialization() {
    let records = vec![record(
        1_000_000_000_000_000,
        TransactionType::Deposit,
        0,
        9_223_372_036_854_775_807,
        100,
        1_633_036_860_000,
        TransactionStatus::Failure,
        "Record number 1",
    )];

    let buffer = YPBankBin::serialize(&records).unwrap();

    assert!(!buffer.is_empty());

    let parsed_records: Vec<YPBankRecord> = YPBankBin::parse(buffer.as_slice()).unwrap();
    assert_eq!(parsed_records.len(), 1);
    assert_eq!(parsed_records[0], records[0]);
}

fn sample() -> YPBankRecord {
    record(
        999_999,
        TransactionType::Deposit,
        1,
        2,
        1000,
        1_700_000_000_000,
        TransactionStatus::Success,
        "Payment",
    )
}

#[test]
fn binary_format_structure() {
    let buffer = YPBankBin::serialize(&[sample()]).unwrap();
    assert!(buffer.len() >= 8);
    assert_eq!(&buffer[0..4], b"YPBN");
    let record_size = u32::from_be_bytes([buffer[4], buffer[5], buffer[6], buffer[7]]);
    assert_eq!(record_size as usize, 8 + 1 + 8 + 8 + 8 + 8 + 1 + 4 + "Payment".len());
    assert_eq!(buffer.len(), 8 + record_size as usize);
    assert_eq!(&buffer[8..16], &999_999u64.to_be_bytes());
    assert_eq!(buffer[16], 0);
    assert_eq!(buffer[49], 0);
    assert_eq!(&buffer[50..54], &7u32.to_be_bytes());
    assert_eq!(&buffer[54..], b"Payment");
}

#[test]
fn binary_empty_and_large_descriptions() {
    let mut empty = sample();
    empty.description = String::new();
    let mut large = sample();
    large.description = "x y".repeat(400);
    let records = vec![empty, large];
    let buffer = YPBankBin::serialize(&records).unwrap();
    assert_eq!(YPBankBin::parse(&buffer).unwrap(), records);
}

#[test]
fn binary_roundtrip_many_records() {
    let records: Vec<YPBankRecord> = (0..100u64)
        .map(|i| {
            record(
                i,
                match i % 3 {
                    0 => TransactionType::Deposit,
                    1 => TransactionType::Transfer,
                    _ => TransactionType::Withdrawal,
                },
                i * 100,
                u64::MAX - i,
                (i + 1) * 1000,
                1_700_000_000_000 + i * 1000,
                match i % 3 {
                    0 => TransactionStatus::Success,
                    1 => TransactionStatus::Pending,
                    _ => TransactionStatus::Failure,
                },
                &format!("Transaction {i} ✓ !@#$%^&*()"),
            )
        })
        .collect();
    let buffer = YPBankBin::serialize(&records).unwrap();
    assert_eq!(YPBankBin::parse(&buffer).unwrap(), records);
}

#[test]
fn binary_empty_input() {
    assert_eq!(YPBankBin::parse(&[]).unwrap().len(), 0);
    assert_eq!(YPBankBin::serialize(&[]).unwrap().len(), 0);
}

#[test]
fn binary_truncated_record_is_an_error() {
    let buffer = YPBankBin::serialize(&[sample(), sample()]).unwrap();
    let cut = &buffer[..buffer.len() - 3];
    let err = YPBankBin::parse(cut).unwrap_err();
    assert_eq!(err.error_kind(), ErrorKind::Io);
    match err {
        parser::ParseError::Io(m) => assert_eq!(m, "failed to fill whole buffer"),
        other => panic!("unexpected error {other:?}"),
    }
}

#[test]
fn binary_record_cut_after_its_magic_is_an_error() {
    let r = YPBankRecord {
        tx_id: 1,
        tx_type: TransactionType::Transfer,
        from_user_id: 2,
        to_user_id: 3,
        amount: 4,
        timestamp: 5,
        status: TransactionStatus::Pending,
        description: "ab".to_string(),
    };
    let mut buffer = YPBankBin::serialize(&[r]).unwrap();
    assert_eq!(buffer.len(), 56);
    buffer.extend_from_slice(b"YPBN");
    assert_eq!(YPBankBin::parse(&buffer).unwrap_err().error_kind(), ErrorKind::Io);
    for cut in 1..buffer.len() - 4 {
        assert_eq!(YPBankBin::parse(&buffer[..cut]).unwrap_err().error_kind(), ErrorKind::Io);
    }
}

#[test]
fn binary_bad_type_and_status_messages() {
    let mut buffer = YPBankBin::serialize(&[sample()]).unwrap();
    buffer[16] = 7;
    match YPBankBin::parse(&buffer).unwrap_err() {
        parser::ParseError::BinaryFormat(m) => assert_eq!(m, "Invalid TX_TYPE: 7"),
        other => panic!("unexpected error {other:?}"),
    }
    let mut buffer = YPBankBin::serialize(&[sample()]).unwrap();
    buffer[49] = 200;
    match YPBankBin::parse(&buffer).unwrap_err() {
        parser::ParseError::BinaryFormat(m) => assert_eq!(m, "Invalid STATUS: 200"),
        other => panic!("unexpected error {other:?}"),
    }
}

#[test]
fn binary_bad_magic_is_an_error() {
    let mut buffer = YPBankBin::serialize(&[sample()]).unwrap();
    buffer[0] = b'X';
    assert_eq!(YPBankBin::parse(&buffer).unwrap_err().error_kind(), ErrorKind::BinaryFormat);
}

#[test]
fn binary_bad_type_and_status_are_errors() {
    let mut buffer = YPBankBin::serialize(&[sample()]).unwrap();
    buffer[16] = 7;
    assert_eq!(YPBankBin::parse(&buffer).unwrap_err().error_kind(), ErrorKind::BinaryFormat);
    let mut buffer = YPBankBin::serialize(&[sample()]).unwrap();
    buffer[49] = 3;
    assert_eq!(YPBankBin::parse(&buffer).unwrap_err().error_kind(), ErrorKind::BinaryFormat);
}

#[test]
fn binary_invalid_utf8_description_is_an_error() {
    let mut buffer = YPBankBin::serialize(&[sample()]).unwrap();
    buffer[54] = 0xff;
    assert_eq!(YPBankBin::parse(&buffer).unwrap_err().error_kind(), ErrorKind::BinaryFormat);
}

#[test]
fn binary_quotes_around_description_are_removed() {
    let mut quoted = sample();
    quoted.description = "\"inner\"".to_string();
    let buffer = YPBankBin::serialize(&[quoted]).unwrap();
    assert_eq!(YPBankBin::parse(&buffer).unwrap()[0].description, "inner");
}

#[test]
fn binary_lone_quote_description_is_detected() {
    let mut lone = sample();
    lone.description = "\"".to_string();
    let buffer = YPBankBin::serialize(&[lone]).unwrap();
    assert!(binary_input_panics(&buffer));
    let ok = YPBankBin::serialize(&[sample()]).unwrap();
    assert!(!binary_input_panics(&ok));
}

#[test]
fn binary_bad_magic_message_lists_the_bytes() {
    let err = YPBankBin::parse(b"ABCD0000").unwrap_err();
    match err {
        parser::ParseError::BinaryFormat(m) => {
            assert_eq!(m, "Expected YPBN header, got: [65, 66, 67, 68]")
        }
        other => panic!("unexpected error {other:?}"),
    }
}

#[test]
fn binary_invalid_utf8_message_gives_the_position() {
    let record = YPBankRecord {
        tx_id: 1,
        tx_type: TransactionType::Deposit,
        from_user_id: 2,
        to_user_id: 3,
        amount: 4,
        timestamp: 5,
        status: TransactionStatus::Success,
        description: "a".to_string(),
    };
    let mut bytes = YPBankBin::serialize(&[record]).unwrap();
    let last = bytes.len() - 1;
    bytes[last] = 0xff;
    match YPBankBin::parse(&bytes).unwrap_err() {
        parser::ParseError::BinaryFormat(m) => assert_eq!(
            m,
            "Invalid UTF-8 in description: invalid utf-8 sequence of 1 bytes from index 0"
        ),
        other => panic!("unexpected error {other:?}"),
    }
}
