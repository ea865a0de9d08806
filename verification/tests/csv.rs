use parser::errors::ErrorKind;
use parser::formats::csv::YPBankCSV;
use parser::formats::{Parser, Serializer, TransactionStatus, TransactionType, YPBankRecord};

const HEADER: &str = "TX_ID,TX_TYPE,FROM_USER_ID,TO_USER_ID,AMOUNT,TIMESTAMP,STATUS,DESCRIPTION";

fn base_record() -> YPBankRecord {
    YPBankRecord {
        tx_id: 1_000_000_000_000_000,
        tx_type: TransactionType::Deposit,
        from_user_id: 0,
        to_user_id: 9_223_372_036_854_775_807,
        amount: 100,
        timestamp: 1_633_036_860_000,
        status: TransactionStatus::Failure,
        description: "Record number 1".to_string(),
    }
}

fn with_description(desc: &str) -> YPBankRecord {
    let mut r = base_record();
    r.description = desc.to_string();
    r
}

fn with_tx_id(tx_id: u64) -> YPBankRecord {
    let mut r = base_record();
    r.tx_id = tx_id;
    r
}

fn roundtrip(records: &[YPBankRecord]) -> Vec<YPBankRecord> {
    let buffer = YPBankCSV::serialize(records).unwrap();
    YPBankCSV::parse(&buffer[..]).unwrap()
}

fn error_kind(data: &str) -> ErrorKind {
    YPBankCSV::parse(data.as_bytes()).unwrap_err().error_kind()
}

#[test]
fn csv_simple_parsing() {
    let csv = "TX_ID,TX_TYPE,FROM_USER_ID,TO_USER_ID,AMOUNT,TIMESTAMP,STATUS,DESCRIPTION\n1000000000000000,DEPOSIT,0,9223372036854775807,100,1633036860000,FAILURE,Record number 1\n";
    let records = YPBankCSV::parse(csv.as_bytes()).unwrap();
    assert_eq!(records.len(), 1);
    assert_eq!(records[0], base_record());
}

#[test]
fn csv_multiple_records() {
    let csv = "TX_ID,TX_TYPE,FROM_USER_ID,TO_USER_ID,AMOUNT,TIMESTAMP,STATUS,DESCRIPTION\n1001,DEPOSIT,0,501,50000,1672531200000,SUCCESS,Initial account funding\n1002,TRANSFER,501,502,15000,1672534800000,FAILURE,\"Payment for services, invoice #123\"\n1003,WITHDRAWAL,502,0,1000,1672538400000,PENDING,ATM withdrawal\n";
    let records = YPBankCSV::parse(csv.as_bytes()).unwrap();
    assert_eq!(records.len(), 3);
    assert_eq!(records[0].tx_id, 1001);
    assert_eq!(records[0].tx_type, TransactionType::Deposit);
    assert_eq!(records[0].status, TransactionStatus::Success);
    assert_eq!(records[1].tx_id, 1002);
    assert_eq!(records[1].tx_type, TransactionType::Transfer);
    assert_eq!(records[1].description, "Payment for services, invoice #123");
    assert_eq!(records[2].tx_id, 1003);
    assert_eq!(records[2].tx_type, TransactionType::Withdrawal);
}

#[test]
fn csv_empty_document_with_header() {
    let csv = format!("{HEADER}\n");
    let records = YPBankCSV::parse(csv.as_bytes()).unwrap();
    assert_eq!(records.len(), 0);
}

#[test]
fn csv_all_transaction_types() {
    for (tx_type, name) in [
        (TransactionType::Deposit, "DEPOSIT"),
        (TransactionType::Withdrawal, "WITHDRAWAL"),
        (TransactionType::Transfer, "TRANSFER"),
    ] {
        let csv = format!("{HEADER}\n1,{name},0,1,100,1633036860000,SUCCESS,Test\n");
        let records = YPBankCSV::parse(csv.as_bytes()).unwrap();
        assert_eq!(records[0].tx_type, tx_type);
    }
}

#[test]
fn csv_all_statuses() {
    for (status, name) in [
        (TransactionStatus::Success, "SUCCESS"),
        (TransactionStatus::Failure, "FAILURE"),
        (TransactionStatus::Pending, "PENDING"),
    ] {
        let csv = format!("{HEADER}\n1,DEPOSIT,0,1,100,1633036860000,{name},Test\n");
        let records = YPBankCSV::parse(csv.as_bytes()).unwrap();
        assert_eq!(records[0].status, status);
    }
}

#[test]
fn csv_numeric_boundaries() {
    for value in [i64::MAX as u64, u64::MIN, 0, u64::MAX] {
        let csv = format!("{HEADER}\n{value},DEPOSIT,0,1,100,1633036860000,SUCCESS,Test\n");
        let records = YPBankCSV::parse(csv.as_bytes()).unwrap();
        assert_eq!(records[0].tx_id, value);
    }
}

#[test]
fn csv_number_forms_accepted_by_the_deserializer() {
    let csv = format!("{HEADER}\n0xff,DEPOSIT,+7,1,100,1633036860000,SUCCESS,Test\n");
    let records = YPBankCSV::parse(csv.as_bytes()).unwrap();
    assert_eq!(records[0].tx_id, 255);
    assert_eq!(records[0].from_user_id, 7);
}

#[test]
fn csv_number_overflow_is_an_error() {
    let csv = format!("{HEADER}\n18446744073709551616,DEPOSIT,0,1,100,1633036860000,SUCCESS,Test\n");
    assert_eq!(error_kind(&csv), ErrorKind::Csv);
}

#[test]
fn csv_basic_serialization() {
    let buffer = YPBankCSV::serialize(&[base_record()]).unwrap();
    let text = String::from_utf8(buffer).unwrap();
    assert!(text.contains(HEADER));
    assert!(text.contains("1000000000000000"));
    assert!(text.contains("DEPOSIT"));
    assert!(text.contains("FAILURE"));
    assert_eq!(
        text,
        format!("{HEADER}\n1000000000000000,DEPOSIT,0,9223372036854775807,100,1633036860000,FAILURE,Record number 1\n")
    );
}

#[test]
fn csv_multiple_records_serialization() {
    let records = vec![with_tx_id(1), with_tx_id(2), with_tx_id(3)];
    let buffer = YPBankCSV::serialize(&records).unwrap();
    let text = String::from_utf8(buffer).unwrap();
    let lines: Vec<&str> = text.lines().collect();
    assert!(lines.len() >= 4);
    assert!(lines.len() <= 5);
}

#[test]
fn csv_empty_serialization() {
    let records: Vec<YPBankRecord> = vec![];
    let buffer = YPBankCSV::serialize(&records).unwrap();
    let text = String::from_utf8(buffer).unwrap();
    assert!(text.starts_with("TX_ID,TX_TYPE"));
    assert_eq!(text.lines().count(), 1);
}

#[test]
fn csv_commas_in_description() {
    let parsed = roundtrip(&[with_description("Payment for services, invoice #123, urgent")]);
    assert_eq!(parsed[0].description, "Payment for services, invoice #123, urgent");
}

#[test]
fn csv_quotes_in_description() {
    let parsed = roundtrip(&[with_description(r#"Transaction "urgent" priority"#)]);
    assert_eq!(parsed[0].description, r#"Transaction "urgent" priority"#);
}

#[test]
fn csv_newlines_in_description() {
    let parsed = roundtrip(&[with_description("Line 1\nLine 2\nLine 3")]);
    assert_eq!(parsed[0].description, "Line 1\nLine 2\nLine 3");
}

#[test]
fn csv_empty_description() {
    let parsed = roundtrip(&[with_description("")]);
    assert_eq!(parsed[0].description, "");
}

#[test]
fn csv_unicode_in_description() {
    let parsed = roundtrip(&[with_description("Money transfer 💰 for €100")]);
    assert_eq!(parsed[0].description, "Money transfer 💰 for €100");
}

#[test]
fn csv_empty_lines_are_skipped() {
    let csv = format!(
        "{HEADER}\n1,DEPOSIT,0,1,100,1633036860000,SUCCESS,First\n\n2,DEPOSIT,0,1,200,1633036860000,SUCCESS,Second\n"
    );
    let records = YPBankCSV::parse(csv.as_bytes()).unwrap();
    assert!(records.len() >= 2);
    assert_eq!(records[0].tx_id, 1);
    assert_eq!(records[1].tx_id, 2);
}

#[test]
fn csv_long_description() {
    let long = "A".repeat(1000);
    let parsed = roundtrip(&[with_description(&long)]);
    assert_eq!(parsed[0].description, long);
}

#[test]
fn csv_special_characters() {
    let special = "Comma,Quote\",Newline\n,Tab\t,Carriage Return";
    let parsed = roundtrip(&[with_description(special)]);
    assert_eq!(parsed[0].description, special);
}

#[test]
fn csv_roundtrip_keeps_every_record() {
    let records = vec![
        with_tx_id(0),
        with_description("\"quoted at both ends\""),
        with_description(" padded "),
        with_tx_id(u64::MAX),
    ];
    assert_eq!(roundtrip(&records), records);
}

#[test]
fn csv_serialization_is_deterministic() {
    let records = vec![base_record(), with_tx_id(5)];
    assert_eq!(
        YPBankCSV::serialize(&records).unwrap(),
        YPBankCSV::serialize(&records).unwrap()
    );
}

#[test]
fn csv_missing_header() {
    assert_eq!(error_kind("1,DEPOSIT,0,1,100,1633036860000,SUCCESS,Test\n"), ErrorKind::InvalidField);
}

#[test]
fn csv_wrong_header() {
    assert_eq!(error_kind("WRONG,HEADERS,HERE\n1,DEPOSIT,0\n"), ErrorKind::InvalidField);
}

#[test]
fn csv_empty_input_has_no_header() {
    assert_eq!(error_kind(""), ErrorKind::InvalidField);
}

#[test]
fn csv_insufficient_fields() {
    let csv = format!("{HEADER}\n1,DEPOSIT,0\n");
    assert_eq!(error_kind(&csv), ErrorKind::Csv);
}

#[test]
fn csv_invalid_transaction_type() {
    let csv = format!("{HEADER}\n1,INVALID_TYPE,0,1,100,1633036860000,SUCCESS,Test\n");
    assert_eq!(error_kind(&csv), ErrorKind::Csv);
}

#[test]
fn csv_invalid_status() {
    let csv = format!("{HEADER}\n1,DEPOSIT,0,1,100,1633036860000,INVALID_STATUS,Test\n");
    assert_eq!(error_kind(&csv), ErrorKind::Csv);
}

#[test]
fn csv_invalid_numeric_field() {
    let csv = format!("{HEADER}\nnot_a_number,DEPOSIT,0,1,100,1633036860000,SUCCESS,Test\n");
    assert_eq!(error_kind(&csv), ErrorKind::Csv);
}

#[test]
fn csv_invalid_utf8_is_an_error() {
    let mut data = format!("{HEADER}\n1,DEPOSIT,0,1,100,1633036860000,SUCCESS,").into_bytes();
    data.extend_from_slice(&[0xff, 0xfe, b'\n']);
    assert_eq!(YPBankCSV::parse(&data).unwrap_err().error_kind(), ErrorKind::Csv);
}

#[test]
fn csv_arbitrary_bytes_do_not_panic() {
    let data: Vec<u8> = (0..=255u8).chain(0..=255u8).collect();
    let _ = YPBankCSV::parse(&data);
}

fn row(fields: &[&str]) -> Vec<String> {
    fields.iter().map(|f| f.to_string()).collect()
}

fn header() -> Vec<String> {
    row(&["TX_ID", "TX_TYPE", "FROM_USER_ID", "TO_USER_ID", "AMOUNT", "TIMESTAMP", "STATUS", "DESCRIPTION"])
}

#[test]
fn csv_parse_rows_builds_records() {
    let rows = vec![
        header(),
        row(&["1000000000000000", "DEPOSIT", "0", "9223372036854775807", "100", "1633036860000", "FAILURE", "Record number 1"]),
    ];
    assert_eq!(YPBankCSV::parse_rows(&rows, None).unwrap(), vec![base_record()]);
}

#[test]
fn csv_parse_rows_reader_error_after_rows() {
    let rows = vec![header()];
    let e = YPBankCSV::parse_rows(&rows, Some("broken".to_string())).unwrap_err();
    assert_eq!(e.error_kind(), ErrorKind::Csv);
    let e = YPBankCSV::parse_rows(&vec![], Some("broken".to_string())).unwrap_err();
    assert_eq!(e.error_kind(), ErrorKind::Csv);
    let e = YPBankCSV::parse_rows(&vec![], None).unwrap_err();
    assert_eq!(e.error_kind(), ErrorKind::InvalidField);
}

#[test]
fn csv_parse_rows_header_checks() {
    let mut short = header();
    short.pop();
    assert_eq!(YPBankCSV::parse_rows(&vec![short], None).unwrap_err().error_kind(), ErrorKind::InvalidField);
    let mut renamed = header();
    renamed[3] = "to_user_id".to_string();
    assert_eq!(YPBankCSV::parse_rows(&vec![renamed], None).unwrap_err().error_kind(), ErrorKind::InvalidField);
}

#[test]
fn csv_parse_rows_extra_fields_are_ignored() {
    let rows = vec![
        header(),
        row(&["5", "TRANSFER", "1", "2", "3", "4", "PENDING", "d", "extra"]),
    ];
    let records = YPBankCSV::parse_rows(&rows, None).unwrap();
    assert_eq!(records[0].tx_id, 5);
    assert_eq!(records[0].description, "d");
}

#[test]
fn csv_rows_of_records_fields() {
    let rows = YPBankCSV::rows_of_records(&[base_record()]);
    assert_eq!(rows.len(), 2);
    assert_eq!(rows[0], header());
    assert_eq!(
        rows[1],
        row(&["1000000000000000", "DEPOSIT", "0", "9223372036854775807", "100", "1633036860000", "FAILURE", "Record number 1"])
    );
}

fn invalid_field(data: &str) -> (String, String) {
    match YPBankCSV::parse(data.as_bytes()).unwrap_err() {
        parser::ParseError::InvalidField { field, value } => (field, value),
        other => panic!("unexpected error {other:?}"),
    }
}

#[test]
fn csv_header_error_messages() {
    assert_eq!(
        invalid_field("1,DEPOSIT,0,1,100,1633036860000,SUCCESS,Test\n"),
        ("column_0".to_string(), "expected 'TX_ID', got '1'".to_string())
    );
    assert_eq!(
        invalid_field("WRONG,HEADERS,HERE\n1,DEPOSIT,0\n"),
        ("headers".to_string(), "Expected 8 columns, got 3".to_string())
    );
    assert_eq!(
        invalid_field(
            "TX_TYPE,TX_ID,FROM_USER_ID,TO_USER_ID,AMOUNT,TIMESTAMP,STATUS,DESCRIPTION\nDEPOSIT,1,0,1,100,1633036860000,SUCCESS,Test\n"
        ),
        ("column_0".to_string(), "expected 'TX_ID', got 'TX_TYPE'".to_string())
    );
    assert_eq!(invalid_field(""), ("headers".to_string(), "Expected 8 columns, got 0".to_string()));
}
