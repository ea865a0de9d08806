use parser::errors::ErrorKind;
use parser::formats::txt::{
    clean_value, infer_field_type, parse_field, value_for_upper_name, FieldValue, YPBankText,
};
use parser::formats::{Parser, Serializer, TransactionStatus, TransactionType, YPBankRecord};

fn base_record() -> YPBankRecord {
    YPBankRecord {
        tx_id: 1_000_000_000_000_000,
        tx_type: TransactionType::Deposit,
        from_user_id: 0,
        to_user_id: 9_223_372_036_854_775_807,
        amount: 100,
        timestamp: 1_633_036_860_000,
        status: TransactionStatus::Failure,
        description: "Record number 1".to_string(),
    }
}

fn with_description(desc: &str) -> YPBankRecord {
    let mut r = base_record();
    r.description = desc.to_string();
    r
}

fn pair(k: &str, v: &str) -> Option<(String, String)> {
    Some((k.to_string(), v.to_string()))
}

const SIMPLE: &str = "TX_ID: 1000000000000000
TX_TYPE: DEPOSIT
FROM_USER_ID: 0
TO_USER_ID: 9223372036854775807
AMOUNT: 100
TIMESTAMP: 1633036860000
STATUS: FAILURE
DESCRIPTION: \"Record number 1\"
";

const WITH_COMMENTS: &str = "# This is a comment
# Another comment line
TX_ID: 1234567890123456
TX_TYPE: DEPOSIT
FROM_USER_ID: 0
TO_USER_ID: 9876543210987654
AMOUNT: 10000
# Comment in the middle
TIMESTAMP: 1633036800000
STATUS: SUCCESS
DESCRIPTION: \"Terminal deposit\"

# Comment between records
TX_ID: 2312321321321321
TIMESTAMP: 1633056800000
STATUS: FAILURE
TX_TYPE: TRANSFER
FROM_USER_ID: 1231231231231231
TO_USER_ID: 9876543210987654
AMOUNT: 1000
DESCRIPTION: \"User transfer\"
";

fn record_text(tx_type: &str, status: &str, tx_id: &str) -> String {
    format!(
        "TX_ID: {tx_id}\nTX_TYPE: {tx_type}\nFROM_USER_ID: 0\nTO_USER_ID: 1\nAMOUNT: 100\nTIMESTAMP: 1633036860000\nSTATUS: {status}\nDESCRIPTION: \"Test\"\n"
    )
}

fn error_kind(data: &str) -> ErrorKind {
    YPBankText::parse(data.as_bytes()).unwrap_err().error_kind()
}

#[test]
fn txt_parse_field_cases() {
    assert_eq!(parse_field("KEY: value"), pair("KEY", "value"));
    assert_eq!(parse_field("TX_ID: 123"), pair("TX_ID", "123"));
    assert_eq!(parse_field("AMOUNT: 1000"), pair("AMOUNT", "1000"));
    assert_eq!(parse_field("  SPACED  :  value  "), pair("SPACED", "value"));
    assert_eq!(parse_field("NO_COLON"), None);
    assert_eq!(parse_field("MULTIPLE:COLONS:HERE"), pair("MULTIPLE", "COLONS:HERE"));
    assert_eq!(parse_field(""), None);
}

#[test]
fn txt_clean_value_cases() {
    assert_eq!(clean_value("\"quoted\""), "quoted");
    assert_eq!(clean_value("not_quoted"), "not_quoted");
    assert_eq!(clean_value("\"with spaces\""), "with spaces");
    assert_eq!(clean_value("\"\""), "");
    assert_eq!(clean_value("\"\"\"triple\"\""), "triple");
}

#[test]
fn txt_simple_parsing() {
    let records = YPBankText::parse(SIMPLE.as_bytes()).unwrap();
    assert_eq!(records.len(), 1);
    assert_eq!(records[0], base_record());
}

#[test]
fn txt_parsing_with_comments() {
    let records = YPBankText::parse(WITH_COMMENTS.as_bytes()).unwrap();
    assert_eq!(records.len(), 2);
    assert_eq!(records[0].tx_id, 1_234_567_890_123_456);
    assert_eq!(records[0].tx_type, TransactionType::Deposit);
    assert_eq!(records[0].status, TransactionStatus::Success);
    assert_eq!(records[0].description, "Terminal deposit");
    assert_eq!(records[1].tx_id, 2_312_321_321_321_321);
    assert_eq!(records[1].tx_type, TransactionType::Transfer);
    assert_eq!(records[1].status, TransactionStatus::Failure);
}

#[test]
fn txt_empty_inputs() {
    for input in ["", "# Only comments\n# More comments", "\n\n\n"] {
        let records = YPBankText::parse(input.as_bytes()).unwrap();
        assert_eq!(records, Vec::<YPBankRecord>::new());
    }
}

#[test]
fn txt_transaction_type_parsing() {
    for (tx_type, name) in [
        (TransactionType::Deposit, "DEPOSIT"),
        (TransactionType::Withdrawal, "WITHDRAWAL"),
        (TransactionType::Transfer, "TRANSFER"),
    ] {
        let records = YPBankText::parse(record_text(name, "SUCCESS", "1").as_bytes()).unwrap();
        assert_eq!(records[0].tx_type, tx_type);
    }
}

#[test]
fn txt_status_parsing() {
    for (status, name) in [
        (TransactionStatus::Success, "SUCCESS"),
        (TransactionStatus::Failure, "FAILURE"),
        (TransactionStatus::Pending, "PENDING"),
    ] {
        let records = YPBankText::parse(record_text("DEPOSIT", name, "1").as_bytes()).unwrap();
        assert_eq!(records[0].status, status);
    }
}

#[test]
fn txt_boundary_values() {
    for value in [i64::MAX as u64, u64::MIN, 0, 1_000_000, u64::MAX] {
        let text = record_text("DEPOSIT", "SUCCESS", &value.to_string());
        let records = YPBankText::parse(text.as_bytes()).unwrap();
        assert_eq!(records[0].tx_id, value);
    }
}

#[test]
fn txt_basic_serialization() {
    let buffer = YPBankText::serialize(&[base_record()]).unwrap();
    let text = String::from_utf8(buffer).unwrap();
    assert!(text.contains("# Record 1"));
    assert!(text.contains("TX_ID: 1000000000000000"));
    assert!(text.contains("TX_TYPE: \"DEPOSIT\""));
    assert!(text.contains("DESCRIPTION: \"Record number 1\""));
}

#[test]
fn txt_exact_serialization() {
    let buffer = YPBankText::serialize(&[base_record(), base_record()]).unwrap();
    let one = |n: u32| {
        format!(
            "# Record {n}\nAMOUNT: 100\nDESCRIPTION: \"Record number 1\"\nFROM_USER_ID: 0\nSTATUS: \"FAILURE\"\nTIMESTAMP: 1633036860000\nTO_USER_ID: 9223372036854775807\nTX_ID: 1000000000000000\nTX_TYPE: \"DEPOSIT\"\n\n"
        )
    };
    assert_eq!(String::from_utf8(buffer).unwrap(), format!("{}{}", one(1), one(2)));
}

#[test]
fn txt_empty_serialization() {
    let records: Vec<YPBankRecord> = vec![];
    let buffer = YPBankText::serialize(&records).unwrap();
    assert_eq!(buffer.len(), 0);
}

#[test]
fn txt_record_without_trailing_newline() {
    let text = "TX_ID: 1000000000000000
TX_TYPE: DEPOSIT
FROM_USER_ID: 0
TO_USER_ID: 9223372036854775807
AMOUNT: 100
TIMESTAMP: 1633036860000
STATUS: FAILURE
DESCRIPTION: \"No trailing newline\"";
    let records = YPBankText::parse(text.as_bytes()).unwrap();
    assert_eq!(records.len(), 1);
}

#[test]
fn txt_multiple_empty_lines_between_records() {
    let text = format!("{}\n\n\n{}", record_text("DEPOSIT", "SUCCESS", "1"), record_text("DEPOSIT", "SUCCESS", "2"));
    let records = YPBankText::parse(text.as_bytes()).unwrap();
    assert_eq!(records.len(), 2);
}

#[test]
fn txt_special_characters_in_description() {
    let special = r#"Special: "quotes", \backslash, newline\n, tab\t"#;
    let written = vec![with_description(special)];
    let buffer = YPBankText::serialize(&written).unwrap();
    let parsed = YPBankText::parse(&buffer[..]).unwrap();
    assert_eq!(written[0].description, parsed[0].description);
}

#[test]
fn txt_roundtrip_records() {
    let mut second = with_description("Unicode ✓ and  spaces inside");
    second.tx_type = TransactionType::Withdrawal;
    second.status = TransactionStatus::Pending;
    second.amount = u64::MAX;
    let records = vec![base_record(), second, with_description("")];
    let buffer = YPBankText::serialize(&records).unwrap();
    assert_eq!(YPBankText::parse(&buffer[..]).unwrap(), records);
}

#[test]
fn txt_quotes_at_the_ends_of_a_description_are_lost() {
    let records = vec![with_description("\"quoted\"")];
    let buffer = YPBankText::serialize(&records).unwrap();
    assert_eq!(YPBankText::parse(&buffer[..]).unwrap()[0].description, "quoted");
}

#[test]
fn txt_field_order_irrelevant() {
    let a = "TX_ID: 7\nTX_TYPE: TRANSFER\nAMOUNT: 5\nSTATUS: PENDING\nDESCRIPTION: \"x\"\nFROM_USER_ID: 1\nTO_USER_ID: 2\nTIMESTAMP: 3\n\n";
    let b = "DESCRIPTION: \"x\"\nTIMESTAMP: 3\nSTATUS: PENDING\nAMOUNT: 5\nTO_USER_ID: 2\nFROM_USER_ID: 1\nTX_TYPE: TRANSFER\nTX_ID: 7\n\n";
    assert_eq!(YPBankText::parse(a.as_bytes()).unwrap(), YPBankText::parse(b.as_bytes()).unwrap());
}

#[test]
fn txt_comments_ignored() {
    let records = vec![base_record()];
    let buffer1 = YPBankText::serialize(&records).unwrap();
    let mut buffer2 = b"# a comment line 42\n".to_vec();
    buffer2.extend_from_slice(&buffer1);
    assert_eq!(
        YPBankText::parse(&buffer1[..]).unwrap(),
        YPBankText::parse(&buffer2[..]).unwrap()
    );
}

#[test]
fn txt_later_field_line_wins() {
    let text = format!("{}TX_ID: 99\n", record_text("DEPOSIT", "SUCCESS", "1"));
    assert_eq!(YPBankText::parse(text.as_bytes()).unwrap()[0].tx_id, 99);
}

#[test]
fn txt_unknown_fields_are_ignored() {
    let text = format!("EXTRA: whatever\n{}", record_text("DEPOSIT", "SUCCESS", "1"));
    assert_eq!(YPBankText::parse(text.as_bytes()).unwrap().len(), 1);
}

#[test]
fn txt_windows_line_endings() {
    let text = record_text("DEPOSIT", "SUCCESS", "12").replace('\n', "\r\n");
    assert_eq!(YPBankText::parse(text.as_bytes()).unwrap()[0].tx_id, 12);
}

#[test]
fn txt_missing_field_is_an_error() {
    assert_eq!(error_kind("TX_ID: 1\nTX_TYPE: DEPOSIT\n"), ErrorKind::Json);
}

#[test]
fn txt_lowercase_name_is_not_the_field() {
    let text = record_text("DEPOSIT", "SUCCESS", "1").replace("TX_ID", "tx_id");
    assert_eq!(error_kind(&text), ErrorKind::Json);
}

#[test]
fn txt_bad_number_is_an_error() {
    assert_eq!(error_kind(&record_text("DEPOSIT", "SUCCESS", "-1")), ErrorKind::Json);
}

#[test]
fn txt_bad_type_is_an_error() {
    assert_eq!(error_kind(&record_text("deposit", "SUCCESS", "1")), ErrorKind::Json);
}

#[test]
fn txt_invalid_utf8_is_an_io_error() {
    let mut data = record_text("DEPOSIT", "SUCCESS", "1").into_bytes();
    data.extend_from_slice(&[0xc3, 0x28, b'\n']);
    assert_eq!(YPBankText::parse(&data).unwrap_err().error_kind(), ErrorKind::Io);
}

#[test]
fn txt_block_without_fields_gives_no_record() {
    assert_eq!(YPBankText::parse(b"just words\n").unwrap().len(), 0);
}

#[test]
fn txt_arbitrary_bytes_do_not_panic() {
    let data: Vec<u8> = (0..=255u8).rev().chain(0..=255u8).collect();
    let _ = YPBankText::parse(&data);
}

fn chars(s: &str) -> Vec<char> {
    s.chars().collect()
}

fn inferred(name: &str, value: &str) -> FieldValue {
    infer_field_type(&chars(name), &chars(value))
}

#[test]
fn txt_infer_number_field() {
    assert!(matches!(inferred("TX_ID", "5"), FieldValue::Number(5)));
    assert!(matches!(inferred("tx_id", "18446744073709551615"), FieldValue::Number(u64::MAX)));
    assert!(matches!(inferred("AMOUNT", "12x"), FieldValue::Text(ref t) if *t == chars("12x")));
}

#[test]
fn txt_infer_text_field() {
    assert!(matches!(inferred("TX_TYPE", "5"), FieldValue::Text(ref t) if *t == chars("5")));
    assert!(matches!(inferred("description", "42"), FieldValue::Text(ref t) if *t == chars("42")));
    assert!(matches!(inferred("STATUS", "SUCCESS"), FieldValue::Text(ref t) if *t == chars("SUCCESS")));
}

#[test]
fn txt_infer_other_field() {
    assert!(matches!(inferred("other", "7"), FieldValue::Number(7)));
    assert!(matches!(inferred("other", "x"), FieldValue::Text(ref t) if *t == chars("x")));
    assert!(matches!(inferred("other", "-1"), FieldValue::Text(ref t) if *t == chars("-1")));
}

#[test]
fn txt_quoted_number_is_read() {
    let text = "TX_ID: 1\nTX_TYPE: DEPOSIT\nFROM_USER_ID: 0\nTO_USER_ID: 1\nAMOUNT: \"100\"\nTIMESTAMP: 5\nSTATUS: SUCCESS\nDESCRIPTION: \"x\"\n";
    // Quotes are stripped when the line is read, so the amount is read as a number.
    let records = YPBankText::parse(text.as_bytes()).unwrap();
    assert_eq!(records[0].amount, 100);
}

#[test]
fn txt_unquoted_type_and_status_are_read() {
    let text = "TX_ID: 1\nTX_TYPE: \"WITHDRAWAL\"\nFROM_USER_ID: 0\nTO_USER_ID: 1\nAMOUNT: 100\nTIMESTAMP: 5\nSTATUS: \"PENDING\"\nDESCRIPTION: 12\n";
    let records = YPBankText::parse(text.as_bytes()).unwrap();
    assert_eq!(records[0].tx_type, TransactionType::Withdrawal);
    assert_eq!(records[0].status, TransactionStatus::Pending);
    assert_eq!(records[0].description, "12");
}

#[test]
fn txt_value_for_upper_name_cases() {
    let v = |n: &str, x: &str| value_for_upper_name(&chars(n), &chars(x));
    assert!(matches!(v("TIMESTAMP", "12"), FieldValue::Number(12)));
    assert!(matches!(v("TIMESTAMP", "1.5"), FieldValue::Text(ref t) if *t == chars("1.5")));
    assert!(matches!(v("DESCRIPTION", "12"), FieldValue::Text(ref t) if *t == chars("12")));
    // The name is compared as given: a lowercase name is no field name here.
    assert!(matches!(v("description", "12"), FieldValue::Number(12)));
    assert!(matches!(v("OTHER", "+3"), FieldValue::Number(3)));
}
