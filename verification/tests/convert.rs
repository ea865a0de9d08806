use parser::convert::{parse_file, parse_input, records_identical, serialize_output, YPBankFormat};
use parser::formats::{TransactionStatus, TransactionType, YPBankRecord};

fn records() -> Vec<YPBankRecord> {
    vec![
        YPBankRecord {
            tx_id: 1,
            tx_type: TransactionType::Transfer,
            from_user_id: 100,
            to_user_id: 200,
            amount: 5000,
            timestamp: 1_234_567_890,
            status: TransactionStatus::Success,
            description: "Payment".to_string(),
        },
        YPBankRecord {
            tx_id: 2,
            tx_type: TransactionType::Withdrawal,
            from_user_id: 200,
            to_user_id: 0,
            amount: 70,
            timestamp: 1_234_567_999,
            status: TransactionStatus::Pending,
            description: "ATM withdrawal".to_string(),
        },
    ]
}

#[test]
fn convert_between_all_formats() {
    let formats = [YPBankFormat::Csv, YPBankFormat::Txt, YPBankFormat::Binary];
    for from in formats {
        let bytes = serialize_output(&from, &records()).unwrap();
        let read = parse_input(&bytes, &from).unwrap();
        assert!(records_identical(&read, &records()));
        for to in formats {
            let converted = serialize_output(&to, &read).unwrap();
            let back = parse_file(&converted, &to).unwrap();
            assert_eq!(back, records());
        }
    }
}

#[test]
fn compare_detects_differences() {
    let a = records();
    let mut b = records();
    assert!(records_identical(&a, &b));
    b[1].description.push('!');
    assert!(!records_identical(&a, &b));
    assert!(!records_identical(&a, &b[..1]));
    assert!(records_identical(&[], &[]));
}

#[test]
fn csv_doc_example_parses() {
    let csv_data = "TX_ID,TX_TYPE,FROM_USER_ID,TO_USER_ID,AMOUNT,TIMESTAMP,STATUS,DESCRIPTION
1,TRANSFER,100,200,5000,1234567890,SUCCESS,Payment";
    let records = parse_input(csv_data.as_bytes(), &YPBankFormat::Csv).unwrap();
    assert_eq!(records.len(), 1);
    assert_eq!(records[0].tx_id, 1);
}
