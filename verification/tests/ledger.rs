use txledger::codec::parse_create_request;
use txledger::transaction::{
    verify_transaction, Error, Transaction, TransactionData, TransactionId, TransactionTime,
    VerifyError, MAX_ID, MIN_ID,
};

const LINE1: &str = "00000001;041017-10:00:00;00;01;Testü;267C4D5033ED7F96B43216FD8C871E4B96F1221204312AD6F43362F2D12C9B29";

fn ts() -> TransactionTime {
    TransactionTime::parse("041017-10:00:00").unwrap()
}

fn first_record() -> Transaction {
    Transaction::new(
        TransactionId::new(1).unwrap(),
        ts(),
        TransactionData::new(0, 1, "Testü").unwrap(),
        None,
    )
}

#[test]
fn example() {
    let tx = first_record();
    assert_eq!(LINE1, tx.to_string());
}

#[test]
fn parse1() {
    let input = format!("{}\n", LINE1);
    let parsed = Transaction::parse(&input);
    assert!(parsed.is_ok());
    assert_eq!(parsed.unwrap().to_string(), input);
}

#[test]
fn parse2() {
    let tx = first_record();
    let parsed = Transaction::parse(&tx.to_string());
    assert!(parsed.is_ok());
    assert_eq!(parsed.unwrap().to_string(), tx.to_string());
}

#[test]
fn verify_ok() {
    let tx1 = first_record();
    let tx2 = Transaction::new(
        TransactionId::new(2).unwrap(),
        ts(),
        TransactionData::new(0, 1, "Großes ß").unwrap(),
        Some(&tx1),
    );
    assert_eq!(verify_transaction(&tx2, Some(&tx1)), Ok(()));
}

#[test]
fn verify_err() {
    let tx1 = first_record();
    let tx2 = Transaction::new(
        TransactionId::new(1).unwrap(),
        ts(),
        TransactionData::new(0, 1, "Großes S").unwrap(),
        None,
    );
    assert!(verify_transaction(&tx2, Some(&tx1)).is_err());
}

#[test]
fn round_trip_preserves_fields() {
    let tx1 = first_record();
    let tx2 = Transaction::new(
        TransactionId::new(2).unwrap(),
        ts(),
        TransactionData::new(7, 42, "").unwrap(),
        Some(&tx1),
    );
    for tx in [&tx1, &tx2] {
        let back = Transaction::parse(&tx.to_string()).unwrap();
        assert_eq!(back.id().inner(), tx.id().inner());
        assert_eq!(back.data().gid(), tx.data().gid());
        assert_eq!(back.data().pid(), tx.data().pid());
        assert_eq!(back.data().text(), tx.data().text());
        assert_eq!(back.hash().as_slice(), tx.hash().as_slice());
        assert_eq!(back.hash().hex_string(), tx.hash().hex_string());
        assert_eq!(back.to_string(), tx.to_string());
    }
}

#[test]
fn second_record_chains_over_hash_string() {
    let tx1 = first_record();
    let tx2 = Transaction::new(
        TransactionId::new(2).unwrap(),
        ts(),
        TransactionData::new(0, 1, "Großes ß").unwrap(),
        Some(&tx1),
    );
    assert!(tx2.to_string().starts_with("00000002;041017-10:00:00;00;01;Großes ß;"));
    assert_eq!(verify_transaction(&tx2, Some(&tx1)), Ok(()));
    // The chain runs over the predecessor's hash *string*: a chain built on a
    // different first record gives a different second hash.
    let other1 = Transaction::new(
        TransactionId::new(1).unwrap(),
        ts(),
        TransactionData::new(0, 1, "Testv").unwrap(),
        None,
    );
    let other2 = Transaction::new(
        TransactionId::new(2).unwrap(),
        ts(),
        TransactionData::new(0, 1, "Großes ß").unwrap(),
        Some(&other1),
    );
    assert_ne!(tx2.hash().as_slice(), other2.hash().as_slice());
}

#[test]
fn id_monotonicity() {
    assert_eq!(TransactionId::new(1).unwrap().next().inner(), 2);
    assert_eq!(TransactionId::new(4711).unwrap().next().inner(), 4712);
    assert_eq!(TransactionId::new(MAX_ID - 1).unwrap().next().inner(), MAX_ID);
    assert_eq!(TransactionId::new(MAX_ID).unwrap().next().inner(), MIN_ID);
}

#[test]
fn id_bounds() {
    assert!(matches!(TransactionId::new(0), Err(Error::IllegalArgument(_))));
    assert!(matches!(TransactionId::new(MAX_ID + 1), Err(Error::IllegalArgument(_))));
    assert_eq!(TransactionId::new(MIN_ID).unwrap().inner(), MIN_ID);
    assert_eq!(TransactionId::new(MAX_ID).unwrap().inner(), MAX_ID);
}

#[test]
fn payload_validation() {
    assert!(matches!(TransactionData::new(100, 0, "x"), Err(Error::IllegalArgument(_))));
    assert!(matches!(TransactionData::new(0, 100, "x"), Err(Error::IllegalArgument(_))));
    for bad in ["a;b", "a\nb", "a\rb", "a\tb", "a\0b"] {
        assert!(matches!(TransactionData::new(0, 0, bad), Err(Error::IllegalArgument(_))));
    }
    let d = TransactionData::new(99, 99, "plain text with spaces ü").unwrap();
    assert_eq!(d.gid(), 99);
    assert_eq!(d.pid(), 99);
    assert_eq!(d.text(), "plain text with spaces ü");
    assert!(TransactionData::new(0, 0, "").is_ok());
}

#[test]
fn payload_parse() {
    let d = TransactionData::parse("05;06;hello world").unwrap();
    assert_eq!((d.gid(), d.pid(), d.text()), (5, 6, "hello world"));
    assert!(matches!(TransactionData::parse("05;06"), Err(Error::ParseError(_))));
    assert!(matches!(TransactionData::parse("05;06;a;b"), Err(Error::ParseError(_))));
    assert!(matches!(TransactionData::parse("xx;06;a"), Err(Error::ParseError(_))));
    assert!(matches!(TransactionData::parse("05;300;a"), Err(Error::ParseError(_))));
}

#[test]
fn timestamp_parse() {
    assert!(TransactionTime::parse("041017-10:00:00").is_ok());
    assert!(TransactionTime::parse("290216-23:59:59").is_ok()); // 2016 is a leap year
    assert!(TransactionTime::parse("290217-00:00:00").is_err()); // 2017 is not
    assert!(TransactionTime::parse("310417-12:00:00").is_err()); // April has 30 days
    assert!(TransactionTime::parse("000117-12:00:00").is_err()); // day zero
    assert!(TransactionTime::parse("011317-12:00:00").is_err()); // month 13
    assert!(TransactionTime::parse("010117-24:00:00").is_err());
    assert!(TransactionTime::parse("010117-23:60:00").is_err());
    assert!(TransactionTime::parse("010117-23:00:60").is_err());
    assert!(TransactionTime::parse("10117-23:00:00").is_err()); // too short
    assert!(TransactionTime::parse("041017 10:00:00").is_err()); // wrong separator
    assert!(matches!(
        TransactionTime::parse("garbage"),
        Err(Error::ParseError(_))
    ));
}

#[test]
fn timestamp_current_is_valid() {
    let now = TransactionTime::current();
    let tx = Transaction::new(
        TransactionId::new(1).unwrap(),
        now,
        TransactionData::new(0, 0, "stamped now").unwrap(),
        None,
    );
    // The rendered line must parse back and verify: the clock reading stayed
    // within the codec's calendar ranges.
    let back = Transaction::parse(&tx.to_string()).unwrap();
    assert_eq!(verify_transaction(&back, None), Ok(()));
}

#[test]
fn line_parse_errors() {
    assert!(matches!(Transaction::parse(""), Err(Error::ParseError(_))));
    assert!(matches!(Transaction::parse("garbage"), Err(Error::ParseError(_))));
    // five fields only
    assert!(Transaction::parse("00000001;041017-10:00:00;00;01;Testü").is_err());
    // seven fields
    assert!(Transaction::parse(&format!("{};extra", LINE1)).is_err());
    // id out of range parses as a failure of the line
    assert!(Transaction::parse(&LINE1.replace("00000001", "00000000")).is_err());
    // group out of range
    assert!(Transaction::parse(&LINE1.replace(";00;01;", ";00;100;")).is_err());
}

#[test]
fn hash_field_rules() {
    let head = "00000001;041017-10:00:00;00;01;Testü";
    // odd length
    assert!(Transaction::parse(&format!("{};ABC", head)).is_err());
    // lowercase digits are refused
    assert!(Transaction::parse(&format!("{};ab", head)).is_err());
    // uppercase non-hex letters are refused
    assert!(Transaction::parse(&format!("{};GH", head)).is_err());
    // an even uppercase-hex string of any length is accepted as stored text
    let short = Transaction::parse(&format!("{};ABCD", head)).unwrap();
    assert_eq!(short.hash().as_slice(), &[0xAB, 0xCD]);
    // surrounding whitespace is tolerated and kept in the stored text
    let padded = Transaction::parse(&format!("{};ABCD\n", head)).unwrap();
    assert_eq!(padded.hash().as_slice(), &[0xAB, 0xCD]);
    assert_eq!(padded.hash().hex_string(), "ABCD\n");
}

#[test]
fn tamper_with_text_is_detected() {
    let tx1 = first_record();
    let tx2 = Transaction::new(
        TransactionId::new(2).unwrap(),
        ts(),
        TransactionData::new(0, 1, "Großes ß").unwrap(),
        Some(&tx1),
    );
    // 'G' occurs only in the text field: digits, separators and uppercase hex
    // A-F are everywhere else.
    let tampered_line = tx2.to_string().replace('G', "H");
    assert_ne!(tampered_line, tx2.to_string());
    let tampered = Transaction::parse(&tampered_line).unwrap();
    assert_eq!(
        verify_transaction(&tampered, Some(&tx1)),
        Err(VerifyError::MissmatchingHash(2))
    );
}

#[test]
fn tamper_with_hash_is_detected() {
    let tx1 = first_record();
    let tx2 = Transaction::new(
        TransactionId::new(2).unwrap(),
        ts(),
        TransactionData::new(0, 1, "Großes ß").unwrap(),
        Some(&tx1),
    );
    let line = tx2.to_string();
    let (head, hash) = line.rsplit_once(';').unwrap();
    let first = hash.chars().next().unwrap();
    let flipped = if first == 'A' { 'B' } else { 'A' };
    let tampered_line = format!("{};{}{}", head, flipped, &hash[1..]);
    assert_ne!(tampered_line, line);
    let tampered = Transaction::parse(&tampered_line).unwrap();
    assert_eq!(
        verify_transaction(&tampered, Some(&tx1)),
        Err(VerifyError::MissmatchingHash(2))
    );
}

#[test]
fn non_consecutive_id_is_detected() {
    let tx1 = first_record();
    let tx3 = Transaction::new(
        TransactionId::new(3).unwrap(),
        ts(),
        TransactionData::new(0, 1, "skipped one").unwrap(),
        Some(&tx1),
    );
    assert_eq!(
        verify_transaction(&tx3, Some(&tx1)),
        Err(VerifyError::NonConsecutiveID(2, 3))
    );
}

#[test]
fn create_request_parsing() {
    let (time, data) = parse_create_request("020217-12:00:00;05;06;hello world").unwrap();
    assert_eq!((data.gid(), data.pid(), data.text()), (5, 6, "hello world"));
    let tx = Transaction::new(TransactionId::new(1).unwrap(), time, data, None);
    assert!(tx.to_string().starts_with("00000001;020217-12:00:00;05;06;hello world;"));
    assert!(parse_create_request("no timestamp here").is_err());
    assert!(parse_create_request("020217-12:00:00;05;06").is_err());
    assert!(parse_create_request("020217-12:00:00;05;06;a;b").is_err());
}

#[test]
fn ping_answers() {
    assert_eq!(txledger::ping(), "0");
}
