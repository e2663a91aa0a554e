use txledger::transaction::{
    verify_transaction, Error, Transaction, TransactionData, TransactionId, TransactionTime,
    VerifyError, MAX_ID,
};
use txledger::transaction_log::{
    encode_line, render_all, FileError, FullTransactionLog, SimpleFileLog,
};

fn ts() -> TransactionTime {
    TransactionTime::parse("041017-10:00:00").unwrap()
}

fn data(text: &str) -> TransactionData {
    TransactionData::new(0, 1, text).unwrap()
}

/// A ledger of `n` records and the exact file text it persists to.
fn build_ledger(n: u32) -> (FullTransactionLog, String) {
    let mut log = FullTransactionLog::new();
    let mut text = String::new();
    for i in 0..n {
        let tx = log.create(data(&format!("record number {}", i)), Some(ts())).unwrap();
        text.push_str(&encode_line(&tx));
    }
    (log, text)
}

#[test]
fn create_on_empty_ledger_gives_the_canonical_line() {
    let mut log = FullTransactionLog::new();
    let tx = log.create(data("Testü"), Some(ts())).unwrap();
    assert_eq!(
        tx.to_string(),
        "00000001;041017-10:00:00;00;01;Testü;267C4D5033ED7F96B43216FD8C871E4B96F1221204312AD6F43362F2D12C9B29"
    );
}

#[test]
fn index_create_assigns_consecutive_ids() {
    let (log, _) = build_ledger(5);
    let all = log.get_all();
    assert_eq!(all.len(), 5);
    for (i, tx) in all.iter().enumerate() {
        assert_eq!(tx.id().inner(), i as u32 + 1);
    }
    assert_eq!(log.last().unwrap().id().inner(), 5);
    assert_eq!(log.next_id().inner(), 6);
}

#[test]
fn index_lookup() {
    let (log, _) = build_ledger(4);
    assert_eq!(log.get_by_id(3).unwrap().id().inner(), 3);
    assert_eq!(log.get_by_id(3).unwrap().data().text(), "record number 2");
    assert!(log.get_by_id(9).is_none());
    let empty = FullTransactionLog::new();
    assert!(empty.last().is_none());
    assert_eq!(empty.next_id().inner(), 1);
    assert!(empty.get_by_id(1).is_none());
}

#[test]
fn index_chain_verifies() {
    let (log, _) = build_ledger(6);
    let all = log.get_all();
    assert_eq!(verify_transaction(&all[0], None), Ok(()));
    for i in 1..all.len() {
        assert_eq!(verify_transaction(&all[i], Some(&all[i - 1])), Ok(()));
    }
}

#[test]
fn exhausted_id_space_is_a_hard_error() {
    let last = Transaction::new(
        TransactionId::new(MAX_ID).unwrap(),
        ts(),
        data("the very last"),
        None,
    );
    let mut log = FullTransactionLog::from_records(vec![last]);
    assert!(matches!(
        log.create(data("one too many"), Some(ts())),
        Err(Error::IllegalArgument(_))
    ));
    assert_eq!(log.get_all().len(), 1);
}

#[test]
fn replay_rebuilds_the_chain() {
    let (log, text) = build_ledger(7);
    let replayed = SimpleFileLog::replay(&text).unwrap();
    assert_eq!(replayed.len(), 7);
    let originals = log.get_all();
    for (a, b) in originals.iter().zip(replayed.iter()) {
        assert_eq!(a.to_string(), b.to_string());
    }
    let reloaded = FullTransactionLog::from_records(replayed);
    assert_eq!(reloaded.last().unwrap().id().inner(), 7);
}

#[test]
fn replay_empty_and_bad_input() {
    assert_eq!(SimpleFileLog::replay("").unwrap().len(), 0);
    assert!(matches!(
        SimpleFileLog::replay("garbage\n"),
        Err(FileError::Transaction(Error::ParseError(_)))
    ));
}

#[test]
fn replay_detects_midway_tampering() {
    let (_, text) = build_ledger(5);
    // Flip one byte of the third record's text ('2' appears in "record
    // number 2" and in no hash of this chain's line before it is reused).
    let tampered = text.replace("record number 2", "record number Z");
    assert_ne!(tampered, text);
    match SimpleFileLog::replay(&tampered) {
        Err(FileError::Verify(VerifyError::MissmatchingHash(id))) => assert_eq!(id, 3),
        other => panic!("expected a hash mismatch, got {:?}", other.map(|v| v.len())),
    }
}

#[test]
fn recover_empty() {
    assert!(SimpleFileLog::recover_last("").unwrap().is_none());
}

#[test]
fn recover_single_record() {
    let (_, text) = build_ledger(1);
    let tail = SimpleFileLog::recover_last(&text).unwrap().unwrap();
    assert_eq!(tail.id().inner(), 1);
}

#[test]
fn bounded_recovery_agrees_with_full_replay() {
    let (_, text) = build_ledger(120);
    let full_last = SimpleFileLog::replay(&text).unwrap().pop().unwrap();
    // Recovery over the whole text...
    let tail = SimpleFileLog::recover_last(&text).unwrap().unwrap();
    assert_eq!(tail.to_string(), full_last.to_string());
    // ...and over a bounded final chunk holding just the last two lines.
    let lines: Vec<&str> = text.lines().collect();
    let chunk = format!("{}\n{}\n", lines[lines.len() - 2], lines[lines.len() - 1]);
    assert!(chunk.len() < text.len() / 10);
    let tail2 = SimpleFileLog::recover_last(&chunk).unwrap().unwrap();
    assert_eq!(tail2.to_string(), full_last.to_string());
    assert_eq!(tail2.id().inner(), 120);
}

#[test]
fn recovery_verifies_the_tail_pair() {
    let (_, text) = build_ledger(3);
    let lines: Vec<&str> = text.lines().collect();
    // Tampering with the final record's text breaks the tail pair.
    let bad_last = lines[2].replace("record number 2", "record number X");
    let chunk = format!("{}\n{}\n", lines[1], bad_last);
    match SimpleFileLog::recover_last(&chunk) {
        Err(FileError::Verify(VerifyError::MissmatchingHash(3))) => {},
        other => panic!("expected a hash mismatch, got ok={:?}", other.is_ok()),
    }
}

#[test]
fn recovery_with_unparsable_second_to_last_treats_tail_as_first() {
    // When only the last line parses, the tail is verified with no
    // predecessor; a chunk cut mid-line upstream still recovers a chain whose
    // first full record starts the file.
    let (_, text) = build_ledger(1);
    let chunk = format!("???cut-off-garbage???\n{}", text);
    let tail = SimpleFileLog::recover_last(&chunk).unwrap().unwrap();
    assert_eq!(tail.id().inner(), 1);
}

#[test]
fn recovery_inconsistent_tail_is_an_error() {
    let (_, text) = build_ledger(1);
    // A parseable second-to-last line followed by an unparsable last line is
    // an unrecoverable consistency fault, not a silent repair.
    let chunk = format!("{}???not a record???\n", text);
    assert!(matches!(
        SimpleFileLog::recover_last(&chunk),
        Err(FileError::Other(_))
    ));
}

#[test]
fn render_joins_lines() {
    let (log, text) = build_ledger(3);
    let rendered = render_all(&log.get_all());
    assert_eq!(format!("{}\n", rendered), text);
    assert_eq!(render_all(&Vec::new()), "");
}

#[test]
fn file_log_keeps_its_path() {
    let log = SimpleFileLog::new("/tmp/tx_log.txt".to_string());
    assert_eq!(log.path(), "/tmp/tx_log.txt");
}
