use txledger::transaction::{
    verify_transaction, Error, Transaction, TransactionData, TransactionId, TransactionTime,
    MAX_ID,
};
use txledger::transaction_log::FullTransactionLog;
use txledger::transaction_queue::{flush_drafts, QueueMessage, QueueWorker, QueuedTransaction};

fn ts() -> TransactionTime {
    TransactionTime::parse("041017-10:00:00").unwrap()
}

fn draft(text: &str) -> QueuedTransaction {
    QueuedTransaction { text: text.to_string(), gid: 0, pid: 1 }
}

#[test]
fn twenty_enqueues_then_flush_then_finish() {
    let mut worker = QueueWorker::new();
    let mut log = FullTransactionLog::new();

    for i in 0..20 {
        let (action, stop) = worker.step(QueueMessage::Queue(draft(&format!("draft {:02}", i))));
        assert!(action.is_none());
        assert!(!stop);
    }

    let (action, stop) = worker.step(QueueMessage::Flush);
    assert!(!stop);
    let drained = action.unwrap();
    assert_eq!(drained.len(), 20);
    let txs = flush_drafts(&mut log, &drained, Some(ts())).unwrap();

    // Exactly twenty records, identifiers strictly consecutive, appended in
    // submission order, all passing chain verification against each other.
    assert_eq!(txs.len(), 20);
    for (i, tx) in txs.iter().enumerate() {
        assert_eq!(tx.id().inner(), i as u32 + 1);
        assert_eq!(tx.data().text(), format!("draft {:02}", i));
    }
    assert_eq!(verify_transaction(&txs[0], None), Ok(()));
    for i in 1..txs.len() {
        assert_eq!(verify_transaction(&txs[i], Some(&txs[i - 1])), Ok(()));
    }
    assert_eq!(log.get_all().len(), 20);
    assert_eq!(log.last().unwrap().id().inner(), 20);

    let (action, stop) = worker.step(QueueMessage::Finish);
    assert!(stop);
    let rest = action.unwrap();
    assert_eq!(rest.len(), 0);
    let more = flush_drafts(&mut log, &rest, Some(ts())).unwrap();
    assert_eq!(more.len(), 0);
    assert_eq!(log.get_all().len(), 20);
}

#[test]
fn flush_keeps_submission_order_across_batches() {
    let mut worker = QueueWorker::new();
    let mut log = FullTransactionLog::new();
    for name in ["first", "second"] {
        let (_, _) = worker.step(QueueMessage::Queue(draft(name)));
    }
    let batch1 = worker.step(QueueMessage::Flush).0.unwrap();
    flush_drafts(&mut log, &batch1, Some(ts())).unwrap();
    let (_, _) = worker.step(QueueMessage::Queue(draft("third")));
    let batch2 = worker.step(QueueMessage::Finish).0.unwrap();
    flush_drafts(&mut log, &batch2, Some(ts())).unwrap();
    let texts: Vec<String> = log.get_all().iter().map(|t| t.data().text().to_string()).collect();
    assert_eq!(texts, vec!["first", "second", "third"]);
}

#[test]
fn invalid_draft_refuses_the_whole_batch() {
    let mut log = FullTransactionLog::new();
    let drafts = vec![
        draft("fine"),
        QueuedTransaction { text: "bad;text".to_string(), gid: 0, pid: 1 },
    ];
    assert!(matches!(
        flush_drafts(&mut log, &drafts, Some(ts())),
        Err(Error::IllegalArgument(_))
    ));
    // Validation precedes appending: the store is untouched.
    assert_eq!(log.get_all().len(), 0);
}

#[test]
fn draft_out_of_range_group_is_refused() {
    let mut log = FullTransactionLog::new();
    let drafts = vec![QueuedTransaction { text: "x".to_string(), gid: 100, pid: 0 }];
    assert!(flush_drafts(&mut log, &drafts, Some(ts())).is_err());
    assert_eq!(log.get_all().len(), 0);
}

#[test]
fn flush_refuses_a_batch_past_the_id_space() {
    let last = Transaction::new(
        TransactionId::new(MAX_ID).unwrap(),
        ts(),
        TransactionData::new(0, 1, "the very last").unwrap(),
        None,
    );
    let mut log = FullTransactionLog::from_records(vec![last]);
    let drafts = vec![draft("one too many")];
    assert!(matches!(
        flush_drafts(&mut log, &drafts, Some(ts())),
        Err(Error::IllegalArgument(_))
    ));
    assert_eq!(log.get_all().len(), 1);
    // An empty batch appends nothing and succeeds even on a full ledger.
    let none: Vec<QueuedTransaction> = Vec::new();
    assert_eq!(flush_drafts(&mut log, &none, Some(ts())).unwrap().len(), 0);
}

#[test]
fn queue_buffer_accumulates_until_flush() {
    let mut worker = QueueWorker::new();
    let (_, _) = worker.step(QueueMessage::Queue(draft("a")));
    let (_, _) = worker.step(QueueMessage::Queue(draft("b")));
    let drained = worker.step(QueueMessage::Flush).0.unwrap();
    assert_eq!(drained.len(), 2);
    assert_eq!(drained[0].text, "a");
    assert_eq!(drained[1].text, "b");
    // The buffer is empty afterwards.
    let again = worker.step(QueueMessage::Flush).0.unwrap();
    assert_eq!(again.len(), 0);
}
