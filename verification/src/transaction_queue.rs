//! The write-serialization queue's logic: the worker's buffer, its reaction
//! to each message, and the flush that materializes queued drafts into
//! records in strict submission order.
//!
//! The surrounding program owns the channel and the worker thread; it feeds
//! each received message to [`QueueWorker::step`] and performs the returned
//! action, so the ordering decisions are all verified.

use vstd::prelude::*;

use crate::transaction::{
    spec_verify, text_ok, ts_wf, tx_wf, DataV, Error, Transaction, TransactionData,
    TransactionTime, TransactionV, MAX_GID, MAX_ID, MAX_PID,
};
use crate::transaction_log::{can_append, chain_wf, spec_next_of, FullTransactionLog};

verus! {

/// A draft transaction waiting in the queue: payload fields only. The
/// identifier and the timestamp are assigned at flush time.
#[derive(Debug, PartialEq, Eq, Hash)]
pub struct QueuedTransaction {
    pub text: String,
    pub gid: u8,
    pub pid: u8,
}

/// The mathematical value of a queued draft.
pub ghost struct QueuedV {
    pub text: Seq<char>,
    pub gid: u8,
    pub pid: u8,
}

impl View for QueuedTransaction {
    type V = QueuedV;

    open spec fn view(&self) -> QueuedV {
        QueuedV { text: self.text@, gid: self.gid, pid: self.pid }
    }
}

impl Clone for QueuedTransaction {
    fn clone(&self) -> (r: Self)
        ensures
            r@ == self@,
    {
        QueuedTransaction { text: self.text.clone(), gid: self.gid, pid: self.pid }
    }
}

/// A draft the flush can materialize: payload fields within their ranges.
pub open spec fn draft_wf(d: QueuedV) -> bool {
    d.gid <= MAX_GID && d.pid <= MAX_PID && text_ok(d.text)
}

/// The messages producers send to the queue's worker.
#[derive(Debug)]
pub enum QueueMessage {
    /// Buffer one draft.
    Queue(QueuedTransaction),
    /// Materialize and append every buffered draft now, in order.
    Flush,
    /// Flush, then stop the worker.
    Finish,
}

/// The worker's state: the drafts accumulated since the last flush, in
/// submission order.
#[derive(Debug)]
pub struct QueueWorker {
    pub buffer: Vec<QueuedTransaction>,
}

impl View for QueueWorker {
    type V = Seq<QueuedV>;

    open spec fn view(&self) -> Seq<QueuedV> {
        self.buffer@.map_values(|q: QueuedTransaction| q@)
    }
}

impl QueueWorker {
    pub fn new() -> (r: Self)
        ensures
            r@ =~= Seq::<QueuedV>::empty(),
    {
        let r = QueueWorker { buffer: Vec::new() };
        proof {
            assert(r@ =~= Seq::<QueuedV>::empty());
        }
        r
    }

    /// One step of the worker loop. A queued draft joins the buffer; a flush
    /// hands the whole buffer back, oldest first, leaving it empty; finish
    /// does the same and asks the worker to stop. Drafts are never reordered
    /// or dropped.
    pub fn step(&mut self, msg: QueueMessage) -> (r: (Option<Vec<QueuedTransaction>>, bool))
        ensures
            match msg {
                QueueMessage::Queue(q) => final(self)@ == old(self)@.push(q@) && r.0 is None
                    && r.1 == false,
                QueueMessage::Flush => final(self)@.len() == 0 && r.0 is Some
                    && r.0->0@.map_values(|q: QueuedTransaction| q@) == old(self)@ && r.1
                    == false,
                QueueMessage::Finish => final(self)@.len() == 0 && r.0 is Some
                    && r.0->0@.map_values(|q: QueuedTransaction| q@) == old(self)@ && r.1
                    == true,
            },
    {
        match msg {
            QueueMessage::Queue(q) => {
                let ghost before = self@;
                let ghost qv = q@;
                self.buffer.push(q);
                proof {
                    assert(self@ =~= before.push(qv));
                }
                (None, false)
            },
            QueueMessage::Flush => {
                let drained = self.drain();
                (Some(drained), false)
            },
            QueueMessage::Finish => {
                let drained = self.drain();
                (Some(drained), true)
            },
        }
    }

    fn drain(&mut self) -> (r: Vec<QueuedTransaction>)
        ensures
            final(self)@.len() == 0,
            r@.map_values(|q: QueuedTransaction| q@) == old(self)@,
    {
        let mut drained: Vec<QueuedTransaction> = Vec::new();
        core::mem::swap(&mut self.buffer, &mut drained);
        proof {
            assert(self@ =~= Seq::<QueuedV>::empty());
        }
        drained
    }
}

/// Whether a flush of `ds` onto a ledger holding `s` can succeed: every draft
/// must be a valid payload, and the identifier space must hold the whole
/// batch without wrapping.
pub open spec fn can_flush(s: Seq<TransactionV>, ds: Seq<QueuedV>) -> bool {
    &&& forall|i: int| 0 <= i < ds.len() ==> draft_wf(#[trigger] ds[i])
    &&& (ds.len() > 0 ==> can_append(s) && spec_next_of(s) + ds.len() - 1 <= MAX_ID)
}

/// Materializes the drained drafts into records, in strict submission order:
/// each gets the next identifier and the given timestamp (or the current time
/// at flush), and is appended through the store. Validates the whole batch
/// first, so a refused batch leaves the store untouched.
#[verifier::rlimit(60)]
pub fn flush_drafts(
    log: &mut FullTransactionLog,
    drafts: &Vec<QueuedTransaction>,
    time: Option<TransactionTime>,
) -> (r: Result<Vec<Transaction>, Error>)
    requires
        old(log).wf(),
        time is Some ==> ts_wf(time->0),
    ensures
        final(log).wf(),
        r is Ok <==> can_flush(old(log)@, drafts@.map_values(|q: QueuedTransaction| q@)),
        r is Err ==> final(log)@ == old(log)@ && r->Err_0 is IllegalArgument,
        r is Ok ==> ({
            let txs = r->Ok_0@;
            &&& final(log)@ == old(log)@ + txs.map_values(|t: Transaction| t@)
            &&& txs.len() == drafts@.len()
            &&& (forall|i: int|
                0 <= i < txs.len() ==> (#[trigger] txs[i])@.id == spec_next_of(old(log)@) + i)
            &&& (forall|i: int|
                0 <= i < txs.len() ==> (#[trigger] txs[i])@.data.gid == drafts@[i]@.gid
                    && txs[i]@.data.pid == drafts@[i]@.pid && txs[i]@.data.text
                    == drafts@[i]@.text)
            &&& (forall|i: int| 0 <= i < txs.len() ==> tx_wf((#[trigger] txs[i])@))
            &&& (forall|i: int|
                0 <= i < txs.len() ==> (#[trigger] txs[i])@.hash.bytes.len() == 32
                    && txs[i]@.hash.string == crate::text::spec_hex_upper(txs[i]@.hash.bytes))
            &&& (time is Some ==> forall|i: int|
                0 <= i < txs.len() ==> (#[trigger] txs[i])@.ts == time->0)
        }),
{
    let ghost ds = drafts@.map_values(|q: QueuedTransaction| q@);
    // Validate the whole batch before touching the store.
    let mut datas: Vec<TransactionData> = Vec::new();
    let mut i: usize = 0;
    while i < drafts.len()
        invariant
            0 <= i <= drafts@.len(),
            log@ == old(log)@,
            log.wf(),
            ds == drafts@.map_values(|q: QueuedTransaction| q@),
            ds.len() == drafts@.len(),
            datas@.len() == i,
            forall|j: int| 0 <= j < i ==> draft_wf(#[trigger] ds[j]),
            forall|j: int|
                0 <= j < i ==> (#[trigger] datas@[j])@ == (DataV {
                    gid: ds[j].gid,
                    pid: ds[j].pid,
                    text: ds[j].text,
                }),
        decreases drafts@.len() - i,
    {
        let q = &drafts[i];
        let data = match TransactionData::new(q.gid, q.pid, q.text.as_str()) {
            Ok(d) => d,
            Err(e) => {
                proof {
                    assert(!draft_wf(ds[i as int]));
                }
                return Err(e);
            },
        };
        datas.push(data);
        i = i + 1;
    }
    // Check that the identifier space holds the whole batch.
    if drafts.len() > 0 {
        let base: u32 = match log.last() {
            Some(t) => {
                let last_id = t.id().inner();
                if last_id >= MAX_ID {
                    proof {
                        assert(!can_append(log@));
                    }
                    return Err(
                        Error::IllegalArgument("identifier space exhausted".to_owned()),
                    );
                }
                last_id + 1
            },
            None => crate::transaction::MIN_ID,
        };
        proof {
            assert(base == spec_next_of(log@));
        }
        if drafts.len() as u64 > MAX_ID as u64 {
            return Err(Error::IllegalArgument("identifier space exhausted".to_owned()));
        }
        if (base as u64) + (drafts.len() as u64) > (MAX_ID as u64) + 1 {
            return Err(Error::IllegalArgument("identifier space exhausted".to_owned()));
        }
    }
    // Materialize and append, oldest first.
    let ghost start = spec_next_of(old(log)@);
    let mut out: Vec<Transaction> = Vec::new();
    let mut k: usize = 0;
    while k < datas.len()
        invariant
            0 <= k <= datas@.len(),
            log.wf(),
            ds.len() > 0 ==> can_append(old(log)@),
            time is Some ==> ts_wf(time->0),
            ds == drafts@.map_values(|q: QueuedTransaction| q@),
            ds.len() == datas@.len(),
            forall|j: int| 0 <= j < ds.len() ==> draft_wf(#[trigger] ds[j]),
            forall|j: int|
                0 <= j < ds.len() ==> (#[trigger] datas@[j])@ == (DataV {
                    gid: ds[j].gid,
                    pid: ds[j].pid,
                    text: ds[j].text,
                }),
            start == spec_next_of(old(log)@),
            ds.len() > 0 ==> start + ds.len() - 1 <= MAX_ID,
            start >= 1,
            out@.len() == k,
            log@ == old(log)@ + out@.map_values(|t: Transaction| t@),
            k > 0 ==> log@.len() > 0 && log@.last().id == start + k - 1,
            k == 0 ==> log@ == old(log)@,
            k < datas@.len() ==> spec_next_of(log@) == start + k,
            forall|j: int| 0 <= j < k ==> (#[trigger] out@[j])@.id == start + j,
            forall|j: int|
                0 <= j < k ==> (#[trigger] out@[j])@.data == (DataV {
                    gid: ds[j].gid,
                    pid: ds[j].pid,
                    text: ds[j].text,
                }),
            forall|j: int| 0 <= j < k ==> tx_wf((#[trigger] out@[j])@),
            forall|j: int|
                0 <= j < k ==> (#[trigger] out@[j])@.hash.bytes.len() == 32 && out@[j]@.hash.string
                    == crate::text::spec_hex_upper(out@[j]@.hash.bytes),
            time is Some ==> forall|j: int| 0 <= j < k ==> (#[trigger] out@[j])@.ts == time->0,
        decreases datas@.len() - k,
    {
        let data = datas[k].clone();
        proof {
            assert(data@ == datas@[k as int]@);
            assert(can_append(log@));
        }
        let tx = match log.create(data, time) {
            Ok(tx) => tx,
            Err(e) => {
                proof {
                    assert(false);
                }
                return Err(e);
            },
        };
        let ghost before = out@.map_values(|t: Transaction| t@);
        let ghost tv = tx@;
        out.push(tx);
        proof {
            assert(out@.map_values(|t: Transaction| t@) =~= before.push(tv));
            assert(log@ =~= old(log)@ + out@.map_values(|t: Transaction| t@));
        }
        k = k + 1;
    }
    proof {
        if ds.len() == 0 {
            assert(log@ =~= old(log)@ + out@.map_values(|t: Transaction| t@));
        }
    }
    Ok(out)
}


/// The queue scenario, composed: when a flush extends a well-formed ledger —
/// as `flush_drafts` ensures — the returned batch passes chain verification
/// throughout: the first new record against the old tail (or against no
/// predecessor on an empty ledger), and every later one against the record
/// flushed just before it, in submission order.
pub proof fn lemma_flushed_batch_chains(
    s_old: Seq<TransactionV>,
    s_new: Seq<TransactionV>,
    txs: Seq<TransactionV>,
)
    requires
        chain_wf(s_new),
        s_new == s_old + txs,
    ensures
        forall|i: int|
            1 <= i < txs.len() ==> spec_verify(#[trigger] txs[i], Some(txs[i - 1])) is Ok,
        txs.len() > 0 && s_old.len() > 0 ==> spec_verify(txs[0], Some(s_old.last())) is Ok,
        txs.len() > 0 && s_old.len() == 0 ==> spec_verify(txs[0], None) is Ok,
{
    assert forall|i: int|
        1 <= i < txs.len() implies spec_verify(#[trigger] txs[i], Some(txs[i - 1])) is Ok by {
        let k = s_old.len() + i;
        assert(s_new[k] == txs[i]);
        assert(s_new[k - 1] == txs[i - 1]);
        assert(spec_verify(s_new[k], Some(s_new[k - 1])) is Ok);
    }
    if txs.len() > 0 {
        let k = s_old.len() as int;
        assert(s_new[k] == txs[0]);
        if s_old.len() > 0 {
            assert(s_new[k - 1] == s_old.last());
            assert(spec_verify(s_new[k], Some(s_new[k - 1])) is Ok);
        } else {
            assert(spec_verify(s_new[0], None) is Ok);
        }
    }
}

} // verus!
