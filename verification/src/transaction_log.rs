//! The stores: the ordered in-memory index, and the pure logic of the
//! durable file log — building the next chained record, replaying a whole
//! file, and recovering the tail from a bounded final chunk.
//!
//! File bytes themselves are read and written by the surrounding program;
//! everything here works on the text those bytes hold, so every decision the
//! stores make is verified.

use vstd::prelude::*;

use crate::codec::{spec_parse_line, lemma_parse_line_wf, split_lines};
use crate::text::{lemma_split_on_len, push_char, spec_hex_upper, spec_split_lines, spec_split_on};
use crate::transaction::{
    data_wf, spec_chain_input, spec_line_of, spec_next_id, spec_prev_of, spec_verify, ts_wf,
    tx_wf, verify_transaction, Error, Transaction, TransactionData, TransactionId,
    TransactionTime, TransactionV, VerifyError, MAX_ID, MIN_ID,
};

verus! {

// ---------------------------------------------------------------------------
// Errors
// ---------------------------------------------------------------------------

/// Failures of the file-backed store.
#[derive(Debug)]
pub enum FileError {
    /// The filesystem failed; carries the reported reason.
    Io(String),
    /// A stored line is not a valid record.
    Transaction(Error),
    /// The stored chain fails verification.
    Verify(VerifyError),
    /// The file's shape is beyond recovery.
    Other(String),
}

// ---------------------------------------------------------------------------
// Chain well-formedness
// ---------------------------------------------------------------------------

/// An ordered sequence of records forming a verified chain: every record is
/// well formed, the first verifies with no predecessor, and each later one
/// verifies against the record before it.
pub open spec fn chain_wf(s: Seq<TransactionV>) -> bool {
    &&& forall|i: int| 0 <= i < s.len() ==> tx_wf(#[trigger] s[i])
    &&& s.len() > 0 ==> spec_verify(s[0], None) is Ok
    &&& forall|i: int| 1 <= i < s.len() ==> spec_verify(#[trigger] s[i], Some(s[i - 1])) is Ok
}

/// The identifier the next created record gets: the successor of the last
/// record's, or the minimum on an empty ledger.
pub open spec fn spec_next_of(s: Seq<TransactionV>) -> u32 {
    if s.len() > 0 {
        spec_next_id(s.last().id)
    } else {
        MIN_ID
    }
}

/// Whether a ledger can still take one more record: creation treats
/// exhaustion of the identifier space as a hard error rather than silently
/// wrapping and reusing identifiers.
pub open spec fn can_append(s: Seq<TransactionV>) -> bool {
    s.len() == 0 || s.last().id < MAX_ID
}

// ---------------------------------------------------------------------------
// Building the next record
// ---------------------------------------------------------------------------

/// Builds the record that extends a chain whose last record is `last`:
/// assigns the successor identifier, stamps the given time (or the current
/// time), and hashes against `last`.
pub fn make_next(
    last: Option<&Transaction>,
    data: TransactionData,
    time: Option<TransactionTime>,
) -> (r: Result<Transaction, Error>)
    requires
        data_wf(data@),
        last is Some ==> tx_wf(last->0@),
        time is Some ==> ts_wf(time->0),
    ensures
        r is Ok <==> !(last is Some && last->0@.id >= MAX_ID),
        r is Err ==> r->Err_0 is IllegalArgument,
        r is Ok ==> {
            let t = r->Ok_0@;
            &&& tx_wf(t)
            &&& t.id == (match last {
                Some(p) => spec_next_id(p@.id),
                None => MIN_ID,
            })
            &&& t.data == data@
            &&& (time is Some ==> t.ts == time->0)
            &&& ts_wf(t.ts)
            &&& t.hash.bytes == crate::transaction::sha256_of(
                spec_chain_input(t, spec_prev_of(last)),
            )
            &&& t.hash.bytes.len() == 32
            &&& t.hash.string == spec_hex_upper(t.hash.bytes)
            &&& spec_verify(t, spec_prev_of(last)) is Ok
        },
{
    let id = match last {
        Some(p) => {
            if p.id.inner() >= MAX_ID {
                return Err(Error::IllegalArgument("identifier space exhausted".to_owned()));
            }
            p.id.next()
        },
        None => TransactionId(MIN_ID),
    };
    let ts = match time {
        Some(t) => t,
        None => TransactionTime::current(),
    };
    let tx = Transaction::new(id, ts, data, last);
    proof {
        reveal(crate::transaction::spec_verify);
    }
    Ok(tx)
}

// ---------------------------------------------------------------------------
// In-memory index
// ---------------------------------------------------------------------------

/// The fully materialized in-memory store: the whole chain, ordered by
/// creation, with constant-time access to the tail.
#[derive(Debug)]
pub struct FullTransactionLog {
    pub log: Vec<Transaction>,
}

impl View for FullTransactionLog {
    type V = Seq<TransactionV>;

    open spec fn view(&self) -> Seq<TransactionV> {
        self.log@.map_values(|t: Transaction| t@)
    }
}

impl FullTransactionLog {
    pub open spec fn wf(&self) -> bool {
        chain_wf(self@)
    }

    pub fn new() -> (r: Self)
        ensures
            r@ =~= Seq::<TransactionV>::empty(),
            r.wf(),
    {
        let r = FullTransactionLog { log: Vec::new() };
        proof {
            assert(r@ =~= Seq::<TransactionV>::empty());
        }
        r
    }

    /// Wraps an already-verified chain, as replayed from a durable log.
    pub fn from_records(records: Vec<Transaction>) -> (r: Self)
        requires
            chain_wf(records@.map_values(|t: Transaction| t@)),
        ensures
            r@ == records@.map_values(|t: Transaction| t@),
            r.wf(),
    {
        FullTransactionLog { log: records }
    }

    /// The most recent record, if any.
    pub fn last(&self) -> (r: Option<Transaction>)
        ensures
            r is Some <==> self@.len() > 0,
            r is Some ==> r->0@ == self@.last(),
    {
        if self.log.len() == 0 {
            None
        } else {
            Some(self.log[self.log.len() - 1].clone())
        }
    }

    /// The identifier the next created record would get.
    pub fn next_id(&self) -> (r: TransactionId)
        ensures
            r.0 == spec_next_of(self@),
    {
        if self.log.len() == 0 {
            TransactionId(MIN_ID)
        } else {
            self.log[self.log.len() - 1].id.next()
        }
    }

    /// Appends a freshly chained record carrying `data`, stamped with the
    /// given time or the current one; fails only when the identifier space
    /// is exhausted, leaving the store unchanged.
    pub fn create(&mut self, data: TransactionData, time: Option<TransactionTime>) -> (r: Result<
        Transaction,
        Error,
    >)
        requires
            old(self).wf(),
            data_wf(data@),
            time is Some ==> ts_wf(time->0),
        ensures
            final(self).wf(),
            r is Ok <==> can_append(old(self)@),
            r is Err ==> final(self)@ == old(self)@ && r->Err_0 is IllegalArgument,
            r is Ok ==> {
                let t = r->Ok_0@;
                &&& final(self)@ == old(self)@.push(t)
                &&& t.id == spec_next_of(old(self)@)
                &&& t.data == data@
                &&& (time is Some ==> t.ts == time->0)
                &&& ts_wf(t.ts)
                &&& tx_wf(t)
                &&& t.hash.bytes.len() == 32
                &&& t.hash.string == spec_hex_upper(t.hash.bytes)
                &&& spec_verify(
                    t,
                    if old(self)@.len() > 0 {
                        Some(old(self)@.last())
                    } else {
                        None
                    },
                ) is Ok
            },
    {
        let prev: Option<&Transaction> = if self.log.len() > 0 {
            Some(&self.log[self.log.len() - 1])
        } else {
            None
        };
        let tx = match make_next(prev, data, time) {
            Ok(tx) => tx,
            Err(e) => {
                return Err(e);
            },
        };
        let c = tx.clone();
        let ghost olds = self@;
        let ghost t = tx@;
        self.log.push(tx);
        proof {
            assert(self@ =~= olds.push(t));
            assert forall|i: int| 1 <= i < self@.len() implies spec_verify(
                #[trigger] self@[i],
                Some(self@[i - 1]),
            ) is Ok by {
                if i < olds.len() {
                    assert(spec_verify(olds[i], Some(olds[i - 1])) is Ok);
                }
            }
        }
        Ok(c)
    }

    /// Mirrors into the index a record just appended to the durable log; the
    /// record must extend the index's chain, which a caller checks with
    /// `verify_transaction` against `last`.
    pub fn mirror(&mut self, tx: Transaction)
        requires
            old(self).wf(),
            tx_wf(tx@),
            spec_verify(
                tx@,
                if old(self)@.len() > 0 {
                    Some(old(self)@.last())
                } else {
                    None
                },
            ) is Ok,
        ensures
            final(self).wf(),
            final(self)@ == old(self)@.push(tx@),
    {
        let ghost olds = self@;
        let ghost t = tx@;
        self.log.push(tx);
        proof {
            assert(self@ =~= olds.push(t));
            assert forall|i: int| 1 <= i < self@.len() implies spec_verify(
                #[trigger] self@[i],
                Some(self@[i - 1]),
            ) is Ok by {
                if i < olds.len() {
                    assert(spec_verify(olds[i], Some(olds[i - 1])) is Ok);
                }
            }
        }
    }

    /// The record with the given identifier, if one is stored; the earliest
    /// one, should a chain ever carry an identifier twice.
    pub fn get_by_id(&self, id: u32) -> (r: Option<Transaction>)
        ensures
            r is Some <==> (exists|i: int| 0 <= i < self@.len() && (#[trigger] self@[i]).id == id),
            r is Some ==> (exists|i: int|
                0 <= i < self@.len() && r->0@ == self@[i] && (#[trigger] self@[i]).id == id && (
                forall|j: int| 0 <= j < i ==> (#[trigger] self@[j]).id != id)),
    {
        let mut i: usize = 0;
        while i < self.log.len()
            invariant
                0 <= i <= self@.len(),
                self@.len() == self.log@.len(),
                forall|j: int| 0 <= j < i ==> (#[trigger] self@[j]).id != id,
            decreases self@.len() - i,
        {
            if self.log[i].id.inner() == id {
                let r = self.log[i].clone();
                proof {
                    assert(self@[i as int].id == id);
                    assert(self@.contains(r@));
                }
                return Some(r);
            }
            i = i + 1;
        }
        None
    }

    /// The whole chain, in order.
    pub fn get_all(&self) -> (r: Vec<Transaction>)
        ensures
            r@.map_values(|t: Transaction| t@) == self@,
    {
        let mut out: Vec<Transaction> = Vec::new();
        let mut i: usize = 0;
        while i < self.log.len()
            invariant
                0 <= i <= self@.len(),
                self@.len() == self.log@.len(),
                out@.map_values(|t: Transaction| t@) =~= self@.take(i as int),
            decreases self@.len() - i,
        {
            let c = self.log[i].clone();
            proof {
                assert(c@ == self@[i as int]);
            }
            let ghost before = out@.map_values(|t: Transaction| t@);
            out.push(c);
            proof {
                assert(out@.map_values(|t: Transaction| t@) =~= before.push(self@[i as int]));
                assert(self@.take(i + 1) =~= self@.take(i as int).push(self@[i as int]));
            }
            i = i + 1;
        }
        proof {
            assert(self@.take(self@.len() as int) =~= self@);
        }
        out
    }
}

// ---------------------------------------------------------------------------
// Durable file log: the pure logic
// ---------------------------------------------------------------------------

/// The file-backed append-only store. The struct carries the file's path;
/// reading and writing the bytes is the surrounding program's work, through
/// `encode_line`, `replay` and `recover_last`.
#[derive(Debug)]
pub struct SimpleFileLog {
    pub path: String,
}

impl SimpleFileLog {
    pub fn new(path: String) -> (r: Self)
        ensures
            r.path@ == path@,
    {
        SimpleFileLog { path }
    }

    pub fn path<'a>(&'a self) -> (r: &'a str)
        ensures
            r@ == self.path@,
    {
        self.path.as_str()
    }
}

/// The line the durable log appends for `tx`: its canonical text and a
/// terminating newline.
pub fn encode_line(tx: &Transaction) -> (r: String)
    requires
        tx_wf(tx@),
    ensures
        r@ == spec_line_of(tx@) + seq!['\n'],
{
    let mut s = tx.to_string();
    push_char(&mut s, '\n');
    proof {
        assert(s@ =~= spec_line_of(tx@) + seq!['\n']);
    }
    s
}

/// How a full replay of a log text can fail.
pub ghost enum ReplayErr {
    /// Some line is not a valid record.
    Parse,
    /// Some record fails verification against its predecessor.
    Verify(VerifyError),
}

/// Full sequential replay: parse every line in order and verify each record
/// against the one before it, stopping at the first failure.
pub open spec fn spec_replay(lines: Seq<Seq<char>>, prev: Option<TransactionV>) -> Result<
    Seq<TransactionV>,
    ReplayErr,
>
    decreases lines.len(),
{
    if lines.len() == 0 {
        Ok(Seq::<TransactionV>::empty())
    } else {
        match spec_parse_line(lines[0]) {
            None => Err(ReplayErr::Parse),
            Some(t) => {
                if spec_verify(t, prev) is Ok {
                    match spec_replay(lines.drop_first(), Some(t)) {
                        Ok(rest) => Ok(seq![t] + rest),
                        Err(e) => Err(e),
                    }
                } else {
                    Err(ReplayErr::Verify(spec_verify(t, prev)->Err_0))
                }
            },
        }
    }
}

/// What a successful replay yields: one record per line, each parsed from
/// its line, the first verifying against `prev` and the rest chained.
pub proof fn lemma_replay_props(lines: Seq<Seq<char>>, prev: Option<TransactionV>)
    requires
        spec_replay(lines, prev) is Ok,
    ensures
        ({
            let rs = spec_replay(lines, prev)->Ok_0;
            &&& rs.len() == lines.len()
            &&& forall|i: int|
                0 <= i < rs.len() ==> Some(#[trigger] rs[i]) == spec_parse_line(lines[i])
            &&& forall|i: int| 0 <= i < rs.len() ==> tx_wf(#[trigger] rs[i])
            &&& (rs.len() > 0 ==> spec_verify(rs[0], prev) is Ok)
            &&& forall|i: int|
                1 <= i < rs.len() ==> spec_verify(#[trigger] rs[i], Some(rs[i - 1])) is Ok
        }),
    decreases lines.len(),
{
    if lines.len() > 0 {
        let t = spec_parse_line(lines[0])->0;
        lemma_replay_props(lines.drop_first(), Some(t));
        lemma_parse_line_wf(lines[0]);
        let rs = spec_replay(lines, prev)->Ok_0;
        let rest = spec_replay(lines.drop_first(), Some(t))->Ok_0;
        assert(rs =~= seq![t] + rest);
        assert forall|i: int| 0 <= i < rs.len() implies Some(#[trigger] rs[i]) == spec_parse_line(
            lines[i],
        ) by {
            if i > 0 {
                assert(rs[i] == rest[i - 1]);
                assert(lines[i] == lines.drop_first()[i - 1]);
            }
        }
        assert forall|i: int| 1 <= i < rs.len() implies spec_verify(
            #[trigger] rs[i],
            Some(rs[i - 1]),
        ) is Ok by {
            if i == 1 {
                assert(rest.len() > 0 && spec_verify(rest[0], Some(t)) is Ok);
            } else {
                assert(rs[i] == rest[i - 1]);
                assert(rs[i - 1] == rest[i - 2]);
                assert(spec_verify(rest[i - 1], Some(rest[i - 2])) is Ok);
            }
        }
    }
}

/// A successful replay from no predecessor yields a well-formed chain.
pub proof fn lemma_replay_chain_wf(lines: Seq<Seq<char>>)
    requires
        spec_replay(lines, None) is Ok,
    ensures
        chain_wf(spec_replay(lines, None)->Ok_0),
{
    lemma_replay_props(lines, None);
}

impl SimpleFileLog {
    /// Replays a whole log text: parses every line and verifies every
    /// consecutive pair from the start — the full audit that `load` runs
    /// once at startup.
    #[verifier::rlimit(60)]
    pub fn replay(text: &str) -> (r: Result<Vec<Transaction>, FileError>)
        ensures
            ({
                let sr = spec_replay(spec_split_lines(text@), None);
                &&& (r is Ok <==> sr is Ok)
                &&& (r is Ok ==> r->Ok_0@.map_values(|t: Transaction| t@) == sr->Ok_0)
                &&& (r is Ok ==> chain_wf(r->Ok_0@.map_values(|t: Transaction| t@)))
                &&& (r is Err ==> match sr->Err_0 {
                    ReplayErr::Parse => r->Err_0 is Transaction,
                    ReplayErr::Verify(e) => r->Err_0 is Verify && r->Err_0->Verify_0 == e,
                })
            }),
    {
        let lines = split_lines(text);
        let ghost all = spec_split_lines(text@);
        let mut out: Vec<Transaction> = Vec::new();
        let mut i: usize = 0;
        proof {
            assert(all.skip(0) =~= all);
            assert(lines@.len() == lines.deep_view().len());
            assert(out@.map_values(|t: Transaction| t@) =~= Seq::<TransactionV>::empty());
        }
        while i < lines.len()
            invariant
                0 <= i <= lines@.len(),
                all == spec_split_lines(text@),
                lines.deep_view() == all,
                lines@.len() == all.len(),
                out@.len() == i,
                spec_replay(all, None) == spec_replay_continue(
                    all,
                    i as int,
                    out@.map_values(|t: Transaction| t@),
                ),
            decreases lines@.len() - i,
        {
            let ghost acc = out@.map_values(|t: Transaction| t@);
            proof {
                assert(lines.deep_view()[i as int] == lines@[i as int]@);
            }
            let tx = match Transaction::parse(lines[i].as_str()) {
                Ok(tx) => tx,
                Err(e) => {
                    proof {
                        lemma_replay_step_parse_fail(all, i as int, acc);
                    }
                    return Err(FileError::Transaction(e));
                },
            };
            let prev: Option<&Transaction> = if out.len() > 0 {
                Some(&out[out.len() - 1])
            } else {
                None
            };
            proof {
                assert(spec_prev_of(prev) == spec_prev_last(acc));
            }
            match verify_transaction(&tx, prev) {
                Ok(()) => {},
                Err(e) => {
                    proof {
                        lemma_replay_step_verify_fail(all, i as int, acc, tx@, e);
                    }
                    return Err(FileError::Verify(e));
                },
            }
            let ghost t = tx@;
            out.push(tx);
            proof {
                assert(out@.map_values(|t2: Transaction| t2@) =~= acc.push(t));
                lemma_replay_step_ok(all, i as int, acc, t);
            }
            i = i + 1;
        }
        proof {
            lemma_replay_continue_done(all, out@.map_values(|t: Transaction| t@));
            lemma_replay_chain_wf(all);
        }
        Ok(out)
    }
}

/// The predecessor the next replayed record must verify against: the last
/// record accepted so far, if any.
pub open spec fn spec_prev_last(acc: Seq<TransactionV>) -> Option<TransactionV> {
    if acc.len() > 0 {
        Some(acc.last())
    } else {
        None
    }
}

/// Replay of the whole, phrased as the records already accepted plus a
/// replay of the remaining lines.
pub open spec fn spec_replay_continue(
    lines: Seq<Seq<char>>,
    k: int,
    acc: Seq<TransactionV>,
) -> Result<Seq<TransactionV>, ReplayErr> {
    match spec_replay(lines.skip(k), spec_prev_last(acc)) {
        Ok(rest) => Ok(acc + rest),
        Err(e) => Err(e),
    }
}

proof fn lemma_replay_step_parse_fail(all: Seq<Seq<char>>, i: int, acc: Seq<TransactionV>)
    requires
        0 <= i < all.len(),
        spec_parse_line(all[i]) is None,
    ensures
        spec_replay_continue(all, i, acc) == Err::<Seq<TransactionV>, ReplayErr>(ReplayErr::Parse),
{
    assert(all.skip(i)[0] == all[i]);
}

proof fn lemma_replay_step_verify_fail(
    all: Seq<Seq<char>>,
    i: int,
    acc: Seq<TransactionV>,
    t: TransactionV,
    e: VerifyError,
)
    requires
        0 <= i < all.len(),
        spec_parse_line(all[i]) == Some(t),
        spec_verify(t, spec_prev_last(acc)) == Err::<(), VerifyError>(e),
    ensures
        spec_replay_continue(all, i, acc) == Err::<Seq<TransactionV>, ReplayErr>(
            ReplayErr::Verify(e),
        ),
{
    assert(all.skip(i)[0] == all[i]);
}

proof fn lemma_replay_step_ok(all: Seq<Seq<char>>, i: int, acc: Seq<TransactionV>, t: TransactionV)
    requires
        0 <= i < all.len(),
        spec_parse_line(all[i]) == Some(t),
        spec_verify(t, spec_prev_last(acc)) is Ok,
    ensures
        spec_replay_continue(all, i, acc) == spec_replay_continue(all, i + 1, acc.push(t)),
{
    assert(all.skip(i)[0] == all[i]);
    assert(all.skip(i).drop_first() =~= all.skip(i + 1));
    assert(spec_prev_last(acc.push(t)) == Some(t));
    match spec_replay(all.skip(i + 1), Some(t)) {
        Ok(rest) => {
            assert(acc + (seq![t] + rest) =~= acc.push(t) + rest);
        },
        Err(_) => {},
    }
}

proof fn lemma_replay_continue_done(all: Seq<Seq<char>>, acc: Seq<TransactionV>)
    ensures
        spec_replay_continue(all, all.len() as int, acc) == Ok::<Seq<TransactionV>, ReplayErr>(
            acc,
        ),
{
    assert(all.skip(all.len() as int) =~= Seq::<Seq<char>>::empty());
    assert(acc + Seq::<TransactionV>::empty() =~= acc);
}

/// In a verified chain whose identifiers never reach the wrap-around point,
/// each record's identifier is exactly the first one's plus its position.
pub proof fn lemma_chain_ids_consecutive(s: Seq<TransactionV>, i: int)
    requires
        chain_wf(s),
        0 <= i < s.len(),
        s[0].id + s.len() - 1 <= MAX_ID,
    ensures
        s[i].id == s[0].id + i,
    decreases i,
{
    reveal(crate::transaction::spec_verify);
    if i > 0 {
        lemma_chain_ids_consecutive(s, i - 1);
        assert(spec_verify(s[i], Some(s[i - 1])) is Ok);
        assert(tx_wf(s[i - 1]));
    }
}

/// Identifiers in such a chain are strictly increasing, so the last record
/// holds the maximum identifier and every lookup is unambiguous.
pub proof fn lemma_chain_ids_increasing(s: Seq<TransactionV>)
    requires
        chain_wf(s),
        s.len() > 0,
        s[0].id + s.len() - 1 <= MAX_ID,
    ensures
        forall|i: int, j: int| 0 <= i < j < s.len() ==> s[i].id < s[j].id,
{
    assert forall|i: int, j: int| 0 <= i < j < s.len() implies s[i].id < s[j].id by {
        lemma_chain_ids_consecutive(s, i);
        lemma_chain_ids_consecutive(s, j);
    }
}

/// The canonical lines of a sequence of records, joined by newlines, no
/// trailing newline: what a read of the whole ledger renders.
pub open spec fn spec_render_all(s: Seq<TransactionV>) -> Seq<char>
    decreases s.len(),
{
    if s.len() == 0 {
        Seq::<char>::empty()
    } else if s.len() == 1 {
        spec_line_of(s[0])
    } else {
        spec_render_all(s.drop_last()) + seq!['\n'] + spec_line_of(s.last())
    }
}

/// Renders the whole ledger, one record per line.
pub fn render_all(txs: &Vec<Transaction>) -> (r: String)
    requires
        forall|i: int| 0 <= i < txs@.len() ==> tx_wf((#[trigger] txs@[i])@),
    ensures
        r@ == spec_render_all(txs@.map_values(|t: Transaction| t@)),
{
    let ghost all = txs@.map_values(|t: Transaction| t@);
    let mut out = String::new();
    let mut i: usize = 0;
    while i < txs.len()
        invariant
            0 <= i <= txs@.len(),
            all == txs@.map_values(|t: Transaction| t@),
            all.len() == txs@.len(),
            forall|j: int| 0 <= j < txs@.len() ==> tx_wf((#[trigger] txs@[j])@),
            out@ == spec_render_all(all.take(i as int)),
        decreases txs@.len() - i,
    {
        if i > 0 {
            push_char(&mut out, '\n');
        }
        let line = txs[i].to_string();
        out.append(line.as_str());
        proof {
            assert(all.take(i + 1).drop_last() =~= all.take(i as int));
            assert(all.take(i + 1).last() == all[i as int]);
            if i == 0 {
                assert(out@ =~= spec_render_all(all.take(1)));
            } else {
                assert(out@ =~= spec_render_all(all.take(i as int)) + seq!['\n'] + spec_line_of(
                    all[i as int],
                ));
            }
        }
        i = i + 1;
    }
    proof {
        assert(all.take(all.len() as int) =~= all);
    }
    out
}

// ---------------------------------------------------------------------------
// Tail-scan recovery
// ---------------------------------------------------------------------------

/// How tail-scan recovery can fail.
pub ghost enum RecoverErr {
    /// The tail pair (or lone tail record) fails verification.
    Verify(VerifyError),
    /// The last line does not parse although the one before it does: an
    /// unrecoverable consistency fault.
    Inconsistent,
}

/// Tail-scan recovery over the text of the file's final chunk: parse the last
/// two lines and verify the last record against the one before it (or against
/// no predecessor when only the last parses). Recovery never guesses which
/// half of a broken pair is right; it surfaces the error.
pub open spec fn spec_recover(chunk: Seq<char>) -> Result<Option<TransactionV>, RecoverErr> {
    let lines = spec_split_lines(chunk);
    let last_tx = if lines.len() >= 1 {
        spec_parse_line(lines.last())
    } else {
        None
    };
    let last2_tx = if lines.len() >= 2 {
        spec_parse_line(lines[lines.len() - 2])
    } else {
        None
    };
    match (last2_tx, last_tx) {
        (Some(t1), Some(t2)) => if spec_verify(t2, Some(t1)) is Ok {
            Ok(Some(t2))
        } else {
            Err(RecoverErr::Verify(spec_verify(t2, Some(t1))->Err_0))
        },
        (None, Some(t2)) => if spec_verify(t2, None) is Ok {
            Ok(Some(t2))
        } else {
            Err(RecoverErr::Verify(spec_verify(t2, None)->Err_0))
        },
        (None, None) => Ok(None),
        (Some(_), None) => Err(RecoverErr::Inconsistent),
    }
}

impl SimpleFileLog {
    /// Recovers the chain tail from the text of the file's final chunk:
    /// bounded work, whatever the file's full length.
    pub fn recover_last(chunk: &str) -> (r: Result<Option<Transaction>, FileError>)
        ensures
            ({
                let sr = spec_recover(chunk@);
                &&& (r is Ok <==> sr is Ok)
                &&& (r is Ok ==> (r->Ok_0 is Some <==> sr->Ok_0 is Some))
                &&& (r is Ok && r->Ok_0 is Some ==> r->Ok_0->0@ == sr->Ok_0->0 && tx_wf(
                    r->Ok_0->0@,
                ))
                &&& (r is Err ==> match sr->Err_0 {
                    RecoverErr::Verify(e) => r->Err_0 is Verify && r->Err_0->Verify_0 == e,
                    RecoverErr::Inconsistent => r->Err_0 is Other,
                })
            }),
    {
        let lines = split_lines(chunk);
        let n = lines.len();
        proof {
            assert(lines@.len() == lines.deep_view().len());
            if n >= 1 {
                assert(lines.deep_view()[n - 1] == lines@[n - 1]@);
                assert(lines.deep_view().last() == lines@[n - 1]@);
            }
            if n >= 2 {
                assert(lines.deep_view()[n - 2] == lines@[n - 2]@);
            }
        }
        let last_tx: Option<Transaction> = if n >= 1 {
            match Transaction::parse(lines[n - 1].as_str()) {
                Ok(t) => Some(t),
                Err(_) => None,
            }
        } else {
            None
        };
        let last2_tx: Option<Transaction> = if n >= 2 {
            match Transaction::parse(lines[n - 2].as_str()) {
                Ok(t) => Some(t),
                Err(_) => None,
            }
        } else {
            None
        };
        let verdict: Result<(), VerifyError> = match (&last2_tx, &last_tx) {
            (Some(t1), Some(t2)) => verify_transaction(t2, Some(t1)),
            (None, Some(t2)) => verify_transaction(t2, None),
            (None, None) => Ok(()),
            (Some(_), None) => {
                return Err(
                    FileError::Other(
                        "the last line does not parse although the one before it does".to_owned(),
                    ),
                );
            },
        };
        match verdict {
            Ok(()) => Ok(last_tx),
            Err(e) => Err(FileError::Verify(e)),
        }
    }
}

/// Recovery reads only the last two lines: two texts whose final two lines
/// agree recover the same tail.
pub proof fn lemma_recover_tail_only(a: Seq<char>, b: Seq<char>)
    requires
        ({
            let la = spec_split_lines(a);
            let lb = spec_split_lines(b);
            &&& (la.len() >= 1 <==> lb.len() >= 1)
            &&& (la.len() >= 2 <==> lb.len() >= 2)
            &&& (la.len() >= 1 ==> la.last() == lb.last())
            &&& (la.len() >= 2 ==> la[la.len() - 2] == lb[lb.len() - 2])
        }),
    ensures
        spec_recover(a) == spec_recover(b),
{
}

/// A successful full replay makes tail-scan recovery succeed with the same
/// final record.
pub proof fn lemma_recover_agrees_with_replay(text: Seq<char>)
    requires
        spec_replay(spec_split_lines(text), None) is Ok,
    ensures
        spec_recover(text) == Ok::<Option<TransactionV>, RecoverErr>(
            if spec_replay(spec_split_lines(text), None)->Ok_0.len() > 0 {
                Some(spec_replay(spec_split_lines(text), None)->Ok_0.last())
            } else {
                None
            },
        ),
{
    let lines = spec_split_lines(text);
    let rs = spec_replay(lines, None)->Ok_0;
    lemma_replay_props(lines, None);
    if lines.len() == 1 {
        assert(Some(rs[0]) == spec_parse_line(lines[0]));
        assert(lines.last() == lines[0]);
        assert(spec_verify(rs[0], None) is Ok);
    } else if lines.len() >= 2 {
        let n = lines.len() as int;
        assert(Some(rs[n - 1]) == spec_parse_line(lines[n - 1]));
        assert(Some(rs[n - 2]) == spec_parse_line(lines[n - 2]));
        assert(spec_verify(rs[n - 1], Some(rs[n - 2])) is Ok);
        assert(rs.last() == rs[n - 1]);
    }
}

/// Bounded recovery: on a log text whose full replay succeeds, tail-scan
/// recovery from any suffix that begins just after a newline and still holds
/// at least two complete lines returns exactly the record a full replay ends
/// with — recovery cost stays a function of the chunk, not of the file.
pub proof fn lemma_bounded_recovery(full: Seq<char>, cut: Seq<char>, suf: Seq<char>)
    requires
        full == cut + seq!['\n'] + suf,
        spec_replay(spec_split_lines(full), None) is Ok,
        spec_split_lines(suf).len() >= 2,
    ensures
        spec_recover(suf) == Ok::<Option<TransactionV>, RecoverErr>(
            Some(spec_replay(spec_split_lines(full), None)->Ok_0.last()),
        ),
{
    crate::text::lemma_split_on_concat(cut, suf, '\n');
    let rawc = spec_split_on(cut, '\n');
    let raws = spec_split_on(suf, '\n');
    let rawf = spec_split_on(full, '\n');
    assert(rawf =~~= rawc + raws);
    lemma_split_on_len(cut, '\n');
    lemma_split_on_len(suf, '\n');
    let lf = spec_split_lines(full);
    let ls = spec_split_lines(suf);
    assert(rawf.last() == raws.last());
    if raws.last().len() == 0 {
        assert(ls =~~= raws.drop_last());
        assert(lf =~~= rawf.drop_last());
        assert(lf =~~= rawc + ls);
    } else {
        assert(ls =~~= raws);
        assert(lf =~~= rawf);
        assert(lf =~~= rawc + ls);
    }
    assert(lf.len() == rawc.len() + ls.len());
    assert(lf.last() == ls.last());
    assert(lf[lf.len() - 2] == ls[ls.len() - 2]);
    lemma_recover_tail_only(full, suf);
    lemma_recover_agrees_with_replay(full);
    lemma_replay_props(lf, None);
}

} // verus!
