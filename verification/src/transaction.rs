//! The record model: identifiers, timestamps, payloads, chained hashes, and
//! the verification rule that ties a record to its predecessor.
//!
//! A record's hash is the SHA-256 digest of the canonical text of its own
//! fields followed by the predecessor's hash string (nothing, for the first
//! record of a chain). The digest is stored both as raw bytes and as an
//! uppercase hexadecimal string; the string, not the bytes, is what re-enters
//! the successor's hash computation.

use vstd::prelude::*;

use crate::text::{
    all_hex, char_of_digit, hex_upper_string, is_space_char, lemma_hex_decode_upper,
    lemma_hex_upper_all_hex, lemma_hex_upper_len, lemma_trim_no_space, push_char, push_dec8,
    push_pad2, spec_dec8, spec_hex_decode, spec_hex_upper, spec_pad2, spec_trim,
};
use chrono::Datelike;
use chrono::Timelike;
use sha2::Digest;

verus! {

/// Smallest admissible record identifier.
pub const MIN_ID: u32 = 1;

/// Largest admissible record identifier: eight decimal digits.
pub const MAX_ID: u32 = 99_999_999;

/// Largest admissible group identifier.
pub const MAX_GID: u8 = 99;

/// Largest admissible process identifier.
pub const MAX_PID: u8 = 99;

/// Fixed offset of ledger timestamps from UTC, in seconds.
pub const TZ_OFFSET_SECONDS: i32 = 3600;

// ---------------------------------------------------------------------------
// Errors
// ---------------------------------------------------------------------------

/// Construction and parse failures.
#[derive(Debug)]
pub enum Error {
    /// A component value offered at construction is invalid.
    IllegalArgument(String),
    /// A textual record is malformed.
    ParseError(String),
}

/// Chain integrity violations.
#[derive(Debug, PartialEq, Eq, Structural)]
pub enum VerifyError {
    /// The record's identifier is not the expected successor of its
    /// predecessor's: `(expected, actual)`.
    NonConsecutiveID(u32, u32),
    /// The record's stored hash differs from the recomputed one.
    MissmatchingHash(u32),
}

impl Clone for Error {
    fn clone(&self) -> (r: Self)
        ensures
            r == *self,
    {
        match self {
            Error::IllegalArgument(s) => Error::IllegalArgument(s.clone()),
            Error::ParseError(s) => Error::ParseError(s.clone()),
        }
    }
}

impl Clone for VerifyError {
    fn clone(&self) -> (r: Self)
        ensures
            r == *self,
    {
        match self {
            VerifyError::NonConsecutiveID(a, b) => VerifyError::NonConsecutiveID(*a, *b),
            VerifyError::MissmatchingHash(a) => VerifyError::MissmatchingHash(*a),
        }
    }
}

// ---------------------------------------------------------------------------
// Identifier
// ---------------------------------------------------------------------------

/// A record identifier: an integer in `MIN_ID..=MAX_ID`, rendered as eight
/// zero-padded decimal digits.
#[derive(Debug, Clone, Copy, PartialEq, Eq, PartialOrd, Ord, Structural)]
pub struct TransactionId(pub u32);

pub open spec fn id_wf(id: u32) -> bool {
    MIN_ID <= id <= MAX_ID
}

/// The identifier that follows `id` in a chain: one more, wrapping to the
/// minimum after the maximum.
pub open spec fn spec_next_id(id: u32) -> u32 {
    if id >= MAX_ID {
        MIN_ID
    } else {
        (id + 1) as u32
    }
}

impl TransactionId {
    pub fn new(id: u32) -> (r: Result<Self, Error>)
        ensures
            r is Ok <==> id_wf(id),
            r is Ok ==> r->Ok_0.0 == id,
            r is Err ==> r->Err_0 is IllegalArgument,
    {
        if id < MIN_ID || id > MAX_ID {
            return Err(Error::IllegalArgument("Invalid id".to_owned()));
        }
        Ok(TransactionId(id))
    }

    pub fn inner(&self) -> (r: u32)
        ensures
            r == self.0,
    {
        self.0
    }

    /// The identifier of the next record in the chain; total, wrapping to
    /// `MIN_ID` at `MAX_ID`.
    pub fn next(&self) -> (r: Self)
        ensures
            r.0 == spec_next_id(self.0),
    {
        if self.0 >= MAX_ID {
            TransactionId(MIN_ID)
        } else {
            TransactionId(self.0 + 1)
        }
    }
}

impl Default for TransactionId {
    fn default() -> (r: Self)
        ensures
            r.0 == MIN_ID,
    {
        TransactionId(MIN_ID)
    }
}

/// Identifier monotonicity: for every identifier in range, the successor is
/// one greater, except at the maximum, where it wraps to the minimum.
pub proof fn lemma_id_monotonic(id: u32)
    requires
        id_wf(id),
    ensures
        id < MAX_ID ==> spec_next_id(id) == id + 1,
        id == MAX_ID ==> spec_next_id(id) == MIN_ID,
        id_wf(spec_next_id(id)),
{
}

// ---------------------------------------------------------------------------
// Timestamp
// ---------------------------------------------------------------------------

/// A point in time at the ledger's fixed UTC offset, in whole seconds,
/// rendered as `ddmmyy-HH:MM:SS`. Two-digit years fold into 1969..=2068, the
/// usual century window.
#[derive(Debug, Clone, Copy, PartialEq, Eq, Structural)]
pub struct TransactionTime {
    pub day: u8,
    pub month: u8,
    pub year: u8,
    pub hour: u8,
    pub minute: u8,
    pub second: u8,
}

pub open spec fn spec_is_leap_year(y: int) -> bool {
    (y % 4 == 0 && y % 100 != 0) || y % 400 == 0
}

/// The full year a two-digit year denotes.
pub open spec fn spec_full_year(yy: int) -> int {
    if yy <= 68 {
        2000 + yy
    } else {
        1900 + yy
    }
}

pub open spec fn spec_days_in_month(y: int, m: int) -> int {
    if m == 2 {
        if spec_is_leap_year(y) {
            29
        } else {
            28
        }
    } else if m == 4 || m == 6 || m == 9 || m == 11 {
        30
    } else {
        31
    }
}

pub open spec fn ts_wf(t: TransactionTime) -> bool {
    &&& t.year <= 99
    &&& 1 <= t.month <= 12
    &&& 1 <= t.day <= spec_days_in_month(spec_full_year(t.year as int), t.month as int)
    &&& t.hour <= 23
    &&& t.minute <= 59
    &&& t.second <= 59
}

/// The canonical `ddmmyy-HH:MM:SS` rendering of a timestamp.
pub open spec fn spec_ts_str(t: TransactionTime) -> Seq<char> {
    spec_pad2(t.day as int) + spec_pad2(t.month as int) + spec_pad2(t.year as int) + seq!['-']
        + spec_pad2(t.hour as int) + seq![':'] + spec_pad2(t.minute as int) + seq![':']
        + spec_pad2(t.second as int)
}

pub fn days_in_month_for(yy: u8, m: u8) -> (r: u8)
    requires
        yy <= 99,
        1 <= m <= 12,
    ensures
        r == spec_days_in_month(spec_full_year(yy as int), m as int),
{
    if m == 2 {
        let y: u32 = if yy <= 68 {
            2000 + yy as u32
        } else {
            1900 + yy as u32
        };
        if (y % 4 == 0 && y % 100 != 0) || y % 400 == 0 {
            29
        } else {
            28
        }
    } else if m == 4 || m == 6 || m == 9 || m == 11 {
        30
    } else {
        31
    }
}

/// Relies on `chrono::Utc::now` and `DateTime::with_timezone`: the current
/// calendar date and clock time at the ledger's fixed offset, as
/// `(year, month, day, hour, minute, second)`. Chrono keeps the fields of a
/// date-time within their calendar ranges; nothing more is assumed of a
/// reading of the clock.
#[verifier::external_body]
fn now_at_ledger_offset() -> (r: (i32, u32, u32, u32, u32, u32))
    ensures
        1 <= r.1 <= 12,
        1 <= r.2 <= 31,
        r.3 <= 23,
        r.4 <= 59,
        r.5 <= 59,
{
    let now = chrono::Utc::now().with_timezone(
        &chrono::FixedOffset::east_opt(TZ_OFFSET_SECONDS).unwrap(),
    );
    (now.year(), now.month(), now.day(), now.hour(), now.minute(), now.second())
}

impl TransactionTime {
    /// The current time at the ledger's fixed offset. Folding the year into
    /// two digits can invalidate a leap day outside 1969..=2068; the day is
    /// then clamped to the folded month's length.
    pub fn current() -> (r: Self)
        ensures
            ts_wf(r),
    {
        let (year, month, day, hour, minute, second) = now_at_ledger_offset();
        let yy: u8 = (((year % 100) + 100) % 100) as u8;
        let m: u8 = month as u8;
        let dim = days_in_month_for(yy, m);
        let d: u8 = if day as u8 <= dim {
            day as u8
        } else {
            dim
        };
        TransactionTime {
            day: d,
            month: m,
            year: yy,
            hour: hour as u8,
            minute: minute as u8,
            second: second as u8,
        }
    }
}

/// Appends the canonical rendering of `t` to `out`.
pub fn push_ts(out: &mut String, t: &TransactionTime)
    requires
        ts_wf(*t),
    ensures
        final(out)@ == old(out)@ + spec_ts_str(*t),
{
    let ghost orig = out@;
    push_pad2(out, t.day);
    push_pad2(out, t.month);
    push_pad2(out, t.year);
    push_char(out, '-');
    push_pad2(out, t.hour);
    push_char(out, ':');
    push_pad2(out, t.minute);
    push_char(out, ':');
    push_pad2(out, t.second);
    proof {
        assert(out@ =~= orig + spec_ts_str(*t));
    }
}

/// The characters of a canonical timestamp rendering, position by position.
pub proof fn lemma_ts_str_chars(t: TransactionTime)
    requires
        ts_wf(t),
    ensures
        spec_ts_str(t).len() == 15,
        spec_ts_str(t)[0] == char_of_digit(t.day as int / 10),
        spec_ts_str(t)[1] == char_of_digit(t.day as int % 10),
        spec_ts_str(t)[2] == char_of_digit(t.month as int / 10),
        spec_ts_str(t)[3] == char_of_digit(t.month as int % 10),
        spec_ts_str(t)[4] == char_of_digit(t.year as int / 10),
        spec_ts_str(t)[5] == char_of_digit(t.year as int % 10),
        spec_ts_str(t)[6] == '-',
        spec_ts_str(t)[7] == char_of_digit(t.hour as int / 10),
        spec_ts_str(t)[8] == char_of_digit(t.hour as int % 10),
        spec_ts_str(t)[9] == ':',
        spec_ts_str(t)[10] == char_of_digit(t.minute as int / 10),
        spec_ts_str(t)[11] == char_of_digit(t.minute as int % 10),
        spec_ts_str(t)[12] == ':',
        spec_ts_str(t)[13] == char_of_digit(t.second as int / 10),
        spec_ts_str(t)[14] == char_of_digit(t.second as int % 10),
{
}

// ---------------------------------------------------------------------------
// Payload
// ---------------------------------------------------------------------------

/// A record payload: a group identifier, a process identifier, and free text
/// that must avoid the codec's control and delimiter characters.
#[derive(Debug, PartialEq, Eq)]
pub struct TransactionData {
    pub gid: u8,
    pub pid: u8,
    pub text: String,
}

/// The mathematical value of a payload.
pub ghost struct DataV {
    pub gid: u8,
    pub pid: u8,
    pub text: Seq<char>,
}

impl View for TransactionData {
    type V = DataV;

    open spec fn view(&self) -> DataV {
        DataV { gid: self.gid, pid: self.pid, text: self.text@ }
    }
}

/// The characters the payload text must avoid: the codec's field delimiter
/// and line/control characters.
pub open spec fn is_forbidden_char(c: char) -> bool {
    c == '\n' || c == '\r' || c == '\t' || c == ';' || c == '\0'
}

pub open spec fn text_ok(s: Seq<char>) -> bool {
    forall|i: int| 0 <= i < s.len() ==> !is_forbidden_char(#[trigger] s[i])
}

pub open spec fn data_wf(d: DataV) -> bool {
    d.gid <= MAX_GID && d.pid <= MAX_PID && text_ok(d.text)
}

/// The canonical `gg;pp;text` rendering of a payload.
pub open spec fn spec_data_str(d: DataV) -> Seq<char> {
    spec_pad2(d.gid as int) + seq![';'] + spec_pad2(d.pid as int) + seq![';'] + d.text
}

impl TransactionData {
    pub fn new(gid: u8, pid: u8, text: &str) -> (r: Result<Self, Error>)
        ensures
            r is Ok <==> gid <= MAX_GID && pid <= MAX_PID && text_ok(text@),
            r is Ok ==> r->Ok_0@ == (DataV { gid, pid, text: text@ }),
            r is Err ==> r->Err_0 is IllegalArgument,
    {
        if gid > MAX_GID {
            return Err(Error::IllegalArgument("Invalid gid".to_owned()));
        }
        if pid > MAX_PID {
            return Err(Error::IllegalArgument("Invalid pid".to_owned()));
        }
        if !text_chars_ok(text) {
            return Err(Error::IllegalArgument("Invalid text".to_owned()));
        }
        Ok(TransactionData { gid, pid, text: text.to_owned() })
    }

    pub fn gid(&self) -> (r: u8)
        ensures
            r == self@.gid,
    {
        self.gid
    }

    pub fn pid(&self) -> (r: u8)
        ensures
            r == self@.pid,
    {
        self.pid
    }

    pub fn text<'a>(&'a self) -> (r: &'a str)
        ensures
            r@ == self@.text,
    {
        self.text.as_str()
    }
}

impl Clone for TransactionData {
    fn clone(&self) -> (r: Self)
        ensures
            r@ == self@,
    {
        TransactionData { gid: self.gid, pid: self.pid, text: self.text.clone() }
    }
}

/// Whether every character of `s` is admissible payload text.
pub fn text_chars_ok(s: &str) -> (r: bool)
    ensures
        r == text_ok(s@),
{
    let n = s.unicode_len();
    let mut i: usize = 0;
    while i < n
        invariant
            0 <= i <= n,
            n == s@.len(),
            forall|j: int| 0 <= j < i ==> !is_forbidden_char(#[trigger] s@[j]),
        decreases n - i,
    {
        let c = s.get_char(i);
        if c == '\n' || c == '\r' || c == '\t' || c == ';' || c == '\0' {
            return false;
        }
        i = i + 1;
    }
    true
}

// ---------------------------------------------------------------------------
// Hash
// ---------------------------------------------------------------------------

/// A record's chained hash: the raw digest bytes and the uppercase
/// hexadecimal string. For a parsed record the string keeps exactly the text
/// that was read, surrounding whitespace included.
#[derive(Debug)]
pub struct TransactionHash {
    pub vec: Vec<u8>,
    pub string: String,
}

/// The mathematical value of a chained hash.
pub ghost struct HashV {
    pub bytes: Seq<u8>,
    pub string: Seq<char>,
}

impl View for TransactionHash {
    type V = HashV;

    open spec fn view(&self) -> HashV {
        HashV { bytes: self.vec@, string: self.string@ }
    }
}

/// The bytes are exactly what the string's trimmed, even-length uppercase
/// hexadecimal digits encode.
pub open spec fn hash_wf(h: HashV) -> bool {
    &&& all_hex(spec_trim(h.string))
    &&& spec_trim(h.string).len() % 2 == 0
    &&& h.bytes == spec_hex_decode(spec_trim(h.string))
}

impl TransactionHash {
    pub fn as_slice<'a>(&'a self) -> (r: &'a [u8])
        ensures
            r@ == self@.bytes,
    {
        self.vec.as_slice()
    }

    /// The stored hexadecimal rendering; what the codec writes back out.
    pub fn hex_string<'a>(&'a self) -> (r: &'a str)
        ensures
            r@ == self@.string,
    {
        self.string.as_str()
    }
}

impl Clone for TransactionHash {
    fn clone(&self) -> (r: Self)
        ensures
            r@ == self@,
    {
        TransactionHash { vec: clone_bytes(&self.vec), string: self.string.clone() }
    }
}

fn clone_bytes(v: &Vec<u8>) -> (r: Vec<u8>)
    ensures
        r@ == v@,
{
    let mut out: Vec<u8> = Vec::new();
    let mut i: usize = 0;
    while i < v.len()
        invariant
            0 <= i <= v.len(),
            out@ == v@.take(i as int),
        decreases v.len() - i,
    {
        out.push(v[i]);
        proof {
            assert(out@ =~= v@.take(i + 1));
        }
        i = i + 1;
    }
    proof {
        assert(v@.take(v@.len() as int) =~= v@);
    }
    out
}

// ---------------------------------------------------------------------------
// Record
// ---------------------------------------------------------------------------

/// A ledger record. Immutable once constructed; its hash commits to its own
/// fields and to the predecessor's hash string.
#[derive(Debug)]
pub struct Transaction {
    pub id: TransactionId,
    pub ts: TransactionTime,
    pub data: TransactionData,
    pub hash: TransactionHash,
}

/// The mathematical value of a record.
pub ghost struct TransactionV {
    pub id: u32,
    pub ts: TransactionTime,
    pub data: DataV,
    pub hash: HashV,
}

impl View for Transaction {
    type V = TransactionV;

    open spec fn view(&self) -> TransactionV {
        TransactionV { id: self.id.0, ts: self.ts, data: self.data@, hash: self.hash@ }
    }
}

pub open spec fn tx_wf(t: TransactionV) -> bool {
    &&& id_wf(t.id)
    &&& ts_wf(t.ts)
    &&& data_wf(t.data)
    &&& hash_wf(t.hash)
}

/// The canonical text of a record's own fields, each followed by the field
/// delimiter: what enters the record's hash ahead of the predecessor's hash
/// string, and what the record's line starts with.
pub open spec fn spec_core_str(t: TransactionV) -> Seq<char> {
    spec_dec8(t.id as int) + seq![';'] + spec_ts_str(t.ts) + seq![';'] + spec_data_str(t.data)
        + seq![';']
}

/// The predecessor's contribution to a hash computation: its hash string, or
/// nothing for the first record of a chain.
pub open spec fn spec_prev_str(prev: Option<TransactionV>) -> Seq<char> {
    match prev {
        Some(p) => p.hash.string,
        None => Seq::<char>::empty(),
    }
}

/// The full input of a record's hash computation.
pub open spec fn spec_chain_input(t: TransactionV, prev: Option<TransactionV>) -> Seq<char> {
    spec_core_str(t) + spec_prev_str(prev)
}

/// The canonical one-line rendering of a record.
pub open spec fn spec_line_of(t: TransactionV) -> Seq<char> {
    spec_core_str(t) + t.hash.string
}

/// The SHA-256 digest of a character string's UTF-8 bytes; a function of the
/// characters alone.
pub uninterp spec fn sha256_of(s: Seq<char>) -> Seq<u8>;

/// Relies on `sha2::Sha256::digest`: the SHA-256 digest of the string's
/// bytes, 32 bytes long, depending on the input alone.
#[verifier::external_body]
fn sha256_chars(s: &str) -> (r: Vec<u8>)
    ensures
        r@ == sha256_of(s@),
        r@.len() == 32,
{
    sha2::Sha256::digest(s.as_bytes()).to_vec()
}

impl Transaction {
    /// Builds a record over already-validated components, computing its hash
    /// from its own fields and the predecessor's hash string.
    pub fn new(
        id: TransactionId,
        ts: TransactionTime,
        data: TransactionData,
        prev: Option<&Transaction>,
    ) -> (r: Self)
        requires
            id_wf(id.0),
            ts_wf(ts),
            data_wf(data@),
        ensures
            r@.id == id.0,
            r@.ts == ts,
            r@.data == data@,
            r@.hash.bytes == sha256_of(spec_chain_input(r@, spec_prev_of(prev))),
            r@.hash.bytes.len() == 32,
            r@.hash.string == spec_hex_upper(r@.hash.bytes),
            tx_wf(r@),
    {
        let mut s = String::new();
        push_dec8(&mut s, id.0);
        push_char(&mut s, ';');
        push_ts(&mut s, &ts);
        push_char(&mut s, ';');
        push_pad2(&mut s, data.gid);
        push_char(&mut s, ';');
        push_pad2(&mut s, data.pid);
        push_char(&mut s, ';');
        s.append(data.text.as_str());
        push_char(&mut s, ';');
        match prev {
            Some(p) => {
                s.append(p.hash.string.as_str());
            },
            None => {},
        }
        let bytes = sha256_chars(s.as_str());
        let hex = hex_upper_string(&bytes);
        let r = Transaction {
            id,
            ts,
            data,
            hash: TransactionHash { vec: bytes, string: hex },
        };
        proof {
            assert(s@ =~= spec_core_str(r@) + spec_prev_str(spec_prev_of(prev)));
            lemma_hex_upper_wf(r@.hash.bytes);
        }
        r
    }

    pub fn id<'a>(&'a self) -> (r: &'a TransactionId)
        ensures
            r.0 == self@.id,
    {
        &self.id
    }

    pub fn ts<'a>(&'a self) -> (r: &'a TransactionTime)
        ensures
            *r == self@.ts,
    {
        &self.ts
    }

    pub fn data<'a>(&'a self) -> (r: &'a TransactionData)
        ensures
            r@ == self@.data,
    {
        &self.data
    }

    pub fn hash<'a>(&'a self) -> (r: &'a TransactionHash)
        ensures
            r@ == self@.hash,
    {
        &self.hash
    }
}

impl Clone for Transaction {
    fn clone(&self) -> (r: Self)
        ensures
            r@ == self@,
    {
        Transaction {
            id: self.id,
            ts: self.ts,
            data: self.data.clone(),
            hash: self.hash.clone(),
        }
    }
}

/// The view of an optional predecessor reference.
pub open spec fn spec_prev_of(prev: Option<&Transaction>) -> Option<TransactionV> {
    match prev {
        Some(p) => Some(p@),
        None => None,
    }
}

/// A freshly computed hash is well formed: its uppercase hexadecimal string
/// trims to itself and decodes back to its bytes.
pub proof fn lemma_hex_upper_wf(bytes: Seq<u8>)
    ensures
        hash_wf(HashV { bytes, string: spec_hex_upper(bytes) }),
{
    let s = spec_hex_upper(bytes);
    lemma_hex_upper_all_hex(bytes);
    lemma_hex_upper_len(bytes);
    assert(forall|i: int| 0 <= i < s.len() ==> !is_space_char(#[trigger] s[i]));
    lemma_trim_no_space(s);
    lemma_hex_decode_upper(bytes);
}

// ---------------------------------------------------------------------------
// Verification
// ---------------------------------------------------------------------------

/// The chain verification rule: the identifier must follow the predecessor's,
/// and the stored hash bytes must equal the digest recomputed from the
/// record's own fields and the predecessor's hash string.
#[verifier::opaque]
pub open spec fn spec_verify(t: TransactionV, prev: Option<TransactionV>) -> Result<
    (),
    VerifyError,
> {
    if prev is Some && t.id != spec_next_id(prev->0.id) {
        Err(VerifyError::NonConsecutiveID(spec_next_id(prev->0.id), t.id))
    } else if t.hash.bytes != sha256_of(spec_chain_input(t, prev)) {
        Err(VerifyError::MissmatchingHash(t.id))
    } else {
        Ok(())
    }
}

/// Checks a record against its predecessor: identifier continuity, then hash
/// continuity, recomputing the digest rather than trusting the stored one.
pub fn verify_transaction(tx: &Transaction, prev: Option<&Transaction>) -> (r: Result<
    (),
    VerifyError,
>)
    requires
        tx_wf(tx@),
    ensures
        r == spec_verify(tx@, spec_prev_of(prev)),
{
    proof {
        reveal(spec_verify);
    }
    if let Some(p) = prev {
        let expected = p.id.next();
        if expected.0 != tx.id.0 {
            return Err(VerifyError::NonConsecutiveID(expected.0, tx.id.0));
        }
    }
    let mut s = String::new();
    push_dec8(&mut s, tx.id.0);
    push_char(&mut s, ';');
    push_ts(&mut s, &tx.ts);
    push_char(&mut s, ';');
    push_pad2(&mut s, tx.data.gid);
    push_char(&mut s, ';');
    push_pad2(&mut s, tx.data.pid);
    push_char(&mut s, ';');
    s.append(tx.data.text.as_str());
    push_char(&mut s, ';');
    match prev {
        Some(p) => {
            s.append(p.hash.string.as_str());
        },
        None => {},
    }
    proof {
        assert(s@ =~= spec_chain_input(tx@, spec_prev_of(prev)));
    }
    let recomputed = sha256_chars(s.as_str());
    if !bytes_eq(&tx.hash.vec, &recomputed) {
        return Err(VerifyError::MissmatchingHash(tx.id.0));
    }
    Ok(())
}

fn bytes_eq(a: &Vec<u8>, b: &Vec<u8>) -> (r: bool)
    ensures
        r == (a@ == b@),
{
    if a.len() != b.len() {
        proof {
            assert(a@ != b@);
        }
        return false;
    }
    let mut i: usize = 0;
    while i < a.len()
        invariant
            0 <= i <= a.len(),
            a@.len() == b@.len(),
            forall|j: int| 0 <= j < i ==> a@[j] == b@[j],
        decreases a.len() - i,
    {
        if a[i] != b[i] {
            proof {
                assert(a@[i as int] != b@[i as int]);
            }
            return false;
        }
        i = i + 1;
    }
    proof {
        assert(a@ =~= b@);
    }
    true
}

// ---------------------------------------------------------------------------
// Chain laws
// ---------------------------------------------------------------------------

/// Chain verification soundness: a record whose identifier follows its
/// predecessor's and whose hash was computed by the chain rule against that
/// predecessor verifies against it.
pub proof fn lemma_chain_verification_sound(prev: TransactionV, curr: TransactionV)
    requires
        curr.id == spec_next_id(prev.id),
        curr.hash.bytes == sha256_of(spec_chain_input(curr, Some(prev))),
    ensures
        spec_verify(curr, Some(prev)) is Ok,
{
    reveal(spec_verify);
}

/// Tamper detection for the stored hash text: once a record verifies, any
/// change to a hexadecimal character of its hash string that still parses to
/// the same number of digits makes verification fail with a hash mismatch.
pub proof fn lemma_tamper_hex_detected(
    t: TransactionV,
    t2: TransactionV,
    prev: Option<TransactionV>,
)
    requires
        spec_verify(t, prev) is Ok,
        hash_wf(t.hash),
        hash_wf(t2.hash),
        t2.id == t.id,
        t2.ts == t.ts,
        t2.data == t.data,
        spec_trim(t2.hash.string) != spec_trim(t.hash.string),
        spec_trim(t2.hash.string).len() == spec_trim(t.hash.string).len(),
    ensures
        spec_verify(t2, prev) == Err::<(), VerifyError>(VerifyError::MissmatchingHash(t2.id)),
{
    crate::text::lemma_hex_decode_injective(spec_trim(t.hash.string), spec_trim(t2.hash.string));
    lemma_tamper_hash_detected(t, t2, prev);
}

/// Tamper detection for the stored hash: once a record verifies, any change
/// to its hash bytes alone makes verification fail with a hash mismatch.
pub proof fn lemma_tamper_hash_detected(
    t: TransactionV,
    t2: TransactionV,
    prev: Option<TransactionV>,
)
    requires
        spec_verify(t, prev) is Ok,
        t2.id == t.id,
        t2.ts == t.ts,
        t2.data == t.data,
        t2.hash.bytes != t.hash.bytes,
    ensures
        spec_verify(t2, prev) == Err::<(), VerifyError>(VerifyError::MissmatchingHash(t2.id)),
{
    reveal(spec_verify);
    assert(spec_chain_input(t2, prev) == spec_chain_input(t, prev));
}

} // verus!
