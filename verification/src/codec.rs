//! The wire/storage codec: the canonical one-line text of a record,
//!
//! ```text
//! <id:8 digits>;<ddmmyy-HH:MM:SS>;<group:2 digits>;<process:2 digits>;<text>;<hash hex>
//! ```
//!
//! and its exact inverse. Parsing recreates a record with the *stored* hash;
//! hash correctness is the verification algorithm's separate concern, so
//! tampered lines still load and can be reported.

use vstd::prelude::*;

use crate::text::{
    all_hex, dec_val, digit_val, is_digit_char, is_hex_char, is_space_char, is_upper_or_digit,
    lemma_char_of_digit, lemma_dec8, lemma_hex_decode_concat, lemma_pad2,
    lemma_parse_uint_nonneg, lemma_split_on_len, lemma_split_on_no_sep, lemma_split_on_prepend,
    lemma_trim_chars, parse_u32_str, parse_u8_str, push_char, push_dec8, push_pad2, spec_dec8,
    spec_hex_decode, spec_pad2, spec_parse_uint, spec_split_on, spec_trim, trim_str,
};
use crate::transaction::{
    data_wf, days_in_month_for, hash_wf, is_forbidden_char, lemma_ts_str_chars, push_ts,
    spec_days_in_month, spec_full_year, spec_line_of, spec_ts_str, text_chars_ok, text_ok, ts_wf,
    tx_wf, DataV, Error, HashV, Transaction, TransactionData, TransactionHash, TransactionId,
    TransactionTime, TransactionV, MAX_GID, MAX_ID, MAX_PID, MIN_ID,
};

verus! {

// ---------------------------------------------------------------------------
// Splitting
// ---------------------------------------------------------------------------

/// The fields of `s` between occurrences of `sep`, as the standard `split`
/// yields them.
pub fn split_on_char(s: &str, sep: char) -> (r: Vec<String>)
    ensures
        r.deep_view() == spec_split_on(s@, sep),
        r@.len() >= 1,
{
    let n = s.unicode_len();
    let mut parts: Vec<String> = Vec::new();
    let mut cur = String::new();
    let mut i: usize = 0;
    proof {
        assert(s@.skip(0) =~= s@);
        lemma_split_on_len(s@, sep);
        let rest = spec_split_on(s@, sep);
        assert(seq![rest[0]] + rest.drop_first() =~~= rest);
        assert(parts.deep_view() =~~= Seq::<Seq<char>>::empty());
    }
    while i < n
        invariant
            0 <= i <= n,
            n == s@.len(),
            spec_split_on(s@, sep) =~~= parts.deep_view() + seq![
                cur@ + spec_split_on(s@.skip(i as int), sep)[0],
            ] + spec_split_on(s@.skip(i as int), sep).drop_first(),
        decreases n - i,
    {
        let c = s.get_char(i);
        proof {
            assert(s@.skip(i as int)[0] == s@[i as int]);
            assert(s@.skip(i as int).drop_first() =~= s@.skip(i + 1));
            lemma_split_on_len(s@.skip(i + 1), sep);
        }
        if c == sep {
            let ghost old_parts = parts.deep_view();
            let ghost old_cur = cur@;
            parts.push(cur);
            cur = String::new();
            proof {
                let restn = spec_split_on(s@.skip(i + 1), sep);
                assert(spec_split_on(s@.skip(i as int), sep) =~~= seq![Seq::<char>::empty()]
                    + restn);
                assert(parts.deep_view() =~~= old_parts + seq![old_cur]);
                assert(old_cur + spec_split_on(s@.skip(i as int), sep)[0] =~= old_cur);
                assert(parts.deep_view() + seq![cur@ + restn[0]] + restn.drop_first() =~~=
                    old_parts + seq![old_cur] + seq![restn[0]] + restn.drop_first());
                assert(seq![restn[0]] + restn.drop_first() =~~= restn);
                assert(spec_split_on(s@, sep) =~~= parts.deep_view() + seq![cur@ + restn[0]]
                    + restn.drop_first());
            }
        } else {
            let ghost old_cur = cur@;
            push_char(&mut cur, c);
            proof {
                let restn = spec_split_on(s@.skip(i + 1), sep);
                assert(spec_split_on(s@.skip(i as int), sep) =~~= seq![seq![s@[i as int]]
                    + restn[0]] + restn.drop_first());
                assert(old_cur + (seq![s@[i as int]] + restn[0]) =~= cur@ + restn[0]);
                assert(spec_split_on(s@, sep) =~~= parts.deep_view() + seq![cur@ + restn[0]]
                    + restn.drop_first());
            }
        }
        i = i + 1;
    }
    let ghost old_parts = parts.deep_view();
    let ghost old_cur = cur@;
    parts.push(cur);
    proof {
        assert(s@.skip(n as int) =~= Seq::<char>::empty());
        let rest = spec_split_on(s@.skip(n as int), sep);
        assert(rest =~~= seq![Seq::<char>::empty()]);
        assert(old_cur + rest[0] =~= old_cur);
        assert(rest.drop_first() =~~= Seq::<Seq<char>>::empty());
        assert(parts.deep_view() =~~= old_parts + seq![old_cur]);
        assert(spec_split_on(s@, sep) =~~= parts.deep_view());
    }
    parts
}

/// The lines of `s`, as the standard `lines` yields them for newline-only
/// line endings: no final empty line when `s` ends in a newline.
pub fn split_lines(s: &str) -> (r: Vec<String>)
    ensures
        r.deep_view() == crate::text::spec_split_lines(s@),
{
    let mut raw = split_on_char(s, '\n');
    proof {
        assert(raw@.len() == raw.deep_view().len());
        assert(raw.deep_view()[raw@.len() - 1] == raw@[raw@.len() - 1]@);
    }
    if raw[raw.len() - 1].as_str().is_empty() {
        let ghost before = raw.deep_view();
        let _ = raw.pop();
        proof {
            assert(raw.deep_view() =~~= before.drop_last());
        }
    }
    raw
}

// ---------------------------------------------------------------------------
// Field parsers
// ---------------------------------------------------------------------------

impl TransactionId {
    /// Parses a decimal identifier and checks its range.
    pub fn parse(s: &str) -> (r: Result<Self, Error>)
        ensures
            r is Ok <==> (spec_parse_uint(s@) is Some && MIN_ID <= spec_parse_uint(s@)->0
                <= MAX_ID),
            r is Ok ==> r->Ok_0.0 as int == spec_parse_uint(s@)->0,
            r is Err ==> r->Err_0 is ParseError,
    {
        match parse_u32_str(s) {
            Some(v) => {
                if MIN_ID <= v && v <= MAX_ID {
                    Ok(TransactionId(v))
                } else {
                    Err(Error::ParseError("Invalid id".to_owned()))
                }
            },
            None => Err(Error::ParseError("Could not parse id".to_owned())),
        }
    }
}

/// The timestamp a parse of `s` against the fixed `ddmmyy-HH:MM:SS` pattern
/// yields: exactly fifteen characters, two-digit fields at fixed positions,
/// and every field within its calendar range.
pub open spec fn spec_parse_ts(s: Seq<char>) -> Option<TransactionTime> {
    if s.len() == 15 && is_digit_char(s[0]) && is_digit_char(s[1]) && is_digit_char(s[2])
        && is_digit_char(s[3]) && is_digit_char(s[4]) && is_digit_char(s[5]) && s[6] == '-'
        && is_digit_char(s[7]) && is_digit_char(s[8]) && s[9] == ':' && is_digit_char(s[10])
        && is_digit_char(s[11]) && s[12] == ':' && is_digit_char(s[13]) && is_digit_char(s[14]) {
        let day = digit_val(s[0]) * 10 + digit_val(s[1]);
        let month = digit_val(s[2]) * 10 + digit_val(s[3]);
        let year = digit_val(s[4]) * 10 + digit_val(s[5]);
        let hour = digit_val(s[7]) * 10 + digit_val(s[8]);
        let minute = digit_val(s[10]) * 10 + digit_val(s[11]);
        let second = digit_val(s[13]) * 10 + digit_val(s[14]);
        if 1 <= month && month <= 12 && 1 <= day && day <= spec_days_in_month(
            spec_full_year(year),
            month,
        ) && hour <= 23 && minute <= 59 && second <= 59 {
            Some(
                TransactionTime {
                    day: day as u8,
                    month: month as u8,
                    year: year as u8,
                    hour: hour as u8,
                    minute: minute as u8,
                    second: second as u8,
                },
            )
        } else {
            None
        }
    } else {
        None
    }
}

fn digit_of(c: char) -> (r: Option<u8>)
    ensures
        r is Some <==> is_digit_char(c),
        r is Some ==> r->0 as int == digit_val(c),
{
    if '0' <= c && c <= '9' {
        Some((c as u32 - 48) as u8)
    } else {
        None
    }
}

impl TransactionTime {
    /// Parses the fixed `ddmmyy-HH:MM:SS` pattern, validating the calendar
    /// date under the ledger's century window.
    pub fn parse(s: &str) -> (r: Result<Self, Error>)
        ensures
            r is Ok <==> spec_parse_ts(s@) is Some,
            r is Ok ==> Some(r->Ok_0) == spec_parse_ts(s@),
            r is Ok ==> ts_wf(r->Ok_0),
            r is Err ==> r->Err_0 is ParseError,
    {
        match Self::parse_opt(s) {
            Some(t) => Ok(t),
            None => Err(Error::ParseError("Could not parse time".to_owned())),
        }
    }

    fn parse_opt(s: &str) -> (r: Option<Self>)
        ensures
            r == spec_parse_ts(s@),
            r is Some ==> ts_wf(r->0),
    {
        if s.unicode_len() != 15 {
            return None;
        }
        let d0 = match digit_of(s.get_char(0)) {
            Some(d) => d,
            None => {
                return None;
            },
        };
        let d1 = match digit_of(s.get_char(1)) {
            Some(d) => d,
            None => {
                return None;
            },
        };
        let d2 = match digit_of(s.get_char(2)) {
            Some(d) => d,
            None => {
                return None;
            },
        };
        let d3 = match digit_of(s.get_char(3)) {
            Some(d) => d,
            None => {
                return None;
            },
        };
        let d4 = match digit_of(s.get_char(4)) {
            Some(d) => d,
            None => {
                return None;
            },
        };
        let d5 = match digit_of(s.get_char(5)) {
            Some(d) => d,
            None => {
                return None;
            },
        };
        if s.get_char(6) != '-' {
            return None;
        }
        let d7 = match digit_of(s.get_char(7)) {
            Some(d) => d,
            None => {
                return None;
            },
        };
        let d8 = match digit_of(s.get_char(8)) {
            Some(d) => d,
            None => {
                return None;
            },
        };
        if s.get_char(9) != ':' {
            return None;
        }
        let d10 = match digit_of(s.get_char(10)) {
            Some(d) => d,
            None => {
                return None;
            },
        };
        let d11 = match digit_of(s.get_char(11)) {
            Some(d) => d,
            None => {
                return None;
            },
        };
        if s.get_char(12) != ':' {
            return None;
        }
        let d13 = match digit_of(s.get_char(13)) {
            Some(d) => d,
            None => {
                return None;
            },
        };
        let d14 = match digit_of(s.get_char(14)) {
            Some(d) => d,
            None => {
                return None;
            },
        };
        let day = d0 * 10 + d1;
        let month = d2 * 10 + d3;
        let year = d4 * 10 + d5;
        let hour = d7 * 10 + d8;
        let minute = d10 * 10 + d11;
        let second = d13 * 10 + d14;
        if !(1 <= month && month <= 12) {
            return None;
        }
        if !(1 <= day && day <= days_in_month_for(year, month)) {
            return None;
        }
        if !(hour <= 23 && minute <= 59 && second <= 59) {
            return None;
        }
        Some(TransactionTime { day, month, year, hour, minute, second })
    }
}

/// A canonical timestamp rendering parses back to the same timestamp.
pub proof fn lemma_ts_round_trip(t: TransactionTime)
    requires
        ts_wf(t),
    ensures
        spec_parse_ts(spec_ts_str(t)) == Some(t),
{
    let s = spec_ts_str(t);
    lemma_ts_str_chars(t);
    lemma_char_of_digit(t.day as int / 10);
    lemma_char_of_digit(t.day as int % 10);
    lemma_char_of_digit(t.month as int / 10);
    lemma_char_of_digit(t.month as int % 10);
    lemma_char_of_digit(t.year as int / 10);
    lemma_char_of_digit(t.year as int % 10);
    lemma_char_of_digit(t.hour as int / 10);
    lemma_char_of_digit(t.hour as int % 10);
    lemma_char_of_digit(t.minute as int / 10);
    lemma_char_of_digit(t.minute as int % 10);
    lemma_char_of_digit(t.second as int / 10);
    lemma_char_of_digit(t.second as int % 10);
    assert(digit_val(s[0]) * 10 + digit_val(s[1]) == t.day as int);
    assert(digit_val(s[2]) * 10 + digit_val(s[3]) == t.month as int);
    assert(digit_val(s[4]) * 10 + digit_val(s[5]) == t.year as int);
    assert(digit_val(s[7]) * 10 + digit_val(s[8]) == t.hour as int);
    assert(digit_val(s[10]) * 10 + digit_val(s[11]) == t.minute as int);
    assert(digit_val(s[13]) * 10 + digit_val(s[14]) == t.second as int);
}

/// The payload a parse of `s` yields: exactly three `;`-separated fields,
/// numeric group and process identifiers in range, admissible text.
pub open spec fn spec_parse_data(s: Seq<char>) -> Option<DataV> {
    let parts = spec_split_on(s, ';');
    if parts.len() == 3 && spec_parse_uint(parts[0]) is Some && spec_parse_uint(parts[0])->0
        <= MAX_GID as int && spec_parse_uint(parts[1]) is Some && spec_parse_uint(parts[1])->0
        <= MAX_PID as int && text_ok(parts[2]) {
        Some(
            DataV {
                gid: spec_parse_uint(parts[0])->0 as u8,
                pid: spec_parse_uint(parts[1])->0 as u8,
                text: parts[2],
            },
        )
    } else {
        None
    }
}

impl TransactionData {
    /// Parses the `gg;pp;text` payload encoding.
    pub fn parse(s: &str) -> (r: Result<Self, Error>)
        ensures
            r is Ok <==> spec_parse_data(s@) is Some,
            r is Ok ==> Some(r->Ok_0@) == spec_parse_data(s@),
            r is Ok ==> data_wf(r->Ok_0@),
            r is Err ==> r->Err_0 is ParseError,
    {
        let parts = split_on_char(s, ';');
        proof {
            assert(parts@.len() == parts.deep_view().len());
        }
        if parts.len() < 3 {
            return Err(Error::ParseError("Incomplete data".to_owned()));
        }
        if parts.len() > 3 {
            return Err(Error::ParseError("Too much data".to_owned()));
        }
        proof {
            assert(parts.deep_view()[0] == parts@[0]@);
            assert(parts.deep_view()[1] == parts@[1]@);
            assert(parts.deep_view()[2] == parts@[2]@);
        }
        let gid = match parse_u8_str(parts[0].as_str()) {
            Some(v) => v,
            None => {
                return Err(Error::ParseError("Could not parse gid".to_owned()));
            },
        };
        if gid > MAX_GID {
            return Err(Error::ParseError("Invalid gid".to_owned()));
        }
        let pid = match parse_u8_str(parts[1].as_str()) {
            Some(v) => v,
            None => {
                return Err(Error::ParseError("Could not parse pid".to_owned()));
            },
        };
        if pid > MAX_PID {
            return Err(Error::ParseError("Invalid pid".to_owned()));
        }
        if !text_chars_ok(parts[2].as_str()) {
            return Err(Error::ParseError("Invalid text".to_owned()));
        }
        let text = parts[2].clone();
        Ok(TransactionData { gid, pid, text })
    }
}

/// Whether `s` is an acceptable stored hash field: its trim is even-length
/// uppercase hexadecimal.
pub open spec fn spec_hash_ok(s: Seq<char>) -> bool {
    all_hex(spec_trim(s)) && spec_trim(s).len() % 2 == 0
}

impl TransactionHash {
    /// Parses a stored hash field: decodes the trimmed hexadecimal digits and
    /// keeps the stored text exactly as read.
    pub fn parse(s: &str) -> (r: Result<Self, Error>)
        ensures
            r is Ok <==> spec_hash_ok(s@),
            r is Ok ==> r->Ok_0@ == (HashV {
                bytes: spec_hex_decode(spec_trim(s@)),
                string: s@,
            }),
            r is Ok ==> hash_wf(r->Ok_0@),
            r is Err ==> r->Err_0 is ParseError,
    {
        let t = trim_str(s);
        let m = t.unicode_len();
        let mut i: usize = 0;
        while i < m
            invariant
                0 <= i <= m,
                m == t@.len(),
                t@ == spec_trim(s@),
                forall|j: int| 0 <= j < i ==> is_upper_or_digit(#[trigger] t@[j]),
            decreases m - i,
        {
            let c = t.get_char(i);
            if !(('0' <= c && c <= '9') || ('A' <= c && c <= 'Z')) {
                proof {
                    assert(!is_hex_char(t@[i as int]));
                }
                return Err(Error::ParseError("Invalid hash character case".to_owned()));
            }
            i = i + 1;
        }
        let mut vec: Vec<u8> = Vec::new();
        let mut k: usize = 0;
        proof {
            assert(t@.take(0) =~= Seq::<char>::empty());
        }
        while k + 1 < m
            invariant
                0 <= k <= m,
                k % 2 == 0,
                m == t@.len(),
                t@ == spec_trim(s@),
                forall|j: int| 0 <= j < m ==> is_upper_or_digit(#[trigger] t@[j]),
                forall|j: int| 0 <= j < k ==> is_hex_char(#[trigger] t@[j]),
                vec@ == spec_hex_decode(t@.take(k as int)),
            decreases m - k,
        {
            let c1 = t.get_char(k);
            let c2 = t.get_char(k + 1);
            if !(('0' <= c1 && c1 <= '9') || ('A' <= c1 && c1 <= 'F')) {
                proof {
                    assert(!is_hex_char(t@[k as int]));
                }
                return Err(Error::ParseError("Invalid hash HEX".to_owned()));
            }
            if !(('0' <= c2 && c2 <= '9') || ('A' <= c2 && c2 <= 'F')) {
                proof {
                    assert(!is_hex_char(t@[k as int + 1]));
                }
                return Err(Error::ParseError("Invalid hash HEX".to_owned()));
            }
            let h1 = hex_val_of(c1);
            let h2 = hex_val_of(c2);
            vec.push(h1 * 16 + h2);
            proof {
                let pair = seq![t@[k as int], t@[k as int + 1]];
                assert(t@.take(k + 2) =~= t@.take(k as int) + pair);
                lemma_hex_decode_concat(t@.take(k as int), pair);
                assert(pair.skip(2) =~= Seq::<char>::empty());
                assert(spec_hex_decode(Seq::<char>::empty()) =~= Seq::<u8>::empty());
                assert(spec_hex_decode(pair) =~= seq![
                    (crate::text::hex_val(pair[0]) * 16 + crate::text::hex_val(pair[1])) as u8,
                ]);
                assert(vec@ =~= spec_hex_decode(t@.take(k + 2)));
            }
            k = k + 2;
        }
        if k < m {
            proof {
                assert(t@.len() % 2 == 1);
            }
            return Err(Error::ParseError("Invalid hash length".to_owned()));
        }
        proof {
            assert(t@.take(m as int) =~= t@);
        }
        Ok(TransactionHash { vec, string: s.to_owned() })
    }
}

fn hex_val_of(c: char) -> (r: u8)
    requires
        is_hex_char(c),
    ensures
        r as int == crate::text::hex_val(c),
        r < 16,
{
    if '0' <= c && c <= '9' {
        (c as u32 - 48) as u8
    } else {
        (c as u32 - 65 + 10) as u8
    }
}

// ---------------------------------------------------------------------------
// The record line
// ---------------------------------------------------------------------------

/// The record a parse of `s` yields: exactly six `;`-separated fields — an
/// identifier in range, a timestamp, a group, a process, admissible text, and
/// an acceptable stored hash.
#[verifier::opaque]
pub open spec fn spec_parse_line(s: Seq<char>) -> Option<TransactionV> {
    let parts = spec_split_on(s, ';');
    if parts.len() == 6 && spec_parse_uint(parts[0]) is Some && MIN_ID as int <= spec_parse_uint(
        parts[0],
    )->0 <= MAX_ID as int && spec_parse_ts(parts[1]) is Some && spec_parse_uint(parts[2]) is Some
        && spec_parse_uint(parts[2])->0 <= MAX_GID as int && spec_parse_uint(parts[3]) is Some
        && spec_parse_uint(parts[3])->0 <= MAX_PID as int && text_ok(parts[4]) && spec_hash_ok(
        parts[5],
    ) {
        Some(
            TransactionV {
                id: spec_parse_uint(parts[0])->0 as u32,
                ts: spec_parse_ts(parts[1])->0,
                data: DataV {
                    gid: spec_parse_uint(parts[2])->0 as u8,
                    pid: spec_parse_uint(parts[3])->0 as u8,
                    text: parts[4],
                },
                hash: HashV { bytes: spec_hex_decode(spec_trim(parts[5])), string: parts[5] },
            },
        )
    } else {
        None
    }
}

impl Transaction {
    /// Parses a canonical record line, keeping the stored hash as read.
    pub fn parse(s: &str) -> (r: Result<Self, Error>)
        ensures
            r is Ok <==> spec_parse_line(s@) is Some,
            r is Ok ==> Some(r->Ok_0@) == spec_parse_line(s@),
            r is Ok ==> tx_wf(r->Ok_0@),
            r is Err ==> r->Err_0 is ParseError,
    {
        proof {
            reveal(spec_parse_line);
        }
        let parts = split_on_char(s, ';');
        proof {
            assert(parts@.len() == parts.deep_view().len());
        }
        if parts.len() < 6 {
            return Err(Error::ParseError("Incomplete data".to_owned()));
        }
        if parts.len() > 6 {
            return Err(Error::ParseError("Too much data".to_owned()));
        }
        proof {
            assert(parts.deep_view()[0] == parts@[0]@);
            assert(parts.deep_view()[1] == parts@[1]@);
            assert(parts.deep_view()[2] == parts@[2]@);
            assert(parts.deep_view()[3] == parts@[3]@);
            assert(parts.deep_view()[4] == parts@[4]@);
            assert(parts.deep_view()[5] == parts@[5]@);
        }
        let id = match TransactionId::parse(parts[0].as_str()) {
            Ok(v) => v,
            Err(e) => {
                return Err(e);
            },
        };
        let ts = match TransactionTime::parse(parts[1].as_str()) {
            Ok(v) => v,
            Err(e) => {
                return Err(e);
            },
        };
        let gid = match parse_u8_str(parts[2].as_str()) {
            Some(v) => v,
            None => {
                return Err(Error::ParseError("Could not parse gid".to_owned()));
            },
        };
        if gid > MAX_GID {
            return Err(Error::ParseError("Invalid gid".to_owned()));
        }
        let pid = match parse_u8_str(parts[3].as_str()) {
            Some(v) => v,
            None => {
                return Err(Error::ParseError("Could not parse pid".to_owned()));
            },
        };
        if pid > MAX_PID {
            return Err(Error::ParseError("Invalid pid".to_owned()));
        }
        if !text_chars_ok(parts[4].as_str()) {
            return Err(Error::ParseError("Invalid text".to_owned()));
        }
        let text = parts[4].clone();
        let hash = match TransactionHash::parse(parts[5].as_str()) {
            Ok(v) => v,
            Err(e) => {
                return Err(e);
            },
        };
        Ok(Transaction { id, ts, data: TransactionData { gid, pid, text }, hash })
    }

    /// The canonical one-line rendering of this record: the exact inverse of
    /// `parse`.
    pub fn to_string(&self) -> (r: String)
        requires
            tx_wf(self@),
        ensures
            r@ == spec_line_of(self@),
    {
        let mut s = String::new();
        push_dec8(&mut s, self.id.0);
        push_char(&mut s, ';');
        push_ts(&mut s, &self.ts);
        push_char(&mut s, ';');
        push_pad2(&mut s, self.data.gid);
        push_char(&mut s, ';');
        push_pad2(&mut s, self.data.pid);
        push_char(&mut s, ';');
        s.append(self.data.text.as_str());
        push_char(&mut s, ';');
        s.append(self.hash.string.as_str());
        proof {
            assert(s@ =~= spec_line_of(self@));
        }
        s
    }
}

// ---------------------------------------------------------------------------
// Round trip
// ---------------------------------------------------------------------------

/// No character of a well-formed record's fields is the field delimiter, so
/// the canonical line splits back into exactly those fields.
proof fn lemma_line_split(t: TransactionV)
    requires
        tx_wf(t),
    ensures
        spec_split_on(spec_line_of(t), ';') =~~= seq![
            spec_dec8(t.id as int),
            spec_ts_str(t.ts),
            spec_pad2(t.data.gid as int),
            spec_pad2(t.data.pid as int),
            t.data.text,
            t.hash.string,
        ],
{
    let f0 = spec_dec8(t.id as int);
    let f1 = spec_ts_str(t.ts);
    let f2 = spec_pad2(t.data.gid as int);
    let f3 = spec_pad2(t.data.pid as int);
    let f4 = t.data.text;
    let f5 = t.hash.string;
    lemma_dec8(t.id as int);
    lemma_ts_str_chars(t.ts);
    lemma_pad2(t.data.gid as int);
    lemma_pad2(t.data.pid as int);
    assert forall|i: int| 0 <= i < f1.len() implies f1[i] != ';' by {
        lemma_ts_char_not_semi(t.ts, i);
    }
    assert(forall|i: int| 0 <= i < f4.len() ==> !is_forbidden_char(#[trigger] f4[i]));
    lemma_trim_chars(f5);
    assert forall|i: int| 0 <= i < f5.len() implies f5[i] != ';' by {
        if !is_space_char(f5[i]) {
            assert(spec_trim(f5).contains(f5[i]));
            let j = choose|j: int| 0 <= j < spec_trim(f5).len() && spec_trim(f5)[j] == f5[i];
            assert(is_hex_char(spec_trim(f5)[j]));
        }
    }
    let sep = seq![';'];
    let rest4 = f4 + sep + f5;
    let rest3 = f3 + sep + rest4;
    let rest2 = f2 + sep + rest3;
    let rest1 = f1 + sep + rest2;
    let line = spec_line_of(t);
    assert(line =~= f0 + sep + rest1);
    lemma_split_on_prepend(f0, rest1, ';');
    lemma_split_on_prepend(f1, rest2, ';');
    lemma_split_on_prepend(f2, rest3, ';');
    lemma_split_on_prepend(f3, rest4, ';');
    lemma_split_on_prepend(f4, f5, ';');
    lemma_split_on_no_sep(f5, ';');
}

proof fn lemma_ts_char_not_semi(t: TransactionTime, i: int)
    requires
        ts_wf(t),
        0 <= i < 15,
    ensures
        spec_ts_str(t)[i] != ';',
{
    lemma_ts_str_chars(t);
    let s = spec_ts_str(t);
    if i == 6 || i == 9 || i == 12 {
    } else {
        assert(is_digit_char(s[i])) by {
            if i == 0 {
                lemma_char_of_digit(t.day as int / 10);
            } else if i == 1 {
                lemma_char_of_digit(t.day as int % 10);
            } else if i == 2 {
                lemma_char_of_digit(t.month as int / 10);
            } else if i == 3 {
                lemma_char_of_digit(t.month as int % 10);
            } else if i == 4 {
                lemma_char_of_digit(t.year as int / 10);
            } else if i == 5 {
                lemma_char_of_digit(t.year as int % 10);
            } else if i == 7 {
                lemma_char_of_digit(t.hour as int / 10);
            } else if i == 8 {
                lemma_char_of_digit(t.hour as int % 10);
            } else if i == 10 {
                lemma_char_of_digit(t.minute as int / 10);
            } else if i == 11 {
                lemma_char_of_digit(t.minute as int % 10);
            } else if i == 13 {
                lemma_char_of_digit(t.second as int / 10);
            } else {
                lemma_char_of_digit(t.second as int % 10);
            }
        }
    }
}

/// Round trip: every well-formed record's canonical line parses back to the
/// record itself.
pub proof fn lemma_line_round_trip(t: TransactionV)
    requires
        tx_wf(t),
    ensures
        spec_parse_line(spec_line_of(t)) == Some(t),
{
    reveal(spec_parse_line);
    let line = spec_line_of(t);
    lemma_line_split(t);
    let parts = spec_split_on(line, ';');
    let f0 = spec_dec8(t.id as int);
    let f2 = spec_pad2(t.data.gid as int);
    let f3 = spec_pad2(t.data.pid as int);
    lemma_dec8(t.id as int);
    assert(f0[0] != '+') by {
        lemma_char_of_digit(t.id as int / 10_000_000 % 10);
    }
    assert(spec_parse_uint(f0) == Some(dec_val(f0)));
    lemma_ts_round_trip(t.ts);
    lemma_pad2(t.data.gid as int);
    lemma_pad2(t.data.pid as int);
    assert(f2[0] != '+') by {
        lemma_char_of_digit(t.data.gid as int / 10);
    }
    assert(f3[0] != '+') by {
        lemma_char_of_digit(t.data.pid as int / 10);
    }
    assert(spec_parse_uint(f2) == Some(t.data.gid as int));
    assert(spec_parse_uint(f3) == Some(t.data.pid as int));
    assert(spec_parse_line(line)->0 == t);
}

/// A parsed timestamp is well formed.
pub proof fn lemma_parse_ts_wf(s: Seq<char>)
    requires
        spec_parse_ts(s) is Some,
    ensures
        ts_wf(spec_parse_ts(s)->0),
{
    let t = spec_parse_ts(s)->0;
    let day = digit_val(s[0]) * 10 + digit_val(s[1]);
    let month = digit_val(s[2]) * 10 + digit_val(s[3]);
    let year = digit_val(s[4]) * 10 + digit_val(s[5]);
    assert(t.day as int == day);
    assert(t.month as int == month);
    assert(t.year as int == year);
}

/// A parsed record is well formed.
pub proof fn lemma_parse_line_wf(s: Seq<char>)
    requires
        spec_parse_line(s) is Some,
    ensures
        tx_wf(spec_parse_line(s)->0),
{
    reveal(spec_parse_line);
    let parts = spec_split_on(s, ';');
    lemma_parse_ts_wf(parts[1]);
    lemma_parse_uint_nonneg(parts[0]);
    lemma_parse_uint_nonneg(parts[2]);
    lemma_parse_uint_nonneg(parts[3]);
}

// ---------------------------------------------------------------------------
// Write requests
// ---------------------------------------------------------------------------

/// The `(timestamp, payload)` pair a creation request's body denotes:
/// `<ddmmyy-HH:MM:SS>;<group>;<process>;<text>`.
pub open spec fn spec_parse_request(s: Seq<char>) -> Option<(TransactionTime, DataV)> {
    let parts = spec_split_on(s, ';');
    if parts.len() == 4 && spec_parse_ts(parts[0]) is Some && spec_parse_uint(parts[1]) is Some
        && spec_parse_uint(parts[1])->0 <= MAX_GID as int && spec_parse_uint(parts[2]) is Some
        && spec_parse_uint(parts[2])->0 <= MAX_PID as int && text_ok(parts[3]) {
        Some(
            (
                spec_parse_ts(parts[0])->0,
                DataV {
                    gid: spec_parse_uint(parts[1])->0 as u8,
                    pid: spec_parse_uint(parts[2])->0 as u8,
                    text: parts[3],
                },
            ),
        )
    } else {
        None
    }
}

/// Parses a creation request's body into the timestamp and payload a new
/// record is to carry.
pub fn parse_create_request(s: &str) -> (r: Result<(TransactionTime, TransactionData), Error>)
    ensures
        r is Ok <==> spec_parse_request(s@) is Some,
        r is Ok ==> Some((r->Ok_0.0, r->Ok_0.1@)) == spec_parse_request(s@),
        r is Ok ==> ts_wf(r->Ok_0.0) && data_wf(r->Ok_0.1@),
        r is Err ==> (r->Err_0 is ParseError || r->Err_0 is IllegalArgument),
{
    let parts = split_on_char(s, ';');
    proof {
        assert(parts@.len() == parts.deep_view().len());
    }
    if parts.len() < 4 {
        return Err(Error::ParseError("Incomplete data".to_owned()));
    }
    if parts.len() > 4 {
        return Err(Error::ParseError("Too much data".to_owned()));
    }
    proof {
        assert(parts.deep_view()[0] == parts@[0]@);
        assert(parts.deep_view()[1] == parts@[1]@);
        assert(parts.deep_view()[2] == parts@[2]@);
        assert(parts.deep_view()[3] == parts@[3]@);
    }
    let ts = match TransactionTime::parse(parts[0].as_str()) {
        Ok(v) => v,
        Err(e) => {
            return Err(e);
        },
    };
    let gid = match parse_u8_str(parts[1].as_str()) {
        Some(v) => v,
        None => {
            return Err(Error::ParseError("Could not parse gid".to_owned()));
        },
    };
    if gid > MAX_GID {
        return Err(Error::ParseError("Invalid gid".to_owned()));
    }
    let pid = match parse_u8_str(parts[2].as_str()) {
        Some(v) => v,
        None => {
            return Err(Error::ParseError("Could not parse pid".to_owned()));
        },
    };
    if pid > MAX_PID {
        return Err(Error::ParseError("Invalid pid".to_owned()));
    }
    if !text_chars_ok(parts[3].as_str()) {
        return Err(Error::ParseError("Invalid text".to_owned()));
    }
    let text = parts[3].clone();
    Ok((ts, TransactionData { gid, pid, text }))
}

} // verus!
