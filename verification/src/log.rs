//! Records: one timestamped line of text each, and how two ordered runs of
//! them are merged into one.

use crate::decimal::{
    decimal_digits, is_digit, lemma_decimal_digits_are_digits, lemma_parse_decimal_digits,
    parse_decimal, parse_decimal_field, push_decimal,
};
use crate::error::LogError;
use crate::lines::{
    find_byte, find_byte_in, is_single_line, lemma_find_byte, lemma_find_byte_unique, LINE_FEED,
    SPACE,
};
use crate::text::{is_ascii_bytes, lemma_ascii_is_utf8, push_bytes, string_bytes, string_from_utf8};
use vstd::prelude::*;
use vstd::utf8::*;

verus! {

/// What a record says: when, and what.
pub struct Record {
    pub timestamp: u64,
    pub payload: Seq<char>,
}

/// One record of a store.
///
/// The payload is kept as it is: nothing is escaped when a record is
/// written, so a payload that is to survive in a file must hold no line
/// feed (see [`Record::is_single_line`]).
#[derive(Debug, Clone, PartialEq, Eq)]
pub struct Log {
    pub timestamp: u64,
    pub payload: String,
}

impl View for Log {
    type V = Record;

    open spec fn view(&self) -> Record {
        Record { timestamp: self.timestamp, payload: self.payload@ }
    }
}

impl Record {
    /// Whether the payload, as bytes, holds no line feed.
    pub open spec fn is_single_line(self) -> bool {
        is_single_line(encode_utf8(self.payload))
    }
}

/// What each of `logs` says, in the same order.
pub open spec fn records_of(logs: Seq<Log>) -> Seq<Record> {
    Seq::new(logs.len(), |i: int| logs[i]@)
}

/// The payload part of a line: what follows the first space, or nothing
/// if the line holds no space.
pub open spec fn payload_part(line: Seq<u8>) -> Seq<u8> {
    let k = find_byte(line, SPACE) as int;
    if k < line.len() {
        line.skip(k + 1)
    } else {
        Seq::empty()
    }
}

/// The record that a line denotes.
///
/// The line is parted at its first space. What stands before it is the
/// timestamp, a decimal field; what stands after it is the payload, UTF-8
/// text that may be empty. A line without a space is all timestamp.
pub open spec fn decode_line(line: Seq<u8>) -> Result<Record, LogError> {
    let k = find_byte(line, SPACE) as int;
    if line.len() == 0 {
        Err(LogError::EmptyLine)
    } else {
        match parse_decimal(line.take(k)) {
            None => Err(LogError::BadTimestamp),
            Some(timestamp) => if valid_utf8(payload_part(line)) {
                Ok(Record { timestamp, payload: decode_utf8(payload_part(line)) })
            } else {
                Err(LogError::InvalidEncoding)
            },
        }
    }
}

/// The line that denotes a record: the shortest decimal writing of the
/// timestamp, a space, and the payload.
pub open spec fn encode_record(record: Record) -> Seq<u8> {
    decimal_digits(record.timestamp as nat) + seq![SPACE] + encode_utf8(record.payload)
}

/// The line of a record is UTF-8, and is a single line if the payload is.
pub proof fn lemma_encode_record_is_text(record: Record)
    ensures
        valid_utf8(encode_record(record)),
        record.is_single_line() ==> is_single_line(encode_record(record)),
{
    let digits = decimal_digits(record.timestamp as nat);
    let payload = encode_utf8(record.payload);
    let head = digits + seq![SPACE];
    lemma_decimal_digits_are_digits(record.timestamp as nat);
    assert(is_ascii_bytes(head)) by {
        assert forall|i: int| 0 <= i < head.len() implies #[trigger] head[i] < 128 by {
            if i < digits.len() {
                assert(is_digit(digits[i]));
            }
        }
    }
    lemma_ascii_is_utf8(head);
    encode_utf8_valid_utf8(record.payload);
    valid_utf8_concat(head, payload);
    if record.is_single_line() {
        let line = encode_record(record);
        assert forall|i: int| 0 <= i < line.len() implies #[trigger] line[i] != LINE_FEED by {
            if i < digits.len() {
                assert(is_digit(digits[i]));
            } else if i > digits.len() {
                assert(line[i] == payload[i - digits.len() - 1]);
            }
        }
    }
}

/// Writing a record and reading the line back gives the record.
pub proof fn lemma_decode_encoded_record(record: Record)
    ensures
        decode_line(encode_record(record)) == Ok::<Record, LogError>(record),
{
    let digits = decimal_digits(record.timestamp as nat);
    let payload = encode_utf8(record.payload);
    let line = encode_record(record);
    lemma_decimal_digits_are_digits(record.timestamp as nat);
    lemma_parse_decimal_digits(record.timestamp);
    assert forall|i: int| 0 <= i < digits.len() implies #[trigger] line[i] != SPACE by {
        assert(is_digit(digits[i]));
    }
    assert(line[digits.len() as int] == SPACE);
    lemma_find_byte_unique(line, SPACE, digits.len() as int);
    assert(line.take(digits.len() as int) =~= digits);
    assert(line.skip(digits.len() as int + 1) =~= payload);
    encode_utf8_valid_utf8(record.payload);
    encode_utf8_decode_utf8(record.payload);
}

/// The payload of a decoded line holds no line feed if the line holds none.
pub proof fn lemma_decoded_line_is_single(line: Seq<u8>)
    requires
        is_single_line(line),
        decode_line(line) is Ok,
    ensures
        decode_line(line)->Ok_0.is_single_line(),
{
    let part = payload_part(line);
    let k = find_byte(line, SPACE) as int;
    lemma_find_byte(line, SPACE);
    decode_utf8_encode_utf8(part);
    assert forall|i: int| 0 <= i < part.len() implies #[trigger] part[i] != LINE_FEED by {
        assert(part[i] == line[k + 1 + i]);
    }
}

/// A line that denotes a record is UTF-8.
pub proof fn lemma_record_line_is_utf8(line: Seq<u8>)
    requires
        decode_line(line) is Ok,
    ensures
        valid_utf8(line),
{
    let k = find_byte(line, SPACE) as int;
    let field = line.take(k);
    let payload = payload_part(line);
    lemma_find_byte(line, SPACE);
    let digits = crate::decimal::unsigned_part(field);
    assert(is_ascii_bytes(field)) by {
        assert forall|i: int| 0 <= i < field.len() implies #[trigger] field[i] < 128 by {
            if field[0] == crate::decimal::PLUS {
                if i > 0 {
                    assert(is_digit(digits[i - 1]));
                }
            } else {
                assert(is_digit(digits[i]));
            }
        }
    }
    lemma_ascii_is_utf8(field);
    if k < line.len() {
        let space = seq![SPACE];
        assert(is_ascii_bytes(space));
        lemma_ascii_is_utf8(space);
        valid_utf8_concat(field, space);
        valid_utf8_concat(field + space, payload);
        assert(line =~= field + space + payload);
    } else {
        assert(line =~= field);
    }
}

/// The line of a string never fails to decode for its encoding: what
/// follows the first space of a text is a text.
pub proof fn lemma_text_payload_is_text(text: Seq<char>)
    ensures
        valid_utf8(payload_part(encode_utf8(text))),
        decode_line(encode_utf8(text)) != Err::<Record, LogError>(LogError::InvalidEncoding),
{
    let line = encode_utf8(text);
    let k = find_byte(line, SPACE) as int;
    lemma_find_byte(line, SPACE);
    encode_utf8_valid_utf8(text);
    if k < line.len() {
        assert(!is_continuation_byte(line[k]));
        is_char_boundary_iff_not_is_continuation_byte(line, k);
        valid_utf8_split(line, k);
        let rest = line.subrange(k, line.len() as int);
        assert(rest[0] == SPACE);
        assert(is_leading_byte_width_1(rest[0]));
        assert(pop_first_scalar(rest) =~= line.skip(k + 1));
    }
}

/// Decodes the record that occupies `bytes[start..end]`.
pub(crate) fn decode_line_at(bytes: &[u8], start: usize, end: usize) -> (r: Result<Log, LogError>)
    requires
        start <= end <= bytes@.len(),
    ensures
        match r {
            Ok(log) => decode_line(bytes@.subrange(start as int, end as int)) == Ok::<
                Record,
                LogError,
            >(log@),
            Err(e) => decode_line(bytes@.subrange(start as int, end as int)) == Err::<
                Record,
                LogError,
            >(e),
        },
{
    let ghost line = bytes@.subrange(start as int, end as int);
    if start == end {
        return Err(LogError::EmptyLine);
    }
    let space = find_byte_in(bytes, start, end, SPACE);
    assert(line.take(space - start) =~= bytes@.subrange(start as int, space as int));
    let timestamp = match parse_decimal_field(bytes, start, space) {
        None => {
            return Err(LogError::BadTimestamp);
        },
        Some(timestamp) => timestamp,
    };
    let mut payload_bytes: Vec<u8> = Vec::new();
    if space < end {
        push_bytes(&mut payload_bytes, bytes, space + 1, end);
        assert(line.skip(space - start + 1) =~= bytes@.subrange(space + 1, end as int));
    }
    assert(payload_bytes@ =~= payload_part(line));
    match string_from_utf8(payload_bytes) {
        None => Err(LogError::InvalidEncoding),
        Some(payload) => {
            proof {
                encode_utf8_decode_utf8(payload@);
            }
            Ok(Log { timestamp, payload })
        },
    }
}

/// Appends the line of `log`, without a line feed, to `out`.
pub(crate) fn push_record(out: &mut Vec<u8>, log: &Log)
    ensures
        final(out)@ == old(out)@ + encode_record(log@),
{
    push_decimal(out, log.timestamp);
    out.push(SPACE);
    let payload = string_bytes(&log.payload);
    push_bytes(out, payload, 0, payload.len());
    proof {
        let digits = decimal_digits(log.timestamp as nat);
        assert(payload@.subrange(0, payload@.len() as int) =~= payload@);
        assert((old(out)@ + digits).push(SPACE) + payload@ =~= old(out)@ + (digits + seq![SPACE]
            + payload@));
    }
}

impl Log {
    /// Decodes one line into a record.
    ///
    /// The timestamp is what stands before the first space: decimal
    /// digits, which may start with zeros or with one `+`. The payload is
    /// what stands after that space, and is empty where there is none.
    /// Fails with `EmptyLine` on an empty line and with `BadTimestamp`
    /// where the timestamp is missing, is no such number, or does not fit
    /// in 64 bits. The encoding of a string is never at fault (see
    /// [`lemma_text_payload_is_text`]).
    pub fn from_string(input_string: &String) -> (r: Result<Log, LogError>)
        ensures
            match r {
                Ok(log) => decode_line(encode_utf8(input_string@)) == Ok::<Record, LogError>(
                    log@,
                ),
                Err(e) => decode_line(encode_utf8(input_string@)) == Err::<Record, LogError>(e),
            },
    {
        let bytes = string_bytes(input_string);
        assert(bytes@.subrange(0, bytes@.len() as int) =~= bytes@);
        decode_line_at(bytes, 0, bytes.len())
    }

    /// The line of this record: timestamp, a space, payload.
    pub fn to_string(&self) -> (line: String)
        ensures
            encode_utf8(line@) == encode_record(self@),
    {
        let mut out: Vec<u8> = Vec::new();
        push_record(&mut out, self);
        proof {
            lemma_encode_record_is_text(self@);
            assert(out@ =~= encode_record(self@));
        }
        match string_from_utf8(out) {
            Some(line) => line,
            None => vstd::pervasive::unreached(),
        }
    }
}


/// Whether `records` run from newest to oldest: no record is newer than
/// one that stands before it. Equal timestamps may follow each other.
pub open spec fn is_newest_first(records: Seq<Record>) -> bool {
    forall|i: int, j: int|
        0 <= i <= j < records.len() ==> records[i].timestamp >= records[j].timestamp
}

/// Whether `k` is the first place at which `records` stop running from
/// newest to oldest: `records[k]` is newer than the record before it, and
/// nothing of the kind happens earlier.
pub open spec fn is_first_rise(records: Seq<Record>, k: int) -> bool {
    &&& 0 < k < records.len()
    &&& is_newest_first(records.take(k))
    &&& records[k].timestamp > records[k - 1].timestamp
}

/// Two runs of records interleaved by age.
///
/// The oldest of what is left of both runs goes last; where both are of
/// the same age, the one of `a` goes last. Records of one run keep their
/// order, and of two records of the same age the one of `b` comes first.
pub open spec fn merge_records(a: Seq<Record>, b: Seq<Record>) -> Seq<Record>
    decreases a.len() + b.len(),
{
    if a.len() == 0 {
        b
    } else if b.len() == 0 {
        a
    } else if b.last().timestamp < a.last().timestamp {
        merge_records(a, b.drop_last()).push(b.last())
    } else {
        merge_records(a.drop_last(), b).push(a.last())
    }
}

/// A merge holds as many records as its two runs together.
pub proof fn lemma_merge_len(a: Seq<Record>, b: Seq<Record>)
    ensures
        merge_records(a, b).len() == a.len() + b.len(),
    decreases a.len() + b.len(),
{
    if a.len() == 0 {
    } else if b.len() == 0 {
    } else if b.last().timestamp < a.last().timestamp {
        lemma_merge_len(a, b.drop_last());
    } else {
        lemma_merge_len(a.drop_last(), b);
    }
}

/// A merge holds exactly the records of its two runs, each as often as
/// the runs hold it.
pub proof fn lemma_merge_multiset(a: Seq<Record>, b: Seq<Record>)
    ensures
        merge_records(a, b).to_multiset() == a.to_multiset().add(b.to_multiset()),
    decreases a.len() + b.len(),
{
    broadcast use vstd::seq_lib::to_multiset_build;

    if a.len() == 0 {
        assert(a.to_multiset() =~= vstd::multiset::Multiset::<Record>::empty()) by {
            a.to_multiset_ensures();
        }
        assert(a.to_multiset().add(b.to_multiset()) =~= b.to_multiset());
    } else if b.len() == 0 {
        assert(b.to_multiset() =~= vstd::multiset::Multiset::<Record>::empty()) by {
            b.to_multiset_ensures();
        }
        assert(a.to_multiset().add(b.to_multiset()) =~= a.to_multiset());
    } else if b.last().timestamp < a.last().timestamp {
        lemma_merge_multiset(a, b.drop_last());
        assert(b.drop_last().push(b.last()) =~= b);
        assert(a.to_multiset().add(b.drop_last().to_multiset()).insert(b.last())
            =~= a.to_multiset().add(b.drop_last().to_multiset().insert(b.last())));
    } else {
        lemma_merge_multiset(a.drop_last(), b);
        assert(a.drop_last().push(a.last()) =~= a);
        assert(a.drop_last().to_multiset().add(b.to_multiset()).insert(a.last())
            =~= a.drop_last().to_multiset().insert(a.last()).add(b.to_multiset()));
    }
}

/// A record is in a merge exactly if it is in one of the two runs.
pub proof fn lemma_merge_contains(a: Seq<Record>, b: Seq<Record>, record: Record)
    ensures
        merge_records(a, b).contains(record) <==> a.contains(record) || b.contains(record),
{
    broadcast use vstd::multiset::group_multiset_axioms;

    let merged = merge_records(a, b);
    lemma_merge_multiset(a, b);
    merged.to_multiset_ensures();
    a.to_multiset_ensures();
    b.to_multiset_ensures();
    assert(merged.to_multiset().count(record) == a.to_multiset().count(record)
        + b.to_multiset().count(record));
}

/// Putting a record that is no newer than any other at the end keeps a
/// run ordered.
proof fn lemma_push_oldest(records: Seq<Record>, last: Record)
    requires
        is_newest_first(records),
        forall|i: int| 0 <= i < records.len() ==> #[trigger] records[i].timestamp >= last.timestamp,
    ensures
        is_newest_first(records.push(last)),
{
}

/// The merge of two runs is ordered exactly if both runs are.
pub proof fn lemma_merge_order(a: Seq<Record>, b: Seq<Record>)
    ensures
        is_newest_first(merge_records(a, b)) <==> is_newest_first(a) && is_newest_first(b),
    decreases a.len() + b.len(),
{
    if a.len() == 0 {
    } else if b.len() == 0 {
    } else if b.last().timestamp < a.last().timestamp {
        lemma_merge_order_step(a, b.drop_last(), b.last());
        lemma_merge_order(a, b.drop_last());
        assert(b.drop_last().push(b.last()) =~= b);
        lemma_ordered_push(b.drop_last(), b.last());
        if is_newest_first(a) && is_newest_first(b) {
            assert forall|i: int| 0 <= i < a.len() implies #[trigger] a[i].timestamp
                >= b.last().timestamp by {
                assert(a[i].timestamp >= a[a.len() - 1].timestamp);
            }
        }
    } else {
        lemma_merge_order_step(a.drop_last(), b, a.last());
        lemma_merge_order(a.drop_last(), b);
        assert(a.drop_last().push(a.last()) =~= a);
        lemma_ordered_push(a.drop_last(), a.last());
        if is_newest_first(a) && is_newest_first(b) {
            assert forall|i: int| 0 <= i < b.len() implies #[trigger] b[i].timestamp
                >= a.last().timestamp by {
                assert(b[i].timestamp >= b[b.len() - 1].timestamp);
            }
        }
    }
}

/// A run with one more record at its end is ordered exactly if the run is
/// and none of its records is older than the new one.
proof fn lemma_ordered_push(records: Seq<Record>, last: Record)
    ensures
        is_newest_first(records.push(last)) <==> is_newest_first(records) && forall|i: int|
            0 <= i < records.len() ==> #[trigger] records[i].timestamp >= last.timestamp,
{
    let longer = records.push(last);
    if is_newest_first(longer) {
        assert forall|i: int, j: int| 0 <= i <= j < records.len() implies records[i].timestamp
            >= records[j].timestamp by {
            assert(longer[i].timestamp >= longer[j].timestamp);
        }
        assert forall|i: int| 0 <= i < records.len() implies #[trigger] records[i].timestamp
            >= last.timestamp by {
            assert(longer[i].timestamp >= longer[records.len() as int].timestamp);
        }
    }
}

/// A merge with one more record at its end is ordered exactly if the
/// merge is and no record of either run is older than the new one.
proof fn lemma_merge_order_step(a: Seq<Record>, b: Seq<Record>, last: Record)
    ensures
        is_newest_first(merge_records(a, b).push(last)) <==> is_newest_first(merge_records(a, b))
            && (forall|i: int| 0 <= i < a.len() ==> #[trigger] a[i].timestamp >= last.timestamp)
            && (forall|i: int| 0 <= i < b.len() ==> #[trigger] b[i].timestamp >= last.timestamp),
{
    let merged = merge_records(a, b);
    lemma_ordered_push(merged, last);
    if forall|i: int| 0 <= i < merged.len() ==> #[trigger] merged[i].timestamp >= last.timestamp {
        assert forall|i: int| 0 <= i < a.len() implies #[trigger] a[i].timestamp
            >= last.timestamp by {
            lemma_merge_contains(a, b, a[i]);
            assert(a.contains(a[i]));
            let k = choose|k: int| 0 <= k < merged.len() && merged[k] == a[i];
            assert(merged[k].timestamp >= last.timestamp);
        }
        assert forall|i: int| 0 <= i < b.len() implies #[trigger] b[i].timestamp
            >= last.timestamp by {
            lemma_merge_contains(a, b, b[i]);
            assert(b.contains(b[i]));
            let k = choose|k: int| 0 <= k < merged.len() && merged[k] == b[i];
            assert(merged[k].timestamp >= last.timestamp);
        }
    }
    if (forall|i: int| 0 <= i < a.len() ==> #[trigger] a[i].timestamp >= last.timestamp) && (
    forall|i: int| 0 <= i < b.len() ==> #[trigger] b[i].timestamp >= last.timestamp) {
        assert forall|i: int| 0 <= i < merged.len() implies #[trigger] merged[i].timestamp
            >= last.timestamp by {
            lemma_merge_contains(a, b, merged[i]);
            assert(merged.contains(merged[i]));
            if a.contains(merged[i]) {
                let k = choose|k: int| 0 <= k < a.len() && a[k] == merged[i];
                assert(a[k].timestamp >= last.timestamp);
            } else {
                let k = choose|k: int| 0 <= k < b.len() && b[k] == merged[i];
                assert(b[k].timestamp >= last.timestamp);
            }
        }
    }
}

/// Taking the last log off a vector takes the last record off its records.
proof fn lemma_records_of_drop_last(logs: Seq<Log>)
    requires
        logs.len() > 0,
    ensures
        records_of(logs.subrange(0, logs.len() - 1)) == records_of(logs).drop_last(),
        records_of(logs).last() == logs.last()@,
{
    assert(records_of(logs.subrange(0, logs.len() - 1)) =~= records_of(logs).drop_last());
}

/// Merges two runs of records, each newest first, into one.
///
/// Succeeds exactly if both runs are ordered. The result then holds every
/// record of both, is ordered itself, and keeps the records of each run in
/// their order; of two records of the same age the one of `logs_b` comes
/// first. Otherwise the error names the first timestamp of the interleaved
/// runs that is newer than the one before it.
pub fn merge_logs(logs_a: Vec<Log>, logs_b: Vec<Log>) -> (r: Result<Vec<Log>, LogError>)
    ensures
        r is Ok <==> is_newest_first(records_of(logs_a@)) && is_newest_first(records_of(logs_b@)),
        match r {
            Ok(merged) => {
                &&& records_of(merged@) == merge_records(records_of(logs_a@), records_of(logs_b@))
                &&& merged@.len() == logs_a@.len() + logs_b@.len()
                &&& is_newest_first(records_of(merged@))
                &&& records_of(merged@).to_multiset() == records_of(logs_a@).to_multiset().add(
                    records_of(logs_b@).to_multiset(),
                )
            },
            Err(e) => exists|k: int|
                {
                    &&& #[trigger] is_first_rise(
                        merge_records(records_of(logs_a@), records_of(logs_b@)),
                        k,
                    )
                    &&& e == LogError::MergeOrder {
                        timestamp: merge_records(
                            records_of(logs_a@),
                            records_of(logs_b@),
                        )[k].timestamp,
                    }
                },
        },
{
    let ghost all = merge_records(records_of(logs_a@), records_of(logs_b@));
    proof {
        lemma_merge_order(records_of(logs_a@), records_of(logs_b@));
        lemma_merge_len(records_of(logs_a@), records_of(logs_b@));
        lemma_merge_multiset(records_of(logs_a@), records_of(logs_b@));
    }
    let mut a = logs_a;
    let mut b = logs_b;
    let mut oldest_first: Vec<Log> = Vec::new();
    assert(all + records_of(oldest_first@).reverse() =~= all);
    while a.len() > 0 || b.len() > 0
        invariant
            all == merge_records(records_of(a@), records_of(b@)) + records_of(
                oldest_first@,
            ).reverse(),
        decreases a.len() + b.len(),
    {
        let ghost ra = records_of(a@);
        let ghost rb = records_of(b@);
        let ghost moved = records_of(oldest_first@);
        let from_b = if a.len() == 0 {
            true
        } else if b.len() == 0 {
            false
        } else {
            b[b.len() - 1].timestamp < a[a.len() - 1].timestamp
        };
        if from_b {
            proof {
                lemma_records_of_drop_last(b@);
            }
            if let Some(log) = b.pop() {
                proof {
                    let rest = merge_records(ra, rb.drop_last());
                    assert(merge_records(ra, rb) == rest.push(log@)) by {
                        if ra.len() == 0 {
                            assert(rb.drop_last().push(rb.last()) =~= rb);
                        }
                    }
                    assert(records_of(oldest_first@.push(log)) =~= moved.push(log@));
                    assert(moved.push(log@).reverse() =~= seq![log@] + moved.reverse());
                    assert(rest.push(log@) + moved.reverse() =~= rest + (seq![log@]
                        + moved.reverse()));
                }
                oldest_first.push(log);
            }
        } else {
            proof {
                lemma_records_of_drop_last(a@);
            }
            if let Some(log) = a.pop() {
                proof {
                    let rest = merge_records(ra.drop_last(), rb);
                    assert(merge_records(ra, rb) == rest.push(log@)) by {
                        if rb.len() == 0 {
                            assert(ra.drop_last().push(ra.last()) =~= ra);
                            if ra.drop_last().len() == 0 {
                            }
                        }
                    }
                    assert(records_of(oldest_first@.push(log)) =~= moved.push(log@));
                    assert(moved.push(log@).reverse() =~= seq![log@] + moved.reverse());
                    assert(rest.push(log@) + moved.reverse() =~= rest + (seq![log@]
                        + moved.reverse()));
                }
                oldest_first.push(log);
            }
        }
    }
    assert(all =~= records_of(oldest_first@).reverse());
    let mut merged: Vec<Log> = Vec::new();
    let mut previous: u64 = u64::MAX;
    assert(records_of(merged@) + records_of(oldest_first@).reverse() =~= all);
    while oldest_first.len() > 0
        invariant
            all == merge_records(records_of(logs_a@), records_of(logs_b@)),
            all == records_of(merged@) + records_of(oldest_first@).reverse(),
            is_newest_first(records_of(merged@)),
            merged@.len() > 0 ==> previous == merged@.last().timestamp,
        decreases oldest_first.len(),
    {
        let ghost done = records_of(merged@);
        let ghost left = records_of(oldest_first@);
        proof {
            lemma_records_of_drop_last(oldest_first@);
        }
        if let Some(log) = oldest_first.pop() {
            proof {
                assert(left.reverse() =~= seq![log@] + left.drop_last().reverse());
                assert(done + left.reverse() =~= done.push(log@) + left.drop_last().reverse());
                assert(all[done.len() as int] == log@);
                assert(all.take(done.len() as int) =~= done);
            }
            if merged.len() > 0 && log.timestamp > previous {
                proof {
                    assert(all[done.len() - 1] == done.last());
                    assert(is_first_rise(all, done.len() as int));
                    lemma_merge_order(records_of(logs_a@), records_of(logs_b@));
                }
                return Err(LogError::MergeOrder { timestamp: log.timestamp });
            }
            proof {
                assert forall|i: int| 0 <= i < done.len() implies #[trigger] done[i].timestamp
                    >= log.timestamp by {
                    assert(done[i].timestamp >= done[done.len() - 1].timestamp);
                }
                lemma_push_oldest(done, log@);
                assert(records_of(merged@.push(log)) =~= done.push(log@));
            }
            previous = log.timestamp;
            merged.push(log);
        }
    }
    assert(all =~= records_of(merged@));
    Ok(merged)
}

} // verus!
