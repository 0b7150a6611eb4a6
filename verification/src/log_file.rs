//! Store files: three header lines, then the records, newest first.

use crate::decimal::{decimal_digits, parse_decimal, parse_decimal_field, push_decimal};
use crate::error::{HeaderField, LogError, WriteError};
use crate::laws::{
    lemma_decode_each_sticky, lemma_decode_records_sticky, lemma_decoded_body,
    lemma_decoded_file, lemma_encode_file_is_utf8, lemma_written_file_decodes,
};
use crate::lines::{find_byte, join_lines, lemma_join_lines_push, line_at, text_lines, LINE_FEED};
use crate::log::{
    decode_line, decode_line_at, encode_record, is_first_rise, is_newest_first, merge_logs,
    merge_records, push_record, records_of, Log, Record,
};
use crate::tail::{lemma_scan_decides_page, least, page_of, strings_of, tail_lines, TailScanner};
use crate::text::{string_bytes, string_from_utf8};
use vstd::prelude::*;
use vstd::slice::*;
use vstd::utf8::*;

verus! {

/// What the three header lines of a store file say.
#[derive(Debug, Clone, Copy, PartialEq, Eq)]
pub struct LogFileHeaders {
    /// The oldest timestamp in the body.
    pub start_timestamp: u64,
    /// The newest timestamp in the body.
    pub end_timestamp: u64,
    /// The number of records in the body.
    pub log_count: u64,
}

/// What header line `index` denotes, if the file has that line and it is
/// a decimal field.
pub open spec fn header_field(lines: Seq<Seq<u8>>, index: int) -> Option<u64> {
    if 0 <= index < lines.len() {
        parse_decimal(lines[index])
    } else {
        None
    }
}

/// The header that the first three of `lines` denote. The first line that
/// is missing or is no decimal field is the one that the error names.
pub open spec fn parse_headers(lines: Seq<Seq<u8>>) -> Result<LogFileHeaders, LogError> {
    match (header_field(lines, 0), header_field(lines, 1), header_field(lines, 2)) {
        (None, _, _) => Err(LogError::BadHeader { field: HeaderField::StartTimestamp }),
        (Some(_), None, _) => Err(LogError::BadHeader { field: HeaderField::EndTimestamp }),
        (Some(_), Some(_), None) => Err(LogError::BadHeader { field: HeaderField::RecordCount }),
        (Some(start_timestamp), Some(end_timestamp), Some(log_count)) => Ok(
            LogFileHeaders { start_timestamp, end_timestamp, log_count },
        ),
    }
}

/// The header of a file, read without its body: the three fields, of which
/// the newest timestamp must not be older than the oldest.
pub open spec fn decode_headers(text: Seq<u8>) -> Result<LogFileHeaders, LogError> {
    match parse_headers(text_lines(text)) {
        Err(e) => Err(e),
        Ok(headers) => if headers.end_timestamp < headers.start_timestamp {
            Err(
                LogError::EndBeforeStart {
                    start: headers.start_timestamp,
                    end: headers.end_timestamp,
                },
            )
        } else {
            Ok(headers)
        },
    }
}

/// The records that `lines` denote, taken in order. The first line that
/// denotes no record, or whose record is newer than the one before it,
/// decides the error.
pub open spec fn decode_records(lines: Seq<Seq<u8>>) -> Result<Seq<Record>, LogError>
    decreases lines.len(),
{
    if lines.len() == 0 {
        Ok(Seq::empty())
    } else {
        match decode_records(lines.drop_last()) {
            Err(e) => Err(e),
            Ok(records) => match decode_line(lines.last()) {
                Err(e) => Err(e),
                Ok(record) => if records.len() > 0 && record.timestamp
                    > records.last().timestamp {
                    Err(
                        LogError::OutOfOrder {
                            previous: records.last().timestamp,
                            timestamp: record.timestamp,
                        },
                    )
                } else {
                    Ok(records.push(record))
                },
            },
        }
    }
}

/// The records of a text that holds records only, one per line and at
/// least one.
pub open spec fn decode_body(text: Seq<u8>) -> Result<Seq<Record>, LogError> {
    match decode_records(text_lines(text)) {
        Err(e) => Err(e),
        Ok(records) => if records.len() == 0 {
            Err(LogError::EmptyBody)
        } else {
            Ok(records)
        },
    }
}

/// The header that describes `records`, which run from newest to oldest.
pub open spec fn headers_of(records: Seq<Record>) -> LogFileHeaders {
    LogFileHeaders {
        start_timestamp: records.last().timestamp,
        end_timestamp: records.first().timestamp,
        log_count: records.len() as u64,
    }
}

/// What is wrong with a header that does not describe `records`, if
/// anything: the count is looked at first, then the oldest timestamp, then
/// the newest.
pub open spec fn header_defect(headers: LogFileHeaders, records: Seq<Record>) -> Option<
    LogError,
> {
    let actual = headers_of(records);
    if headers.log_count != records.len() {
        Some(
            LogError::HeaderMismatch {
                field: HeaderField::RecordCount,
                declared: headers.log_count,
                actual: actual.log_count,
            },
        )
    } else if headers.start_timestamp != actual.start_timestamp {
        Some(
            LogError::HeaderMismatch {
                field: HeaderField::StartTimestamp,
                declared: headers.start_timestamp,
                actual: actual.start_timestamp,
            },
        )
    } else if headers.end_timestamp != actual.end_timestamp {
        Some(
            LogError::HeaderMismatch {
                field: HeaderField::EndTimestamp,
                declared: headers.end_timestamp,
                actual: actual.end_timestamp,
            },
        )
    } else {
        None
    }
}

/// The records of a store file.
///
/// The first three lines are the header; every further line is a record.
/// The header must parse, the records must decode and run from newest to
/// oldest, there must be at least one, and the header must describe them.
/// What fails first, in this order, decides the error.
pub open spec fn decode_file(text: Seq<u8>) -> Result<Seq<Record>, LogError> {
    let lines = text_lines(text);
    match parse_headers(lines) {
        Err(e) => Err(e),
        Ok(headers) => match decode_records(lines.skip(3)) {
            Err(e) => Err(e),
            Ok(records) => if records.len() == 0 {
                Err(LogError::EmptyBody)
            } else {
                match header_defect(headers, records) {
                    Some(e) => Err(e),
                    None => Ok(records),
                }
            },
        },
    }
}

/// The lines of `records`, one each.
pub open spec fn record_lines(records: Seq<Record>) -> Seq<Seq<u8>> {
    Seq::new(records.len(), |i: int| encode_record(records[i]))
}

/// The three lines of a header.
pub open spec fn header_lines(headers: LogFileHeaders) -> Seq<Seq<u8>> {
    seq![
        decimal_digits(headers.start_timestamp as nat),
        decimal_digits(headers.end_timestamp as nat),
        decimal_digits(headers.log_count as nat),
    ]
}

/// The store file that holds `records`: the header that describes them,
/// then their lines, every line ended by a line feed.
pub open spec fn encode_file(records: Seq<Record>) -> Seq<u8> {
    join_lines(header_lines(headers_of(records)) + record_lines(records))
}

/// Where line number `count` of `text` starts, counted from 0: the end of
/// the text if it has no such line.
pub open spec fn line_start(text: Seq<u8>, count: nat) -> nat
    decreases count,
{
    let k = find_byte(text, LINE_FEED);
    if count == 0 {
        0
    } else if k < text.len() {
        k + 1 + line_start(text.skip(k as int + 1), (count - 1) as nat)
    } else {
        text.len()
    }
}

/// The lines of a store file after its header.
pub open spec fn body_lines(text: Seq<u8>) -> Seq<Seq<u8>> {
    text_lines(text.skip(line_start(text, 3) as int))
}

/// The records that lines of text denote, taken in order; the first line
/// that denotes none decides the error.
pub open spec fn decode_each(lines: Seq<Seq<char>>) -> Result<Seq<Record>, LogError>
    decreases lines.len(),
{
    if lines.len() == 0 {
        Ok(Seq::empty())
    } else {
        match decode_each(lines.drop_last()) {
            Err(e) => Err(e),
            Ok(records) => match decode_line(encode_utf8(lines.last())) {
                Err(e) => Err(e),
                Ok(record) => Ok(records.push(record)),
            },
        }
    }
}

/// How many lines are left for a page of at most `limit` lines that leaves
/// out the last `offset`, in a file whose header counts `log_count`.
pub open spec fn page_bound(log_count: u64, limit: nat, offset: nat) -> nat {
    if log_count > offset {
        least(limit, (log_count - offset) as nat)
    } else {
        0
    }
}

/// One page of the records of a store file, read from its end.
///
/// The header is read first; the page is then taken from the lines after
/// it, the last line first, and is no longer than what the header's count
/// leaves after `offset`. Its lines are decoded in that order.
pub open spec fn read_page(text: Seq<u8>, limit: nat, offset: nat) -> Result<
    Seq<Record>,
    LogError,
> {
    match decode_headers(text) {
        Err(e) => Err(e),
        Ok(headers) => match page_of(
            body_lines(text).reverse(),
            page_bound(headers.log_count, limit, offset),
            offset,
        ) {
            Err(e) => Err(e),
            Ok(page) => decode_each(page),
        },
    }
}

/// The records that the store holds after a write.
///
/// The new records come as a body without a header. Where the store has
/// no file yet, they are all there is; otherwise they are merged into the
/// records of the file that is there. A malformed body is the sender's
/// fault, a malformed file the store's.
pub open spec fn written_records(new_body: Seq<u8>, current: Option<Seq<u8>>) -> Result<
    Seq<Record>,
    WriteError,
> {
    match decode_body(new_body) {
        Err(e) => Err(WriteError::BadRequest(e)),
        Ok(fresh) => match current {
            None => Ok(fresh),
            Some(text) => match decode_file(text) {
                Err(e) => Err(WriteError::CorruptStore(e)),
                Ok(stored) => Ok(merge_records(fresh, stored)),
            },
        },
    }
}

/// The file that a write puts in the place of the one that was there.
pub open spec fn written_file(new_body: Seq<u8>, current: Option<Seq<u8>>) -> Result<
    Seq<u8>,
    WriteError,
> {
    match written_records(new_body, current) {
        Err(e) => Err(e),
        Ok(records) => Ok(encode_file(records)),
    }
}

/// The bytes of the file that is in the store, if there is one.
pub open spec fn stored_bytes(current: Option<&String>) -> Option<Seq<u8>> {
    match current {
        None => None,
        Some(text) => Some(encode_utf8(text@)),
    }
}

/// Whether `timestamp` is the oldest among `records`.
pub open spec fn is_oldest_of(timestamp: u64, records: Seq<Record>) -> bool {
    &&& exists|i: int| 0 <= i < records.len() && (#[trigger] records[i]).timestamp == timestamp
    &&& forall|i: int| 0 <= i < records.len() ==> (#[trigger] records[i]).timestamp >= timestamp
}

/// Whether `timestamp` is the newest among `records`.
pub open spec fn is_newest_of(timestamp: u64, records: Seq<Record>) -> bool {
    &&& exists|i: int| 0 <= i < records.len() && (#[trigger] records[i]).timestamp == timestamp
    &&& forall|i: int| 0 <= i < records.len() ==> (#[trigger] records[i]).timestamp <= timestamp
}

/// Whether a header describes `records`: it counts them, and names their
/// oldest and their newest timestamp, of which the newest is no older
/// than the oldest.
pub open spec fn describes(headers: LogFileHeaders, records: Seq<Record>) -> bool {
    &&& headers.log_count == records.len()
    &&& is_oldest_of(headers.start_timestamp, records)
    &&& is_newest_of(headers.end_timestamp, records)
    &&& headers.end_timestamp >= headers.start_timestamp
}

/// The bytes of a file, if there is one.
pub open spec fn file_bytes(file: Option<&[u8]>) -> Option<Seq<u8>> {
    match file {
        None => None,
        Some(bytes) => Some(bytes@),
    }
}

/// One page of the records of a key: nothing where the key has no file,
/// else a page of its file.
pub open spec fn read_result(file: Option<Seq<u8>>, limit: nat, offset: nat) -> Result<
    Seq<Record>,
    LogError,
> {
    match file {
        None => Ok(Seq::empty()),
        Some(text) => read_page(text, limit, offset),
    }
}

/// Reads the header field whose line starts at `pos`, and says where the
/// next line starts.
fn header_field_at(bytes: &[u8], pos: usize) -> (r: (Option<u64>, usize))
    requires
        pos <= bytes@.len(),
    ensures
        r.0 == header_field(text_lines(bytes@.skip(pos as int)), 0),
        r.0 is Some ==> pos < r.1 <= bytes@.len() && text_lines(bytes@.skip(pos as int)).skip(1)
            == text_lines(bytes@.skip(r.1 as int)),
{
    if pos >= bytes.len() {
        return (None, pos);
    }
    let (end, next) = line_at(bytes, pos);
    let value = parse_decimal_field(bytes, pos, end);
    proof {
        let rest = text_lines(bytes@.skip(next as int));
        let line = bytes@.subrange(pos as int, end as int);
        assert((seq![line] + rest).skip(1) =~= rest);
    }
    (value, next)
}

/// Reads the three header fields, and says where the body starts.
fn parse_header_lines(bytes: &[u8]) -> (r: (Result<LogFileHeaders, LogError>, usize))
    ensures
        r.0 == parse_headers(text_lines(bytes@)),
        r.0 is Ok ==> r.1 <= bytes@.len() && text_lines(bytes@).skip(3) == text_lines(
            bytes@.skip(r.1 as int),
        ),
{
    let ghost lines = text_lines(bytes@);
    assert(bytes@.skip(0) =~= bytes@);
    let (first, after_first) = header_field_at(bytes, 0);
    let start_timestamp = match first {
        None => {
            return (Err(LogError::BadHeader { field: HeaderField::StartTimestamp }), 0);
        },
        Some(value) => value,
    };
    let (second, after_second) = header_field_at(bytes, after_first);
    let end_timestamp = match second {
        None => {
            return (Err(LogError::BadHeader { field: HeaderField::EndTimestamp }), 0);
        },
        Some(value) => value,
    };
    assert(lines.skip(1).skip(1) =~= lines.skip(2));
    let (third, after_third) = header_field_at(bytes, after_second);
    let log_count = match third {
        None => {
            return (Err(LogError::BadHeader { field: HeaderField::RecordCount }), 0);
        },
        Some(value) => value,
    };
    assert(lines.skip(2).skip(1) =~= lines.skip(3));
    (Ok(LogFileHeaders { start_timestamp, end_timestamp, log_count }), after_third)
}

/// Decodes the records whose lines start at `pos` and run to the end of
/// `bytes`.
fn decode_records_from(bytes: &[u8], pos: usize) -> (r: Result<Vec<Log>, LogError>)
    requires
        pos <= bytes@.len(),
    ensures
        match r {
            Ok(logs) => decode_records(text_lines(bytes@.skip(pos as int))) == Ok::<
                Seq<Record>,
                LogError,
            >(records_of(logs@)),
            Err(e) => decode_records(text_lines(bytes@.skip(pos as int))) == Err::<
                Seq<Record>,
                LogError,
            >(e),
        },
{
    let ghost all = text_lines(bytes@.skip(pos as int));
    let ghost mut done: Seq<Seq<u8>> = Seq::empty();
    let mut logs: Vec<Log> = Vec::new();
    let mut at: usize = pos;
    let mut previous: u64 = 0;
    assert(done + text_lines(bytes@.skip(at as int)) =~= all);
    assert(records_of(logs@) =~= Seq::<Record>::empty());
    while at < bytes.len()
        invariant
            pos <= at <= bytes@.len(),
            all == text_lines(bytes@.skip(pos as int)),
            all == done + text_lines(bytes@.skip(at as int)),
            decode_records(done) == Ok::<Seq<Record>, LogError>(records_of(logs@)),
            logs@.len() > 0 ==> previous == logs@.last().timestamp,
        decreases bytes@.len() - at,
    {
        let (end, next) = line_at(bytes, at);
        let ghost line = bytes@.subrange(at as int, end as int);
        let ghost rest = text_lines(bytes@.skip(next as int));
        let ghost decoded = records_of(logs@);
        proof {
            assert(done.push(line).drop_last() =~= done);
            assert(done + (seq![line] + rest) =~= done.push(line) + rest);
        }
        let log = match decode_line_at(bytes, at, end) {
            Err(e) => {
                proof {
                    lemma_decode_records_sticky(done.push(line), rest);
                }
                return Err(e);
            },
            Ok(log) => log,
        };
        if logs.len() > 0 && log.timestamp > previous {
            proof {
                lemma_decode_records_sticky(done.push(line), rest);
            }
            return Err(LogError::OutOfOrder { previous, timestamp: log.timestamp });
        }
        proof {
            assert(records_of(logs@.push(log)) =~= decoded.push(log@));
            done = done.push(line);
        }
        previous = log.timestamp;
        logs.push(log);
        at = next;
    }
    proof {
        assert(bytes@.skip(at as int).len() == 0);
        assert(done + Seq::<Seq<u8>>::empty() =~= done);
    }
    Ok(logs)
}

/// Reads the header of a store file without reading its body.
///
/// `bytes` is the file, or as much of its beginning as holds the first
/// three lines. Fails with `BadHeader` for the first line that is missing
/// or is no decimal 64-bit number, and with `EndBeforeStart` where the
/// newest timestamp is older than the oldest.
pub fn read_headers(bytes: &[u8]) -> (r: Result<LogFileHeaders, LogError>)
    ensures
        r == decode_headers(bytes@),
{
    let (parsed, _) = parse_header_lines(bytes);
    match parsed {
        Err(e) => Err(e),
        Ok(headers) => {
            if headers.end_timestamp < headers.start_timestamp {
                Err(
                    LogError::EndBeforeStart {
                        start: headers.start_timestamp,
                        end: headers.end_timestamp,
                    },
                )
            } else {
                Ok(headers)
            }
        },
    }
}

/// Decodes a store file into its records, newest first.
///
/// Succeeds exactly on a text whose header parses, whose body lines all
/// decode, run from newest to oldest and are at least one, and whose
/// header states their number, their oldest and their newest timestamp.
/// Otherwise the error is that of the first of these that fails.
pub fn file_string_to_logs(file_string: &String) -> (r: Result<Vec<Log>, LogError>)
    ensures
        match r {
            Ok(logs) => decode_file(encode_utf8(file_string@)) == Ok::<Seq<Record>, LogError>(
                records_of(logs@),
            ),
            Err(e) => decode_file(encode_utf8(file_string@)) == Err::<Seq<Record>, LogError>(e),
        },
{
    let bytes = string_bytes(file_string);
    let (parsed, body_start) = parse_header_lines(bytes);
    let headers = match parsed {
        Err(e) => {
            return Err(e);
        },
        Ok(headers) => headers,
    };
    let logs = match decode_records_from(bytes, body_start) {
        Err(e) => {
            return Err(e);
        },
        Ok(logs) => logs,
    };
    if logs.len() == 0 {
        return Err(LogError::EmptyBody);
    }
    let actual_count = logs.len() as u64;
    let oldest = logs[logs.len() - 1].timestamp;
    let newest = logs[0].timestamp;
    if headers.log_count != actual_count {
        return Err(
            LogError::HeaderMismatch {
                field: HeaderField::RecordCount,
                declared: headers.log_count,
                actual: actual_count,
            },
        );
    }
    if headers.start_timestamp != oldest {
        return Err(
            LogError::HeaderMismatch {
                field: HeaderField::StartTimestamp,
                declared: headers.start_timestamp,
                actual: oldest,
            },
        );
    }
    if headers.end_timestamp != newest {
        return Err(
            LogError::HeaderMismatch {
                field: HeaderField::EndTimestamp,
                declared: headers.end_timestamp,
                actual: newest,
            },
        );
    }
    Ok(logs)
}

/// Decodes a text that holds records only, one per line, newest first.
///
/// Succeeds exactly if every line decodes, the records run from newest to
/// oldest, and there is at least one.
pub fn body_string_to_logs(body_string: &String) -> (r: Result<Vec<Log>, LogError>)
    ensures
        match r {
            Ok(logs) => decode_body(encode_utf8(body_string@)) == Ok::<Seq<Record>, LogError>(
                records_of(logs@),
            ),
            Err(e) => decode_body(encode_utf8(body_string@)) == Err::<Seq<Record>, LogError>(e),
        },
{
    let bytes = string_bytes(body_string);
    assert(bytes@.skip(0) =~= bytes@);
    match decode_records_from(bytes, 0) {
        Err(e) => Err(e),
        Ok(logs) => {
            if logs.len() == 0 {
                Err(LogError::EmptyBody)
            } else {
                Ok(logs)
            }
        },
    }
}

/// Encodes records, newest first, as a store file.
///
/// Succeeds exactly if there is at least one record and none is newer
/// than the one before it. The header is computed from the records.
/// Nothing is escaped: the file decodes to the same records only if no
/// payload holds a line feed.
pub fn logs_to_file_string(logs: &Vec<Log>) -> (r: Result<String, LogError>)
    ensures
        r is Ok <==> logs@.len() > 0 && is_newest_first(records_of(logs@)),
        match r {
            Ok(text) => encode_utf8(text@) == encode_file(records_of(logs@)),
            Err(e) => if logs@.len() == 0 {
                e == LogError::EmptyBody
            } else {
                exists|k: int|
                    {
                        &&& #[trigger] is_first_rise(records_of(logs@), k)
                        &&& e == LogError::OutOfOrder {
                            previous: records_of(logs@)[k - 1].timestamp,
                            timestamp: records_of(logs@)[k].timestamp,
                        }
                    }
            },
        },
{
    let ghost records = records_of(logs@);
    let count = logs.len();
    if count == 0 {
        return Err(LogError::EmptyBody);
    }
    let mut i: usize = 1;
    while i < count
        invariant
            1 <= i <= count,
            count == logs@.len(),
            records == records_of(logs@),
            is_newest_first(records.take(i as int)),
        decreases count - i,
    {
        let previous = logs[i - 1].timestamp;
        let timestamp = logs[i].timestamp;
        if timestamp > previous {
            proof {
                assert(is_first_rise(records, i as int));
            }
            return Err(LogError::OutOfOrder { previous, timestamp });
        }
        proof {
            let shorter = records.take(i as int);
            let longer = records.take(i + 1);
            assert forall|a: int, b: int| 0 <= a <= b < longer.len() implies longer[a].timestamp
                >= longer[b].timestamp by {
                if b < i {
                    assert(shorter[a].timestamp >= shorter[b].timestamp);
                } else if a < i {
                    assert(shorter[a].timestamp >= shorter[i - 1].timestamp);
                }
            }
        }
        i = i + 1;
    }
    assert(records.take(count as int) =~= records);
    let ghost headers = headers_of(records);
    let ghost head = header_lines(headers);
    let ghost body = record_lines(records);
    let mut out: Vec<u8> = Vec::new();
    proof {
        assert(head =~= Seq::<Seq<u8>>::empty().push(head[0]).push(head[1]).push(head[2]));
        lemma_join_lines_push(Seq::<Seq<u8>>::empty(), head[0]);
        lemma_join_lines_push(Seq::<Seq<u8>>::empty().push(head[0]), head[1]);
        lemma_join_lines_push(Seq::<Seq<u8>>::empty().push(head[0]).push(head[1]), head[2]);
    }
    push_decimal(&mut out, logs[count - 1].timestamp);
    out.push(LINE_FEED);
    push_decimal(&mut out, logs[0].timestamp);
    out.push(LINE_FEED);
    push_decimal(&mut out, count as u64);
    out.push(LINE_FEED);
    assert(out@ =~= join_lines(head));
    assert(head + body.take(0) =~= head);
    let mut j: usize = 0;
    while j < count
        invariant
            j <= count,
            count == logs@.len(),
            records == records_of(logs@),
            body == record_lines(records),
            out@ == join_lines(head + body.take(j as int)),
        decreases count - j,
    {
        proof {
            lemma_join_lines_push(head + body.take(j as int), body[j as int]);
            assert((head + body.take(j as int)).push(body[j as int]) =~= head + body.take(j + 1));
        }
        let ghost before = out@;
        push_record(&mut out, &logs[j]);
        out.push(LINE_FEED);
        assert(out@ =~= before + body[j as int] + seq![LINE_FEED]);
        j = j + 1;
    }
    proof {
        assert(body.take(count as int) =~= body);
        lemma_encode_file_is_utf8(records);
    }
    match string_from_utf8(out) {
        Some(text) => Ok(text),
        None => vstd::pervasive::unreached(),
    }
}

/// Where the body of a store file starts: right after the third line, or
/// at the end of `bytes` if they hold no more than three lines.
///
/// Where the result is less than the length of `bytes`, the three header
/// lines are whole.
pub fn body_start(bytes: &[u8]) -> (start: usize)
    ensures
        start == line_start(bytes@, 3),
        start <= bytes@.len(),
{
    let mut at: usize = 0;
    let mut left: usize = 3;
    assert(bytes@.skip(0) =~= bytes@);
    while left > 0 && at < bytes.len()
        invariant
            at <= bytes@.len(),
            left <= 3,
            line_start(bytes@, 3) == at + line_start(bytes@.skip(at as int), left as nat),
        decreases left,
    {
        let (end, next) = line_at(bytes, at);
        proof {
            let rest = bytes@.skip(at as int);
            let k = find_byte(rest, LINE_FEED) as int;
            if end < bytes@.len() {
                assert(rest.skip(k + 1) =~= bytes@.skip(next as int));
            } else {
                assert(bytes@.skip(next as int).len() == 0);
            }
        }
        at = next;
        left = left - 1;
    }
    proof {
        if left > 0 {
            assert(bytes@.skip(at as int).len() == 0);
        }
    }
    at
}

/// How many lines a page may hold at most: `limit`, but no more than the
/// header's count leaves after `offset`.
pub fn page_limit(headers: &LogFileHeaders, limit: usize, offset: usize) -> (bound: usize)
    ensures
        bound == page_bound(headers.log_count, limit as nat, offset as nat),
{
    let skipped = offset as u64;
    if headers.log_count > skipped {
        let left = headers.log_count - skipped;
        if (limit as u64) < left {
            limit
        } else {
            left as usize
        }
    } else {
        0
    }
}

/// Decodes lines of text into records, one each and in order. Fails with
/// the error of the first line that denotes no record.
pub fn decode_lines(lines: &Vec<String>) -> (r: Result<Vec<Log>, LogError>)
    ensures
        match r {
            Ok(logs) => decode_each(strings_of(lines@)) == Ok::<Seq<Record>, LogError>(
                records_of(logs@),
            ),
            Err(e) => decode_each(strings_of(lines@)) == Err::<Seq<Record>, LogError>(e),
        },
{
    let ghost all = strings_of(lines@);
    let mut logs: Vec<Log> = Vec::new();
    let mut i: usize = 0;
    assert(all.take(0) =~= Seq::<Seq<char>>::empty());
    assert(records_of(logs@) =~= Seq::<Record>::empty());
    while i < lines.len()
        invariant
            i <= lines@.len(),
            all == strings_of(lines@),
            decode_each(all.take(i as int)) == Ok::<Seq<Record>, LogError>(records_of(logs@)),
        decreases lines@.len() - i,
    {
        let ghost done = records_of(logs@);
        proof {
            assert(all.take(i + 1).drop_last() =~= all.take(i as int));
            assert(all.take(i + 1).last() == lines@[i as int]@);
        }
        match Log::from_string(&lines[i]) {
            Err(e) => {
                proof {
                    lemma_decode_each_sticky(all.take(i + 1), all.skip(i + 1));
                    assert(all.take(i + 1) + all.skip(i + 1) =~= all);
                }
                return Err(e);
            },
            Ok(log) => {
                proof {
                    assert(records_of(logs@.push(log)) =~= done.push(log@));
                }
                logs.push(log);
            },
        }
        i = i + 1;
    }
    assert(all.take(i as int) =~= all);
    Ok(logs)
}

/// The end of a chunk, together with what follows the chunk, is an end of
/// the source.
proof fn lemma_read_from_end(source: Seq<u8>, position: int, chunk: Seq<u8>, taken: int)
    requires
        0 <= taken <= chunk.len() <= position <= source.len(),
        chunk == source.subrange(position - chunk.len(), position),
    ensures
        chunk.skip(chunk.len() - taken) + source.skip(position) == source.skip(position - taken),
{
    assert(chunk.skip(chunk.len() - taken) + source.skip(position) =~= source.skip(
        position - taken,
    ));
}

/// Finds one page of the lines of `source`, the last line first, reading
/// `source` from its end in chunks.
///
/// With the lines of `source` counted from its end, the page starts at
/// line `line_offset` and holds `lines` lines, or as many as there are.
/// A line feed at the very end of `source` ends the last line and starts
/// no further one. Fails with `InvalidEncoding` exactly if one of the
/// lines up to the end of the page is not UTF-8. Nothing is read for a
/// page of no lines.
pub fn tail_file(source: &[u8], lines: usize, line_offset: usize) -> (r: Result<
    Vec<String>,
    LogError,
>)
    ensures
        match r {
            Ok(found) => tail_lines(source@, lines as nat, line_offset as nat) == Ok::<
                Seq<Seq<char>>,
                LogError,
            >(strings_of(found@)),
            Err(e) => tail_lines(source@, lines as nat, line_offset as nat) == Err::<
                Seq<Seq<char>>,
                LogError,
            >(e),
        },
{
    let length = source.len();
    let mut scanner = TailScanner::new(length as u64, lines, line_offset);
    assert(source@.skip(source@.len() as int) =~= Seq::<u8>::empty());
    loop
        invariant
            scanner.limit() == lines,
            scanner.offset() == line_offset,
            scanner.position() <= source@.len() <= usize::MAX,
            scanner.scanned() == source@.skip(scanner.position() as int),
            scanner.holds_page(),
        ensures
            scanner.is_done(),
        decreases scanner.position(),
    {
        let ghost position = scanner.position() as int;
        match scanner.next_read() {
            None => {
                break ;
            },
            Some((start, length)) => {
                let from = start as usize;
                let chunk = slice_subrange(source, from, from + length);
                let ghost before = scanner;
                match scanner.feed(chunk) {
                    Err(e) => {
                        proof {
                            let taken = choose|taken: int|
                                {
                                    &&& 0 < taken <= chunk@.len()
                                    &&& taken <= before.position()
                                    &&& #[trigger] before.page_after(chunk@, taken) == Err::<
                                        Seq<Seq<char>>,
                                        LogError,
                                    >(e)
                                    &&& before.reads_on(chunk@, taken)
                                };
                            lemma_read_from_end(source@, position, chunk@, taken);
                            lemma_scan_decides_page(
                                source@,
                                position - taken,
                                lines as nat,
                                line_offset as nat,
                            );
                        }
                        return Err(e);
                    },
                    Ok(next) => {
                        proof {
                            lemma_read_from_end(
                                source@,
                                position,
                                chunk@,
                                position - next.position(),
                            );
                        }
                        scanner = next;
                    },
                }
            },
        }
    }
    proof {
        lemma_scan_decides_page(
            source@,
            scanner.position() as int,
            lines as nat,
            line_offset as nat,
        );
    }
    Ok(scanner.into_lines())
}

/// Reads one page of the records of a key, from the end of its file.
///
/// A key without a file has no records, which is no error. Otherwise the
/// header is read first. The page is then taken from the lines after the
/// header, the last line first: `offset` lines are left out, and at most
/// `limit` lines are returned, and no more than the header's count
/// leaves. Fails with the error of the header, else with
/// `InvalidEncoding` for a line up to the end of the page that is not
/// UTF-8, else with the error of the first line of the page that denotes
/// no record.
pub fn read_logs(file: Option<&[u8]>, limit: usize, offset: usize) -> (r: Result<
    Vec<Log>,
    LogError,
>)
    ensures
        match r {
            Ok(logs) => read_result(file_bytes(file), limit as nat, offset as nat) == Ok::<
                Seq<Record>,
                LogError,
            >(records_of(logs@)),
            Err(e) => read_result(file_bytes(file), limit as nat, offset as nat) == Err::<
                Seq<Record>,
                LogError,
            >(e),
        },
{
    let file = match file {
        None => {
            let logs: Vec<Log> = Vec::new();
            assert(records_of(logs@) =~= Seq::<Record>::empty());
            return Ok(logs);
        },
        Some(file) => file,
    };
    let headers = match read_headers(file) {
        Err(e) => {
            return Err(e);
        },
        Ok(headers) => headers,
    };
    let start = body_start(file);
    let bound = page_limit(&headers, limit, offset);
    let body = slice_subrange(file, start, file.len());
    assert(body@ =~= file@.skip(start as int));
    let lines = match tail_file(body, bound, offset) {
        Err(e) => {
            return Err(e);
        },
        Ok(lines) => lines,
    };
    decode_lines(&lines)
}

/// Computes the file that a write leaves in the store.
///
/// `new_body` holds the records to add, one per line and newest first,
/// without a header; `current` is the file that the store holds, if any.
/// Fails with `BadRequest` exactly if `new_body` is no such body, and
/// with `CorruptStore` exactly if it is one and the stored file does not
/// decode. Otherwise the result is the store file of the new records
/// merged into the stored ones, and it decodes to just these.
pub fn write_log_file(new_body: &String, current: Option<&String>) -> (r: Result<
    String,
    WriteError,
>)
    ensures
        match r {
            Ok(text) => {
                &&& written_file(encode_utf8(new_body@), stored_bytes(current)) == Ok::<
                    Seq<u8>,
                    WriteError,
                >(encode_utf8(text@))
                &&& decode_file(encode_utf8(text@)) == Ok::<Seq<Record>, LogError>(
                    written_records(encode_utf8(new_body@), stored_bytes(current))->Ok_0,
                )
            },
            Err(e) => written_file(encode_utf8(new_body@), stored_bytes(current)) == Err::<
                Seq<u8>,
                WriteError,
            >(e),
        },
{
    let fresh = match body_string_to_logs(new_body) {
        Err(e) => {
            return Err(WriteError::BadRequest(e));
        },
        Ok(fresh) => fresh,
    };
    proof {
        lemma_decoded_body(encode_utf8(new_body@));
    }
    let records = match current {
        None => fresh,
        Some(text) => {
            let stored = match file_string_to_logs(text) {
                Err(e) => {
                    return Err(WriteError::CorruptStore(e));
                },
                Ok(stored) => stored,
            };
            proof {
                lemma_decoded_file(encode_utf8(text@));
            }
            match merge_logs(fresh, stored) {
                Ok(merged) => merged,
                Err(_) => vstd::pervasive::unreached(),
            }
        },
    };
    proof {
        assert(records@.len() == records.len());
        assert(written_records(encode_utf8(new_body@), stored_bytes(current)) == Ok::<
            Seq<Record>,
            WriteError,
        >(records_of(records@)));
        lemma_written_file_decodes(encode_utf8(new_body@), stored_bytes(current));
    }
    match logs_to_file_string(&records) {
        Ok(text) => Ok(text),
        Err(_) => vstd::pervasive::unreached(),
    }
}

} // verus!
