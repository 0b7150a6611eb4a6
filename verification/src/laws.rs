//! What holds of store files: of decoding and encoding them, of their
//! headers, and of reading from and writing to a store.

use crate::decimal::{
    all_digits, is_digit, lemma_decimal_digits_are_digits, lemma_parse_decimal_digits,
};
use crate::error::{ErrorKind, LogError};
use crate::lines::{
    find_byte, is_single_line, lemma_find_byte, lemma_text_lines_are_single,
    lemma_text_lines_of_join, text_lines, join_lines, LINE_FEED,
};
use crate::log::{
    decode_line, encode_record, is_newest_first, lemma_decode_encoded_record,
    lemma_decoded_line_is_single, lemma_encode_record_is_text, lemma_merge_contains,
    lemma_merge_len, lemma_merge_order, lemma_record_line_is_utf8, Record,
};
use crate::log_file::{
    body_lines, decode_body, decode_each, decode_file, decode_headers, decode_records,
    describes, encode_file, header_defect, header_field, header_lines, headers_of, line_start,
    page_bound, parse_headers, read_page, record_lines, written_records, LogFileHeaders,
};
use crate::tail::{all_utf8, decode_all, least, page_of};
use crate::text::{is_ascii_bytes, lemma_ascii_is_utf8};
use vstd::prelude::*;
use vstd::utf8::*;

verus! {

/// Once a line has failed, the lines after it do not matter.
pub proof fn lemma_decode_records_sticky(lines: Seq<Seq<u8>>, more: Seq<Seq<u8>>)
    requires
        decode_records(lines) is Err,
    ensures
        decode_records(lines + more) == decode_records(lines),
    decreases more.len(),
{
    if more.len() == 0 {
        assert(lines + more =~= lines);
    } else {
        assert((lines + more).drop_last() =~= lines + more.drop_last());
        lemma_decode_records_sticky(lines, more.drop_last());
    }
}

/// Lines decode to records exactly if each line denotes its record and
/// the records run from newest to oldest.
pub proof fn lemma_decode_records_ok(lines: Seq<Seq<u8>>, records: Seq<Record>)
    ensures
        decode_records(lines) == Ok::<Seq<Record>, LogError>(records) <==> {
            &&& records.len() == lines.len()
            &&& forall|i: int|
                0 <= i < lines.len() ==> #[trigger] decode_line(lines[i]) == Ok::<
                    Record,
                    LogError,
                >(records[i])
            &&& is_newest_first(records)
        },
    decreases lines.len(),
{
    if lines.len() == 0 {
        if records.len() == 0 {
            assert(records =~= Seq::<Record>::empty());
        }
    } else {
        let front = lines.drop_last();
        match decode_records(front) {
            Err(_) => {
                if records.len() == lines.len() {
                    lemma_decode_records_ok(front, records.drop_last());
                    if (forall|i: int|
                        0 <= i < lines.len() ==> #[trigger] decode_line(lines[i]) == Ok::<
                            Record,
                            LogError,
                        >(records[i])) && is_newest_first(records) {
                        assert forall|i: int| 0 <= i < front.len() implies #[trigger] decode_line(
                            front[i],
                        ) == Ok::<Record, LogError>(records.drop_last()[i]) by {
                            assert(decode_line(lines[i]) == Ok::<Record, LogError>(records[i]));
                        }
                        assert(is_newest_first(records.drop_last())) by {
                            assert forall|i: int, j: int|
                                0 <= i <= j < records.drop_last().len() implies records.drop_last()[i].timestamp
                                >= records.drop_last()[j].timestamp by {
                                assert(records[i].timestamp >= records[j].timestamp);
                            }
                        }
                        assert(false);
                    }
                }
            },
            Ok(decoded) => {
                lemma_decode_records_ok(front, decoded);
                if decode_records(lines) == Ok::<Seq<Record>, LogError>(records) {
                    assert(records == decoded.push(records.last()));
                    assert forall|i: int| 0 <= i < lines.len() implies #[trigger] decode_line(
                        lines[i],
                    ) == Ok::<Record, LogError>(records[i]) by {
                        if i < front.len() {
                            assert(decode_line(front[i]) == Ok::<Record, LogError>(decoded[i]));
                        }
                    }
                    assert forall|i: int, j: int| 0 <= i <= j < records.len() implies records[i].timestamp
                        >= records[j].timestamp by {
                        if j < decoded.len() {
                            assert(decoded[i].timestamp >= decoded[j].timestamp);
                        } else if i < decoded.len() {
                            assert(decoded[i].timestamp >= decoded[decoded.len() - 1].timestamp);
                        }
                    }
                }
                if records.len() == lines.len() && (forall|i: int|
                    0 <= i < lines.len() ==> #[trigger] decode_line(lines[i]) == Ok::<
                        Record,
                        LogError,
                    >(records[i])) && is_newest_first(records) {
                    let shorter = records.drop_last();
                    assert forall|i: int| 0 <= i < front.len() implies #[trigger] decode_line(
                        front[i],
                    ) == Ok::<Record, LogError>(shorter[i]) by {
                        assert(decode_line(lines[i]) == Ok::<Record, LogError>(records[i]));
                    }
                    assert(is_newest_first(shorter)) by {
                        assert forall|i: int, j: int|
                            0 <= i <= j < shorter.len() implies shorter[i].timestamp
                            >= shorter[j].timestamp by {
                            assert(records[i].timestamp >= records[j].timestamp);
                        }
                    }
                    lemma_decode_records_ok(front, shorter);
                    assert(decoded == shorter);
                    assert(decode_line(lines[lines.len() - 1]) == Ok::<Record, LogError>(
                        records[lines.len() - 1],
                    ));
                    if decoded.len() > 0 {
                        assert(records[decoded.len() - 1].timestamp
                            >= records[decoded.len() as int].timestamp);
                    }
                    assert(shorter.push(records.last()) =~= records);
                }
            },
        }
    }
}

/// Where every line denotes a record, decoding can only fail on their
/// order.
pub proof fn lemma_decode_records_fails_on_order(lines: Seq<Seq<u8>>)
    requires
        forall|i: int| 0 <= i < lines.len() ==> (#[trigger] decode_line(lines[i])) is Ok,
        decode_records(lines) is Err,
    ensures
        decode_records(lines)->Err_0 is OutOfOrder,
    decreases lines.len(),
{
    if lines.len() > 0 {
        let front = lines.drop_last();
        assert(decode_line(lines[lines.len() - 1]) is Ok);
        if decode_records(front) is Err {
            assert forall|i: int| 0 <= i < front.len() implies (#[trigger] decode_line(
                front[i],
            )) is Ok by {
                assert(decode_line(lines[i]) is Ok);
            }
            lemma_decode_records_fails_on_order(front);
        }
    }
}

/// Records that were decoded from single lines have single-line payloads.
pub proof fn lemma_decoded_records_are_single(lines: Seq<Seq<u8>>)
    requires
        decode_records(lines) is Ok,
        forall|i: int| 0 <= i < lines.len() ==> is_single_line(#[trigger] lines[i]),
    ensures
        forall|i: int|
            0 <= i < decode_records(lines)->Ok_0.len() ==> (#[trigger] decode_records(
                lines,
            )->Ok_0[i]).is_single_line(),
{
    let records = decode_records(lines)->Ok_0;
    lemma_decode_records_ok(lines, records);
    assert forall|i: int| 0 <= i < records.len() implies (#[trigger] records[i]).is_single_line() by {
        assert(decode_line(lines[i]) == Ok::<Record, LogError>(records[i]));
        assert(is_single_line(lines[i]));
        lemma_decoded_line_is_single(lines[i]);
    }
}

/// The three lines of a header are digits only.
proof fn lemma_header_lines_are_digits(headers: LogFileHeaders)
    ensures
        header_lines(headers).len() == 3,
        forall|i: int|
            0 <= i < 3 ==> all_digits(#[trigger] header_lines(headers)[i]),
        header_field(header_lines(headers), 0) == Some(headers.start_timestamp),
        header_field(header_lines(headers), 1) == Some(headers.end_timestamp),
        header_field(header_lines(headers), 2) == Some(headers.log_count),
{
    lemma_decimal_digits_are_digits(headers.start_timestamp as nat);
    lemma_decimal_digits_are_digits(headers.end_timestamp as nat);
    lemma_decimal_digits_are_digits(headers.log_count as nat);
    lemma_parse_decimal_digits(headers.start_timestamp);
    lemma_parse_decimal_digits(headers.end_timestamp);
    lemma_parse_decimal_digits(headers.log_count);
}

/// Digits are ASCII and hold no line feed.
proof fn lemma_digits_are_plain(text: Seq<u8>)
    requires
        all_digits(text),
    ensures
        is_single_line(text),
        is_ascii_bytes(text),
{
    assert forall|j: int| 0 <= j < text.len() implies #[trigger] text[j] != LINE_FEED by {
        assert(is_digit(text[j]));
    }
    assert forall|j: int| 0 <= j < text.len() implies #[trigger] text[j] < 128 by {
        assert(is_digit(text[j]));
    }
}

/// The lines of records decode to the records, if these are ordered.
proof fn lemma_decode_record_lines(records: Seq<Record>)
    requires
        is_newest_first(records),
    ensures
        decode_records(record_lines(records)) == Ok::<Seq<Record>, LogError>(records),
{
    let body = record_lines(records);
    assert forall|i: int| 0 <= i < body.len() implies #[trigger] decode_line(body[i]) == Ok::<
        Record,
        LogError,
    >(records[i]) by {
        lemma_decode_encoded_record(records[i]);
    }
    lemma_decode_records_ok(body, records);
}

/// A store file that was written from ordered records, none of whose
/// payloads holds a line feed, decodes to those records.
pub proof fn lemma_decode_encoded_file(records: Seq<Record>)
    requires
        0 < records.len() <= u64::MAX,
        is_newest_first(records),
        forall|i: int| 0 <= i < records.len() ==> (#[trigger] records[i]).is_single_line(),
    ensures
        decode_file(encode_file(records)) == Ok::<Seq<Record>, LogError>(records),
{
    let headers = headers_of(records);
    let head = header_lines(headers);
    let body = record_lines(records);
    let lines = head + body;
    lemma_header_lines_are_digits(headers);
    assert forall|i: int| 0 <= i < lines.len() implies is_single_line(#[trigger] lines[i]) by {
        if i < 3 {
            assert(lines[i] == head[i]);
            lemma_digits_are_plain(head[i]);
        } else {
            assert(lines[i] == encode_record(records[i - 3]));
            lemma_encode_record_is_text(records[i - 3]);
        }
    }
    lemma_text_lines_of_join(lines);
    assert(text_lines(encode_file(records)) == lines);
    assert(lines[0] == head[0] && lines[1] == head[1] && lines[2] == head[2]);
    assert(parse_headers(lines) == Ok::<LogFileHeaders, LogError>(headers));
    assert(lines.skip(3) =~= body);
    lemma_decode_record_lines(records);
    assert(header_defect(headers, records) is None);
}

/// A text joined from UTF-8 lines is UTF-8.
pub proof fn lemma_join_is_utf8(lines: Seq<Seq<u8>>)
    requires
        forall|i: int| 0 <= i < lines.len() ==> valid_utf8(#[trigger] lines[i]),
    ensures
        valid_utf8(join_lines(lines)),
    decreases lines.len(),
{
    if lines.len() > 0 {
        let rest = lines.drop_first();
        assert forall|i: int| 0 <= i < rest.len() implies valid_utf8(#[trigger] rest[i]) by {
            assert(rest[i] == lines[i + 1]);
        }
        lemma_join_is_utf8(rest);
        let feed = seq![LINE_FEED];
        assert(is_ascii_bytes(feed));
        lemma_ascii_is_utf8(feed);
        assert(valid_utf8(lines[0]));
        valid_utf8_concat(lines[0], feed);
        valid_utf8_concat(lines[0] + feed, join_lines(rest));
    }
}

/// A store file written from records is UTF-8.
pub proof fn lemma_encode_file_is_utf8(records: Seq<Record>)
    ensures
        valid_utf8(encode_file(records)),
{
    let headers = headers_of(records);
    let head = header_lines(headers);
    let lines = head + record_lines(records);
    lemma_header_lines_are_digits(headers);
    assert forall|i: int| 0 <= i < lines.len() implies valid_utf8(#[trigger] lines[i]) by {
        if i < 3 {
            assert(lines[i] == head[i]);
            lemma_digits_are_plain(head[i]);
            lemma_ascii_is_utf8(head[i]);
        } else {
            assert(lines[i] == encode_record(records[i - 3]));
            lemma_encode_record_is_text(records[i - 3]);
        }
    }
    lemma_join_is_utf8(lines);
}

/// The header computed from ordered records describes them.
pub proof fn lemma_headers_of_describe(records: Seq<Record>)
    requires
        0 < records.len() <= u64::MAX,
        is_newest_first(records),
    ensures
        describes(headers_of(records), records),
{
    let last = records.len() - 1;
    assert(records[last].timestamp == records.last().timestamp);
    assert(records[0].timestamp == records.first().timestamp);
    assert forall|i: int| 0 <= i < records.len() implies (#[trigger] records[i]).timestamp
        >= records.last().timestamp by {
        assert(records[i].timestamp >= records[last].timestamp);
    }
    assert forall|i: int| 0 <= i < records.len() implies (#[trigger] records[i]).timestamp
        <= records.first().timestamp by {
        assert(records[0].timestamp >= records[i].timestamp);
    }
}

/// Only the header computed from ordered records describes them.
pub proof fn lemma_describes_is_headers_of(headers: LogFileHeaders, records: Seq<Record>)
    requires
        records.len() > 0,
        is_newest_first(records),
        describes(headers, records),
    ensures
        headers == headers_of(records),
{
    let last = records.len() - 1;
    let i = choose|i: int|
        0 <= i < records.len() && (#[trigger] records[i]).timestamp == headers.start_timestamp;
    assert(records[i].timestamp >= records[last].timestamp);
    assert(records[last].timestamp >= headers.start_timestamp);
    let j = choose|j: int|
        0 <= j < records.len() && (#[trigger] records[j]).timestamp == headers.end_timestamp;
    assert(records[0].timestamp >= records[j].timestamp);
    assert(records[0].timestamp <= headers.end_timestamp);
}

/// The records of a body are at least one, run from newest to oldest, and
/// have payloads without line feeds.
pub proof fn lemma_decoded_body(text: Seq<u8>)
    requires
        decode_body(text) is Ok,
    ensures
        decode_body(text)->Ok_0.len() > 0,
        is_newest_first(decode_body(text)->Ok_0),
        forall|i: int|
            0 <= i < decode_body(text)->Ok_0.len() ==> (#[trigger] decode_body(
                text,
            )->Ok_0[i]).is_single_line(),
{
    let lines = text_lines(text);
    let records = decode_records(lines)->Ok_0;
    lemma_decode_records_ok(lines, records);
    lemma_text_lines_are_single(text);
    lemma_decoded_records_are_single(lines);
}

/// The records of a store file are at least one, run from newest to
/// oldest, have payloads without line feeds, and are what the header says.
pub proof fn lemma_decoded_file(text: Seq<u8>)
    requires
        decode_file(text) is Ok,
    ensures
        decode_file(text)->Ok_0.len() > 0,
        is_newest_first(decode_file(text)->Ok_0),
        forall|i: int|
            0 <= i < decode_file(text)->Ok_0.len() ==> (#[trigger] decode_file(
                text,
            )->Ok_0[i]).is_single_line(),
        parse_headers(text_lines(text)) == Ok::<LogFileHeaders, LogError>(
            headers_of(decode_file(text)->Ok_0),
        ),
        describes(headers_of(decode_file(text)->Ok_0), decode_file(text)->Ok_0),
{
    let all = text_lines(text);
    let lines = all.skip(3);
    let records = decode_records(lines)->Ok_0;
    lemma_decode_records_ok(lines, records);
    lemma_headers_of_describe(records);
    lemma_text_lines_are_single(text);
    assert forall|i: int| 0 <= i < lines.len() implies is_single_line(#[trigger] lines[i]) by {
        assert(lines[i] == all[i + 3]);
    }
    lemma_decoded_records_are_single(lines);
}

/// A text is a store file of `records` exactly if its header parses, its
/// further lines denote `records` one by one, these are at least one and
/// run from newest to oldest, and the header describes them.
pub proof fn lemma_decode_file_ok(text: Seq<u8>, records: Seq<Record>)
    ensures
        decode_file(text) == Ok::<Seq<Record>, LogError>(records) <==> {
            &&& parse_headers(text_lines(text)) is Ok
            &&& records.len() == text_lines(text).skip(3).len()
            &&& forall|i: int|
                0 <= i < records.len() ==> #[trigger] decode_line(text_lines(text).skip(3)[i])
                    == Ok::<Record, LogError>(records[i])
            &&& records.len() > 0
            &&& is_newest_first(records)
            &&& describes(parse_headers(text_lines(text))->Ok_0, records)
        },
{
    let body = text_lines(text).skip(3);
    lemma_decode_records_ok(body, records);
    if decode_file(text) == Ok::<Seq<Record>, LogError>(records) {
        lemma_decoded_file(text);
    }
    if parse_headers(text_lines(text)) is Ok && records.len() > 0 && is_newest_first(records)
        && describes(parse_headers(text_lines(text))->Ok_0, records) {
        lemma_describes_is_headers_of(parse_headers(text_lines(text))->Ok_0, records);
    }
}

/// A store file whose header parses and whose body lines all denote
/// records is rejected for breaking the format if the header does not
/// describe these records: if it miscounts them, names another oldest or
/// newest timestamp than theirs, or a newest that is older than the
/// oldest.
pub proof fn lemma_header_must_describe_body(text: Seq<u8>, records: Seq<Record>)
    requires
        parse_headers(text_lines(text)) is Ok,
        records.len() == text_lines(text).skip(3).len(),
        forall|i: int|
            0 <= i < records.len() ==> #[trigger] decode_line(text_lines(text).skip(3)[i]) == Ok::<
                Record,
                LogError,
            >(records[i]),
        !describes(parse_headers(text_lines(text))->Ok_0, records),
    ensures
        decode_file(text) is Err,
        decode_file(text)->Err_0.kind() == ErrorKind::FormatInvariantViolation,
{
    let headers = parse_headers(text_lines(text))->Ok_0;
    let body = text_lines(text).skip(3);
    if decode_records(body) is Err {
        assert forall|i: int| 0 <= i < body.len() implies (#[trigger] decode_line(body[i])) is Ok by {
            assert(decode_line(body[i]) == Ok::<Record, LogError>(records[i]));
        }
        lemma_decode_records_fails_on_order(body);
    } else {
        let decoded = decode_records(body)->Ok_0;
        lemma_decode_records_ok(body, decoded);
        assert(decoded =~= records) by {
            assert forall|i: int| 0 <= i < decoded.len() implies decoded[i] == records[i] by {
                assert(decode_line(body[i]) == Ok::<Record, LogError>(records[i]));
                assert(decode_line(body[i]) == Ok::<Record, LogError>(decoded[i]));
            }
        }
        if records.len() > 0 && header_defect(headers, records) is None {
            assert(headers == headers_of(records));
            lemma_headers_of_describe(records);
        }
    }
}

/// What a write leaves in the store is a store file that holds exactly the
/// records written.
pub proof fn lemma_written_file_decodes(new_body: Seq<u8>, current: Option<Seq<u8>>)
    requires
        written_records(new_body, current) is Ok,
        written_records(new_body, current)->Ok_0.len() <= u64::MAX,
    ensures
        decode_file(encode_file(written_records(new_body, current)->Ok_0)) == Ok::<
            Seq<Record>,
            LogError,
        >(written_records(new_body, current)->Ok_0),
{
    let fresh = decode_body(new_body)->Ok_0;
    let records = written_records(new_body, current)->Ok_0;
    lemma_decoded_body(new_body);
    match current {
        None => {},
        Some(text) => {
            let stored = decode_file(text)->Ok_0;
            lemma_decoded_file(text);
            lemma_merge_order(fresh, stored);
            lemma_merge_len(fresh, stored);
            assert forall|i: int| 0 <= i < records.len() implies (
            #[trigger] records[i]).is_single_line() by {
                lemma_merge_contains(fresh, stored, records[i]);
                assert(records.contains(records[i]));
                if fresh.contains(records[i]) {
                    let k = choose|k: int| 0 <= k < fresh.len() && fresh[k] == records[i];
                    assert(fresh[k].is_single_line());
                } else {
                    let k = choose|k: int| 0 <= k < stored.len() && stored[k] == records[i];
                    assert(stored[k].is_single_line());
                }
            }
        },
    }
    lemma_decode_encoded_file(records);
}

/// What follows the first `count` lines of a text are the lines after
/// them.
pub proof fn lemma_line_start(text: Seq<u8>, count: nat)
    ensures
        line_start(text, count) <= text.len(),
        text_lines(text.skip(line_start(text, count) as int)) == text_lines(text).skip(
            least(count, text_lines(text).len()) as int,
        ),
    decreases count,
{
    let k = find_byte(text, LINE_FEED) as int;
    let lines = text_lines(text);
    lemma_find_byte(text, LINE_FEED);
    if count == 0 {
        assert(text.skip(0) =~= text);
        assert(lines.skip(0) =~= lines);
    } else if k < text.len() {
        let rest = text.skip(k + 1);
        lemma_line_start(rest, (count - 1) as nat);
        let inner = line_start(rest, (count - 1) as nat) as int;
        assert(text.skip(k + 1 + inner) =~= rest.skip(inner));
        let drop = least((count - 1) as nat, text_lines(rest).len()) as int;
        assert((seq![text.take(k)] + text_lines(rest)).skip(drop + 1) =~= text_lines(rest).skip(
            drop,
        ));
    } else {
        assert(text.skip(text.len() as int) =~= Seq::<u8>::empty());
        if text.len() == 0 {
            assert(lines.skip(0) =~= lines);
        } else {
            assert(lines.skip(1) =~= Seq::<Seq<u8>>::empty());
        }
    }
}

/// Once a line has failed, the lines after it do not matter.
pub proof fn lemma_decode_each_sticky(lines: Seq<Seq<char>>, more: Seq<Seq<char>>)
    requires
        decode_each(lines) is Err,
    ensures
        decode_each(lines + more) == decode_each(lines),
    decreases more.len(),
{
    if more.len() == 0 {
        assert(lines + more =~= lines);
    } else {
        assert((lines + more).drop_last() =~= lines + more.drop_last());
        lemma_decode_each_sticky(lines, more.drop_last());
    }
}

/// The first lines of a text are those of any beginning of it that holds
/// them whole.
proof fn lemma_first_lines_in_prefix(prefix: Seq<u8>, rest: Seq<u8>, count: nat)
    requires
        line_start(prefix, count) < prefix.len(),
    ensures
        line_start(prefix + rest, count) == line_start(prefix, count),
        text_lines(prefix).len() >= count,
        text_lines(prefix + rest).len() >= count,
        text_lines(prefix + rest).take(count as int) == text_lines(prefix).take(count as int),
    decreases count,
{
    let text = prefix + rest;
    let k = find_byte(prefix, LINE_FEED) as int;
    lemma_find_byte(prefix, LINE_FEED);
    if count == 0 {
        assert(text_lines(text).take(0) =~= text_lines(prefix).take(0));
    } else {
        assert forall|i: int| 0 <= i < k implies #[trigger] text[i] != LINE_FEED by {
            assert(text[i] == prefix[i]);
        }
        assert(text[k] == prefix[k]);
        crate::lines::lemma_find_byte_unique(text, LINE_FEED, k);
        assert(text.skip(k + 1) =~= prefix.skip(k + 1) + rest);
        assert(text.take(k) =~= prefix.take(k));
        lemma_first_lines_in_prefix(prefix.skip(k + 1), rest, (count - 1) as nat);
        let inner = text_lines(prefix.skip(k + 1));
        let inner_all = text_lines(text.skip(k + 1));
        assert((seq![prefix.take(k)] + inner_all).take(count as int) =~= (seq![prefix.take(k)]
            + inner).take(count as int)) by {
            assert forall|i: int| 0 <= i < count implies (seq![prefix.take(k)] + inner_all)[i] == (
            seq![prefix.take(k)] + inner)[i] by {
                if i > 0 {
                    assert(inner_all.take(count - 1)[i - 1] == inner.take(count - 1)[i - 1]);
                }
            }
        }
    }
}

/// The header can be read from any beginning of a file that holds more
/// than the three header lines, and the body starts where it starts in
/// that beginning.
pub proof fn lemma_header_in_prefix(prefix: Seq<u8>, rest: Seq<u8>)
    requires
        line_start(prefix, 3) < prefix.len(),
    ensures
        decode_headers(prefix + rest) == decode_headers(prefix),
        line_start(prefix + rest, 3) == line_start(prefix, 3),
{
    lemma_first_lines_in_prefix(prefix, rest, 3);
    let short = text_lines(prefix);
    let long = text_lines(prefix + rest);
    assert(long[0] == long.take(3)[0] && short[0] == short.take(3)[0]);
    assert(long[1] == long.take(3)[1] && short[1] == short.take(3)[1]);
    assert(long[2] == long.take(3)[2] && short[2] == short.take(3)[2]);
}

/// Lines of text decode to records if each line denotes its record.
pub proof fn lemma_decode_each_ok(lines: Seq<Seq<char>>, records: Seq<Record>)
    requires
        records.len() == lines.len(),
        forall|i: int|
            0 <= i < lines.len() ==> #[trigger] decode_line(encode_utf8(lines[i])) == Ok::<
                Record,
                LogError,
            >(records[i]),
    ensures
        decode_each(lines) == Ok::<Seq<Record>, LogError>(records),
    decreases lines.len(),
{
    if lines.len() == 0 {
        assert(records =~= Seq::<Record>::empty());
    } else {
        let front = lines.drop_last();
        let shorter = records.drop_last();
        assert forall|i: int| 0 <= i < front.len() implies #[trigger] decode_line(
            encode_utf8(front[i]),
        ) == Ok::<Record, LogError>(shorter[i]) by {
            assert(decode_line(encode_utf8(lines[i])) == Ok::<Record, LogError>(records[i]));
        }
        lemma_decode_each_ok(front, shorter);
        assert(decode_line(encode_utf8(lines[lines.len() - 1])) == Ok::<Record, LogError>(
            records[lines.len() - 1],
        ));
        assert(shorter.push(records.last()) =~= records);
    }
}

/// Reading a page of a well-formed store file gives the records of the
/// file from its end: the oldest first, `offset` of them left out, at most
/// `limit` of them, or as many as there are.
pub proof fn lemma_read_page_of_store_file(text: Seq<u8>, limit: nat, offset: nat)
    requires
        decode_file(text) is Ok,
    ensures
        ({
            let oldest_first = decode_file(text)->Ok_0.reverse();
            let start = least(oldest_first.len(), offset) as int;
            let end = least(oldest_first.len(), offset + limit) as int;
            read_page(text, limit, offset) == Ok::<Seq<Record>, LogError>(
                oldest_first.subrange(start, end),
            )
        }),
{
    let lines = text_lines(text);
    let records = decode_file(text)->Ok_0;
    let oldest_first = records.reverse();
    let count = records.len();
    let start = least(count, offset) as int;
    let end = least(count, offset + limit) as int;
    let body = lines.skip(3);
    lemma_decoded_file(text);
    lemma_decode_records_ok(body, records);
    let headers = headers_of(records);
    assert(decode_headers(text) == Ok::<LogFileHeaders, LogError>(headers));
    lemma_line_start(text, 3);
    assert(body_lines(text) == body);
    let bound = page_bound(headers.log_count, limit, offset);
    let from_end = body.reverse();
    assert(all_utf8(from_end)) by {
        assert forall|i: int| 0 <= i < from_end.len() implies valid_utf8(
            #[trigger] from_end[i],
        ) by {
            assert(decode_line(body[count - 1 - i]) == Ok::<Record, LogError>(
                records[count - 1 - i],
            ));
            lemma_record_line_is_utf8(body[count - 1 - i]);
        }
    }
    let wanted = oldest_first.subrange(start, end);
    if bound == 0 {
        assert(wanted =~= Seq::<Record>::empty());
    } else {
        assert(end - start == bound);
        let passed = from_end.take(least(from_end.len(), offset + bound) as int);
        let page = decode_all(passed.skip(least(passed.len(), offset) as int));
        assert(page_of(from_end, bound, offset) == Ok::<Seq<Seq<char>>, LogError>(page));
        assert forall|i: int| 0 <= i < page.len() implies #[trigger] decode_line(
            encode_utf8(page[i]),
        ) == Ok::<Record, LogError>(wanted[i]) by {
            let line = from_end[offset + i];
            assert(passed.skip(least(passed.len(), offset) as int)[i] == line);
            assert(page[i] == decode_utf8(line));
            assert(valid_utf8(line));
            decode_utf8_encode_utf8(line);
            assert(line == body[count - 1 - (offset + i)]);
            assert(decode_line(body[count - 1 - (offset + i)]) == Ok::<Record, LogError>(
                records[count - 1 - (offset + i)],
            ));
        }
        lemma_decode_each_ok(page, wanted);
    }
}

} // verus!
