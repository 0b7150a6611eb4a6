use log_store::error::{ErrorKind, HeaderField, LogError};
use log_store::log::Log;
use log_store::log_file::{
    body_string_to_logs, file_string_to_logs, logs_to_file_string, read_headers, LogFileHeaders,
};

fn log(timestamp: u64, payload: &str) -> Log {
    Log { timestamp, payload: payload.to_string() }
}

#[test]
fn decodes_a_line_with_a_payload() {
    let decoded = Log::from_string(&"300 hello".to_string());
    assert_eq!(decoded, Ok(log(300, "hello")));
}

#[test]
fn decodes_a_line_without_a_space_as_a_bare_timestamp() {
    assert_eq!(Log::from_string(&"42".to_string()), Ok(log(42, "")));
}

#[test]
fn keeps_further_spaces_in_the_payload() {
    assert_eq!(Log::from_string(&"7 a b  c ".to_string()), Ok(log(7, "a b  c ")));
}

#[test]
fn decodes_an_empty_payload_after_the_space() {
    assert_eq!(Log::from_string(&"7 ".to_string()), Ok(log(7, "")));
}

#[test]
fn decodes_a_payload_outside_ascii() {
    assert_eq!(Log::from_string(&"9 grüße, 世界".to_string()), Ok(log(9, "grüße, 世界")));
}

#[test]
fn rejects_an_empty_line() {
    assert_eq!(Log::from_string(&String::new()), Err(LogError::EmptyLine));
}

#[test]
fn rejects_a_line_that_starts_with_a_space() {
    assert_eq!(Log::from_string(&" hello".to_string()), Err(LogError::BadTimestamp));
}

#[test]
fn rejects_a_timestamp_that_is_no_number() {
    assert_eq!(Log::from_string(&"12x hello".to_string()), Err(LogError::BadTimestamp));
    assert_eq!(Log::from_string(&"-5 hello".to_string()), Err(LogError::BadTimestamp));
    assert_eq!(Log::from_string(&"+ hello".to_string()), Err(LogError::BadTimestamp));
}

#[test]
fn accepts_a_plus_sign_and_leading_zeros() {
    assert_eq!(Log::from_string(&"+15 a".to_string()), Ok(log(15, "a")));
    assert_eq!(Log::from_string(&"0015 a".to_string()), Ok(log(15, "a")));
}

#[test]
fn reads_the_largest_timestamp_and_rejects_the_next() {
    assert_eq!(
        Log::from_string(&"18446744073709551615 x".to_string()),
        Ok(log(u64::MAX, "x"))
    );
    assert_eq!(
        Log::from_string(&"18446744073709551616 x".to_string()),
        Err(LogError::BadTimestamp)
    );
    assert_eq!(
        Log::from_string(&"99999999999999999999999 x".to_string()),
        Err(LogError::BadTimestamp)
    );
}

#[test]
fn encodes_a_record_as_timestamp_space_payload() {
    assert_eq!(log(300, "hello").to_string(), "300 hello");
    assert_eq!(log(0, "").to_string(), "0 ");
    assert_eq!(log(u64::MAX, "x y").to_string(), "18446744073709551615 x y");
}

#[test]
fn a_record_survives_encoding_and_decoding() {
    for record in [log(0, ""), log(10, "a"), log(1234567890, "two words"), log(u64::MAX, "ß")] {
        assert_eq!(Log::from_string(&record.to_string()), Ok(record));
    }
}

#[test]
fn decodes_a_store_file() {
    let text = "100\n300\n2\n300 hello\n100 world\n".to_string();
    assert_eq!(file_string_to_logs(&text), Ok(vec![log(300, "hello"), log(100, "world")]));
    assert_eq!(
        read_headers(text.as_bytes()),
        Ok(LogFileHeaders { start_timestamp: 100, end_timestamp: 300, log_count: 2 })
    );
}

#[test]
fn decodes_a_store_file_without_a_final_line_feed() {
    let text = "100\n300\n2\n300 hello\n100 world".to_string();
    assert_eq!(file_string_to_logs(&text), Ok(vec![log(300, "hello"), log(100, "world")]));
}

#[test]
fn decodes_records_of_the_same_age() {
    let text = "5\n5\n3\n5 a\n5 b\n5 c\n".to_string();
    assert_eq!(file_string_to_logs(&text), Ok(vec![log(5, "a"), log(5, "b"), log(5, "c")]));
}

#[test]
fn rejects_a_file_whose_header_is_cut_short() {
    let start = LogError::BadHeader { field: HeaderField::StartTimestamp };
    let end = LogError::BadHeader { field: HeaderField::EndTimestamp };
    let count = LogError::BadHeader { field: HeaderField::RecordCount };
    assert_eq!(file_string_to_logs(&String::new()), Err(start));
    assert_eq!(file_string_to_logs(&"x\n1\n1\n1 a\n".to_string()), Err(start));
    assert_eq!(file_string_to_logs(&"1\n".to_string()), Err(end));
    assert_eq!(file_string_to_logs(&"1\n\n1\n1 a\n".to_string()), Err(end));
    assert_eq!(file_string_to_logs(&"1\n1\n".to_string()), Err(count));
    assert_eq!(file_string_to_logs(&"1\n1\n1 a\n".to_string()), Err(count));
    assert_eq!(start.kind(), ErrorKind::ParseError);
}

#[test]
fn rejects_a_file_without_records() {
    assert_eq!(file_string_to_logs(&"0\n0\n0\n".to_string()), Err(LogError::EmptyBody));
    assert_eq!(file_string_to_logs(&"0\n0\n0".to_string()), Err(LogError::EmptyBody));
    assert_eq!(LogError::EmptyBody.kind(), ErrorKind::FormatInvariantViolation);
}

#[test]
fn rejects_a_body_line_that_is_no_record() {
    assert_eq!(
        file_string_to_logs(&"1\n2\n2\n2 a\nb\n".to_string()),
        Err(LogError::BadTimestamp)
    );
    assert_eq!(
        file_string_to_logs(&"1\n2\n2\n2 a\n\n1 b\n".to_string()),
        Err(LogError::EmptyLine)
    );
}

#[test]
fn rejects_a_record_newer_than_the_one_before_it() {
    let error = LogError::OutOfOrder { previous: 100, timestamp: 300 };
    assert_eq!(file_string_to_logs(&"100\n300\n2\n100 world\n300 hello\n".to_string()), Err(error));
    assert_eq!(error.kind(), ErrorKind::FormatInvariantViolation);
}

#[test]
fn rejects_a_header_that_miscounts() {
    let error = LogError::HeaderMismatch { field: HeaderField::RecordCount, declared: 3, actual: 2 };
    assert_eq!(file_string_to_logs(&"100\n300\n3\n300 hello\n100 world\n".to_string()), Err(error));
    assert_eq!(error.kind(), ErrorKind::FormatInvariantViolation);
}

#[test]
fn rejects_a_header_with_the_wrong_oldest_timestamp() {
    let error =
        LogError::HeaderMismatch { field: HeaderField::StartTimestamp, declared: 99, actual: 100 };
    assert_eq!(file_string_to_logs(&"99\n300\n2\n300 hello\n100 world\n".to_string()), Err(error));
}

#[test]
fn rejects_a_header_with_the_wrong_newest_timestamp() {
    let error =
        LogError::HeaderMismatch { field: HeaderField::EndTimestamp, declared: 301, actual: 300 };
    assert_eq!(file_string_to_logs(&"100\n301\n2\n300 hello\n100 world\n".to_string()), Err(error));
}

#[test]
fn rejects_a_header_whose_end_is_before_its_start() {
    let decoded = file_string_to_logs(&"300\n100\n2\n300 hello\n100 world\n".to_string());
    assert_eq!(
        decoded,
        Err(LogError::HeaderMismatch {
            field: HeaderField::StartTimestamp,
            declared: 300,
            actual: 100
        })
    );
    assert_eq!(decoded.unwrap_err().kind(), ErrorKind::FormatInvariantViolation);
    assert_eq!(
        read_headers(b"300\n100\n2\n300 hello\n100 world\n"),
        Err(LogError::EndBeforeStart { start: 300, end: 100 })
    );
}

#[test]
fn a_broken_line_is_reported_before_a_wrong_header() {
    assert_eq!(
        file_string_to_logs(&"1\n1\n2\nx\n".to_string()),
        Err(LogError::BadTimestamp)
    );
}

#[test]
fn reads_a_header_from_the_start_of_a_file() {
    let headers = LogFileHeaders { start_timestamp: 1, end_timestamp: 2, log_count: 3 };
    assert_eq!(read_headers(b"1\n2\n3\n"), Ok(headers));
    assert_eq!(read_headers(b"1\n2\n3"), Ok(headers));
    assert_eq!(read_headers(b"1\n2\n3\n2 a\nnot a record"), Ok(headers));
    assert_eq!(
        read_headers(b"1\n2\n"),
        Err(LogError::BadHeader { field: HeaderField::RecordCount })
    );
    assert_eq!(
        read_headers(b"1\n 2\n3\n"),
        Err(LogError::BadHeader { field: HeaderField::EndTimestamp })
    );
}

#[test]
fn decodes_a_bare_body() {
    assert_eq!(body_string_to_logs(&"150 new-entry\n".to_string()), Ok(vec![log(150, "new-entry")]));
    assert_eq!(
        body_string_to_logs(&"9 c\n9 b\n3 a".to_string()),
        Ok(vec![log(9, "c"), log(9, "b"), log(3, "a")])
    );
}

#[test]
fn rejects_a_bare_body_that_is_empty_or_disordered() {
    assert_eq!(body_string_to_logs(&String::new()), Err(LogError::EmptyBody));
    assert_eq!(body_string_to_logs(&"\n".to_string()), Err(LogError::EmptyLine));
    assert_eq!(
        body_string_to_logs(&"1 a\n2 b\n".to_string()),
        Err(LogError::OutOfOrder { previous: 1, timestamp: 2 })
    );
}

#[test]
fn encodes_a_store_file_with_a_fresh_header() {
    assert_eq!(
        logs_to_file_string(&vec![log(300, "hello"), log(100, "world")]),
        Ok("100\n300\n2\n300 hello\n100 world\n".to_string())
    );
    assert_eq!(
        logs_to_file_string(&vec![log(150, "new-entry")]),
        Ok("150\n150\n1\n150 new-entry\n".to_string())
    );
}

#[test]
fn refuses_to_encode_nothing() {
    assert_eq!(logs_to_file_string(&Vec::new()), Err(LogError::EmptyBody));
}

#[test]
fn refuses_to_encode_disordered_records() {
    assert_eq!(
        logs_to_file_string(&vec![log(5, "a"), log(5, "b"), log(6, "c"), log(9, "d")]),
        Err(LogError::OutOfOrder { previous: 5, timestamp: 6 })
    );
}

#[test]
fn a_file_survives_encoding_and_decoding() {
    let records = vec![log(u64::MAX, "newest"), log(77, "z ß 世"), log(77, ""), log(0, "oldest")];
    let text = logs_to_file_string(&records).unwrap();
    assert_eq!(text, "0\n18446744073709551615\n4\n18446744073709551615 newest\n77 z ß 世\n77 \n0 oldest\n");
    assert_eq!(file_string_to_logs(&text), Ok(records));
}
