use log_store::error::{ErrorKind, HeaderField, LogError, WriteError};
use log_store::log::{merge_logs, Log};
use log_store::log_file::{
    body_start, decode_lines, file_string_to_logs, page_limit, read_headers, read_logs,
    write_log_file, LogFileHeaders,
};

fn log(timestamp: u64, payload: &str) -> Log {
    Log { timestamp, payload: payload.to_string() }
}

#[test]
fn merges_two_ordered_runs_into_one() {
    let a = vec![log(9, "a9"), log(5, "a5"), log(1, "a1")];
    let b = vec![log(8, "b8"), log(6, "b6"), log(2, "b2"), log(0, "b0")];
    assert_eq!(
        merge_logs(a, b),
        Ok(vec![
            log(9, "a9"),
            log(8, "b8"),
            log(6, "b6"),
            log(5, "a5"),
            log(2, "b2"),
            log(1, "a1"),
            log(0, "b0"),
        ])
    );
}

#[test]
fn merging_keeps_every_record() {
    let a = vec![log(7, "x"), log(7, "x"), log(3, "y")];
    let b = vec![log(7, "x"), log(3, "y"), log(3, "z")];
    let merged = merge_logs(a.clone(), b.clone()).unwrap();
    assert_eq!(merged.len(), a.len() + b.len());
    let mut got: Vec<(u64, String)> = merged.iter().map(|l| (l.timestamp, l.payload.clone())).collect();
    let mut want: Vec<(u64, String)> =
        a.iter().chain(b.iter()).map(|l| (l.timestamp, l.payload.clone())).collect();
    got.sort();
    want.sort();
    assert_eq!(got, want);
    assert!(merged.windows(2).all(|pair| pair[0].timestamp >= pair[1].timestamp));
}

#[test]
fn of_two_records_of_the_same_age_the_one_of_the_second_run_comes_first() {
    let a = vec![log(5, "a-first"), log(5, "a-second")];
    let b = vec![log(5, "b-first"), log(5, "b-second")];
    assert_eq!(
        merge_logs(a, b),
        Ok(vec![log(5, "b-first"), log(5, "b-second"), log(5, "a-first"), log(5, "a-second")])
    );
}

#[test]
fn merging_with_an_empty_run_gives_the_other() {
    let run = vec![log(4, "d"), log(2, "b")];
    assert_eq!(merge_logs(run.clone(), Vec::new()), Ok(run.clone()));
    assert_eq!(merge_logs(Vec::new(), run.clone()), Ok(run));
    assert_eq!(merge_logs(Vec::new(), Vec::new()), Ok(Vec::new()));
}

#[test]
fn merging_a_disordered_run_fails() {
    let first = merge_logs(vec![log(1, "a"), log(5, "b")], vec![log(3, "c")]);
    assert_eq!(first, Err(LogError::MergeOrder { timestamp: 5 }));
    let second = merge_logs(vec![log(3, "c")], vec![log(1, "a"), log(5, "b")]);
    assert_eq!(second, Err(LogError::MergeOrder { timestamp: 5 }));
    assert_eq!(LogError::MergeOrder { timestamp: 5 }.kind(), ErrorKind::MergeOrderError);
}

#[test]
fn merging_names_the_first_timestamp_that_is_out_of_place() {
    let a = vec![log(9, "a"), log(4, "b"), log(6, "c"), log(7, "d")];
    let b = vec![log(8, "e"), log(2, "f")];
    assert_eq!(merge_logs(a, b), Err(LogError::MergeOrder { timestamp: 6 }));
    let alone = vec![log(2, "a"), log(1, "b"), log(3, "c")];
    assert_eq!(merge_logs(alone, Vec::new()), Err(LogError::MergeOrder { timestamp: 3 }));
}

#[test]
fn the_first_write_makes_the_file() {
    assert_eq!(
        write_log_file(&"150 new-entry\n".to_string(), None),
        Ok("150\n150\n1\n150 new-entry\n".to_string())
    );
}

#[test]
fn a_later_write_is_merged_into_the_file() {
    let stored = "150\n150\n1\n150 new-entry\n".to_string();
    assert_eq!(
        write_log_file(&"200 another\n".to_string(), Some(&stored)),
        Ok("150\n200\n2\n200 another\n150 new-entry\n".to_string())
    );
}

#[test]
fn a_write_of_several_records_is_interleaved_with_the_stored_ones() {
    let stored = "10\n30\n3\n30 c\n20 b\n10 a\n".to_string();
    let body = "40 z\n20 y\n5 x".to_string();
    let written = write_log_file(&body, Some(&stored)).unwrap();
    assert_eq!(written, "5\n40\n6\n40 z\n30 c\n20 b\n20 y\n10 a\n5 x\n");
    assert_eq!(
        file_string_to_logs(&written),
        Ok(vec![log(40, "z"), log(30, "c"), log(20, "b"), log(20, "y"), log(10, "a"), log(5, "x")])
    );
}

#[test]
fn a_malformed_body_is_the_senders_fault() {
    let stored = "150\n150\n1\n150 new-entry\n".to_string();
    assert_eq!(
        write_log_file(&String::new(), Some(&stored)),
        Err(WriteError::BadRequest(LogError::EmptyBody))
    );
    assert_eq!(
        write_log_file(&"x y\n".to_string(), None),
        Err(WriteError::BadRequest(LogError::BadTimestamp))
    );
    assert_eq!(
        write_log_file(&"1 a\n2 b\n".to_string(), Some(&stored)),
        Err(WriteError::BadRequest(LogError::OutOfOrder { previous: 1, timestamp: 2 }))
    );
    assert_eq!(
        write_log_file(&"1 a\n2 b\n".to_string(), Some(&"garbage".to_string())),
        Err(WriteError::BadRequest(LogError::OutOfOrder { previous: 1, timestamp: 2 }))
    );
}

#[test]
fn a_malformed_file_is_the_stores_fault() {
    let body = "200 another\n".to_string();
    assert_eq!(
        write_log_file(&body, Some(&String::new())),
        Err(WriteError::CorruptStore(LogError::BadHeader { field: HeaderField::StartTimestamp }))
    );
    assert_eq!(
        write_log_file(&body, Some(&"150\n150\n2\n150 new-entry\n".to_string())),
        Err(WriteError::CorruptStore(LogError::HeaderMismatch {
            field: HeaderField::RecordCount,
            declared: 2,
            actual: 1
        }))
    );
}

#[test]
fn a_key_without_a_file_has_no_records() {
    assert_eq!(read_logs(None, 32, 0), Ok(Vec::new()));
    assert_eq!(read_logs(None, 0, 7), Ok(Vec::new()));
}

#[test]
fn pages_are_read_from_the_end_of_the_file() {
    let file = b"150\n200\n2\n200 another\n150 new-entry\n";
    assert_eq!(read_logs(Some(file), 1, 0), Ok(vec![log(150, "new-entry")]));
    assert_eq!(read_logs(Some(file), 1, 1), Ok(vec![log(200, "another")]));
    assert_eq!(read_logs(Some(file), 2, 0), Ok(vec![log(150, "new-entry"), log(200, "another")]));
    assert_eq!(read_logs(Some(file), 32, 0), Ok(vec![log(150, "new-entry"), log(200, "another")]));
    assert_eq!(read_logs(Some(file), 1, 2), Ok(Vec::new()));
    assert_eq!(read_logs(Some(file), 0, 0), Ok(Vec::new()));
}

#[test]
fn a_page_never_reaches_into_the_header() {
    let file = b"1\n3\n3\n3 c\n2 b\n1 a";
    assert_eq!(read_logs(Some(file), 10, 0), Ok(vec![log(1, "a"), log(2, "b"), log(3, "c")]));
    assert_eq!(read_logs(Some(file), 10, 2), Ok(vec![log(3, "c")]));
    assert_eq!(read_logs(Some(file), 10, 3), Ok(Vec::new()));
    assert_eq!(read_logs(Some(b"1\n3\n3\n"), 10, 0), Ok(Vec::new()));
    assert_eq!(read_logs(Some(b"1\n3\n3"), 10, 0), Ok(Vec::new()));
}

#[test]
fn the_count_of_the_header_bounds_the_page() {
    let file = b"1\n3\n2\n3 c\n2 b\n1 a\n";
    assert_eq!(read_logs(Some(file), 10, 0), Ok(vec![log(1, "a"), log(2, "b")]));
    assert_eq!(read_logs(Some(file), 10, 1), Ok(vec![log(2, "b")]));
    assert_eq!(read_logs(Some(file), 10, 2), Ok(Vec::new()));
    assert_eq!(read_logs(Some(b"1\n3\n0\n3 c\nnot a record\n"), 10, 0), Ok(Vec::new()));
}

#[test]
fn reading_fails_on_a_malformed_header() {
    assert_eq!(
        read_logs(Some(b""), 1, 0),
        Err(LogError::BadHeader { field: HeaderField::StartTimestamp })
    );
    assert_eq!(
        read_logs(Some(b"1\nx\n1\n1 a\n"), 1, 0),
        Err(LogError::BadHeader { field: HeaderField::EndTimestamp })
    );
    assert_eq!(
        read_logs(Some(b"5\n1\n1\n1 a\n"), 1, 0),
        Err(LogError::EndBeforeStart { start: 5, end: 1 })
    );
    assert_eq!(
        LogError::EndBeforeStart { start: 5, end: 1 }.kind(),
        ErrorKind::FormatInvariantViolation
    );
}

#[test]
fn reading_fails_on_a_malformed_line_of_the_page() {
    let file = b"1\n3\n3\n3 c\nbroken\n1 a\n";
    assert_eq!(read_logs(Some(file), 1, 0), Ok(vec![log(1, "a")]));
    assert_eq!(read_logs(Some(file), 2, 0), Err(LogError::BadTimestamp));
    assert_eq!(read_logs(Some(b"1\n3\n3\n3 c\n2 \xff\n1 a\n"), 3, 0), Err(LogError::InvalidEncoding));
    assert_eq!(read_logs(Some(b"1\n3\n3\n3 c\n\n1 a\n"), 3, 0), Err(LogError::EmptyLine));
}

#[test]
fn reads_pages_of_a_large_file() {
    let count: u64 = 5000;
    let records: Vec<Log> =
        (0..count).map(|i| log(count - i, &format!("payload number {}", count - i))).collect();
    let mut file = format!("1\n{}\n{}\n", count, count);
    for record in &records {
        file.push_str(&record.to_string());
        file.push('\n');
    }
    assert_eq!(file_string_to_logs(&file), Ok(records.clone()));
    let oldest_first: Vec<Log> = records.iter().rev().cloned().collect();
    for (limit, offset) in [(1, 0), (10, 0), (10, 990), (300, 4800), (5000, 0), (6000, 10)] {
        let want: Vec<Log> = oldest_first.iter().skip(offset).take(limit).cloned().collect();
        assert_eq!(read_logs(Some(file.as_bytes()), limit, offset), Ok(want));
    }
}

#[test]
fn finds_where_the_body_starts() {
    assert_eq!(body_start(b"1\n22\n333\n4 a\n"), 9);
    assert_eq!(body_start(b"1\n22\n333\n"), 9);
    assert_eq!(body_start(b"1\n22\n333"), 8);
    assert_eq!(body_start(b"1\n22\n"), 5);
    assert_eq!(body_start(b""), 0);
    assert_eq!(body_start(b"\n\n\n\n"), 3);
}

#[test]
fn bounds_a_page_by_the_count_of_the_header() {
    let headers = LogFileHeaders { start_timestamp: 1, end_timestamp: 9, log_count: 10 };
    assert_eq!(page_limit(&headers, 32, 0), 10);
    assert_eq!(page_limit(&headers, 32, 4), 6);
    assert_eq!(page_limit(&headers, 3, 4), 3);
    assert_eq!(page_limit(&headers, 3, 9), 1);
    assert_eq!(page_limit(&headers, 3, 10), 0);
    assert_eq!(page_limit(&headers, 3, usize::MAX), 0);
    assert_eq!(page_limit(&headers, usize::MAX, 0), 10);
    assert_eq!(page_limit(&headers, 0, 0), 0);
}

#[test]
fn decodes_the_lines_of_a_page_in_order() {
    let lines = vec!["1 a".to_string(), "3 c".to_string(), "2".to_string()];
    assert_eq!(decode_lines(&lines), Ok(vec![log(1, "a"), log(3, "c"), log(2, "")]));
    assert_eq!(decode_lines(&Vec::new()), Ok(Vec::new()));
    let broken = vec!["1 a".to_string(), String::new(), "x".to_string()];
    assert_eq!(decode_lines(&broken), Err(LogError::EmptyLine));
}

#[test]
fn the_header_of_a_written_file_can_be_read_alone() {
    let written = write_log_file(&"9 c\n9 b\n3 a\n".to_string(), None).unwrap();
    assert_eq!(
        read_headers(written.as_bytes()),
        Ok(LogFileHeaders { start_timestamp: 3, end_timestamp: 9, log_count: 3 })
    );
    assert_eq!(body_start(written.as_bytes()), 6);
}

#[test]
fn the_header_reads_the_same_from_any_beginning_that_holds_it() {
    let file = b"0007\n+42\n3\n42 c\n9 b\n7 a\n";
    let whole = read_headers(file);
    assert_eq!(whole, Ok(LogFileHeaders { start_timestamp: 7, end_timestamp: 42, log_count: 3 }));
    let start = body_start(file);
    assert_eq!(start, 11);
    for length in (start + 1)..=file.len() {
        assert_eq!(read_headers(&file[..length]), whole);
        assert_eq!(body_start(&file[..length]), start);
    }
}

#[test]
fn reading_a_written_file_gives_its_records_from_the_oldest_on() {
    let stored = write_log_file(&"8 h\n8 g\n6 f\n".to_string(), None).unwrap();
    let written = write_log_file(&"9 z\n7 y\n6 x\n1 w\n".to_string(), Some(&stored)).unwrap();
    let records = file_string_to_logs(&written).unwrap();
    assert_eq!(records.len(), 7);
    let oldest_first: Vec<Log> = records.iter().rev().cloned().collect();
    for limit in 0..9 {
        for offset in 0..9 {
            let want: Vec<Log> = oldest_first.iter().skip(offset).take(limit).cloned().collect();
            assert_eq!(read_logs(Some(written.as_bytes()), limit, offset), Ok(want));
        }
    }
}
