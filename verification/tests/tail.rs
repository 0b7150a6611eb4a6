use log_store::error::{ErrorKind, LogError};
use log_store::log_file::tail_file;
use log_store::tail::{TailScanner, TAIL_BUFFER_SIZE};

fn strings(lines: &[&str]) -> Vec<String> {
    lines.iter().map(|line| line.to_string()).collect()
}

/// The lines of `source`, the last one first, found the plain way.
fn lines_from_end(source: &[u8]) -> Vec<Vec<u8>> {
    let mut lines: Vec<Vec<u8>> = source.split(|byte| *byte == b'\n').map(|l| l.to_vec()).collect();
    if lines.last().map(|line| line.is_empty()).unwrap_or(false) {
        lines.pop();
    }
    lines.reverse();
    lines
}

/// The page that `tail_file` should give, found the plain way.
fn expected_page(source: &[u8], limit: usize, offset: usize) -> Vec<String> {
    lines_from_end(source)
        .into_iter()
        .skip(offset)
        .take(limit)
        .map(|line| String::from_utf8(line).unwrap())
        .collect()
}

/// A text of `count` lines of growing length, `width` bytes at most.
fn sample(count: usize, width: usize) -> Vec<u8> {
    let mut text = Vec::new();
    for i in 0..count {
        let length = (i * 37 + 11) % (width + 1);
        text.extend_from_slice(format!("{} ", 1000 - i).as_bytes());
        for j in 0..length {
            text.push(b'a' + ((i + j) % 26) as u8);
        }
        text.push(b'\n');
    }
    text
}

/// Runs a scanner over `source`, handing it `step` bytes at a time.
fn scan_in_steps(
    source: &[u8],
    limit: usize,
    offset: usize,
    step: usize,
) -> Result<Vec<String>, LogError> {
    let mut scanner = TailScanner::new(source.len() as u64, limit, offset);
    let mut position = source.len();
    while scanner.next_read().is_some() {
        let start = position.saturating_sub(step);
        scanner = scanner.feed(&source[start..position])?;
        position = start;
    }
    Ok(scanner.into_lines())
}

#[test]
fn an_empty_source_has_no_lines() {
    assert_eq!(tail_file(b"", 10, 0), Ok(Vec::new()));
    assert_eq!(tail_file(b"", 10, 3), Ok(Vec::new()));
}

#[test]
fn a_page_of_no_lines_is_empty_whatever_the_source_holds() {
    assert_eq!(tail_file(b"a\nb\n", 0, 0), Ok(Vec::new()));
    assert_eq!(tail_file(b"\xff\xfe\n\xff", 0, 0), Ok(Vec::new()));
    assert_eq!(tail_file(b"\xff\xfe\n\xff", 0, 5), Ok(Vec::new()));
}

#[test]
fn the_last_lines_come_first() {
    assert_eq!(tail_file(b"a\nb\nc\n", 1, 0), Ok(strings(&["c"])));
    assert_eq!(tail_file(b"a\nb\nc\n", 2, 0), Ok(strings(&["c", "b"])));
    assert_eq!(tail_file(b"a\nb\nc\n", 3, 0), Ok(strings(&["c", "b", "a"])));
}

#[test]
fn a_page_longer_than_the_source_holds_every_line() {
    assert_eq!(tail_file(b"a\nb\nc\n", 4, 0), Ok(strings(&["c", "b", "a"])));
    assert_eq!(tail_file(b"a\nb\nc\n", usize::MAX, 0), Ok(strings(&["c", "b", "a"])));
}

#[test]
fn an_offset_leaves_out_the_last_lines() {
    assert_eq!(tail_file(b"a\nb\nc\n", 1, 1), Ok(strings(&["b"])));
    assert_eq!(tail_file(b"a\nb\nc\n", 2, 1), Ok(strings(&["b", "a"])));
    assert_eq!(tail_file(b"a\nb\nc\n", 5, 2), Ok(strings(&["a"])));
    assert_eq!(tail_file(b"a\nb\nc\n", 5, 3), Ok(Vec::new()));
    assert_eq!(tail_file(b"a\nb\nc\n", 5, usize::MAX), Ok(Vec::new()));
    assert_eq!(tail_file(b"a\nb\nc\n", usize::MAX, usize::MAX), Ok(Vec::new()));
}

#[test]
fn a_last_line_without_a_line_feed_is_a_line() {
    assert_eq!(tail_file(b"a\nb\nc", 2, 0), Ok(strings(&["c", "b"])));
    assert_eq!(tail_file(b"abc", 2, 0), Ok(strings(&["abc"])));
    assert_eq!(tail_file(b"abc", 2, 1), Ok(Vec::new()));
}

#[test]
fn the_first_line_is_whole_when_the_start_is_reached() {
    assert_eq!(tail_file(b"first\nsecond\n", 2, 0), Ok(strings(&["second", "first"])));
    assert_eq!(tail_file(b"first\nsecond\n", 1, 1), Ok(strings(&["first"])));
}

#[test]
fn empty_lines_are_lines_but_the_final_line_feed_starts_none() {
    assert_eq!(tail_file(b"\n", 5, 0), Ok(strings(&[""])));
    assert_eq!(tail_file(b"\n\n", 5, 0), Ok(strings(&["", ""])));
    assert_eq!(tail_file(b"x\n\ny", 5, 0), Ok(strings(&["y", "", "x"])));
    assert_eq!(tail_file(b"x\n\ny\n", 5, 0), Ok(strings(&["y", "", "x"])));
    assert_eq!(tail_file(b"\nx", 5, 0), Ok(strings(&["x", ""])));
}

#[test]
fn lines_that_span_chunks_are_put_together() {
    let source = sample(40, 3 * TAIL_BUFFER_SIZE);
    assert!(source.len() > 20 * TAIL_BUFFER_SIZE);
    for (limit, offset) in [(1, 0), (3, 0), (5, 2), (40, 0), (100, 0), (7, 33), (7, 39), (1, 40)] {
        assert_eq!(tail_file(&source, limit, offset), Ok(expected_page(&source, limit, offset)));
    }
}

#[test]
fn a_line_that_ends_where_a_chunk_starts_is_not_joined_to_its_neighbour() {
    let mut source = vec![b'x'; 3 * TAIL_BUFFER_SIZE];
    source[TAIL_BUFFER_SIZE - 1] = b'\n';
    source[2 * TAIL_BUFFER_SIZE] = b'\n';
    source[3 * TAIL_BUFFER_SIZE - 1] = b'\n';
    for (limit, offset) in [(1, 0), (2, 0), (3, 0), (4, 0), (2, 1), (1, 2)] {
        assert_eq!(tail_file(&source, limit, offset), Ok(expected_page(&source, limit, offset)));
    }
}

#[test]
fn a_character_that_spans_chunks_is_kept_whole() {
    let mut source = Vec::new();
    source.extend_from_slice("1 start\n2 ".as_bytes());
    while source.len() % TAIL_BUFFER_SIZE != TAIL_BUFFER_SIZE - 1 {
        source.push(b'-');
    }
    source.extend_from_slice("世界".as_bytes());
    while source.len() < 2 * TAIL_BUFFER_SIZE - 1 {
        source.push(b'=');
    }
    source.push(b'\n');
    assert_eq!(source.len(), 2 * TAIL_BUFFER_SIZE);
    let page = tail_file(&source, 2, 0).unwrap();
    assert_eq!(page, expected_page(&source, 2, 0));
    assert!(page[0].contains("世界"));
}

#[test]
fn a_line_that_is_not_text_fails_the_page_that_reaches_it() {
    let source = b"good\nb\xffd\nfine\n";
    assert_eq!(tail_file(source, 1, 0), Ok(strings(&["fine"])));
    assert_eq!(tail_file(source, 2, 0), Err(LogError::InvalidEncoding));
    assert_eq!(tail_file(source, 3, 0), Err(LogError::InvalidEncoding));
    assert_eq!(LogError::InvalidEncoding.kind(), ErrorKind::ParseError);
}

#[test]
fn a_skipped_line_that_is_not_text_fails_the_page_too() {
    let source = b"good\nb\xffd\nfine\n";
    assert_eq!(tail_file(source, 1, 1), Err(LogError::InvalidEncoding));
    assert_eq!(tail_file(source, 1, 2), Err(LogError::InvalidEncoding));
    assert_eq!(tail_file(b"\xff\nfine\n", 1, 0), Ok(strings(&["fine"])));
    assert_eq!(tail_file(b"\xff\nfine", 2, 0), Err(LogError::InvalidEncoding));
}

#[test]
fn the_size_of_the_chunks_does_not_change_the_page() {
    let source = sample(25, 40);
    for step in [1, 2, 3, 7, 64, 1000, 5000] {
        for (limit, offset) in [(0, 0), (1, 0), (4, 0), (4, 3), (25, 0), (30, 0), (3, 24), (3, 25)] {
            assert_eq!(
                scan_in_steps(&source, limit, offset, step),
                Ok(expected_page(&source, limit, offset))
            );
        }
    }
}

#[test]
fn a_scanner_asks_for_the_bytes_before_those_it_has_read() {
    let source = sample(200, 30);
    let length = source.len() as u64;
    assert!(source.len() > 2 * TAIL_BUFFER_SIZE);
    let scanner = TailScanner::new(length, usize::MAX, 0);
    assert_eq!(scanner.next_read(), Some((length - TAIL_BUFFER_SIZE as u64, TAIL_BUFFER_SIZE)));
    let start = source.len() - TAIL_BUFFER_SIZE;
    let scanner = scanner.feed(&source[start..]).unwrap();
    assert_eq!(
        scanner.next_read(),
        Some((length - 2 * TAIL_BUFFER_SIZE as u64, TAIL_BUFFER_SIZE))
    );
}

#[test]
fn a_scanner_asks_for_no_more_than_is_left() {
    let scanner = TailScanner::new(10, 5, 0);
    assert_eq!(scanner.next_read(), Some((0, 10)));
    let scanner = scanner.feed(b"ab\ncd\nefg\n").unwrap();
    assert_eq!(scanner.next_read(), None);
    assert_eq!(scanner.into_lines(), strings(&["efg", "cd", "ab"]));
}

#[test]
fn a_scanner_stops_asking_when_the_page_is_full() {
    let scanner = TailScanner::new(10, 1, 1);
    let scanner = scanner.feed(b"efg\n").unwrap();
    assert_eq!(scanner.next_read(), Some((0, 6)));
    let scanner = scanner.feed(b"\ncd\n").unwrap();
    assert_eq!(scanner.next_read(), None);
    assert_eq!(scanner.into_lines(), strings(&["cd"]));
}

#[test]
fn a_scanner_waits_for_the_line_feed_before_a_line() {
    let scanner = TailScanner::new(10, 1, 1);
    let scanner = scanner.feed(b"cd\nefg\n").unwrap();
    assert_eq!(scanner.next_read(), Some((0, 3)));
    let scanner = scanner.feed(b"ab\n").unwrap();
    assert_eq!(scanner.next_read(), None);
    assert_eq!(scanner.into_lines(), strings(&["cd"]));
}

#[test]
fn a_scanner_for_nothing_asks_for_nothing() {
    assert_eq!(TailScanner::new(10, 0, 0).next_read(), None);
    assert_eq!(TailScanner::new(0, 5, 0).next_read(), None);
    assert_eq!(TailScanner::new(0, 5, 0).into_lines(), Vec::<String>::new());
}

#[test]
fn a_scanner_that_is_done_reads_nothing_more() {
    let scanner = TailScanner::new(10, 1, 0);
    let scanner = scanner.feed(b"cd\nefg\n").unwrap();
    let scanner = scanner.feed(b"ab\n\xff\xff").unwrap();
    assert_eq!(scanner.into_lines(), strings(&["efg"]));
}

#[test]
fn a_scanner_reads_only_the_end_of_a_chunk_that_is_too_long() {
    let scanner = TailScanner::new(4, 5, 0);
    let scanner = scanner.feed(b"zz\nzz\nab\nc").unwrap();
    assert_eq!(scanner.next_read(), None);
    assert_eq!(scanner.into_lines(), strings(&["c", "ab"]));
}

#[test]
fn a_scanner_fails_on_a_line_that_is_not_text() {
    let scanner = TailScanner::new(9, 5, 0);
    assert!(matches!(scanner.feed(b"ab\n\xc3\nefg"), Err(LogError::InvalidEncoding)));
    let scanner = TailScanner::new(4, 5, 0);
    assert!(matches!(scanner.feed(b"\xe4\xb8\nc"), Err(LogError::InvalidEncoding)));
}
