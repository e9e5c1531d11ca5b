use log_monitor::LogReader;

fn content(text: &str) -> Vec<u8> {
    text.as_bytes().to_vec()
}

#[test]
fn new_reader_starts_at_zero() {
    let r = LogReader::new("log.txt");
    assert_eq!(r.current_line(), 0);
}

#[test]
fn new_buf_is_empty() {
    let b = log_monitor::reader::new_buf();
    assert!(b.is_empty());
}

#[test]
fn next_line_produces_lines_then_none() {
    let file = content("first\nsecond\n");
    let mut r = LogReader::new("log.txt");
    assert_eq!(r.next_line(&file), Some(content("first\n")));
    assert_eq!(r.current_line(), 1);
    assert_eq!(r.next_line(&file), Some(content("second\n")));
    assert_eq!(r.current_line(), 2);
    assert_eq!(r.next_line(&file), None);
    assert_eq!(r.current_line(), 2);
}

#[test]
fn next_line_returns_partial_last_line() {
    let file = content("whole\npartial");
    let mut r = LogReader::new("log.txt");
    assert_eq!(r.next_line(&file), Some(content("whole\n")));
    assert_eq!(r.next_line(&file), Some(content("partial")));
    assert_eq!(r.next_line(&file), None);
}

#[test]
fn next_line_polling_sees_new_data() {
    let first = content("a\n");
    let mut r = LogReader::new("log.txt");
    assert_eq!(r.next_line(&first), Some(content("a\n")));
    assert_eq!(r.next_line(&first), None);
    let grown = content("a\nb\n");
    assert_eq!(r.next_line(&grown), Some(content("b\n")));
}

#[test]
fn read_returns_everything_from_position() {
    let file = content("a\nb\nc\n");
    let mut r = LogReader::new("log.txt");
    assert_eq!(r.read(&file), content("a\nb\nc\n"));
    assert_eq!(r.current_line(), 3);
}

#[test]
fn read_on_empty_content_is_empty() {
    let file: Vec<u8> = Vec::new();
    let mut r = LogReader::new("log.txt");
    assert_eq!(r.read(&file), Vec::<u8>::new());
    assert_eq!(r.current_line(), 0);
}

#[test]
fn read_n_lines_stops_after_n() {
    let file = content("a\nb\nc\nd\n");
    let mut r = LogReader::new("log.txt");
    assert_eq!(r.read_n_lines(2, &file), content("a\nb\n"));
    assert_eq!(r.current_line(), 2);
    assert_eq!(r.read_n_lines(5, &file), content("c\nd\n"));
    assert_eq!(r.current_line(), 4);
}

#[test]
fn read_zero_lines_reads_nothing() {
    let file = content("a\nb\n");
    let mut r = LogReader::new("log.txt");
    assert_eq!(r.read_n_lines(0, &file), Vec::<u8>::new());
    assert_eq!(r.current_line(), 0);
}

#[test]
fn skip_n_lines_advances_cursor_quietly() {
    let file = content("a\nb\nc\n");
    let mut r = LogReader::new("log.txt");
    r.skip_n_lines(2, &file);
    assert_eq!(r.current_line(), 2);
    r.skip_n_lines(9, &file);
    assert_eq!(r.current_line(), 3);
}

#[test]
fn skip_to_end_counts_all_lines() {
    let file = content("a\nb\nc\npartial");
    let mut r = LogReader::new("log.txt");
    r.skip_to_end(&file);
    assert_eq!(r.current_line(), 4);
    assert_eq!(r.read(&file), Vec::<u8>::new());
}

#[test]
fn reopen_resets_cursor() {
    let file = content("a\nb\n");
    let mut r = LogReader::new("log.txt");
    let _ = r.read(&file);
    assert_eq!(r.current_line(), 2);
    r.reopen();
    assert_eq!(r.current_line(), 0);
    assert_eq!(r.read(&file), content("a\nb\n"));
}
