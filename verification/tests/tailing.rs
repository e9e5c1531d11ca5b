use log_monitor::LogReader;

fn content(text: &str) -> Vec<u8> {
    text.as_bytes().to_vec()
}

#[test]
fn read_twice_returns_data_then_empty() {
    let file = content("a\nb\n");
    let mut r = LogReader::new("log.txt");
    assert_eq!(r.read(&file), content("a\nb\n"));
    assert_eq!(r.read(&file), Vec::<u8>::new());
}

#[test]
fn read_after_append_returns_exactly_the_new_lines() {
    let first = content("a\nb\n");
    let mut r = LogReader::new("log.txt");
    let _ = r.read(&first);
    let grown = content("a\nb\nc\nd\ne\n");
    assert_eq!(r.read(&grown), content("c\nd\ne\n"));
    assert_eq!(r.read(&grown), Vec::<u8>::new());
}

#[test]
fn last_n_without_force_stays_at_cursor() {
    let file = content("L1\nL2\nL3\nL4\nL5\nL6\n");
    let mut r = LogReader::new("log.txt");
    let _ = r.read_range(1, 4, false, &file);
    assert_eq!(r.current_line(), 4);
    assert_eq!(r.read_last_n_lines(3, false, &file), content("L5\nL6\n"));
    assert_eq!(r.current_line(), 6);
}

#[test]
fn last_n_with_force_takes_true_tail() {
    let file = content("L1\nL2\nL3\nL4\nL5\nL6\n");
    let mut r = LogReader::new("log.txt");
    let _ = r.read_range(1, 4, false, &file);
    assert_eq!(r.read_last_n_lines(3, true, &file), content("L4\nL5\nL6\n"));
    assert_eq!(r.current_line(), 6);
}

#[test]
fn last_n_from_start_needs_no_force() {
    let file = content("L1\nL2\nL3\nL4\nL5\nL6\n");
    let mut r = LogReader::new("log.txt");
    assert_eq!(r.read_last_n_lines(2, false, &file), content("L5\nL6\n"));
}

#[test]
fn last_n_larger_than_content() {
    let file = content("a\nb\n");
    let mut r = LogReader::new("log.txt");
    assert_eq!(r.read_last_n_lines(10, true, &file), content("a\nb\n"));
}

#[test]
fn last_zero_lines_is_empty() {
    let file = content("a\nb\n");
    let mut r = LogReader::new("log.txt");
    assert_eq!(r.read_last_n_lines(0, false, &file), Vec::<u8>::new());
    assert_eq!(r.current_line(), 2);
}

#[test]
fn sync_check_accepts_growth_by_whole_lines() {
    let file = content("a\nb\n");
    let mut r = LogReader::new("log.txt");
    assert!(r.is_synced(&file));
    let _ = r.read(&file);
    assert!(r.is_synced(&file));
    let grown = content("a\nb\nc\nd\n");
    assert!(r.is_synced(&grown));
}

#[test]
fn sync_check_detects_truncation() {
    let file = content("a\nb\nc\n");
    let mut r = LogReader::new("log.txt");
    let _ = r.read(&file);
    let truncated = content("a\n");
    assert!(!r.is_synced(&truncated));
    r.reopen();
    assert!(r.is_synced(&truncated));
}

#[test]
fn sync_check_detects_rotation() {
    let file = content("a\nb\n");
    let mut r = LogReader::new("log.txt");
    let _ = r.next_line(&file);
    assert!(r.is_synced(&file));
    let rotated = content("longer first line\nb\n");
    assert!(!r.is_synced(&rotated));
}

#[test]
fn continue_range_after_cursor() {
    let file = content("L1\nL2\nL3\nL4\nL5\nL6\n");
    let mut r = LogReader::new("log.txt");
    let _ = r.read_range(1, 2, false, &file);
    assert_eq!(r.current_line(), 2);
    assert_eq!(r.read_range(0, -1, true, &file).unwrap(), content("L2\nL3\nL4\nL5\nL6\n"));
}
