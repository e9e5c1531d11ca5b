use log_monitor::LogError;
use log_monitor::LogReader;

fn content(text: &str) -> Vec<u8> {
    text.as_bytes().to_vec()
}

fn six_lines() -> Vec<u8> {
    content("L1\nL2\nL3\nL4\nL5\nL6\n")
}

#[test]
fn whole_file_from_line_one() {
    let file = six_lines();
    let mut r = LogReader::new("log.txt");
    assert_eq!(r.read_range(1, -1, true, &file).unwrap(), six_lines());
}

#[test]
fn whole_file_from_line_one_after_consuming() {
    let file = six_lines();
    let mut r = LogReader::new("log.txt");
    let _ = r.read_range(1, 3, false, &file);
    assert_eq!(r.current_line(), 3);
    assert_eq!(r.read_range(1, -1, true, &file).unwrap(), six_lines());
}

#[test]
fn absolute_window() {
    let file = six_lines();
    let mut r = LogReader::new("log.txt");
    assert_eq!(r.read_range(2, 4, false, &file).unwrap(), content("L2\nL3\nL4\n"));
}

#[test]
fn absolute_window_cut_short_by_eof() {
    let file = content("L1\nL2\nL3\n");
    let mut r = LogReader::new("log.txt");
    assert_eq!(r.read_range(2, 10, false, &file).unwrap(), content("L2\nL3\n"));
}

#[test]
fn single_line_range() {
    let file = six_lines();
    let mut r = LogReader::new("log.txt");
    assert_eq!(r.read_range(1, 1, false, &file).unwrap(), content("L1\n"));
}

#[test]
fn last_three_by_negative_bounds() {
    let file = six_lines();
    let mut r = LogReader::new("log.txt");
    assert_eq!(r.read_range(-3, -1, true, &file).unwrap(), content("L4\nL5\nL6\n"));
}

#[test]
fn open_end_from_absolute_start() {
    let file = six_lines();
    let mut r = LogReader::new("log.txt");
    assert_eq!(r.read_range(4, -1, true, &file).unwrap(), content("L4\nL5\nL6\n"));
}

#[test]
fn end_relative_close_from_absolute_start() {
    let file = six_lines();
    let mut r = LogReader::new("log.txt");
    assert_eq!(r.read_range(4, -2, true, &file).unwrap(), content("L4\nL5\n"));
}

#[test]
fn last_line_only() {
    let file = six_lines();
    let mut r = LogReader::new("log.txt");
    assert_eq!(r.read_range(-1, -1, true, &file).unwrap(), content("L6\n"));
}

#[test]
fn continue_to_end_from_fresh_reader() {
    let file = six_lines();
    let mut r = LogReader::new("log.txt");
    assert_eq!(r.read_range(0, -1, false, &file).unwrap(), six_lines());
}

#[test]
fn behind_cursor_without_force_is_empty() {
    let file = six_lines();
    let mut r = LogReader::new("log.txt");
    let _ = r.read_range(1, 4, false, &file);
    assert_eq!(r.read_range(2, 5, false, &file).unwrap(), Vec::<u8>::new());
    assert_eq!(r.current_line(), 4);
}

#[test]
fn inverted_bounds_are_rejected() {
    let file = six_lines();
    let mut r = LogReader::new("log.txt");
    assert_eq!(r.read_range(6, 4, false, &file), Err(LogError::InvalidRange));
    assert_eq!(r.read_range(6, 4, true, &file), Err(LogError::InvalidRange));
    assert_eq!(r.read_range(5, 4, false, &file), Err(LogError::InvalidRange));
    assert_eq!(r.read_range(5, 4, true, &file), Err(LogError::InvalidRange));
    assert_eq!(r.read_range(2, 1, true, &file), Err(LogError::InvalidRange));
    assert_eq!(r.current_line(), 0);
}

#[test]
fn zero_end_bound_is_rejected() {
    let file = six_lines();
    let mut r = LogReader::new("log.txt");
    assert_eq!(r.read_range(5, 0, false, &file), Err(LogError::InvalidRange));
}

#[test]
fn continue_with_closed_negative_end_is_rejected() {
    let file = six_lines();
    let mut r = LogReader::new("log.txt");
    assert_eq!(r.read_range(0, -2, false, &file), Err(LogError::InvalidRange));
}

#[test]
fn inverted_negative_bounds_are_rejected() {
    let file = six_lines();
    let mut r = LogReader::new("log.txt");
    assert_eq!(r.read_range(-1, -3, true, &file), Err(LogError::InvalidRange));
}

#[test]
fn scenario_sequential_ranges() {
    let file = six_lines();
    let mut r = LogReader::new("log.txt");
    assert_eq!(r.read_range(2, 5, false, &file).unwrap(), content("L2\nL3\nL4\nL5\n"));
    assert_eq!(r.read_range(1, 4, true, &file).unwrap(), content("L1\nL2\nL3\nL4\n"));
    assert_eq!(r.read_range(10, 14, true, &file).unwrap(), Vec::<u8>::new());
    assert_eq!(r.read_range(9, 10, true, &file).unwrap(), Vec::<u8>::new());
    assert_eq!(r.read_range(10, 10, true, &file).unwrap(), Vec::<u8>::new());
    assert_eq!(r.read_range(8, -1, true, &file).unwrap(), Vec::<u8>::new());
    assert_eq!(r.read_range(6, -2, true, &file).unwrap(), Vec::<u8>::new());
    assert_eq!(r.read_range(9, -2, true, &file), Err(LogError::InvalidRange));
}

#[test]
fn range_on_empty_content() {
    let file: Vec<u8> = Vec::new();
    let mut r = LogReader::new("log.txt");
    assert_eq!(r.read_range(1, -1, true, &file).unwrap(), Vec::<u8>::new());
    assert_eq!(r.read_range(1, 3, true, &file).unwrap(), Vec::<u8>::new());
}

#[test]
fn range_from_end_called_directly() {
    let file = six_lines();
    let mut r = LogReader::new("log.txt");
    assert_eq!(r.read_range_from_end(2, -1, false, &file).unwrap(), content("L2\nL3\nL4\nL5\nL6\n"));
    assert_eq!(r.read_range_from_end(3, 1, false, &file), Err(LogError::InvalidRange));
}
