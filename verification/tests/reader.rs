use folor::reader::{
    last_lines, lines_from_window, poll_step, split_lines, tail_start, tail_window, PollAction,
};

#[test]
fn split_lines_basic() {
    let lines = split_lines(b"a\nb\nc");
    assert_eq!(lines.len(), 3);
    assert_eq!(lines[0], b"a");
    assert_eq!(lines[1], b"b");
    assert_eq!(lines[2], b"c");
}

#[test]
fn split_lines_trailing_newline() {
    let lines = split_lines(b"a\nb\n");
    assert_eq!(lines.len(), 2);
}

#[test]
fn split_lines_edge_cases() {
    assert!(split_lines(b"").is_empty());
    assert_eq!(split_lines(b"\n"), vec![Vec::<u8>::new()]);
    assert_eq!(split_lines(b"\n\n"), vec![Vec::<u8>::new(), Vec::new()]);
    assert_eq!(split_lines(b"x\r\ny\r"), vec![b"x".to_vec(), b"y".to_vec()]);
    // only one trailing carriage return is removed, and only at the line end
    assert_eq!(split_lines(b"a\r\r\nb\rc\n"), vec![b"a\r".to_vec(), b"b\rc".to_vec()]);
}

#[test]
fn last_lines_of_short_file() {
    let lines = last_lines(b"one\ntwo\n", 10);
    assert_eq!(lines, vec![b"one".to_vec(), b"two".to_vec()]);
}

#[test]
fn last_lines_exact_count() {
    let content = (1..=20)
        .map(|i| format!("line{}", i))
        .collect::<Vec<_>>()
        .join("\n");
    let lines = last_lines(content.as_bytes(), 10);
    assert_eq!(lines.len(), 10);
    assert_eq!(lines[0], b"line11");
    assert_eq!(lines[9], b"line20");
}

#[test]
fn last_lines_zero() {
    assert!(last_lines(b"line1\nline2\n", 0).is_empty());
}

#[test]
fn last_lines_strip_carriage_returns() {
    let lines = last_lines(b"line1\r\nline2\r\n", 5);
    assert_eq!(lines, vec![b"line1".to_vec(), b"line2".to_vec()]);
}

#[test]
fn tail_window_offsets() {
    assert_eq!(tail_window(10, 100), 0);
    assert_eq!(tail_window(10, 10_192), 0);
    assert_eq!(tail_window(10, 10_193), 1);
    assert_eq!(tail_window(5, 100_000), 100_000 - (5 * 200 + 8192));
    assert_eq!(tail_window(usize::MAX, u64::MAX), 0);
}

#[test]
fn tail_start_skips_empty_requests() {
    assert_eq!(tail_start(0, 1000), None);
    assert_eq!(tail_start(3, 0), None);
    assert_eq!(tail_start(3, 20_000), Some(20_000 - 8792));
}

#[test]
fn window_with_enough_lines() {
    let window = b"tial\nb\nc\nd\n";
    assert_eq!(
        lines_from_window(window, 2, Some(b'x')),
        Some(vec![b"c".to_vec(), b"d".to_vec()])
    );
}

#[test]
fn window_too_short_needs_full_read() {
    assert_eq!(lines_from_window(b"xx\nyy\n", 5, Some(b'\n')), None);
}

#[test]
fn window_at_start_is_whole_file() {
    assert_eq!(
        lines_from_window(b"xx\nyy\n", 5, None),
        Some(vec![b"xx".to_vec(), b"yy".to_vec()])
    );
}

#[test]
fn long_lines_trigger_fallback() {
    // 50 short lines, then one very long line: the window from the tail
    // heuristic holds fewer than the 5 lines asked for.
    let long_line = "a".repeat(10_000);
    let mut content = Vec::new();
    for i in 1..=50 {
        content.extend_from_slice(format!("line{}\n", i).as_bytes());
    }
    content.extend_from_slice(long_line.as_bytes());
    content.push(b'\n');
    let seek = tail_start(5, content.len() as u64).unwrap();
    assert!(seek > 0);
    let window = &content[seek as usize..];
    let preceding = Some(content[seek as usize - 1]);
    assert_eq!(lines_from_window(window, 5, preceding), None);
    let lines = last_lines(&content, 5);
    assert_eq!(lines.len(), 5);
    assert_eq!(lines[3], b"line50");
    assert_eq!(lines[4].len(), 10_000);
}

#[test]
fn poll_reads_growth() {
    assert_eq!(poll_step(10, 25, true), (10, PollAction::Read { from: 10, len: 15 }));
    assert_eq!(poll_step(25, 25, true), (25, PollAction::Wait));
}

#[test]
fn poll_truncation_resets_to_start() {
    assert_eq!(poll_step(100, 40, true), (0, PollAction::Read { from: 0, len: 40 }));
    assert_eq!(poll_step(100, 0, true), (0, PollAction::Wait));
}

#[test]
fn poll_truncation_without_reset_waits_at_end() {
    assert_eq!(poll_step(100, 40, false), (40, PollAction::Wait));
}

#[test]
fn window_read_agrees_with_whole_file() {
    // 2000 lines of 20 bytes: the window holds more than the 10 lines asked for
    let mut content = Vec::new();
    for i in 0..2000 {
        content.extend_from_slice(format!("entry number {:06}\n", i).as_bytes());
    }
    let seek = tail_start(10, content.len() as u64).unwrap();
    assert!(seek > 0);
    let from_window =
        lines_from_window(&content[seek as usize..], 10, Some(content[seek as usize - 1])).unwrap();
    assert_eq!(from_window, last_lines(&content, 10));
    assert_eq!(from_window[9], b"entry number 001999".to_vec());
}

#[test]
fn window_starting_mid_line_with_exactly_n_lines_needs_full_read() {
    // The window starts inside the first of its two lines and holds exactly
    // the two lines asked for: its first line may be cut, so the whole file
    // must be read.
    assert_eq!(lines_from_window(b"rtial\nlast\n", 2, Some(b'a')), None);
    // Right after a line feed the same window is enough.
    assert_eq!(
        lines_from_window(b"rtial\nlast\n", 2, Some(b'\n')),
        Some(vec![b"rtial".to_vec(), b"last".to_vec()])
    );
}

#[test]
fn single_long_line_comes_back_whole() {
    let content = vec![b'a'; 10_000];
    let seek = tail_start(1, content.len() as u64).unwrap();
    assert_eq!(seek, 10_000 - 8392);
    let window = &content[seek as usize..];
    assert_eq!(lines_from_window(window, 1, Some(content[seek as usize - 1])), None);
    assert_eq!(last_lines(&content, 1), vec![vec![b'a'; 10_000]]);
}
