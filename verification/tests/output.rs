use folor::output::{follow_style, one_shot_style, prefix_bytes, print_lines, OutputStyle};

#[test]
fn no_prefix_single_line() {
    let mut buf = Vec::new();
    print_lines(&mut buf, "test.log", &[b"hello".to_vec()], false);
    assert_eq!(buf, b"hello\n");
}

#[test]
fn with_prefix_multiple_lines() {
    let mut buf = Vec::new();
    print_lines(
        &mut buf,
        "/var/log/app.log",
        &[b"line1".to_vec(), b"line2".to_vec()],
        true,
    );
    assert_eq!(buf, b"/var/log/app.log: line1\n/var/log/app.log: line2\n");
}

#[test]
fn empty_lines() {
    let mut buf = Vec::new();
    print_lines(&mut buf, "test.log", &[], false);
    assert!(buf.is_empty());
}

#[test]
fn print_appends_to_existing_output() {
    let mut buf = b"x\n".to_vec();
    print_lines(&mut buf, "a.log", &[Vec::new()], true);
    assert_eq!(buf, b"x\na.log: \n");
}

#[test]
fn prefix_of_path() {
    assert_eq!(prefix_bytes("dir/é.log"), "dir/é.log: ".as_bytes().to_vec());
}

#[test]
fn one_shot_prefix_rules() {
    // auto: prefix on a terminal with several files only
    assert_eq!(one_shot_style(false, false, true, 2), OutputStyle { prefix: true, color: true });
    assert_eq!(one_shot_style(false, false, true, 1), OutputStyle { prefix: false, color: false });
    assert_eq!(one_shot_style(false, false, false, 5), OutputStyle { prefix: false, color: false });
    // --filename forces the prefix, colors stay off in a pipe
    assert_eq!(one_shot_style(false, true, false, 1), OutputStyle { prefix: true, color: false });
    // --no-filename wins
    assert_eq!(one_shot_style(true, false, true, 3), OutputStyle { prefix: false, color: false });
}

#[test]
fn follow_prefix_rules() {
    assert_eq!(follow_style(false, false, true), OutputStyle { prefix: true, color: true });
    assert_eq!(follow_style(false, false, false), OutputStyle { prefix: false, color: false });
    assert_eq!(follow_style(false, true, false), OutputStyle { prefix: true, color: false });
    assert_eq!(follow_style(true, false, true), OutputStyle { prefix: false, color: false });
}

#[test]
fn printing_split_lines_reproduces_text() {
    let text = b"alpha\nbeta\n\ngamma\n";
    let lines = folor::reader::split_lines(text);
    let mut buf = Vec::new();
    print_lines(&mut buf, "ignored", &lines, false);
    assert_eq!(buf, text.to_vec());

    let unterminated = b"one\ntwo";
    let lines = folor::reader::split_lines(unterminated);
    let mut buf = Vec::new();
    print_lines(&mut buf, "ignored", &lines, false);
    assert_eq!(buf, b"one\ntwo\n".to_vec());
}
