use folor::binary::is_binary;

#[test]
fn empty_is_not_binary() {
    assert!(!is_binary(&[]));
}

#[test]
fn null_byte_is_binary() {
    let data = [0x48, 0x65, 0x00, 0x6c, 0x6f]; // "He\x00lo"
    assert!(is_binary(&data));
}

#[test]
fn normal_text_is_not_binary() {
    let data = b"Hello, world!\nThis is a log file.\n";
    assert!(!is_binary(data));
}

#[test]
fn high_control_chars_is_binary() {
    // 10 bytes, 4 of them are control chars (excluding tab/newline/cr) = 40% > 30%
    let data = [
        0x01, 0x02, 0x03, 0x04, // 4 control chars
        b'a', b'b', b'c', b'd', b'e', b'f', // 6 printable
    ];
    assert!(is_binary(&data));
}

#[test]
fn exactly_30_percent_is_not_binary() {
    // 10 bytes, 3 control chars = 30% — not over threshold
    let data = [
        0x01, 0x02, 0x03, // 3 control chars
        b'a', b'b', b'c', b'd', b'e', b'f', b'g', // 7 printable
    ];
    assert!(!is_binary(&data));
}

#[test]
fn tabs_newlines_carriage_returns_are_not_control() {
    let data = b"line1\tcol2\r\nline2\tcol2\r\n";
    assert!(!is_binary(data));
}

#[test]
fn just_under_30_percent_is_not_binary() {
    // 100 bytes, 30 control = exactly 30%, false. 29 control = true.
    let mut data = vec![b'a'; 100];
    for i in 0..29 {
        data[i] = 0x01;
    }
    assert!(!is_binary(&data));
}

#[test]
fn just_over_30_percent_is_binary() {
    let mut data = vec![b'a'; 100];
    for i in 0..31 {
        data[i] = 0x01;
    }
    assert!(is_binary(&data));
}

#[test]
fn exactly_30_of_100_is_not_binary() {
    let mut data = vec![b'a'; 100];
    for i in 0..30 {
        data[i] = 0x1b;
    }
    assert!(!is_binary(&data));
}

#[test]
fn single_control_byte_is_binary() {
    assert!(is_binary(&[0x07]));
}

#[test]
fn single_nul_is_binary() {
    assert!(is_binary(&[0x00]));
}

#[test]
fn high_bytes_are_not_control() {
    assert!(!is_binary(&[0x80, 0xff, 0xc3, 0xa9, 0x7f]));
}

#[test]
fn byte_order_does_not_matter() {
    let mut data = vec![b'a'; 7];
    data.extend_from_slice(&[0x01, 0x02, 0x03, 0x04]);
    let mut reordered = data.clone();
    reordered.reverse();
    assert_eq!(is_binary(&data), is_binary(&reordered));
    assert!(is_binary(&reordered));
}
