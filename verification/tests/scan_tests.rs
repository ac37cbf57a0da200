use loghunter::scan::scan_buffer;

#[test]
fn single_match_round_trip() {
    let data = b"first line\nhello ERROR world\nlast line\n";
    let events = scan_buffer(data, b"ERROR", "x.log");
    assert_eq!(events.len(), 1);
    assert_eq!(events[0].display_name, "x.log");
    assert_eq!(events[0].preview, "hello ERROR world");
}

#[test]
fn match_without_trailing_newline() {
    let data = b"tail ERROR";
    let events = scan_buffer(data, b"ERROR", "x.log");
    assert_eq!(events.len(), 1);
    assert_eq!(events[0].preview, "tail ERROR");
}

#[test]
fn no_match_yields_no_events() {
    let events = scan_buffer(b"nothing here\n", b"ERROR", "x.log");
    assert!(events.is_empty());
}

#[test]
fn one_event_per_line() {
    let data = b"ERROR and ERROR again\nERROR later\n";
    let events = scan_buffer(data, b"ERROR", "x.log");
    assert_eq!(events.len(), 2);
    assert_eq!(events[0].preview, "ERROR and ERROR again");
    assert_eq!(events[1].preview, "ERROR later");
}

#[test]
fn caps_at_one_hundred_events() {
    let mut data = Vec::new();
    for i in 0..150 {
        data.extend_from_slice(format!("line {} ERROR here\n", i).as_bytes());
    }
    let events = scan_buffer(&data, b"ERROR", "x.log");
    assert_eq!(events.len(), 100);
    for i in 0..100 {
        assert_eq!(events[i].preview, format!("line {} ERROR here", i));
    }
}

#[test]
fn escapes_quotes_and_backslashes() {
    let data = b"say \"hi\" and c:\\tmp ERROR\n";
    let events = scan_buffer(data, b"ERROR", "x.log");
    assert_eq!(events.len(), 1);
    assert_eq!(events[0].preview, "say \\\"hi\\\" and c:\\\\tmp ERROR");
}

#[test]
fn truncates_to_three_hundred_characters() {
    let mut line = vec![b'a'; 400];
    line[0] = b'E';
    line[1] = b'R';
    line[2] = b'R';
    let mut data = line.clone();
    data.push(b'\n');
    let events = scan_buffer(&data, b"ERR", "x.log");
    assert_eq!(events.len(), 1);
    assert_eq!(events[0].preview.chars().count(), 300);
    let expected: String = line[..300].iter().map(|&b| b as char).collect();
    assert_eq!(events[0].preview, expected);
}

#[test]
fn valid_utf8_decodes_to_itself() {
    let data = "caf\u{e9} \u{2014} ERROR\n".as_bytes();
    let events = scan_buffer(data, b"ERROR", "x.log");
    assert_eq!(events.len(), 1);
    assert_eq!(events[0].preview, "caf\u{e9} \u{2014} ERROR");
}

#[test]
fn invalid_bytes_decode_lossily() {
    let data = b"bad \xff byte ERROR\n";
    let events = scan_buffer(data, b"ERROR", "x.log");
    assert_eq!(events.len(), 1);
    assert_eq!(events[0].preview, "bad \u{fffd} byte ERROR");
}

#[test]
fn events_are_in_position_order() {
    let data = b"z ERROR\na plain\nb ERROR\n";
    let events = scan_buffer(data, b"ERROR", "f");
    assert_eq!(events.len(), 2);
    assert_eq!(events[0].preview, "z ERROR");
    assert_eq!(events[1].preview, "b ERROR");
}
