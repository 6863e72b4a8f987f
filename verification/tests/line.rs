use eventix::parser::{LineReader, LineWriter};

fn write_all(ical: &str) -> String {
    let mut writer = LineWriter::new(Vec::new());
    let mut reader = LineReader::new(ical.as_bytes());
    while let Some(line) = reader.next() {
        writer.write_line(&line);
    }
    String::from_utf8(writer.into_inner()).unwrap()
}

#[test]
fn basics() {
    let ical = "BEGIN:VCALENDAR
BEGIN:VEVENT
SUMMARY:foo bar
 test with
  multiple
  lines
END:VEVENT

END:VCALENDAR";

    let mut reader = LineReader::new(ical.as_bytes());
    assert_eq!(reader.next(), Some("BEGIN:VCALENDAR".to_string()));
    assert_eq!(reader.next(), Some("BEGIN:VEVENT".to_string()));
    assert_eq!(
        reader.next(),
        Some("SUMMARY:foo bartest with multiple lines".to_string())
    );
    assert_eq!(reader.next(), Some("END:VEVENT".to_string()));
    assert_eq!(reader.next(), Some("END:VCALENDAR".to_string()));
    assert_eq!(reader.next(), None);

    let expected_ical = "BEGIN:VCALENDAR\r
BEGIN:VEVENT\r
SUMMARY:foo bartest with multiple lines\r
END:VEVENT\r
END:VCALENDAR\r
";
    assert_eq!(write_all(ical), expected_ical);
}

#[test]
fn long_lines() {
    let ical = "BEGIN:VCALENDAR\r
TEST:0123456789012345678901234567890123456789012345678901234567890123456789\r
 01234567890123456789\r
END:VCALENDAR\r
";

    let mut reader = LineReader::new(ical.as_bytes());
    assert_eq!(reader.next(), Some("BEGIN:VCALENDAR".to_string()));
    assert_eq!(
        reader.next(),
        Some("TEST:012345678901234567890123456789012345678901234567890123456789012345678901234567890123456789".to_string())
    );
    assert_eq!(reader.next(), Some("END:VCALENDAR".to_string()));
    assert_eq!(reader.next(), None);

    assert_eq!(write_all(ical), ical);
}

#[test]
fn more_props() {
    let att_str = "ATTENDEE;ROLE=REQ-PARTICIPANT;PARTSTAT=TENTATIVE;CN=Henry
  Cabot:mailto:hcabot@example.com";
    let mut reader = LineReader::new(att_str.as_bytes());
    assert_eq!(
        reader.next(),
        Some("ATTENDEE;ROLE=REQ-PARTICIPANT;PARTSTAT=TENTATIVE;CN=Henry Cabot:mailto:hcabot@example.com".to_string())
    );
}

#[test]
fn unfolds_utf8_split_across_fold_boundary() {
    let input = [
        b'S', b'U', b'M', b'M', b'A', b'R', b'Y', b':', b'C', b'a', b'f', 0xC3, b'\r', b'\n',
        b' ', 0xA9, b' ', b'a', b'n', b'd', b' ', b't', b'e', b'a',
    ];

    let mut reader = LineReader::new(&input[..]);
    let expected = format!("SUMMARY:Caf{} and tea", '\u{00e9}');
    assert_eq!(reader.next(), Some(expected));
    assert_eq!(reader.next(), None);
}

#[test]
fn written_lines_read_back() {
    let long = format!("DESCRIPTION:{}", "x\u{00e9}".repeat(60));
    let lines = vec!["BEGIN:VEVENT".to_string(), long.clone(), "END:VEVENT".to_string()];
    let mut writer = LineWriter::new(Vec::new());
    for l in &lines {
        writer.write_line(l);
    }
    let bytes = writer.into_inner();
    assert!(bytes.split(|b| *b == b'\n').all(|l| l.len() <= 76));
    let mut reader = LineReader::new(&bytes);
    for l in &lines {
        assert_eq!(reader.next().as_ref(), Some(l));
    }
    assert_eq!(reader.next(), None);
}

#[test]
fn line_numbers_count_logical_lines() {
    let mut reader = LineReader::new("A:1\r\n B\r\nC:2\r\n".as_bytes());
    assert_eq!(reader.line_num(), 0);
    assert_eq!(reader.next(), Some("A:1B".to_string()));
    assert_eq!(reader.line_num(), 1);
    assert_eq!(reader.next(), Some("C:2".to_string()));
    assert_eq!(reader.line_num(), 2);
    assert_eq!(reader.next(), None);
    assert_eq!(reader.line_num(), 2);
}

#[test]
fn invalid_utf8_line_is_consumed() {
    let input = [b'A', b':', 0xFF, b'\n', b'B', b':', b'1'];
    let mut reader = LineReader::new(&input[..]);
    assert_eq!(reader.next(), None);
    assert_eq!(reader.line_num(), 1);
    assert_eq!(reader.next(), Some("B:1".to_string()));
}
