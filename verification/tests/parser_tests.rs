use pactl_sinks::parser::{parse, parse_bytes, DecodeError};

#[test]
fn one_section_per_header() {
    let r = parse("Sink #0\nSource #1\nModule #2\n");
    assert_eq!(r.len(), 3);
    assert_eq!(r.section_at(0).name, "Sink #0");
    assert_eq!(r.section_at(1).name, "Source #1");
    assert_eq!(r.section_at(2).name, "Module #2");
}

#[test]
fn fields_belong_to_current_section() {
    let r = parse("Sink #0\n\tState: RUNNING\n\tDescription: X\nSink #1\n\tDescription: Y\n");
    assert_eq!(r.len(), 2);
    let s0 = r.section_at(0);
    assert_eq!(s0.get("State"), Some(&"RUNNING".to_string()));
    assert_eq!(s0.get("Description"), Some(&"X".to_string()));
    let s1 = r.section_at(1);
    assert_eq!(s1.get("State"), None);
    assert_eq!(s1.get("Description"), Some(&"Y".to_string()));
}

#[test]
fn field_before_first_header_dropped() {
    let r = parse("\tKey: Value\nSink #0\n\tDescription: X\n");
    assert_eq!(r.len(), 1);
    let s = r.section_at(0);
    assert_eq!(s.name, "Sink #0");
    assert_eq!(s.get("Description"), Some(&"X".to_string()));
    assert_eq!(s.get("Key"), None);
}

#[test]
fn unindented_colon_line_opens_a_section() {
    // an unindented line whose first character is alphabetic is a header,
    // colon or not
    let r = parse("Key: Value\nSink #0\n\tDescription: X\n");
    assert_eq!(r.len(), 2);
    assert_eq!(r.section_at(0).name, "Key: Value");
    assert!(r.section_at(0).fields.is_empty());
    assert_eq!(r.section_at(1).name, "Sink #0");
    assert_eq!(r.section_at(1).get("Description"), Some(&"X".to_string()));
    assert_eq!(r.section_at(1).get("Key"), None);
}

#[test]
fn header_without_fields() {
    let r = parse("Sink #0\nSink #1\n\tDescription: Y\n");
    assert_eq!(r.len(), 2);
    assert_eq!(r.section_at(0).name, "Sink #0");
    assert!(r.section_at(0).fields.is_empty());
    assert_eq!(r.section_at(1).name, "Sink #1");
    assert_eq!(r.section_at(1).get("Description"), Some(&"Y".to_string()));
}

#[test]
fn parse_is_deterministic() {
    let text = "Sink #0\n\tDescription: X\n\tState: IDLE\nSource #1\n\tMute: no\n";
    let a = parse(text);
    let b = parse(text);
    assert_eq!(a.len(), b.len());
    for i in 0..a.len() {
        let sa = a.section_at(i);
        let sb = b.section_at(i);
        assert_eq!(sa.name, sb.name);
        assert_eq!(sa.fields, sb.fields);
    }
}

#[test]
fn no_colon_line_contributes_no_field() {
    let r = parse("Sink #0\n\tgarbage\n\tDescription: X\n");
    assert_eq!(r.len(), 1);
    let s = r.section_at(0);
    assert_eq!(s.get("Description"), Some(&"X".to_string()));
    assert_eq!(s.get("garbage"), None);
    assert_eq!(s.fields.len(), 1);
}

#[test]
fn unindented_alphabetic_line_is_a_header() {
    let r = parse("Sink #0\ngarbage\n\tDescription: X\n");
    assert_eq!(r.len(), 2);
    assert_eq!(r.section_at(0).name, "Sink #0");
    assert_eq!(r.section_at(1).name, "garbage");
    assert_eq!(r.section_at(1).get("Description"), Some(&"X".to_string()));
}

#[test]
fn later_field_overwrites_earlier() {
    let r = parse("Sink #0\n\tVolume: 10\n\tVolume: 20\n");
    assert_eq!(r.section_at(0).get("Volume"), Some(&"20".to_string()));
}

#[test]
fn repeated_header_keeps_last_fields() {
    let r = parse("Sink #0\n\tFirst: 1\nSink #0\n\tSecond: 2\n");
    assert_eq!(r.len(), 1);
    let s = r.section_at(0);
    assert_eq!(s.name, "Sink #0");
    assert_eq!(s.get("First"), None);
    assert_eq!(s.get("Second"), Some(&"2".to_string()));
}

#[test]
fn empty_input_has_no_sections() {
    assert_eq!(parse("").len(), 0);
    assert_eq!(parse("\n\n\t \n").len(), 0);
}

#[test]
fn header_and_fields_are_trimmed() {
    let r = parse("Sink #0   \n\t  Description  :   Built-in Audio  \n");
    let s = r.section_at(0);
    assert_eq!(s.name, "Sink #0");
    assert_eq!(s.get("Description"), Some(&"Built-in Audio".to_string()));
}

#[test]
fn value_keeps_later_colons() {
    let r = parse("Sink #0\n\tTime: 12:34:56\n");
    assert_eq!(r.section_at(0).get("Time"), Some(&"12:34:56".to_string()));
}

#[test]
fn no_trailing_newline_commits_last_section() {
    let r = parse("Sink #0\n\tDescription: X");
    assert_eq!(r.len(), 1);
    assert_eq!(r.section_at(0).get("Description"), Some(&"X".to_string()));
}

#[test]
fn carriage_returns_are_trimmed_away() {
    let r = parse("Sink #0\r\n\tDescription: X\r\n");
    assert_eq!(r.len(), 1);
    assert_eq!(r.section_at(0).name, "Sink #0");
    assert_eq!(r.section_at(0).get("Description"), Some(&"X".to_string()));
}

#[test]
fn indented_non_tab_lines_are_fields() {
    let r = parse("Sink #0\n    Description: X\n");
    assert_eq!(r.section_at(0).get("Description"), Some(&"X".to_string()));
}

#[test]
fn parse_bytes_accepts_utf8() {
    let r = parse_bytes("Sink #0\n\tDescription: Écouteurs\n".as_bytes()).unwrap();
    assert_eq!(r.len(), 1);
    assert_eq!(r.section_at(0).get("Description"), Some(&"Écouteurs".to_string()));
}

#[test]
fn parse_bytes_rejects_invalid_utf8() {
    let bad: &[u8] = &[0x53, 0x69, 0x6e, 0x6b, 0xff, 0xfe];
    assert!(matches!(parse_bytes(bad), Err(DecodeError)));
}
