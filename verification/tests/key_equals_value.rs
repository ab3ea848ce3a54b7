use cfgwow::parsers::key_equals_value::read;
use cfgwow::parsers::Line;

#[test]
fn parses_key_value_lines() {
    let src = "font-size = 12\ntheme = dark\n";
    let (lines, map) = read(src);
    assert_eq!(map.get("font-size").unwrap(), "12");
    assert_eq!(map.get("theme").unwrap(), "dark");
    assert_eq!(lines.len(), 2);
}

#[test]
fn preserves_comments_and_blanks() {
    let src = "# comment\n\nfont-size = 12\n";
    let (lines, map) = read(src);
    assert_eq!(lines.len(), 3);
    assert_eq!(map.len(), 1);
    assert!(matches!(&lines[0], Line::Other(s) if s == "# comment"));
    assert!(matches!(&lines[1], Line::Other(s) if s.is_empty()));
}

#[test]
fn value_may_contain_equals() {
    let (_, map) = read("key = a=b=c\n");
    assert_eq!(map.get("key").unwrap(), "a=b=c");
}

#[test]
fn unknown_line_stored_as_other() {
    let (lines, map) = read("not_a_kv_line\n");
    assert!(map.is_empty());
    assert!(matches!(&lines[0], Line::Other(_)));
}

#[test]
fn key_value_line_keeps_raw_text() {
    let (lines, _) = read("  font-size   =  12  \n");
    match &lines[0] {
        Line::KeyValue { key, value, raw } => {
            assert_eq!(key, "font-size");
            assert_eq!(value, "12");
            assert_eq!(raw, "  font-size   =  12  ");
        }
        Line::Other(_) => panic!("expected a key-value line"),
    }
}

#[test]
fn empty_key_is_other() {
    let (lines, map) = read(" = value\n");
    assert!(map.is_empty());
    assert!(matches!(&lines[0], Line::Other(s) if s == " = value"));
}

#[test]
fn indented_comment_is_other() {
    let (lines, map) = read("   # a = b\n");
    assert!(map.is_empty());
    assert!(matches!(&lines[0], Line::Other(s) if s == "   # a = b"));
}

#[test]
fn later_line_wins_for_repeated_key() {
    let (lines, map) = read("theme = dark\ntheme = light\n");
    assert_eq!(lines.len(), 2);
    assert_eq!(map.len(), 1);
    assert_eq!(map.get("theme").unwrap(), "light");
}

#[test]
fn crlf_line_ends_are_stripped() {
    let (lines, map) = read("a = 1\r\n# c\r\nb = 2");
    assert_eq!(lines.len(), 3);
    assert!(matches!(&lines[1], Line::Other(s) if s == "# c"));
    assert!(matches!(&lines[2], Line::KeyValue { raw, .. } if raw == "b = 2"));
    assert_eq!(map.get("a").unwrap(), "1");
    assert_eq!(map.get("b").unwrap(), "2");
}

#[test]
fn unicode_whitespace_is_trimmed() {
    let (_, map) = read("\u{a0}key\u{3000}=\u{2003}value\u{85}\n");
    assert_eq!(map.get("key").unwrap(), "value");
}

#[test]
fn empty_source_has_no_lines() {
    let (lines, map) = read("");
    assert!(lines.is_empty());
    assert!(map.is_empty());
    let (lines, _) = read("\n");
    assert_eq!(lines.len(), 1);
    assert!(matches!(&lines[0], Line::Other(s) if s.is_empty()));
}

#[test]
fn empty_value_is_kept() {
    let (_, map) = read("key =\n");
    assert_eq!(map.get("key").unwrap(), "");
}
