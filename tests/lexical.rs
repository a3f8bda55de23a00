use ini_ninja::lines::{trim_whitespace_and_quotes, try_section_from_line};
use ini_ninja::IniParser;

#[test]
fn lib_try_value_newline() {
    let parser = IniParser::default();
    let test = "        version=10\n";
    let version = parser.try_value(test, "version").unwrap();
    assert_eq!(&test[version], "10");
}

#[test]
fn test_try_value_empty_value() {
    let parser = IniParser::default();
    let line = "name=\n";
    let range = parser.try_value(line, "name").unwrap();
    let mut s = String::from(line);
    s.replace_range(range, "a");
    assert_eq!(s, "name=a\n");
}

#[test]
fn test_try_value_range() {
    let parser = IniParser::default();
    let line = "name=bob\n";
    let range = parser.try_value(line, "name").unwrap();
    let mut s = String::from(line);
    s.replace_range(range, "bill");
    assert_eq!(s, "name=bill\n");
}

#[test]
fn test_try_value_range_no_newline() {
    let parser = IniParser::default();
    let line = "name=bob";
    let range = parser.try_value(line, "name").unwrap();
    let mut s = String::from(line);
    s.replace_range(range, "bill");
    assert_eq!(s, "name=bill");
}

#[test]
fn try_section_not() {
    assert_eq!(try_section_from_line("This is a line"), None);
}

#[test]
fn try_section_no_comment() {
    assert_eq!(try_section_from_line("[SECTION]"), Some("SECTION"));
}

#[test]
fn try_section_comment() {
    assert_eq!(
        try_section_from_line("[SECTION] # This is a comment"),
        Some("SECTION")
    );
}

#[test]
fn try_section_whitespace() {
    assert_eq!(try_section_from_line("[ SECTION ]"), Some("SECTION"));
}

#[test]
fn try_value() {
    let name_line = "  Name=John Doe  ".to_string();
    let parser = IniParser::default();

    // the key comparison is case sensitive
    assert!(parser.try_value(&name_line, "name").is_none());

    let value_range = parser.try_value(&name_line, "Name").unwrap();
    let mut new_name = String::new();
    new_name.push_str(&name_line[..value_range.start]);
    new_name.push_str("Ender Wiggins");
    new_name.push_str(&name_line[value_range.end..]);
    assert_eq!(new_name, "  Name=Ender Wiggins  ");
}

#[test]
fn section_without_closing_bracket_is_not_a_header() {
    assert_eq!(try_section_from_line("[SECTION"), None);
}

#[test]
fn section_with_comment_markers_in_name() {
    assert_eq!(try_section_from_line("[special;#1]"), Some("special;#1"));
}

#[test]
fn section_name_trimmed_of_unicode_whitespace() {
    assert_eq!(
        try_section_from_line("\u{3000}[\u{a0}名前\u{2003}]\u{85}"),
        Some("名前")
    );
}

#[test]
fn value_span_excludes_comment_and_whitespace() {
    let parser = IniParser::default();
    let line = "key =  some value   ; comment\n";
    let r = parser.try_value(line, "key").unwrap();
    assert_eq!(&line[r], "some value");
}

#[test]
fn value_span_is_empty_after_delimiter_when_only_whitespace() {
    let parser = IniParser::default();
    let line = "key=   # nothing\n";
    let r = parser.try_value(line, "key").unwrap();
    assert_eq!(r, 4..4);
}

#[test]
fn value_span_needs_a_delimiter() {
    let parser = IniParser::default();
    assert!(parser.try_value("key value\n", "key").is_none());
}

#[test]
fn comment_marker_in_key_hides_the_delimiter() {
    let parser = IniParser::default();
    assert!(parser.try_value("special#1=value\n", "special").is_none());
}

#[test]
fn value_span_multibyte_offsets() {
    let parser = IniParser::default();
    let line = "emoji=🚀🌎🌟 # space emoji\n";
    let r = parser.try_value(line, "emoji").unwrap();
    assert_eq!(&line[r.clone()], "🚀🌎🌟");
    assert_eq!(r, 6..18);
}

#[test]
fn value_span_unicode_whitespace_trimmed() {
    let parser = IniParser::default();
    let line = "k =\u{a0}v w\u{3000}\u{2028}\n";
    let r = parser.try_value(line, "k").unwrap();
    assert_eq!(&line[r], "v w");
}

#[test]
fn value_span_non_ascii_delimiters() {
    let parser = IniParser {
        comment_delimiters: &['→'],
        value_start_delimiters: &['≔'],
        ..IniParser::default()
    };
    let line = "clé ≔ valeur → note\n";
    let r = parser.try_value(line, "clé").unwrap();
    assert_eq!(&line[r], "valeur");
}

#[test]
fn trim_quotes_both_ends() {
    assert_eq!(trim_whitespace_and_quotes("  \"tom\"  "), "tom");
}

#[test]
fn trim_quotes_one_end_only_is_kept() {
    assert_eq!(trim_whitespace_and_quotes(" \"tom "), "\"tom");
    assert_eq!(trim_whitespace_and_quotes("\""), "\"");
}

#[test]
fn trim_quotes_empty_pair() {
    assert_eq!(trim_whitespace_and_quotes("\"\""), "");
}
