use ini_ninja::{DuplicateKeyStrategy, Error, IniParser};

fn write_with(parser: &IniParser, input: &str, section: Option<&str>, key: &str, value: &str) -> String {
    let out = parser
        .write_value(input.as_bytes(), section, key, value)
        .unwrap();
    String::from_utf8(out).unwrap()
}

fn write(input: &str, section: Option<&str>, key: &str, value: &str) -> String {
    write_with(&IniParser::default(), input, section, key, value)
}

#[test]
fn test_comment_delimiter_not_in_key() {
    let value = write(
        "[section]\nspecial#1=value\n",
        Some("section"),
        "special",
        "new value",
    );
    assert_ne!(
        value, "[section]\nspecial#1=new value\n",
        "comment delimiter should not work in key names"
    );
    assert_eq!(value, "[section]\nspecial#1=value\nspecial=new value\n");
}

#[test]
fn write_value_no_section_replace() {
    assert_eq!(write("name=tom", None, "name", "bill"), "name=bill");
}

#[test]
fn write_value_no_section_add_empty() {
    assert_eq!(write("", None, "name", "bill"), "name=bill\n");
}

#[test]
fn write_value_section_add_empty() {
    assert_eq!(
        write("", Some("contact"), "name", "bill"),
        "[contact]\nname=bill\n"
    );
}

#[test]
fn write_value_section_add() {
    assert_eq!(
        write("[contact]\nname=bill\n", Some("stats"), "performance", "100"),
        "[contact]\nname=bill\n[stats]\nperformance=100\n"
    );
}

#[test]
fn write_value_section_add_multiple_sections() {
    assert_eq!(
        write(
            "[schedule]\n\n[contact]\nname=bill\n",
            Some("stats"),
            "performance",
            "100"
        ),
        "[schedule]\n\n[contact]\nname=bill\n[stats]\nperformance=100\n"
    );
}

#[test]
fn write_value_no_section_add_multiple_sections() {
    assert_eq!(
        write("[schedule]\n\n[contact]\nname=bill\n", None, "performance", "100"),
        "performance=100\n[schedule]\n\n[contact]\nname=bill\n"
    );
}

#[test]
fn write_value_no_section_add() {
    assert_eq!(
        write("[contact]\nname=tom\n", None, "name", "bill"),
        "name=bill\n[contact]\nname=tom\n"
    );
}

#[test]
fn write_new_value_existing_section() {
    assert_eq!(
        write("[contact]\nname=bill\n", Some("contact"), "email", "bill@example.com"),
        "[contact]\nname=bill\nemail=bill@example.com\n"
    );
}

#[test]
fn write_value_section() {
    assert_eq!(
        write("[contact]\nname=tom\n", Some("contact"), "name", "bill"),
        "[contact]\nname=bill\n"
    );
}

#[test]
fn write_value_trailing_comment() {
    assert_eq!(
        write("[contact]\nname=tom # test\n", Some("contact"), "name", "bill"),
        "[contact]\nname=bill # test\n"
    );
}

#[test]
fn write_value_line_continuation_comment() {
    assert_eq!(
        write(
            "[contact]\n# this is a \\\nmultiline comment\ntest=hello\n",
            Some("contact"),
            "test",
            "goodbye"
        ),
        "[contact]\n# this is a \\\nmultiline comment\ntest=goodbye\n"
    );
}

#[test]
fn write_value_line_continuation() {
    assert_eq!(
        write(
            "[contact]\ndescription=first line \\\nsecond line \\\nthird line\nanother_key=another value\n",
            Some("contact"),
            "description",
            "hello world"
        ),
        "[contact]\ndescription=hello world\nanother_key=another value\n"
    );
}

#[test]
fn write_empty_value_existing_empty() {
    assert_eq!(write("name=\n", None, "name", ""), "name=\n");
}

#[test]
fn write_value_existing_empty() {
    assert_eq!(write("name=\n", None, "name", "bill"), "name=bill\n");
}

#[test]
fn write_value_emoji_characters() {
    assert_eq!(
        write("[display]\nemoji=🚀🌎🌟 # space emoji\n", Some("display"), "emoji", "🎮🎯"),
        "[display]\nemoji=🎮🎯 # space emoji\n"
    );
}

#[test]
fn write_value_special_characters_in_section() {
    assert_eq!(
        write("[special!@$%^&*()]\nkey=value\n", Some("special!@$%^&*()"), "key", "new value"),
        "[special!@$%^&*()]\nkey=new value\n"
    );
}

#[test]
fn write_value_comment_delimiter_in_section() {
    assert_eq!(
        write("[special;#1]\nkey=value\n", Some("special;#1"), "key", "new value"),
        "[special;#1]\nkey=new value\n"
    );
}

#[test]
fn write_value_special_characters_in_key() {
    assert_eq!(
        write("[section]\nspecial!@$%^&*()=value\n", Some("section"), "special!@$%^&*()", "new value"),
        "[section]\nspecial!@$%^&*()=new value\n"
    );
}

#[test]
fn write_value_special_characters_in_value() {
    assert_eq!(
        write("[section]\nkey=value!@$%^&*()\n", Some("section"), "key", "new!@$%^&*()"),
        "[section]\nkey=new!@$%^&*()\n"
    );
}

#[test]
fn write_value_unicode_characters() {
    assert_eq!(
        write("[unicode]\nkey=áéíóúñ\n", Some("unicode"), "key", "αβγδεζηθ"),
        "[unicode]\nkey=αβγδεζηθ\n"
    );
}

#[test]
fn write_value_very_long_value() {
    let long = "This is a very long value that contains many characters and should be properly handled by the parser. It includes multiple sentences and various punctuation marks. The value is intentionally made long to test the parser's ability to handle large values without issues.";
    assert_eq!(
        write("[section]\nkey=short value\n", Some("section"), "key", long),
        format!("[section]\nkey={long}\n")
    );
}

#[test]
fn write_value_duplicate_keys_first() {
    let parser = IniParser {
        duplicate_keys: DuplicateKeyStrategy::UseFirst,
        ..IniParser::default()
    };
    assert_eq!(
        write_with(
            &parser,
            "[section]\nkey=first value\nother=other value\nkey=second value\n",
            Some("section"),
            "key",
            "new value"
        ),
        "[section]\nkey=new value\nother=other value\nkey=second value\n"
    );
}

#[test]
fn write_value_duplicate_keys_last() {
    assert_eq!(
        write(
            "[section]\nkey=first value\nother=other value\nkey=second value\n",
            Some("section"),
            "key",
            "new value"
        ),
        "[section]\nkey=first value\nother=other value\nkey=new value\n"
    );
}

#[test]
fn write_value_duplicate_keys_error() {
    let parser = IniParser {
        duplicate_keys: DuplicateKeyStrategy::Error,
        ..IniParser::default()
    };
    let r = parser.write_value(
        "[section]\nkey=first value\nkey=second value\n".as_bytes(),
        Some("section"),
        "key",
        "new value",
    );
    assert!(matches!(r, Err(Error::DuplicateKey { .. })));
}

#[test]
fn write_value_duplicate_sections() {
    let parser = IniParser {
        duplicate_keys: DuplicateKeyStrategy::UseFirst,
        ..IniParser::default()
    };
    assert_eq!(
        write_with(
            &parser,
            "[section]\nkey=first value\n[other]\nkey=other value\n[section]\nkey=second value\n",
            Some("section"),
            "key",
            "new value"
        ),
        "[section]\nkey=new value\n[other]\nkey=other value\n[section]\nkey=second value\n"
    );
}

#[test]
fn write_value_nested_sections() {
    assert_eq!(
        write(
            "[parent]\nkey=parent value\n[parent.child]\nkey=child value\n",
            Some("parent.child"),
            "key",
            "new child value"
        ),
        "[parent]\nkey=parent value\n[parent.child]\nkey=new child value\n"
    );
}

#[test]
fn write_value_whitespace_in_section() {
    assert_eq!(
        write("[ section with spaces ]\nkey=value\n", Some(" section with spaces "), "key", "new value"),
        "[ section with spaces ]\nkey=new value\n"
    );
}

#[test]
fn write_value_whitespace_in_key_value() {
    assert_eq!(
        write("[section]\nkey with spaces = value\n", Some("section"), "key with spaces ", "new value"),
        "[section]\nkey with spaces = new value\n"
    );
}

#[test]
fn write_value_quoted_values() {
    assert_eq!(
        write("[section]\nkey=\"quoted value\"\n", Some("section"), "key", "\"new quoted value\""),
        "[section]\nkey=\"new quoted value\"\n"
    );
}

#[test]
fn write_value_multiple_comments() {
    assert_eq!(
        write(
            "# Global comment\n[section] # Section comment\nkey=value # Key comment\n",
            Some("section"),
            "key",
            "new value"
        ),
        "# Global comment\n[section] # Section comment\nkey=new value # Key comment\n"
    );
}

#[test]
fn add_key_to_section_trailing_empty_lines() {
    assert_eq!(
        write(
            "[section]\nkey=value\n\n[section2]\nkey=value2\n",
            Some("section"),
            "key2",
            "new value"
        ),
        "[section]\nkey=value\nkey2=new value\n\n[section2]\nkey=value2\n"
    );
}

#[test]
fn add_key_to_global_trailing_empty_lines() {
    assert_eq!(
        write(
            "# Global comment\n\n\n[section]\nkey=value\n\n[section2]\nkey=value2\n",
            None,
            "key2",
            "new value"
        ),
        "# Global comment\nkey2=new value\n\n\n[section]\nkey=value\n\n[section2]\nkey=value2\n"
    );
}

#[test]
fn add_key_to_last_section_trailing_empty_lines() {
    assert_eq!(
        write(
            "[section]\nkey=value\n\n[section2]\nkey=value2\n\n\n\n",
            Some("section2"),
            "key2",
            "new value"
        ),
        "[section]\nkey=value\n\n[section2]\nkey=value2\nkey2=new value\n\n\n\n"
    );
}

#[test]
fn add_key_to_empty_existing_section() {
    assert_eq!(
        write("[a]\n[b]\nx=1\n", Some("a"), "k", "v"),
        "[a]\nk=v\n[b]\nx=1\n"
    );
}

#[test]
fn write_preserves_crlf_line_endings() {
    assert_eq!(
        write("[s]\r\nk = old\r\nz=1\r\n", Some("s"), "k", "new"),
        "[s]\r\nk = new\r\nz=1\r\n"
    );
}

#[test]
fn spec_scenario_replace_global() {
    assert_eq!(write("name=tom", None, "name", "bill"), "name=bill");
}

#[test]
fn spec_scenario_new_section_in_empty_file() {
    assert_eq!(
        write("", Some("contact"), "name", "bill"),
        "[contact]\nname=bill\n"
    );
}

#[test]
fn spec_scenario_new_section_appended() {
    assert_eq!(
        write("[contact]\nname=bill\n", Some("stats"), "performance", "100"),
        "[contact]\nname=bill\n[stats]\nperformance=100\n"
    );
}

#[test]
fn spec_scenario_trailing_comment_kept() {
    assert_eq!(
        write("[contact]\nname=tom # note\n", Some("contact"), "name", "bill"),
        "[contact]\nname=bill # note\n"
    );
}

#[test]
fn spec_scenario_continued_value_replaced() {
    assert_eq!(
        write("[c]\ndesc=first \\\nsecond \\\nthird\nk=v\n", Some("c"), "desc", "hello world"),
        "[c]\ndesc=hello world\nk=v\n"
    );
}

#[test]
fn spec_scenario_insert_before_blank_lines() {
    assert_eq!(
        write(
            "[section]\nkey=value\n\n[section2]\nkey=value2\n",
            Some("section"),
            "key2",
            "new"
        ),
        "[section]\nkey=value\nkey2=new\n\n[section2]\nkey=value2\n"
    );
}

#[test]
fn continuation_off_treats_lines_separately() {
    let parser = IniParser {
        line_continuation: false,
        ..IniParser::default()
    };
    assert_eq!(
        write_with(&parser, "[c]\ndesc=first \\\nsecond\n", Some("c"), "desc", "x"),
        "[c]\ndesc=x\nsecond\n"
    );
}

#[test]
fn buffer_size_does_not_change_output() {
    let parser = IniParser::default();
    let input = "# head\n[a]\nk = old value ; c\n\n[b]\nk=2\n";
    let expected = "# head\n[a]\nk = new ; c\n\n[b]\nk=2\n";
    for size in [1usize, 2, 3, 5, 7, 13, 8192] {
        let out = parser
            .write_value_buffered(input.as_bytes(), Some("a"), "k", "new", size)
            .unwrap();
        assert_eq!(String::from_utf8(out).unwrap(), expected, "buffer size {size}");
    }
    for size in [1usize, 4, 64] {
        let out = parser
            .write_value_buffered(input.as_bytes(), Some("z"), "k", "v", size)
            .unwrap();
        assert_eq!(
            String::from_utf8(out).unwrap(),
            format!("{input}[z]\nk=v\n"),
            "buffer size {size}"
        );
    }
}
