use ini_ninja::scan::ScanState;
use ini_ninja::write::{emit_tail, emit_window, plan_substitution};
use ini_ninja::{DuplicateKeyStrategy, IniParser};

const SAMPLE: &str = "; top\nname = tom\n\n[contact]\nemail = a@b.c # mail\nphone=1\n\n[other]\nx=y\n";

#[test]
fn written_output_differs_only_inside_the_span() {
    let parser = IniParser::default();
    let scan = parser
        .value_byte_range(SAMPLE.as_bytes(), Some("contact"), "email")
        .unwrap();
    let range = scan.value_range.clone().unwrap();
    let out = parser
        .write_value(SAMPLE.as_bytes(), Some("contact"), "email", "z@y.x")
        .unwrap();
    assert_eq!(&out[..range.start], &SAMPLE.as_bytes()[..range.start]);
    assert_eq!(&out[range.start..range.start + 5], b"z@y.x");
    assert_eq!(&out[range.start + 5..], &SAMPLE.as_bytes()[range.end..]);
}

#[test]
fn read_after_write_returns_the_value() {
    let parser = IniParser::default();
    for (section, key) in [(None, "name"), (Some("contact"), "email"), (Some("other"), "new"), (Some("fresh"), "k")] {
        let out = parser
            .write_value(SAMPLE.as_bytes(), section, key, "written value")
            .unwrap();
        let text = String::from_utf8(out).unwrap();
        let back: Option<String> = parser.read_value(&text, section, key).unwrap();
        assert_eq!(back, Some("written value".to_string()));
    }
}

#[test]
fn writing_twice_is_writing_once() {
    let parser = IniParser::default();
    for (section, key) in [(None, "name"), (None, "added"), (Some("contact"), "phone"), (Some("other"), "new"), (Some("fresh"), "k")] {
        let once = parser
            .write_value(SAMPLE.as_bytes(), section, key, "v")
            .unwrap();
        let twice = parser.write_value(&once, section, key, "v").unwrap();
        assert_eq!(once, twice);
    }
}

#[test]
fn absent_key_reads_none_and_source_is_unchanged() {
    let parser = IniParser::default();
    let scan = parser
        .value_byte_range(SAMPLE.as_bytes(), Some("other"), "missing")
        .unwrap();
    assert!(scan.value_range.is_none());
    assert_eq!(scan.total_bytes, SAMPLE.len());
    let value: Option<String> = parser.read_value(SAMPLE, Some("other"), "missing").unwrap();
    assert_eq!(value, None);
}

#[test]
fn policies_pick_their_occurrence() {
    let input = "[s]\nk=1\nk=2\n[t]\n[s]\nk=3\n";
    let first = IniParser {
        duplicate_keys: DuplicateKeyStrategy::UseFirst,
        ..IniParser::default()
    };
    let last = IniParser::default();
    let error = IniParser {
        duplicate_keys: DuplicateKeyStrategy::Error,
        ..IniParser::default()
    };
    assert_eq!(
        first.write_value(input.as_bytes(), Some("s"), "k", "X").unwrap(),
        b"[s]\nk=X\nk=2\n[t]\n[s]\nk=3\n".to_vec()
    );
    assert_eq!(
        last.write_value(input.as_bytes(), Some("s"), "k", "X").unwrap(),
        b"[s]\nk=1\nk=2\n[t]\n[s]\nk=X\n".to_vec()
    );
    assert!(error.write_value(input.as_bytes(), Some("s"), "k", "X").is_err());
    assert_eq!(
        error.write_value(input.as_bytes(), Some("t"), "k", "X").unwrap(),
        b"[s]\nk=1\nk=2\n[t]\nk=X\n[s]\nk=3\n".to_vec()
    );
}

#[test]
fn use_first_stops_at_the_first_match() {
    let parser = IniParser {
        duplicate_keys: DuplicateKeyStrategy::UseFirst,
        ..IniParser::default()
    };
    let scan = parser
        .value_byte_range("k=1\nk=2\n".as_bytes(), None, "k")
        .unwrap();
    assert_eq!(scan.value_range, Some(2..3));
    assert_eq!(scan.total_bytes, 4);
    assert_eq!(scan.last_content_byte_in_section, Some(4));
}

#[test]
fn scan_reports_last_content_before_blank_lines() {
    let parser = IniParser::default();
    let scan = parser
        .value_byte_range("[a]\nx=1\n\n\n[b]\n".as_bytes(), Some("a"), "y")
        .unwrap();
    assert_eq!(scan.value_range, None);
    assert_eq!(scan.last_content_byte_in_section, Some(8));
    assert_eq!(scan.total_bytes, 14);
}

#[test]
fn streaming_steps_match_the_whole_buffer_functions() {
    let parser = IniParser::default();
    let source = SAMPLE.as_bytes();
    let mut state = ScanState::new(Some("contact"));
    for line in SAMPLE.split_inclusive('\n') {
        state
            .feed_line(&parser, Some("contact"), "phone", line.as_bytes())
            .unwrap();
    }
    let scan = state.finish();
    let whole = parser
        .value_byte_range(source, Some("contact"), "phone")
        .unwrap();
    assert_eq!(scan.value_range, whole.value_range);
    assert_eq!(scan.total_bytes, whole.total_bytes);
    assert_eq!(
        scan.last_content_byte_in_section,
        whole.last_content_byte_in_section
    );

    let sub = plan_substitution(&scan, Some("contact"), "phone", "42");
    let mut out = Vec::new();
    let mut start = 0;
    for chunk in source.chunks(3) {
        emit_window(&sub, start, chunk, &mut out);
        start += chunk.len();
    }
    emit_tail(&sub, start, &mut out);
    assert_eq!(
        out,
        parser
            .write_value(source, Some("contact"), "phone", "42")
            .unwrap()
    );
}

#[test]
fn insertion_at_end_is_emitted_after_the_last_window() {
    let parser = IniParser::default();
    let scan = parser
        .value_byte_range("[a]\nx=1\n".as_bytes(), Some("b"), "k")
        .unwrap();
    let sub = plan_substitution(&scan, Some("b"), "k", "v");
    assert_eq!(sub.start, 8);
    assert_eq!(sub.text, b"[b]\nk=v\n".to_vec());
    let mut out = Vec::new();
    emit_window(&sub, 0, b"[a]\nx=1\n", &mut out);
    assert_eq!(out, b"[a]\nx=1\n".to_vec());
    emit_tail(&sub, 8, &mut out);
    assert_eq!(out, b"[a]\nx=1\n[b]\nk=v\n".to_vec());
}

#[test]
fn window_straddling_the_substitution() {
    let parser = IniParser::default();
    let source = b"k=abcdef\nz=1\n";
    let scan = parser.value_byte_range(source, None, "k").unwrap();
    let sub = plan_substitution(&scan, None, "k", "XY");
    assert_eq!((sub.start, sub.end), (2, 8));
    let mut out = Vec::new();
    emit_window(&sub, 0, &source[..4], &mut out);
    assert_eq!(out, b"k=XY".to_vec());
    emit_window(&sub, 4, &source[4..6], &mut out);
    assert_eq!(out, b"k=XY".to_vec());
    emit_window(&sub, 6, &source[6..], &mut out);
    emit_tail(&sub, source.len(), &mut out);
    assert_eq!(out, b"k=XY\nz=1\n".to_vec());
}

#[test]
fn feed_line_reports_a_duplicate() {
    let parser = IniParser {
        duplicate_keys: DuplicateKeyStrategy::Error,
        ..IniParser::default()
    };
    let mut state = ScanState::new(Some("s"));
    state.feed_line(&parser, Some("s"), "k", b"[s]\n").unwrap();
    state.feed_line(&parser, Some("s"), "k", b"k=1\n").unwrap();
    assert_eq!(state.value_range, Some(6..7));
    let err = state.feed_line(&parser, Some("s"), "k", b"k=2\n");
    assert!(matches!(err, Err(ini_ninja::Error::DuplicateKey { .. })));
}

#[test]
fn global_scan_starts_inside_the_target() {
    let state = ScanState::new(None);
    assert!(state.in_section);
    assert_eq!(state.last_content, Some(0));
    let state = ScanState::new(Some("a"));
    assert!(!state.in_section);
    assert_eq!(state.last_content, None);
}

#[test]
fn default_parser_settings() {
    let parser = IniParser::default();
    assert_eq!(parser.comment_delimiters, &['#', ';']);
    assert_eq!(parser.value_start_delimiters, &['=']);
    assert!(parser.trailing_comments);
    assert!(parser.line_continuation);
    assert_eq!(parser.duplicate_keys, DuplicateKeyStrategy::UseLast);
    assert_eq!(DuplicateKeyStrategy::default(), DuplicateKeyStrategy::UseLast);
}
