use ini_ninja::{DuplicateKeyStrategy, Error, IniParser, ParseError};

const ROUNDTRIP_INI_START: &str = r#"
        version=10
        [section_one]
    "#;
const ROUNDTRIP_INI_END: &str = r#"
        version=11
        [section_one]
    "#;

#[test]
fn lib_read_write_value_file_roundtrip() {
    let parser = IniParser::default();
    let version: u32 = parser
        .read_value(ROUNDTRIP_INI_START, None, "version")
        .unwrap()
        .unwrap();
    let new_version = version + 1;
    let out = parser
        .write_value(
            ROUNDTRIP_INI_START.as_bytes(),
            None,
            "version",
            &new_version.to_string(),
        )
        .unwrap();
    let new = String::from_utf8(out).unwrap();
    assert_eq!(new, ROUNDTRIP_INI_END);
}

#[test]
fn read_value() {
    let parser = IniParser::default();
    let ini = "\n            first_name = \"tom\"\n        ";
    let value: Option<String> = parser.read_value(ini, None, "first_name").unwrap();
    assert_eq!(value, Some("tom".to_string()));
}

#[test]
fn read_value_section() {
    let parser = IniParser::default();
    let ini = "\n            [user]\n            first_name = \"tom\"\n        ";
    let value: Option<String> = parser.read_value(ini, Some("user"), "first_name").unwrap();
    assert_eq!(value, Some("tom".to_string()));
}

#[test]
fn read_value_no_section() {
    let parser = IniParser::default();
    let ini = "\n            date = \"10/29/2024\"\n\n            [user]\n            first_name = \"tom\"\n            date = \"shouldn't get this\"\n        ";
    let value: Option<String> = parser.read_value(ini, None, "date").unwrap();
    assert_eq!(value, Some("10/29/2024".to_string()));
}

#[test]
fn read_unquoted_string() {
    let parser = IniParser::default();
    let ini = "\n            [user]\n            first_name = tom\n        ";
    let value: Option<String> = parser.read_value(ini, Some("user"), "first_name").unwrap();
    assert_eq!(value, Some("tom".to_string()));
}

const USER_ADMIN: &str = "\n            [user]\n            first_name = tom\n            is_admin = ";

fn read_admin(value: &str) -> Result<Option<bool>, Error> {
    let ini = format!("{USER_ADMIN}{value}\n        ");
    IniParser::default().read_value(&ini, Some("user"), "is_admin")
}

#[test]
fn read_bool_true() {
    assert_eq!(read_admin("true").unwrap(), Some(true));
}

#[test]
fn read_bool_quotes() {
    assert!(matches!(
        read_admin("\"true\""),
        Err(Error::Parse(ParseError::Bool))
    ));
}

#[test]
fn read_bool_uppercase() {
    assert_eq!(read_admin("TRUE").unwrap(), Some(true));
}

#[test]
fn read_bool_num_true() {
    assert_eq!(read_admin("1").unwrap(), Some(true));
}

#[test]
fn read_bool_num_false() {
    assert_eq!(read_admin("0").unwrap(), Some(false));
}

#[test]
fn read_bool_false() {
    assert_eq!(read_admin("false").unwrap(), Some(false));
}

#[test]
fn read_bool_words() {
    assert_eq!(read_admin("Yes").unwrap(), Some(true));
    assert_eq!(read_admin("ON").unwrap(), Some(true));
    assert_eq!(read_admin("no").unwrap(), Some(false));
    assert_eq!(read_admin("Off").unwrap(), Some(false));
    assert!(matches!(read_admin("maybe"), Err(Error::Parse(ParseError::Bool))));
}

/// A file with duplicate entries, including a duplicate section with the same key.
const DUPLICATE_INI: &str = "\n        [contact]\n        email = test@example.com\n        email = test2@example.com\n\n        [other]\n        another_key= something\n\n        [contact]\n        email = test3@example.com\n    ";

fn with_policy(duplicate_keys: DuplicateKeyStrategy) -> IniParser {
    IniParser {
        duplicate_keys,
        ..IniParser::default()
    }
}

#[test]
fn read_duplicate_value_first() {
    let value: Option<String> = with_policy(DuplicateKeyStrategy::UseFirst)
        .read_value(DUPLICATE_INI, Some("contact"), "email")
        .unwrap();
    assert_eq!(value, Some("test@example.com".to_string()));
}

#[test]
fn read_duplicate_value_last() {
    let value: Option<String> = with_policy(DuplicateKeyStrategy::UseLast)
        .read_value(DUPLICATE_INI, Some("contact"), "email")
        .unwrap();
    assert_eq!(value, Some("test3@example.com".to_string()));
}

#[test]
fn read_duplicate_value_error() {
    let value: Result<Option<String>, Error> = with_policy(DuplicateKeyStrategy::Error)
        .read_value(DUPLICATE_INI, Some("contact"), "email");
    match value {
        Err(Error::DuplicateKey { key, section }) => {
            assert_eq!(key, "email");
            assert_eq!(section, Some("contact".to_string()));
        }
        _ => panic!("expected a duplicate key error"),
    }
}

#[test]
fn read_single_value_under_error_policy() {
    let value: Option<String> = with_policy(DuplicateKeyStrategy::Error)
        .read_value(DUPLICATE_INI, Some("other"), "another_key")
        .unwrap();
    assert_eq!(value, Some("something".to_string()));
}

#[test]
fn read_absent_key_is_none() {
    let parser = IniParser::default();
    let value: Option<String> = parser.read_value("[a]\nx=1\n", Some("a"), "y").unwrap();
    assert_eq!(value, None);
    let value: Option<String> = parser.read_value("[a]\nx=1\n", Some("b"), "x").unwrap();
    assert_eq!(value, None);
    let value: Option<String> = parser.read_value("", None, "x").unwrap();
    assert_eq!(value, None);
}

#[test]
fn read_global_key_not_found_in_sections() {
    let parser = IniParser::default();
    let value: Option<String> = parser.read_value("[a]\nx=1\n", None, "x").unwrap();
    assert_eq!(value, None);
}

#[test]
fn value_unaltered_keeps_quotes() {
    let parser = IniParser::default();
    let raw = parser
        .value_unaltered("k =  \"quoted\"  # c\n", None, "k")
        .unwrap();
    assert_eq!(raw, Some("\"quoted\"".to_string()));
}

#[test]
fn read_value_keeps_continuation_bytes() {
    let parser = IniParser::default();
    let raw = parser
        .value_unaltered("d = a \\\n  b\nk=v\n", None, "d")
        .unwrap();
    assert_eq!(raw, Some("a \\\n  b".to_string()));
}

#[test]
fn read_integers() {
    let parser = IniParser::default();
    let ini = "a=40\nb=-12\nc=+7\nd=300\ne=-129\nf=18446744073709551615\ng=x1\nh=-\n";
    assert_eq!(parser.read_value::<usize>(ini, None, "a").unwrap(), Some(40));
    assert_eq!(parser.read_value::<i32>(ini, None, "b").unwrap(), Some(-12));
    assert_eq!(parser.read_value::<u8>(ini, None, "c").unwrap(), Some(7));
    assert!(matches!(
        parser.read_value::<u8>(ini, None, "d"),
        Err(Error::Parse(ParseError::Integer))
    ));
    assert!(matches!(
        parser.read_value::<i8>(ini, None, "e"),
        Err(Error::Parse(ParseError::Integer))
    ));
    assert_eq!(
        parser.read_value::<u64>(ini, None, "f").unwrap(),
        Some(u64::MAX)
    );
    assert!(matches!(
        parser.read_value::<u32>(ini, None, "f"),
        Err(Error::Parse(ParseError::Integer))
    ));
    assert!(matches!(
        parser.read_value::<i64>(ini, None, "g"),
        Err(Error::Parse(ParseError::Integer))
    ));
    assert!(matches!(
        parser.read_value::<i64>(ini, None, "h"),
        Err(Error::Parse(ParseError::Integer))
    ));
    assert!(matches!(
        parser.read_value::<u16>(ini, None, "b"),
        Err(Error::Parse(ParseError::Integer))
    ));
}

#[test]
fn read_integer_extremes() {
    let parser = IniParser::default();
    let ini = "a=-128\nb=127\nc=-170141183460469231731687303715884105728\nd=340282366920938463463374607431768211455\n";
    assert_eq!(parser.read_value::<i8>(ini, None, "a").unwrap(), Some(i8::MIN));
    assert_eq!(parser.read_value::<i8>(ini, None, "b").unwrap(), Some(i8::MAX));
    assert_eq!(parser.read_value::<i128>(ini, None, "c").unwrap(), Some(i128::MIN));
    assert_eq!(parser.read_value::<u128>(ini, None, "d").unwrap(), Some(u128::MAX));
    assert_eq!(parser.read_value::<isize>(ini, None, "a").unwrap(), Some(-128));
    assert_eq!(parser.read_value::<i16>(ini, None, "b").unwrap(), Some(127));
}

#[test]
fn read_char() {
    let parser = IniParser::default();
    let ini = "a=é\nb=ab\n";
    assert_eq!(parser.read_value::<char>(ini, None, "a").unwrap(), Some('é'));
    assert!(matches!(
        parser.read_value::<char>(ini, None, "b"),
        Err(Error::Parse(ParseError::Char))
    ));
}

#[test]
fn new_parse_wraps() {
    assert!(matches!(
        Error::new_parse(ParseError::Char),
        Error::Parse(ParseError::Char)
    ));
}
