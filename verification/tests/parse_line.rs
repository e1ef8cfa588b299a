use loglint::parser::{parse_line, Level, LevelValue, ParseError};

fn err(line: &str, lenient: bool) -> String {
    parse_line(line, lenient).unwrap_err().0
}

fn pairs(v: &[(&str, &str)]) -> Vec<(String, String)> {
    v.iter().map(|(k, x)| (k.to_string(), x.to_string())).collect()
}

#[test]
fn parses_well_formed_line() {
    let e = parse_line(
        "2026-09-16T10:23:01.123Z INFO auth.session: user logged in | user_id=42 ip=10.0.0.5",
        false,
    )
    .unwrap();
    let ts = e.timestamp.unwrap();
    assert_eq!(ts.year, 2026);
    assert_eq!(ts.millis, 123);
    assert!(matches!(e.level, LevelValue::Known(Level::Info)));
    assert_eq!(e.module, "auth.session");
    assert_eq!(e.message, "user logged in");
    assert_eq!(e.fields, pairs(&[("user_id", "42"), ("ip", "10.0.0.5")]));
}

#[test]
fn parses_quoted_value() {
    let e = parse_line(
        "2026-09-16T10:23:02.500Z WARN cache.evict: evicting stale entry | key=session:9f2c reason=\"ttl expired\"",
        false,
    )
    .unwrap();
    assert!(matches!(e.level, LevelValue::Known(Level::Warn)));
    assert_eq!(e.module, "cache.evict");
    assert_eq!(e.message, "evicting stale entry");
    assert_eq!(e.fields, pairs(&[("key", "session:9f2c"), ("reason", "ttl expired")]));
}

#[test]
fn parses_escapes_and_no_fields() {
    let e = parse_line(
        "2026-09-16T10:23:02.500Z DEBUG a: m | q=\"say \\\"hi\\\" \\\\ \\n\" e=\"\"",
        false,
    )
    .unwrap();
    assert_eq!(e.fields, pairs(&[("q", "say \"hi\" \\ \\n"), ("e", "")]));
    let e = parse_line("2026-09-16T10:23:02.500Z TRACE a_1.b2: just text", false).unwrap();
    assert!(e.fields.is_empty());
    assert_eq!(e.message, "just text");
    assert!(matches!(e.level, LevelValue::Known(Level::Trace)));
}

#[test]
fn structural_errors() {
    assert_eq!(err("", false), "unexpected end of line, expected another field");
    assert_eq!(err(" 2026-09-16T10:23:01.123Z INFO a: m", false), "unexpected extra whitespace");
    assert_eq!(err("2026-09-16T10:23:01.123Z", false), "line ended too early");
    assert_eq!(err("2026-09-16T10:23:01.123Z INFO", false), "line ended too early");
    assert_eq!(err("2026-09-16T10:23:01.123Z INFO a:", false), "line ended too early");
    assert_eq!(err("2026-09-16T10:23:01.123Z  INFO a: m", false), "unexpected extra whitespace");
    assert_eq!(err("2026-09-16T10:23:01.123Z INFO ", false), "unexpected end of line, expected another field");
}

#[test]
fn timestamp_and_level_errors() {
    assert_eq!(
        err("2026-09-16T10:23:03Z INFO a: m", false),
        "invalid timestamp '2026-09-16T10:23:03Z': timestamp must be exactly 24 characters (YYYY-MM-DDTHH:MM:SS.mmmZ), got 20"
    );
    assert_eq!(
        err("2026-09-16T10:23:01.123Z info a: m", false),
        "unknown level 'info', expected one of TRACE, DEBUG, INFO, WARN, ERROR"
    );
}

#[test]
fn module_errors() {
    assert_eq!(
        err("2026-09-16T10:23:01.123Z INFO auth m", false),
        "expected module name followed by ':', found 'auth'"
    );
    assert_eq!(err("2026-09-16T10:23:01.123Z INFO : m", false), "module name must not be empty");
    assert_eq!(
        err("2026-09-16T10:23:01.123Z INFO a..b: m", false),
        "invalid module segment '' in 'a..b': must not be empty"
    );
    assert_eq!(
        err("2026-09-16T10:23:01.123Z INFO 1a.b: m", false),
        "invalid module segment '1a' in '1a.b': must start with a letter or underscore, found '1'"
    );
    assert_eq!(
        err("2026-09-16T10:23:01.123Z INFO a.b-c: m", false),
        "invalid module segment 'b-c' in 'a.b-c': invalid character '-'"
    );
}

#[test]
fn message_errors() {
    assert_eq!(err("2026-09-16T10:23:01.123Z INFO a: ", false), "message must not be empty");
    assert_eq!(err("2026-09-16T10:23:01.123Z INFO a:  | k=v", false), "message must not be empty");
    assert_eq!(
        err("2026-09-16T10:23:01.123Z INFO a: tab\there", false),
        "message contains control character '\\t'"
    );
    assert_eq!(
        err("2026-09-16T10:23:01.123Z INFO a: esc\u{1b}[0m", false),
        "message contains control character '\\u{1b}'"
    );
    assert_eq!(
        err("2026-09-16T10:23:01.123Z INFO a: nul\u{0}", false),
        "message contains control character '\\0'"
    );
    assert_eq!(
        err("2026-09-16T10:23:01.123Z INFO a: c1\u{85}", false),
        "message contains control character '\\u{85}'"
    );
}

#[test]
fn field_errors() {
    let base = "2026-09-16T10:23:01.123Z INFO a: m | ";
    assert_eq!(err(&format!("{}k", base), false), "field 'k' is missing '='");
    assert_eq!(err(&format!("{}9k=v", base), false), "invalid field key '9k': must start with a letter or underscore, found '9'");
    assert_eq!(err(&format!("{}=v", base), false), "invalid field key '': must not be empty");
    assert_eq!(err(&format!("{}k=\"", base), false), "unterminated quoted value starting at 'k=\"'");
    assert_eq!(err(&format!("{}k=\"ab\"c", base), false), "value for field 'k' has an unterminated quote");
    assert_eq!(err(&format!("{}k=a\"b\"", base), false), "value for field 'k' contains a stray quote");
    assert_eq!(err(&format!("{}k=1 k=2", base), false), "duplicate field key 'k'");
    assert_eq!(
        err(&format!("{}k=1 r=\"open and never closed", base), false),
        "unterminated quoted value starting at 'r=\"open and never closed'"
    );
    // tokenizing comes before parsing the fields
    assert_eq!(
        err(&format!("{}bad r=\"open", base), false),
        "unterminated quoted value starting at 'r=\"open'"
    );
}

#[test]
fn lenient_recovers() {
    let e = parse_line("garbage shout a.b m |  x=1  bad 9=z y=\"q x=2", true).unwrap();
    assert!(e.timestamp.is_none());
    assert!(matches!(&e.level, LevelValue::Unknown(s) if s == "shout"));
    assert_eq!(e.level.as_str(), "shout");
    assert_eq!(e.module, "a.b");
    assert_eq!(e.message, "m");
    // unparseable field tokens are skipped; the unterminated quote swallows the rest
    assert_eq!(e.fields, pairs(&[("x", "1")]));
}

#[test]
fn lenient_duplicate_keeps_last() {
    let e = parse_line("2026-09-16T10:23:01.123Z INFO a: m | x=1 y=2 x=3", true).unwrap();
    assert_eq!(e.fields, pairs(&[("y", "2"), ("x", "3")]));
}

#[test]
fn lenient_skips_spaces_and_allows_empty_message() {
    let e = parse_line("   2026-09-16T10:23:01.123Z    ERROR   db.pool: ", true).unwrap();
    assert!(e.timestamp.is_some());
    assert!(matches!(e.level, LevelValue::Known(Level::Error)));
    assert_eq!(e.module, "db.pool");
    assert_eq!(e.message, "");
    assert_eq!(err("2026-09-16T10:23:01.123Z INFO", true), "line ended too early");
    assert_eq!(err("     ", true), "line ended too early");
    assert_eq!(err("", true), "unexpected end of line, expected another field");
}

#[test]
fn lenient_keeps_bad_module_and_control_characters() {
    let e = parse_line("2026-09-16T10:23:01.123Z INFO 1bad..: tab\there", true).unwrap();
    assert_eq!(e.module, "1bad..");
    assert_eq!(e.message, "tab\there");
}

#[test]
fn strict_line_reads_the_same_leniently() {
    let line = "2026-09-16T10:23:02.500Z WARN cache.evict: evicting stale entry | key=session:9f2c reason=\"ttl expired\"";
    let a = parse_line(line, false).unwrap();
    let b = parse_line(line, true).unwrap();
    assert_eq!(a.module, b.module);
    assert_eq!(a.message, b.message);
    assert_eq!(a.fields, b.fields);
    assert_eq!(a.timestamp.unwrap(), b.timestamp.unwrap());
    assert_eq!(a.level.as_str(), b.level.as_str());
}

#[test]
fn level_names() {
    assert_eq!(Level::Trace.as_str(), "TRACE");
    assert_eq!(Level::Debug.as_str(), "DEBUG");
    assert_eq!(Level::Info.as_str(), "INFO");
    assert_eq!(Level::Warn.as_str(), "WARN");
    assert_eq!(Level::Error.as_str(), "ERROR");
    for l in [Level::Trace, Level::Debug, Level::Info, Level::Warn, Level::Error] {
        let name: Vec<char> = l.as_str().chars().collect();
        assert_eq!(Level::from_str(&name), Some(l));
    }
    let lower: Vec<char> = "warn".chars().collect();
    assert_eq!(Level::from_str(&lower), None);
    assert_eq!(LevelValue::Known(Level::Warn).as_str(), "WARN");
    assert_eq!(LevelValue::Unknown("NOTICE".to_string()).as_str(), "NOTICE");
}

#[test]
fn parse_error_message() {
    let e = ParseError("boom".to_string());
    assert_eq!(e.to_string(), "boom");
}

#[test]
fn strict_rejects_unescaped_quote_and_unquoted_whitespace() {
    assert_eq!(
        err("2026-09-16T10:23:01.123Z INFO m: x | k=\"a\"b\"c\"", false),
        "value for field 'k' contains an unescaped quote"
    );
    assert_eq!(
        err("2026-09-16T10:23:01.123Z INFO m: x | k=a\tb", false),
        "value for field 'k' contains whitespace but is not quoted"
    );
    assert_eq!(
        err("2026-09-16T10:23:01.123Z INFO m: x | k=a\u{a0}b", false),
        "value for field 'k' contains whitespace but is not quoted"
    );
    // lenient mode skips such fields like any other malformed one
    let e = parse_line("2026-09-16T10:23:01.123Z INFO m: x | k=\"a\"b\"c\" j=a\tb ok=1", true).unwrap();
    assert_eq!(e.fields, pairs(&[("ok", "1")]));
}
