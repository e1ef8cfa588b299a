use loglint::lint::lint_text;
use loglint::parser::{parse_line, Level, LevelValue, LogEntry};
use loglint::pretty::{pretty_print, render_field};
use loglint::timestamp::Timestamp;

fn s(x: &str) -> String {
    x.to_string()
}

#[test]
fn renders_fields() {
    assert_eq!(render_field("k", &s("v")), "k=v");
    assert_eq!(render_field("k", &s("")), "k=\"\"");
    assert_eq!(render_field("k", &s("a b")), "k=\"a b\"");
    assert_eq!(render_field("k", &s("tab\there")), "k=\"tab\there\"");
    assert_eq!(render_field("k", &s("nb\u{a0}sp")), "k=\"nb\u{a0}sp\"");
    assert_eq!(render_field("k", &s("say \"hi\"")), "k=\"say \\\"hi\\\"\"");
    assert_eq!(render_field("k", &s("a\\b")), "k=a\\b");
    assert_eq!(render_field("k", &s("a\\ b")), "k=\"a\\\\ b\"");
}

#[test]
fn readme_lenient_example() {
    let input = "2026-09-16T10:23:01.123Z INFO auth.session: user logged in | ip=10.0.0.5 user_id=42\n\
                 2026-09-16T10:23:02.500Z WARN cache.evict: evicting stale entry | key=session:9f2c reason=\"ttl expired\"\n\
                 2026-09-16T10:23:03Z ERROR db.pool: connection refused\n";
    let report = lint_text(input, true);
    assert_eq!(
        report.output.unwrap(),
        "2026-09-16T10:23:01.123Z INFO  auth.session: user logged in | ip=10.0.0.5 user_id=42\n\
         2026-09-16T10:23:02.500Z WARN  cache.evict:  evicting stale entry | key=session:9f2c reason=\"ttl expired\"\n\
         ------------------------ ERROR db.pool:      connection refused\n"
    );
    assert_eq!(report.exit_code, 0);
    assert!(report.diagnostics.is_empty());
}

#[test]
fn pads_level_and_module() {
    let entries = vec![
        LogEntry {
            timestamp: Some(Timestamp { year: 2026, month: 1, day: 2, hour: 3, minute: 4, second: 5, millis: 6 }),
            level: LevelValue::Unknown(s("NOTICE")),
            module: s("m"),
            message: s("hi"),
            fields: vec![(s("a"), s("1")), (s("b"), s("x y"))],
        },
        LogEntry {
            timestamp: None,
            level: LevelValue::Known(Level::Info),
            module: s("\u{e9}t\u{e9}"),
            message: s(""),
            fields: vec![],
        },
    ];
    assert_eq!(
        pretty_print(&entries),
        "2026-01-02T03:04:05.006Z NOTICE m:   hi | a=1 b=\"x y\"\n\
         ------------------------ INFO  \u{e9}t\u{e9}: \n"
    );
    assert_eq!(pretty_print(&[]), "");
}

#[test]
fn written_line_reads_back() {
    let line = "2026-09-16T10:23:02.500Z WARN cache.evict: evicting stale entry | key=session:9f2c reason=\"ttl \\\"expired\\\"\" e=\"\"";
    let e = parse_line(line, false).unwrap();
    let out = pretty_print(&[e]);
    let written = out.strip_suffix('\n').unwrap();
    let again = parse_line(written, true).unwrap();
    let original = parse_line(line, false).unwrap();
    assert_eq!(again.timestamp, original.timestamp);
    assert_eq!(again.level.as_str(), original.level.as_str());
    assert_eq!(again.module, original.module);
    assert_eq!(again.message, original.message);
    assert_eq!(again.fields, original.fields);
    assert_eq!(pretty_print(&[again]), out);
}
