use loglint::lint::lint_text;

#[test]
fn readme_strict_failure() {
    let input = "2026-09-16T10:23:01.123Z INFO auth.session: user logged in | user_id=42 ip=10.0.0.5\n\
                 2026-09-16T10:23:02.500Z WARN cache.evict: evicting stale entry | key=session:9f2c reason=\"ttl expired\"\n\
                 2026-09-16T10:23:03Z ERROR db.pool: connection refused\n";
    let report = lint_text(input, false);
    assert_eq!(report.diagnostics, vec![
        "line 3: invalid timestamp '2026-09-16T10:23:03Z': timestamp must be exactly 24 characters (YYYY-MM-DDTHH:MM:SS.mmmZ), got 20".to_string()
    ]);
    assert!(report.output.is_none());
    assert_eq!(report.exit_code, 1);
}

#[test]
fn lenient_failure_still_prints() {
    let input = "2026-09-16T10:23:01.123Z INFO a: ok\nshort line\n";
    let report = lint_text(input, true);
    assert_eq!(report.diagnostics, vec!["line 2: line ended too early".to_string()]);
    assert_eq!(report.output.unwrap(), "2026-09-16T10:23:01.123Z INFO  a: ok\n");
    assert_eq!(report.exit_code, 1);
}

#[test]
fn blank_lines_are_skipped_but_counted() {
    let input = "\n   \t\n2026-09-16T10:23:01.123Z INFO a: ok\r\n\u{3000}\nbad\n";
    let report = lint_text(input, false);
    assert_eq!(report.diagnostics, vec!["line 5: line ended too early".to_string()]);
    let report = lint_text("\n  \n", false);
    assert!(report.diagnostics.is_empty());
    assert_eq!(report.output.unwrap(), "");
    assert_eq!(report.exit_code, 0);
}

#[test]
fn line_endings() {
    // "\r\n" ends a line; a final "\r" without "\n" stays in the line
    let report = lint_text("2026-09-16T10:23:01.123Z INFO a: ok\r\n2026-09-16T10:23:01.123Z INFO a: cr\r", false);
    assert_eq!(report.diagnostics, vec!["line 2: message contains control character '\\r'".to_string()]);
    let report = lint_text("2026-09-16T10:23:01.123Z INFO a: ok", false);
    assert_eq!(report.output.unwrap(), "2026-09-16T10:23:01.123Z INFO  a: ok\n");
    assert_eq!(report.exit_code, 0);
    let report = lint_text("", false);
    assert_eq!(report.output.unwrap(), "");
}

#[test]
fn strict_clean_file_reads_the_same_leniently() {
    let input = "2026-09-16T10:23:01.123Z INFO auth.session: user logged in | user_id=42\n\
                 2026-09-16T10:23:02.500Z DEBUG x: y\n";
    let a = lint_text(input, false);
    let b = lint_text(input, true);
    assert_eq!(a.output, b.output);
    assert_eq!(a.diagnostics, b.diagnostics);
    assert_eq!(a.exit_code, b.exit_code);
}
