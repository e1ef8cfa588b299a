use loglint::fields::{parse_field, tokenize_fields, unescape};
use loglint::names::{validate_identifier, validate_module};
use loglint::parser::{split_message_and_fields, split_token};
use loglint::pretty::render_field;

fn chars(s: &str) -> Vec<char> {
    s.chars().collect()
}

fn text(c: &[char]) -> String {
    c.iter().collect()
}

fn tokens(s: &str, lenient: bool) -> Result<Vec<String>, String> {
    let c = chars(s);
    tokenize_fields(&c, lenient).map(|v| v.iter().map(|t| text(t)).collect()).map_err(|e| e.0)
}

#[test]
fn tokenizes_at_spaces_outside_quotes() {
    assert_eq!(tokens("a=1  b=\"x y\" c=\"q\\\"r s\\\\\"", false).unwrap(), vec![
        "a=1".to_string(),
        "b=\"x y\"".to_string(),
        "c=\"q\\\"r s\\\\\"".to_string(),
    ]);
    assert_eq!(tokens("", false).unwrap(), Vec::<String>::new());
    assert_eq!(tokens("   ", false).unwrap(), Vec::<String>::new());
    assert_eq!(tokens(" a ", false).unwrap(), vec!["a".to_string()]);
}

#[test]
fn unterminated_quote() {
    assert_eq!(
        tokens("a=1 b=\"x y", false).unwrap_err(),
        "unterminated quoted value starting at 'b=\"x y'"
    );
    assert_eq!(tokens("a=1 b=\"x y", true).unwrap(), vec!["a=1".to_string(), "b=\"x y".to_string()]);
    // an escaped quote does not close the value
    assert_eq!(
        tokens("b=\"x\\\"", false).unwrap_err(),
        "unterminated quoted value starting at 'b=\"x\\\"'"
    );
}

#[test]
fn parses_fields() {
    assert_eq!(parse_field(&chars("k=v")), Ok(("k".to_string(), "v".to_string())));
    assert_eq!(parse_field(&chars("k=")), Ok(("k".to_string(), "".to_string())));
    assert_eq!(parse_field(&chars("k=a=b")), Ok(("k".to_string(), "a=b".to_string())));
    assert_eq!(parse_field(&chars("_k1=\"a b\"")), Ok(("_k1".to_string(), "a b".to_string())));
    assert_eq!(parse_field(&chars("k=\"\\\\\\\"\"")), Ok(("k".to_string(), "\\\"".to_string())));
    assert_eq!(parse_field(&chars("k")), Err("field 'k' is missing '='".to_string()));
    assert_eq!(
        parse_field(&chars("k-x=1")),
        Err("invalid field key 'k-x': invalid character '-'".to_string())
    );
    assert_eq!(
        parse_field(&chars("k=\"")),
        Err("value for field 'k' has an unterminated quote".to_string())
    );
    assert_eq!(
        parse_field(&chars("k=a\"")),
        Err("value for field 'k' contains a stray quote".to_string())
    );
}

#[test]
fn unescapes() {
    assert_eq!(unescape(&chars("a\\\"b")), "a\"b");
    assert_eq!(unescape(&chars("a\\\\b")), "a\\b");
    assert_eq!(unescape(&chars("a\\nb")), "a\\nb");
    assert_eq!(unescape(&chars("end\\")), "end\\");
    assert_eq!(unescape(&chars("")), "");
}

#[test]
fn identifiers() {
    assert_eq!(validate_identifier(&chars("user_id")), Ok(()));
    assert_eq!(validate_identifier(&chars("_")), Ok(()));
    assert_eq!(validate_identifier(&chars("")), Err("must not be empty".to_string()));
    assert_eq!(
        validate_identifier(&chars("2x")),
        Err("must start with a letter or underscore, found '2'".to_string())
    );
    assert_eq!(
        validate_identifier(&chars("x\u{e9}")),
        Err("invalid character '\u{e9}'".to_string())
    );
}

#[test]
fn module_names() {
    assert!(validate_module(&chars("auth.session")).is_ok());
    assert!(validate_module(&chars("a")).is_ok());
    assert_eq!(validate_module(&chars("")).unwrap_err().0, "module name must not be empty");
    assert_eq!(
        validate_module(&chars("a.")).unwrap_err().0,
        "invalid module segment '' in 'a.': must not be empty"
    );
    assert_eq!(
        validate_module(&chars(".a")).unwrap_err().0,
        "invalid module segment '' in '.a': must not be empty"
    );
    assert_eq!(
        validate_module(&chars("a.b c")).unwrap_err().0,
        "invalid module segment 'b c' in 'a.b c': invalid character ' '"
    );
}

#[test]
fn splits_tokens() {
    let c = chars("abc def ghi");
    let (t, r) = split_token(&c, false).unwrap();
    assert_eq!(text(t), "abc");
    assert_eq!(text(r), "def ghi");
    let c = chars("   abc  def");
    let (t, r) = split_token(&c, true).unwrap();
    assert_eq!(text(t), "abc");
    assert_eq!(text(r), " def");
    assert_eq!(split_token(&c, false).unwrap_err().0, "unexpected extra whitespace");
    assert_eq!(split_token(&chars("abc"), false).unwrap_err().0, "line ended too early");
    assert_eq!(
        split_token(&chars(""), true).unwrap_err().0,
        "unexpected end of line, expected another field"
    );
}

#[test]
fn splits_message_and_fields() {
    // only the first separator counts; the rest is field text
    let (m, f) = split_message_and_fields(&chars("hello | a=1 | b=2"), true).unwrap();
    assert_eq!(m, "hello");
    assert_eq!(f, vec![("a".to_string(), "1".to_string()), ("b".to_string(), "2".to_string())]);
    let r = split_message_and_fields(&chars("hello | a=1 | b=2"), false);
    assert_eq!(r.unwrap_err().0, "field '|' is missing '='");
    let (m, f) = split_message_and_fields(&chars("x|y | "), false).unwrap();
    assert_eq!(m, "x|y");
    assert!(f.is_empty());
    let (m, f) = split_message_and_fields(&chars("no fields here"), false).unwrap();
    assert_eq!(m, "no fields here");
    assert!(f.is_empty());
}

#[test]
fn rendered_field_reads_back() {
    for value in ["", "plain", "a b", "q\"uote", "back\\slash", "\\\"", "tab\tand\u{a0}nbsp", "end\\"] {
        let rendered = render_field("key_1", value);
        let c = chars(&rendered);
        let toks = tokenize_fields(&c, false).unwrap();
        assert_eq!(toks.len(), 1);
        assert_eq!(text(toks[0]), rendered);
        assert_eq!(parse_field(toks[0]), Ok(("key_1".to_string(), value.to_string())));
    }
}

#[test]
fn rejects_bare_quotes_and_bare_whitespace() {
    assert_eq!(
        parse_field(&chars("k=\"a\"b\"")),
        Err("value for field 'k' contains an unescaped quote".to_string())
    );
    assert_eq!(
        parse_field(&chars("k=\"a\\\\\"b\"")),
        Err("value for field 'k' contains an unescaped quote".to_string())
    );
    assert_eq!(parse_field(&chars("k=\"a\\\"b\"")), Ok(("k".to_string(), "a\"b".to_string())));
    assert_eq!(parse_field(&chars("k=\"a\\xb\"")), Ok(("k".to_string(), "a\\xb".to_string())));
    assert_eq!(
        parse_field(&chars("k=a\u{3000}b")),
        Err("value for field 'k' contains whitespace but is not quoted".to_string())
    );
}

#[test]
fn written_fields_tokenize_even_with_repeated_keys() {
    let fs = [("a", "1"), ("a", "x y"), ("b", "q\"")];
    let toks: Vec<String> = fs.iter().map(|(k, v)| render_field(k, v)).collect();
    let s = chars(&toks.join(" "));
    for lenient in [false, true] {
        assert_eq!(tokens(&s.iter().collect::<String>(), lenient).unwrap(), toks);
    }
}

#[test]
fn message_and_written_fields_read_back() {
    let fs = vec![("user_id".to_string(), "42".to_string()), ("why".to_string(), "a \"b\"".to_string())];
    let rendered: Vec<String> = fs.iter().map(|(k, v)| render_field(k, v)).collect();
    let rest = format!("user logged in | {}", rendered.join(" "));
    for lenient in [false, true] {
        let (m, f) = split_message_and_fields(&chars(&rest), lenient).unwrap();
        assert_eq!(m, "user logged in");
        assert_eq!(f, fs);
    }
    let (m, f) = split_message_and_fields(&chars("only a message"), false).unwrap();
    assert_eq!(m, "only a message");
    assert!(f.is_empty());
}
