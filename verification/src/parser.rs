//! One log line: `TIMESTAMP SP LEVEL SP MODULE ':' SP MESSAGE (' | ' FIELDS)?`.
//!
//! In strict mode every deviation from this grammar is an error. In lenient
//! mode the parser recovers as much structure as it can.

use vstd::prelude::*;
use crate::text;
use crate::timestamp::{self, Timestamp};
use crate::names;
use crate::fields;

verus! {

/// A parse failure, with its message.
#[derive(Debug)]
pub struct ParseError(pub String);

impl ParseError {
    /// The message, as `Display` would write it.
    pub fn to_string(&self) -> (r: String)
        ensures
            r@ == self.0@,
    {
        self.0.clone()
    }
}


/// The five known severities.
#[derive(Debug, Clone, Copy, PartialEq, Eq, Structural)]
pub enum Level {
    Trace,
    Debug,
    Info,
    Warn,
    Error,
}

/// The name a level is written as.
pub open spec fn level_name(l: Level) -> Seq<char> {
    match l {
        Level::Trace => seq!['T', 'R', 'A', 'C', 'E'],
        Level::Debug => seq!['D', 'E', 'B', 'U', 'G'],
        Level::Info => seq!['I', 'N', 'F', 'O'],
        Level::Warn => seq!['W', 'A', 'R', 'N'],
        Level::Error => seq!['E', 'R', 'R', 'O', 'R'],
    }
}

/// The level whose name is exactly `s`.
pub open spec fn level_named(s: Seq<char>) -> Option<Level> {
    if s == level_name(Level::Trace) {
        Some(Level::Trace)
    } else if s == level_name(Level::Debug) {
        Some(Level::Debug)
    } else if s == level_name(Level::Info) {
        Some(Level::Info)
    } else if s == level_name(Level::Warn) {
        Some(Level::Warn)
    } else if s == level_name(Level::Error) {
        Some(Level::Error)
    } else {
        None
    }
}

impl Level {
    /// The level whose name is exactly `s`.
    pub fn from_str(s: &[char]) -> (r: Option<Level>)
        ensures
            r == level_named(s@),
    {
        let trace = ['T', 'R', 'A', 'C', 'E'];
        let debug = ['D', 'E', 'B', 'U', 'G'];
        let info = ['I', 'N', 'F', 'O'];
        let warn = ['W', 'A', 'R', 'N'];
        let error = ['E', 'R', 'R', 'O', 'R'];
        assert(trace@ =~= level_name(Level::Trace));
        assert(debug@ =~= level_name(Level::Debug));
        assert(info@ =~= level_name(Level::Info));
        assert(warn@ =~= level_name(Level::Warn));
        assert(error@ =~= level_name(Level::Error));
        if text::chars_equal(s, &trace) {
            Some(Level::Trace)
        } else if text::chars_equal(s, &debug) {
            Some(Level::Debug)
        } else if text::chars_equal(s, &info) {
            Some(Level::Info)
        } else if text::chars_equal(s, &warn) {
            Some(Level::Warn)
        } else if text::chars_equal(s, &error) {
            Some(Level::Error)
        } else {
            None
        }
    }

    /// The name the level is written as.
    pub fn as_str(&self) -> (r: &'static str)
        ensures
            r@ == level_name(*self),
    {
        proof {
            reveal_strlit("TRACE");
            reveal_strlit("DEBUG");
            reveal_strlit("INFO");
            reveal_strlit("WARN");
            reveal_strlit("ERROR");
        }
        match self {
            Level::Trace => "TRACE",
            Level::Debug => "DEBUG",
            Level::Info => "INFO",
            Level::Warn => "WARN",
            Level::Error => "ERROR",
        }
    }
}

/// A level as read from a line: a known level, or in lenient mode the text
/// that stood in its place.
#[derive(Debug)]
pub enum LevelValue {
    Known(Level),
    Unknown(String),
}

/// The abstract value of a `LevelValue`.
pub enum LevelView {
    Known(Level),
    Unknown(Seq<char>),
}

impl View for LevelValue {
    type V = LevelView;

    open spec fn view(&self) -> LevelView {
        match self {
            LevelValue::Known(l) => LevelView::Known(*l),
            LevelValue::Unknown(s) => LevelView::Unknown(s@),
        }
    }
}

/// The text a level value is written as.
pub open spec fn level_text(lv: LevelView) -> Seq<char> {
    match lv {
        LevelView::Known(l) => level_name(l),
        LevelView::Unknown(s) => s,
    }
}

impl LevelValue {
    /// The text the level value is written as.
    pub fn as_str(&self) -> (r: &str)
        ensures
            r@ == level_text(self@),
    {
        match self {
            LevelValue::Known(l) => l.as_str(),
            LevelValue::Unknown(s) => s.as_str(),
        }
    }
}

/// One parsed log line.
#[derive(Debug)]
pub struct LogEntry {
    pub timestamp: Option<Timestamp>,
    pub level: LevelValue,
    pub module: String,
    pub message: String,
    pub fields: Vec<(String, String)>,
}

/// The abstract value of a `LogEntry`.
pub struct EntryView {
    pub timestamp: Option<Timestamp>,
    pub level: LevelView,
    pub module: Seq<char>,
    pub message: Seq<char>,
    pub fields: Seq<(Seq<char>, Seq<char>)>,
}

/// The views of a list of `key=value` pairs.
pub open spec fn pairs_view(v: Seq<(String, String)>) -> Seq<(Seq<char>, Seq<char>)> {
    v.map_values(|p: (String, String)| (p.0@, p.1@))
}

impl View for LogEntry {
    type V = EntryView;

    open spec fn view(&self) -> EntryView {
        EntryView {
            timestamp: self.timestamp,
            level: self.level@,
            module: self.module@,
            message: self.message@,
            fields: pairs_view(self.fields@),
        }
    }
}

/// Splitting off the next space-terminated token: the token and what
/// follows the space after it. In lenient mode leading spaces are skipped
/// first; in strict mode they are an error.
pub open spec fn token_split(s: Seq<char>, lenient: bool) -> Result<
    (Seq<char>, Seq<char>),
    Seq<char>,
> {
    if s.len() == 0 {
        Err("unexpected end of line, expected another field"@)
    } else if !lenient && s[0] == ' ' {
        Err("unexpected extra whitespace"@)
    } else {
        let t = if lenient {
            s.skip(text::skip_spaces(s, 0) as int)
        } else {
            s
        };
        match text::find_char(t, ' ', 0) {
            None => Err("line ended too early"@),
            Some(i) => if i == 0 {
                Err("unexpected extra whitespace"@)
            } else {
                Ok((t.take(i as int), t.skip(i + 1 as int)))
            },
        }
    }
}

fn error_of(msg: &str) -> (e: ParseError)
    ensures
        e.0@ == msg@,
{
    ParseError(msg.to_string())
}

/// Splits off the next space-terminated token.
pub fn split_token<'a>(s: &'a [char], lenient: bool) -> (r: Result<(&'a [char], &'a [char]), ParseError>)
    ensures
        match r {
            Ok((tok, rest)) => token_split(s@, lenient) == Ok::<(Seq<char>, Seq<char>), Seq<char>>(
                (tok@, rest@),
            ),
            Err(e) => token_split(s@, lenient) == Err::<(Seq<char>, Seq<char>), Seq<char>>(e.0@),
        },
{
    if s.len() == 0 {
        return Err(error_of("unexpected end of line, expected another field"));
    }
    if !lenient && s[0] == ' ' {
        return Err(error_of("unexpected extra whitespace"));
    }
    let mut start: usize = 0;
    if lenient {
        while start < s.len() && s[start] == ' '
            invariant
                start <= s@.len(),
                text::skip_spaces(s@, 0) == text::skip_spaces(s@, start as nat),
            decreases s@.len() - start,
        {
            start = start + 1;
        }
    }
    assert(lenient ==> text::skip_spaces(s@, start as nat) == start);
    let t = vstd::slice::slice_subrange(s, start, s.len());
    assert(lenient ==> t@ =~= s@.skip(text::skip_spaces(s@, 0) as int));
    assert(!lenient ==> t@ =~= s@);
    proof {
        text::lemma_find_char(t@, ' ', 0);
    }
    match text::find_char_from(t, ' ', 0) {
        None => Err(error_of("line ended too early")),
        Some(idx) => {
            if idx == 0 {
                return Err(error_of("unexpected extra whitespace"));
            }
            let n = t.len();
            let token = vstd::slice::slice_subrange(t, 0, idx);
            let rest = vstd::slice::slice_subrange(t, idx + 1, n);
            assert(token@ =~= t@.take(idx as int));
            assert(rest@ =~= t@.skip(idx + 1 as int));
            assert(!lenient ==> t@ =~= s@);
            Ok((token, rest))
        },
    }
}


/// The first index at or after `i` where `s` holds the separator ` | `.
pub open spec fn find_separator(s: Seq<char>, i: nat) -> Option<nat>
    decreases s.len() - i,
{
    if i + 3 > s.len() {
        None
    } else if s[i as int] == ' ' && s[i + 1 as int] == '|' && s[i + 2 as int] == ' ' {
        Some(i)
    } else {
        find_separator(s, i + 1)
    }
}

/// A separator found lies wholly within `s`.
pub proof fn lemma_find_separator(s: Seq<char>, i: nat)
    ensures
        find_separator(s, i) matches Some(j) ==> i <= j && j + 3 <= s.len(),
    decreases s.len() - i,
{
    if i + 3 <= s.len() && !(s[i as int] == ' ' && s[i + 1 as int] == '|' && s[i + 2 as int]
        == ' ') {
        lemma_find_separator(s, i + 1);
    }
}

/// The first index at or after `i` holding a control character.
pub open spec fn first_control(s: Seq<char>, i: nat) -> Option<nat>
    decreases s.len() - i,
{
    if i >= s.len() {
        None
    } else if text::is_control(s[i as int]) {
        Some(i)
    } else {
        first_control(s, i + 1)
    }
}

/// How `Debug` writes a control character: quoted, as `\0`, `\t`, `\r`,
/// `\n`, or else `\u{..}` with the code point in lowercase hexadecimal.
pub open spec fn control_debug(c: char) -> Seq<char> {
    let escaped = if c == '\0' {
        seq!['\\', '0']
    } else if c == '\t' {
        seq!['\\', 't']
    } else if c == '\r' {
        seq!['\\', 'r']
    } else if c == '\n' {
        seq!['\\', 'n']
    } else {
        seq!['\\', 'u', '{'] + text::hex(c as nat) + seq!['}']
    };
    seq!['\''] + escaped + seq!['\'']
}

fn push_control_debug(out: &mut Vec<char>, c: char)
    ensures
        final(out)@ == old(out)@ + control_debug(c),
{
    out.push('\'');
    out.push('\\');
    if c == '\0' {
        out.push('0');
    } else if c == '\t' {
        out.push('t');
    } else if c == '\r' {
        out.push('r');
    } else if c == '\n' {
        out.push('n');
    } else {
        out.push('u');
        out.push('{');
        text::push_hex(out, c as u32);
        out.push('}');
    }
    out.push('\'');
    assert(out@ =~= old(out)@ + control_debug(c));
}

/// The first index of `fields` whose key is `key`.
pub open spec fn key_index(fields: Seq<(Seq<char>, Seq<char>)>, key: Seq<char>, i: nat) -> Option<
    nat,
>
    decreases fields.len() - i,
{
    if i >= fields.len() {
        None
    } else if fields[i as int].0 == key {
        Some(i)
    } else {
        key_index(fields, key, i + 1)
    }
}

/// The index found holds the key, and none before it does; when none is
/// found, no index from `i` on holds it.
pub proof fn lemma_key_index(fields: Seq<(Seq<char>, Seq<char>)>, key: Seq<char>, i: nat)
    ensures
        match key_index(fields, key, i) {
            Some(j) => i <= j < fields.len() && fields[j as int].0 == key,
            None => forall|k: int| i <= k < fields.len() ==> #[trigger] fields[k].0 != key,
        },
    decreases fields.len() - i,
{
    if i < fields.len() && fields[i as int].0 != key {
        lemma_key_index(fields, key, i + 1);
    }
}

/// Adding the field token `tok` to the fields gathered so far: a token that
/// does not parse is an error in strict mode and skipped in lenient mode; a
/// key seen before is an error in strict mode, and in lenient mode the new
/// pair replaces the old one and goes to the end.
pub open spec fn add_field(acc: Seq<(Seq<char>, Seq<char>)>, tok: Seq<char>, lenient: bool) -> Result<
    Seq<(Seq<char>, Seq<char>)>,
    Seq<char>,
> {
    match fields::field_parse(tok) {
        Ok((k, v)) => match key_index(acc, k, 0) {
            Some(j) => if lenient {
                Ok(acc.remove(j as int).push((k, v)))
            } else {
                Err("duplicate field key '"@ + k + "'"@)
            },
            None => Ok(acc.push((k, v))),
        },
        Err(e) => if lenient {
            Ok(acc)
        } else {
            Err(e)
        },
    }
}

/// The fields that the tokens give, added one by one from the first.
pub open spec fn field_list(tokens: Seq<Seq<char>>, lenient: bool) -> Result<
    Seq<(Seq<char>, Seq<char>)>,
    Seq<char>,
>
    decreases tokens.len(),
{
    if tokens.len() == 0 {
        Ok(seq![])
    } else {
        match field_list(tokens.drop_last(), lenient) {
            Ok(acc) => add_field(acc, tokens.last(), lenient),
            Err(e) => Err(e),
        }
    }
}

/// The message and the fields of what follows `MODULE: `: the message runs
/// up to the first ` | `, the fields follow it. In strict mode the message
/// must be non-empty and free of control characters.
pub open spec fn message_and_fields(rest: Seq<char>, lenient: bool) -> Result<
    (Seq<char>, Seq<(Seq<char>, Seq<char>)>),
    Seq<char>,
> {
    let sep = find_separator(rest, 0);
    let msg = match sep {
        Some(i) => rest.take(i as int),
        None => rest,
    };
    if msg.len() == 0 && !lenient {
        Err("message must not be empty"@)
    } else if !lenient && first_control(msg, 0) is Some {
        Err(
            "message contains control character "@ + control_debug(
                msg[first_control(msg, 0)->0 as int],
            ),
        )
    } else {
        match sep {
            None => Ok((msg, seq![])),
            Some(i) => match fields::field_tokens(rest.skip(i + 3 as int), lenient) {
                Err(e) => Err(e),
                Ok(toks) => match field_list(toks, lenient) {
                    Ok(fl) => Ok((msg, fl)),
                    Err(e) => Err(e),
                },
            },
        }
    }
}

fn find_separator_from(s: &[char]) -> (r: Option<usize>)
    ensures
        match r {
            Some(j) => find_separator(s@, 0) == Some(j as nat),
            None => find_separator(s@, 0) is None,
        },
{
    let n = s.len();
    let mut i: usize = 0;
    while n >= 3 && i <= n - 3
        invariant
            n == s@.len(),
            find_separator(s@, 0) == find_separator(s@, i as nat),
        decreases n - i,
    {
        if s[i] == ' ' && s[i + 1] == '|' && s[i + 2] == ' ' {
            return Some(i);
        }
        i = i + 1;
    }
    None
}

fn find_key(fields: &Vec<(String, String)>, key: &String) -> (r: Option<usize>)
    ensures
        match r {
            Some(j) => key_index(pairs_view(fields@), key@, 0) == Some(j as nat),
            None => key_index(pairs_view(fields@), key@, 0) is None,
        },
{
    let ghost fv = pairs_view(fields@);
    let mut i: usize = 0;
    while i < fields.len()
        invariant
            i <= fields@.len(),
            fv == pairs_view(fields@),
            key_index(fv, key@, 0) == key_index(fv, key@, i as nat),
        decreases fields@.len() - i,
    {
        if fields[i].0 == *key {
            return Some(i);
        }
        i = i + 1;
    }
    None
}

/// Splits what follows `MODULE: ` into the message and the fields.
pub fn split_message_and_fields(rest: &[char], lenient: bool) -> (r: Result<
    (String, Vec<(String, String)>),
    ParseError,
>)
    ensures
        match r {
            Ok((m, fl)) => message_and_fields(rest@, lenient) == Ok::<
                (Seq<char>, Seq<(Seq<char>, Seq<char>)>),
                Seq<char>,
            >((m@, pairs_view(fl@))),
            Err(e) => message_and_fields(rest@, lenient) == Err::<
                (Seq<char>, Seq<(Seq<char>, Seq<char>)>),
                Seq<char>,
            >(e.0@),
        },
{
    let n = rest.len();
    let sep = find_separator_from(rest);
    proof {
        lemma_find_separator(rest@, 0);
    }
    let msg_end = match sep {
        Some(i) => i,
        None => n,
    };
    let message_part = vstd::slice::slice_subrange(rest, 0, msg_end);
    assert(sep is None ==> message_part@ =~= rest@);
    assert(sep is Some ==> message_part@ =~= rest@.take(msg_end as int));
    if message_part.len() == 0 && !lenient {
        return Err(error_of("message must not be empty"));
    }
    if !lenient {
        let mut i: usize = 0;
        while i < message_part.len()
            invariant
                i <= message_part@.len(),
                first_control(message_part@, 0) == first_control(message_part@, i as nat),
                !lenient,
                message_part@ == match find_separator(rest@, 0) {
                    Some(j) => rest@.take(j as int),
                    None => rest@,
                },
            decreases message_part@.len() - i,
        {
            let c = message_part[i];
            if text::char_is_control(c) {
                let mut out: Vec<char> = Vec::new();
                text::push_str(&mut out, "message contains control character ");
                push_control_debug(&mut out, c);
                assert(first_control(message_part@, 0) == Some(i as nat));
                assert(out@ =~= "message contains control character "@ + control_debug(
                    message_part@[i as int],
                ));
                return Err(ParseError(text::string_of(out.as_slice())));
            }
            i = i + 1;
        }
    }
    assert(!lenient ==> first_control(message_part@, 0) is None);
    let mut fields: Vec<(String, String)> = Vec::new();
    match sep {
        None => {
            assert(pairs_view(fields@) =~= seq![]);
        },
        Some(i) => {
            let fields_str = vstd::slice::slice_subrange(rest, i + 3, n);
            assert(fields_str@ =~= rest@.skip(i + 3 as int));
            let tokens = match fields::tokenize_fields(fields_str, lenient) {
                Ok(t) => t,
                Err(e) => {
                    return Err(e);
                },
            };
            let ghost tv = fields::slices_view(tokens@);
            let mut t: usize = 0;
            assert(tv.take(0) =~= seq![]);
            assert(pairs_view(fields@) =~= seq![]);
            while t < tokens.len()
                invariant
                    t <= tokens@.len(),
                    tv == fields::slices_view(tokens@),
                    field_list(tv.take(t as int), lenient) == Ok::<
                        Seq<(Seq<char>, Seq<char>)>,
                        Seq<char>,
                    >(pairs_view(fields@)),
                    message_and_fields(rest@, lenient) == match field_list(tv, lenient) {
                        Ok(fl) => Ok::<(Seq<char>, Seq<(Seq<char>, Seq<char>)>), Seq<char>>(
                            (message_part@, fl),
                        ),
                        Err(e) => Err(e),
                    },
                decreases tokens@.len() - t,
            {
                let ghost acc = pairs_view(fields@);
                assert(tv.take(t + 1).drop_last() =~= tv.take(t as int));
                assert(tv.take(t + 1).last() == tokens@[t as int]@);
                let token = tokens[t];
                match fields::parse_field(token) {
                    Ok((key, value)) => {
                        proof {
                            lemma_key_index(acc, key@, 0);
                        }
                        match find_key(&fields, &key) {
                            Some(j) => {
                                if lenient {
                                    fields.remove(j);
                                    assert(pairs_view(fields@) =~= acc.remove(j as int));
                                } else {
                                    let mut out: Vec<char> = Vec::new();
                                    text::push_str(&mut out, "duplicate field key '");
                                    text::push_str(&mut out, key.as_str());
                                    text::push_str(&mut out, "'");
                                    assert(out@ =~= "duplicate field key '"@ + key@ + "'"@);
                                    proof {
                                        lemma_field_list_err_prefix(tv, (t + 1) as nat, lenient);
                                    }
                                    return Err(ParseError(text::string_of(out.as_slice())));
                                }
                            },
                            None => {},
                        }
                        let ghost before = pairs_view(fields@);
                        fields.push((key, value));
                        assert(pairs_view(fields@) =~= before.push((key@, value@)));
                    },
                    Err(e) => {
                        if !lenient {
                            proof {
                                lemma_field_list_err_prefix(tv, (t + 1) as nat, lenient);
                            }
                            return Err(ParseError(e));
                        }
                    },
                }
                t = t + 1;
            }
            assert(tv.take(tokens@.len() as int) =~= tv);
        },
    }
    Ok((text::string_of(message_part), fields))
}

/// Once the fields of a prefix of the tokens are an error, so are those of
/// all the tokens.
proof fn lemma_field_list_err_prefix(tokens: Seq<Seq<char>>, n: nat, lenient: bool)
    requires
        n <= tokens.len(),
        field_list(tokens.take(n as int), lenient) is Err,
    ensures
        field_list(tokens, lenient) == field_list(tokens.take(n as int), lenient),
    decreases tokens.len() - n,
{
    if n < tokens.len() {
        let next = tokens.take(n + 1 as int);
        assert(next.drop_last() =~= tokens.take(n as int));
        lemma_field_list_err_prefix(tokens, n + 1, lenient);
    } else {
        assert(tokens.take(n as int) =~= tokens);
    }
}


/// The module name that the module token gives: the token without its
/// trailing `:`, which in strict mode must be a dotted name; in lenient
/// mode a token without the colon is taken whole.
pub open spec fn module_of(tok: Seq<char>, lenient: bool) -> Result<Seq<char>, Seq<char>> {
    if tok.len() > 0 && tok.last() == ':' {
        let m = tok.drop_last();
        if !lenient && names::module_error(m) is Some {
            Err(names::module_error(m)->0)
        } else {
            Ok(m)
        }
    } else if lenient {
        Ok(tok)
    } else {
        Err("expected module name followed by ':', found '"@ + tok + "'"@)
    }
}

/// The rest of a line once the timestamp and the level are read.
pub open spec fn after_level(
    timestamp: Option<Timestamp>,
    level: LevelView,
    s: Seq<char>,
    lenient: bool,
) -> Result<EntryView, Seq<char>> {
    match token_split(s, lenient) {
        Err(e) => Err(e),
        Ok((tok, rest)) => match module_of(tok, lenient) {
            Err(e) => Err(e),
            Ok(module) => match message_and_fields(rest, lenient) {
                Err(e) => Err(e),
                Ok((message, fields)) => Ok(
                    EntryView { timestamp, level, module, message, fields },
                ),
            },
        },
    }
}

/// The rest of a line once the timestamp is read.
pub open spec fn after_timestamp(timestamp: Option<Timestamp>, s: Seq<char>, lenient: bool) -> Result<
    EntryView,
    Seq<char>,
> {
    match token_split(s, lenient) {
        Err(e) => Err(e),
        Ok((tok, rest)) => match level_named(tok) {
            Some(l) => after_level(timestamp, LevelView::Known(l), rest, lenient),
            None => if lenient {
                after_level(timestamp, LevelView::Unknown(tok), rest, lenient)
            } else {
                Err(
                    "unknown level '"@ + tok
                        + "', expected one of TRACE, DEBUG, INFO, WARN, ERROR"@,
                )
            },
        },
    }
}

/// What a line parses to. In lenient mode a timestamp that does not parse
/// is dropped, an unknown level is kept as text, a module token without its
/// colon is taken whole, fields that do not parse are skipped and a repeated
/// key keeps its last value.
pub open spec fn line_parse(line: Seq<char>, lenient: bool) -> Result<EntryView, Seq<char>> {
    match token_split(line, lenient) {
        Err(e) => Err(e),
        Ok((ts, rest)) => match timestamp::timestamp_parse(ts) {
            Ok(t) => after_timestamp(Some(t), rest, lenient),
            Err(e) => if lenient {
                after_timestamp(None, rest, lenient)
            } else {
                Err("invalid timestamp '"@ + ts + "': "@ + e)
            },
        },
    }
}

fn parse_module(tok: &[char], lenient: bool) -> (r: Result<String, ParseError>)
    ensures
        match r {
            Ok(m) => module_of(tok@, lenient) == Ok::<Seq<char>, Seq<char>>(m@),
            Err(e) => module_of(tok@, lenient) == Err::<Seq<char>, Seq<char>>(e.0@),
        },
{
    let n = tok.len();
    if n > 0 && tok[n - 1] == ':' {
        let stripped = vstd::slice::slice_subrange(tok, 0, n - 1);
        assert(stripped@ =~= tok@.drop_last());
        if !lenient {
            match names::validate_module(stripped) {
                Err(e) => {
                    return Err(e);
                },
                Ok(()) => {},
            }
        }
        Ok(text::string_of(stripped))
    } else if lenient {
        Ok(text::string_of(tok))
    } else {
        let mut out: Vec<char> = Vec::new();
        text::push_str(&mut out, "expected module name followed by ':', found '");
        text::push_all(&mut out, tok);
        text::push_str(&mut out, "'");
        assert(out@ =~= "expected module name followed by ':', found '"@ + tok@ + "'"@);
        Err(ParseError(text::string_of(out.as_slice())))
    }
}

pub(crate) fn parse_line_chars(line: &[char], lenient: bool) -> (r: Result<LogEntry, ParseError>)
    ensures
        match r {
            Ok(e) => line_parse(line@, lenient) == Ok::<EntryView, Seq<char>>(e@),
            Err(e) => line_parse(line@, lenient) == Err::<EntryView, Seq<char>>(e.0@),
        },
{
    let (ts_str, rest) = split_token(line, lenient)?;
    let timestamp = match timestamp::parse_timestamp(ts_str) {
        Ok(t) => Some(t),
        Err(e) => {
            if lenient {
                None
            } else {
                let mut out: Vec<char> = Vec::new();
                text::push_str(&mut out, "invalid timestamp '");
                text::push_all(&mut out, ts_str);
                text::push_str(&mut out, "': ");
                text::push_str(&mut out, e.as_str());
                assert(out@ =~= "invalid timestamp '"@ + ts_str@ + "': "@ + e@);
                return Err(ParseError(text::string_of(out.as_slice())));
            }
        },
    };
    let (level_str, rest) = split_token(rest, lenient)?;
    let level = match Level::from_str(level_str) {
        Some(l) => LevelValue::Known(l),
        None => {
            if lenient {
                LevelValue::Unknown(text::string_of(level_str))
            } else {
                let mut out: Vec<char> = Vec::new();
                text::push_str(&mut out, "unknown level '");
                text::push_all(&mut out, level_str);
                text::push_str(&mut out, "', expected one of TRACE, DEBUG, INFO, WARN, ERROR");
                assert(out@ =~= "unknown level '"@ + level_str@
                    + "', expected one of TRACE, DEBUG, INFO, WARN, ERROR"@);
                return Err(ParseError(text::string_of(out.as_slice())));
            }
        },
    };
    let (module_token, rest) = split_token(rest, lenient)?;
    let module = parse_module(module_token, lenient)?;
    let (message, fields) = split_message_and_fields(rest, lenient)?;
    Ok(LogEntry { timestamp, level, module, message, fields })
}

/// Parses one log line.
pub fn parse_line(line: &str, lenient: bool) -> (r: Result<LogEntry, ParseError>)
    ensures
        match r {
            Ok(e) => line_parse(line@, lenient) == Ok::<EntryView, Seq<char>>(e@),
            Err(e) => line_parse(line@, lenient) == Err::<EntryView, Seq<char>>(e.0@),
        },
{
    let chars = text::chars_of(line);
    parse_line_chars(chars.as_slice(), lenient)
}

} // verus!
