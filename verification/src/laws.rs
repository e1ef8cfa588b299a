//! Properties of the parser that span its functions and its two modes.

use vstd::prelude::*;
use crate::text;
use crate::timestamp;
use crate::names;
use crate::fields;
use crate::parser::{self, Level, LevelView, EntryView};
use crate::pretty;
use crate::lint;

verus! {

/// A level's name reads back as that level.
pub proof fn law_level_name_reads_back(l: Level)
    ensures
        parser::level_named(parser::level_name(l)) == Some(l),
{
    assert(parser::level_name(Level::Trace) != parser::level_name(Level::Debug));
    assert(parser::level_name(Level::Trace) != parser::level_name(Level::Info));
    assert(parser::level_name(Level::Trace) != parser::level_name(Level::Warn));
    assert(parser::level_name(Level::Trace) != parser::level_name(Level::Error));
    assert(parser::level_name(Level::Debug) != parser::level_name(Level::Info));
    assert(parser::level_name(Level::Debug) != parser::level_name(Level::Warn));
    assert(parser::level_name(Level::Debug) != parser::level_name(Level::Error));
    assert(parser::level_name(Level::Info) != parser::level_name(Level::Warn));
    assert(parser::level_name(Level::Info) != parser::level_name(Level::Error));
    assert(parser::level_name(Level::Warn) != parser::level_name(Level::Error));
}

proof fn lemma_token_split_strict_lenient(s: Seq<char>)
    requires
        parser::token_split(s, false) is Ok,
    ensures
        parser::token_split(s, true) == parser::token_split(s, false),
{
    assert(text::skip_spaces(s, 0) == 0);
    assert(s.skip(0) =~= s);
}

proof fn lemma_tokens_strict_lenient(s: Seq<char>, i: nat)
    requires
        fields::tokens_from(s, i, false) is Ok,
    ensures
        fields::tokens_from(s, i, true) == fields::tokens_from(s, i, false),
    decreases s.len() - i,
{
    if i <= s.len() {
        let j = text::skip_spaces(s, i);
        text::lemma_skip_spaces(s, i);
        if j < s.len() {
            fields::lemma_token_end(s, j, false);
            let end = fields::token_end(s, j, false).0;
            lemma_tokens_strict_lenient(s, end);
        }
    }
}

proof fn lemma_field_list_strict_lenient(tokens: Seq<Seq<char>>)
    requires
        parser::field_list(tokens, false) is Ok,
    ensures
        parser::field_list(tokens, true) == parser::field_list(tokens, false),
    decreases tokens.len(),
{
    if tokens.len() > 0 {
        lemma_field_list_strict_lenient(tokens.drop_last());
    }
}

proof fn lemma_message_strict_lenient(rest: Seq<char>)
    requires
        parser::message_and_fields(rest, false) is Ok,
    ensures
        parser::message_and_fields(rest, true) == parser::message_and_fields(rest, false),
{
    match parser::find_separator(rest, 0) {
        None => {},
        Some(i) => {
            let f = rest.skip(i + 3 as int);
            lemma_tokens_strict_lenient(f, 0);
            match fields::field_tokens(f, false) {
                Ok(toks) => {
                    lemma_field_list_strict_lenient(toks);
                },
                Err(_) => {},
            }
        },
    }
}

/// Lenient mode accepts every line that strict mode accepts, and reads it
/// the same way.
pub proof fn law_strict_acceptance_carries_to_lenient(line: Seq<char>)
    requires
        parser::line_parse(line, false) is Ok,
    ensures
        parser::line_parse(line, true) == parser::line_parse(line, false),
{
    lemma_token_split_strict_lenient(line);
    let (ts, r1) = parser::token_split(line, false)->Ok_0;
    lemma_token_split_strict_lenient(r1);
    let (lv, r2) = parser::token_split(r1, false)->Ok_0;
    lemma_token_split_strict_lenient(r2);
    let (mt, r3) = parser::token_split(r2, false)->Ok_0;
    lemma_message_strict_lenient(r3);
}


proof fn lemma_lenient_tokens_ok(s: Seq<char>, i: nat)
    ensures
        fields::tokens_from(s, i, true) is Ok,
    decreases s.len() - i,
{
    if i <= s.len() {
        let j = text::skip_spaces(s, i);
        text::lemma_skip_spaces(s, i);
        if j < s.len() {
            fields::lemma_token_end(s, j, false);
            let end = fields::token_end(s, j, false).0;
            lemma_lenient_tokens_ok(s, end);
        }
    }
}

proof fn lemma_lenient_field_list_ok(tokens: Seq<Seq<char>>)
    ensures
        parser::field_list(tokens, true) is Ok,
    decreases tokens.len(),
{
    if tokens.len() > 0 {
        lemma_lenient_field_list_ok(tokens.drop_last());
    }
}

/// Why the first three tokens (timestamp, level, module) cannot be split
/// off a line in lenient mode; `None` when they can.
pub open spec fn lenient_skeleton_error(line: Seq<char>) -> Option<Seq<char>> {
    match parser::token_split(line, true) {
        Err(e) => Some(e),
        Ok((_, r1)) => match parser::token_split(r1, true) {
            Err(e) => Some(e),
            Ok((_, r2)) => match parser::token_split(r2, true) {
                Err(e) => Some(e),
                Ok(_) => None,
            },
        },
    }
}

/// Lenient mode recovers from everything but a line too short to hold a
/// timestamp, a level and a module, each followed by a space: a bad
/// timestamp, an unknown level, a missing module colon, an empty message,
/// a control character, a malformed or duplicate field never make it fail.
pub proof fn law_lenient_fails_only_on_skeleton(line: Seq<char>)
    ensures
        parser::line_parse(line, true) is Err <==> lenient_skeleton_error(line) is Some,
        lenient_skeleton_error(line) matches Some(e) ==> parser::line_parse(line, true) == Err::<
            EntryView,
            Seq<char>,
        >(e),
{
    match parser::token_split(line, true) {
        Err(_) => {},
        Ok((ts, r1)) => match parser::token_split(r1, true) {
            Err(_) => {},
            Ok((lv, r2)) => match parser::token_split(r2, true) {
                Err(_) => {},
                Ok((mt, r3)) => {
                    match parser::find_separator(r3, 0) {
                        None => {},
                        Some(i) => {
                            let f = r3.skip(i + 3 as int);
                            lemma_lenient_tokens_ok(f, 0);
                            lemma_lenient_field_list_ok(fields::field_tokens(f, true)->Ok_0);
                        },
                    }
                    assert(parser::message_and_fields(r3, true) is Ok);
                },
            },
        },
    }
}


/// No two fields share a key.
pub open spec fn keys_distinct(fl: Seq<(Seq<char>, Seq<char>)>) -> bool {
    forall|i: int, j: int| 0 <= i < j < fl.len() ==> #[trigger] fl[i].0 != #[trigger] fl[j].0
}

proof fn lemma_add_field_distinct(
    acc: Seq<(Seq<char>, Seq<char>)>,
    tok: Seq<char>,
    lenient: bool,
)
    requires
        keys_distinct(acc),
        parser::add_field(acc, tok, lenient) is Ok,
    ensures
        keys_distinct(parser::add_field(acc, tok, lenient)->Ok_0),
{
    match fields::field_parse(tok) {
        Ok((k, v)) => {
            parser::lemma_key_index(acc, k, 0);
            match parser::key_index(acc, k, 0) {
                Some(j) => {
                    let rem = acc.remove(j as int);
                    assert forall|a: int| 0 <= a < rem.len() implies #[trigger] rem[a].0 != k by {
                        if a < j {
                            assert(acc[a].0 != acc[j as int].0);
                        } else {
                            assert(rem[a] == acc[a + 1]);
                            assert(acc[j as int].0 != acc[a + 1].0);
                        }
                    }
                    let out = rem.push((k, v));
                    assert forall|a: int, b: int| 0 <= a < b < out.len() implies #[trigger] out[a].0
                        != #[trigger] out[b].0 by {
                        if b < rem.len() {
                            let a2 = if a < j { a } else { a + 1 };
                            let b2 = if b < j { b } else { b + 1 };
                            assert(rem[a] == acc[a2]);
                            assert(rem[b] == acc[b2]);
                        }
                    }
                },
                None => {
                    let out = acc.push((k, v));
                    assert forall|a: int, b: int| 0 <= a < b < out.len() implies #[trigger] out[a].0
                        != #[trigger] out[b].0 by {
                        if b < acc.len() {
                            assert(acc[a].0 != acc[b].0);
                        }
                    }
                },
            }
        },
        Err(_) => {},
    }
}

proof fn lemma_field_list_distinct(tokens: Seq<Seq<char>>, lenient: bool)
    requires
        parser::field_list(tokens, lenient) is Ok,
    ensures
        keys_distinct(parser::field_list(tokens, lenient)->Ok_0),
    decreases tokens.len(),
{
    if tokens.len() > 0 {
        lemma_field_list_distinct(tokens.drop_last(), lenient);
        let acc = parser::field_list(tokens.drop_last(), lenient)->Ok_0;
        lemma_add_field_distinct(acc, tokens.last(), lenient);
    }
}

/// In both modes, the fields of a parsed line have distinct keys.
pub proof fn law_field_keys_distinct(line: Seq<char>, lenient: bool)
    requires
        parser::line_parse(line, lenient) is Ok,
    ensures
        keys_distinct(parser::line_parse(line, lenient)->Ok_0.fields),
{
    let (ts, r1) = parser::token_split(line, lenient)->Ok_0;
    let (lv, r2) = parser::token_split(r1, lenient)->Ok_0;
    let (mt, r3) = parser::token_split(r2, lenient)->Ok_0;
    match parser::find_separator(r3, 0) {
        None => {},
        Some(i) => {
            let f = r3.skip(i + 3 as int);
            lemma_field_list_distinct(fields::field_tokens(f, lenient)->Ok_0, lenient);
        },
    }
}


proof fn lemma_escaped_append(a: Seq<char>, b: Seq<char>)
    ensures
        pretty::escaped(a + b) == pretty::escaped(a) + pretty::escaped(b),
    decreases b.len(),
{
    if b.len() == 0 {
        assert(a + b =~= a);
        assert(pretty::escaped(a) + pretty::escaped(b) =~= pretty::escaped(a));
    } else {
        lemma_escaped_append(a, b.drop_last());
        assert((a + b).drop_last() =~= a + b.drop_last());
        assert((a + b).last() == b.last());
        assert(pretty::escaped(a + b) =~= pretty::escaped(a) + pretty::escaped(b));
    }
}

/// The escape of one character.
spec fn escape_char(c: char) -> Seq<char> {
    if c == '\\' {
        seq!['\\', '\\']
    } else if c == '"' {
        seq!['\\', '"']
    } else {
        seq![c]
    }
}

proof fn lemma_escaped_front(v: Seq<char>)
    requires
        v.len() > 0,
    ensures
        pretty::escaped(v) == escape_char(v[0]) + pretty::escaped(v.skip(1)),
{
    assert(v =~= seq![v[0]] + v.skip(1));
    lemma_escaped_append(seq![v[0]], v.skip(1));
    let one = seq![v[0]];
    assert(one.drop_last() =~= Seq::<char>::empty());
    assert(pretty::escaped(one.drop_last()) =~= Seq::<char>::empty());
    assert(one.last() == v[0]);
    assert(pretty::escaped(one) =~= escape_char(v[0]));
}

/// Escaping a value and reading the escapes back gives the value.
pub proof fn law_unescape_undoes_escape(v: Seq<char>)
    ensures
        fields::unescaped(pretty::escaped(v)) == v,
    decreases v.len(),
{
    if v.len() == 0 {
        assert(v =~= seq![]);
    } else {
        lemma_escaped_front(v);
        law_unescape_undoes_escape(v.skip(1));
        let e = pretty::escaped(v);
        let rest = pretty::escaped(v.skip(1));
        let c = v[0];
        if c == '\\' || c == '"' {
            assert(e.skip(2) =~= rest);
        } else {
            assert(e.skip(1) =~= rest);
        }
        assert(v =~= seq![c] + v.skip(1));
    }
}

/// An escaped value holds no double quote outside a `\"` pair.
proof fn lemma_escaped_no_bare_quote(v: Seq<char>)
    ensures
        !fields::has_bare_quote(pretty::escaped(v)),
    decreases v.len(),
{
    if v.len() == 0 {
        assert(pretty::escaped(v) =~= Seq::<char>::empty());
    } else {
        lemma_escaped_front(v);
        lemma_escaped_no_bare_quote(v.skip(1));
        let e = pretty::escaped(v);
        let rest = pretty::escaped(v.skip(1));
        let c = v[0];
        if c == '\\' || c == '"' {
            assert(e.skip(2) =~= rest);
        } else {
            assert(e.skip(1) =~= rest);
        }
    }
}

/// Scanning the escaped text of a value inside quotes runs through it
/// without ending the token or closing the quote.
proof fn lemma_scan_escaped(s: Seq<char>, p: nat, v: Seq<char>)
    requires
        p + pretty::escaped(v).len() < s.len(),
        s.subrange(p as int, p + pretty::escaped(v).len() as int) == pretty::escaped(v),
    ensures
        fields::token_end(s, p, true) == fields::token_end(s, p + pretty::escaped(v).len(), true),
    decreases v.len(),
{
    if v.len() > 0 {
        lemma_escaped_front(v);
        let e = pretty::escaped(v);
        let c = v[0];
        let w = escape_char(c).len();
        let rest = pretty::escaped(v.skip(1));
        assert(e.len() == w + rest.len());
        assert(s.subrange(p + w as int, p + w + rest.len() as int) =~= rest) by {
            assert forall|k: int| 0 <= k < rest.len() implies s.subrange(p + w as int, p + w + rest.len() as int)[k]
                == rest[k] by {
                assert(s[p + w + k] == e[w + k]);
            }
        }
        assert(s[p as int] == e[0]);
        if c == '\\' || c == '"' {
            assert(s[p + 1 as int] == e[1]);
        }
        lemma_scan_escaped(s, p + w, v.skip(1));
    }
}

/// Scanning characters that are neither a space nor a double quote, outside
/// quotes, runs through them.
proof fn lemma_scan_plain(s: Seq<char>, p: nat, q: nat)
    requires
        p <= q <= s.len(),
        forall|k: int| p <= k < q ==> #[trigger] s[k] != ' ' && s[k] != '"',
    ensures
        fields::token_end(s, p, false) == fields::token_end(s, q, false),
    decreases q - p,
{
    if p < q {
        lemma_scan_plain(s, p + 1, q);
    }
}

proof fn lemma_find_char_at(s: Seq<char>, c: char, i: nat, j: nat)
    requires
        i <= j < s.len(),
        s[j as int] == c,
        forall|k: int| i <= k < j ==> #[trigger] s[k] != c,
    ensures
        text::find_char(s, c, i) == Some(j),
    decreases j - i,
{
    if i < j {
        lemma_find_char_at(s, c, i + 1, j);
    }
}

proof fn lemma_key_chars(key: Seq<char>)
    requires
        names::is_identifier(key),
    ensures
        forall|k: int| 0 <= k < key.len() ==> #[trigger] key[k] != ' ' && key[k] != '"' && key[k]
            != '=' && key[k] != '\\',
{
    assert forall|k: int| 0 <= k < key.len() implies #[trigger] key[k] != ' ' && key[k] != '"'
        && key[k] != '=' && key[k] != '\\' by {
        if k > 0 {
            assert(text::is_ident_char(key[k]));
        }
    }
}

/// Scanning the text of a field, wherever it stands, runs through all of
/// it and ends outside quotes.
proof fn lemma_field_scan(s: Seq<char>, p: nat, key: Seq<char>, value: Seq<char>)
    requires
        names::is_identifier(key),
        p + pretty::field_text(key, value).len() <= s.len(),
        s.subrange(p as int, p + pretty::field_text(key, value).len() as int) == pretty::field_text(
            key,
            value,
        ),
    ensures
        fields::token_end(s, p, false) == fields::token_end(
            s,
            p + pretty::field_text(key, value).len(),
            false,
        ),
{
    let t = pretty::field_text(key, value);
    let n: int = key.len() as int;
    lemma_key_chars(key);
    assert forall|k: int| 0 <= k < n implies #[trigger] s[p + k] == key[k] by {
        assert(s.subrange(p as int, p + t.len() as int)[k] == t[k]);
    }
    assert(s[p + n] == '=') by {
        assert(s.subrange(p as int, p + t.len() as int)[n] == t[n]);
    }
    if pretty::needs_quotes(value) {
        let e = pretty::escaped(value);
        assert(t.len() == n + 3 + e.len());
        assert forall|k: int| p <= k < p + n + 1 implies #[trigger] s[k] != ' ' && s[k] != '"' by {
            if k < p + n {
                assert(s[p + (k - p)] == key[k - p]);
            }
        }
        lemma_scan_plain(s, p, (p + n + 1) as nat);
        assert(s[p + n + 1] == '"') by {
            assert(s.subrange(p as int, p + t.len() as int)[n + 1] == t[n + 1]);
        }
        assert(s.subrange(p + n + 2, p + n + 2 + e.len()) =~= e) by {
            assert forall|k: int| 0 <= k < e.len() implies s.subrange(
                p + n + 2,
                p + n + 2 + e.len(),
            )[k] == e[k] by {
                assert(s.subrange(p as int, p + t.len() as int)[n + 2 + k] == t[n + 2 + k]);
            }
        }
        lemma_scan_escaped(s, (p + n + 2) as nat, value);
        assert(s[p + n + 2 + e.len()] == '"') by {
            assert(s.subrange(p as int, p + t.len() as int)[n + 2 + e.len()] == t[n + 2
                + e.len()]);
        }
    } else {
        assert forall|k: int| 0 <= k < value.len() implies #[trigger] value[k] != ' '
            && value[k] != '"' by {
            if value[k] == ' ' {
                assert(text::is_whitespace(value[k]));
            }
        }
        assert forall|k: int| p <= k < p + t.len() implies #[trigger] s[k] != ' ' && s[k] != '"' by {
            assert(s[k] == s.subrange(p as int, p + t.len() as int)[k - p]);
            if k - p > n {
                assert(t[k - p] == value[k - p - n - 1]);
            } else if k - p < n {
                assert(t[k - p] == key[k - p]);
            }
        }
        lemma_scan_plain(s, p, p + t.len());
    }
}

/// The value part of a field's text parses back to the value.
proof fn lemma_field_parse(key: Seq<char>, value: Seq<char>)
    requires
        names::is_identifier(key),
    ensures
        fields::field_parse(pretty::field_text(key, value)) == Ok::<
            (Seq<char>, Seq<char>),
            Seq<char>,
        >((key, value)),
{
    let t = pretty::field_text(key, value);
    let n: int = key.len() as int;
    names::law_identifier_check(key);
    lemma_key_chars(key);
    assert(t[n] == '=');
    lemma_find_char_at(t, '=', 0, n as nat);
    assert(t.take(n) =~= key);
    if pretty::needs_quotes(value) {
        let e = pretty::escaped(value);
        let raw = t.skip(n + 1);
        assert(raw =~= seq!['"'] + e + seq!['"']);
        assert(raw.subrange(1, raw.len() - 1) =~= e);
        law_unescape_undoes_escape(value);
        lemma_escaped_no_bare_quote(value);
    } else {
        assert(t.skip(n + 1) =~= value);
        assert(!value.contains('"'));
        assert(!fields::has_whitespace(value));
    }
}

/// Where the text at `i` is a space, reading tokens from `i` or from the
/// next position gives the same.
proof fn lemma_tokens_from_space(s: Seq<char>, i: nat, lenient: bool)
    requires
        i < s.len(),
        s[i as int] == ' ',
    ensures
        fields::tokens_from(s, i, lenient) == fields::tokens_from(s, i + 1, lenient),
{
}

/// The text of a field with an identifier key is a single field token, and
/// that token parses back to the same key and value.
pub proof fn law_field_text_reads_back(key: Seq<char>, value: Seq<char>, lenient: bool)
    requires
        names::is_identifier(key),
    ensures
        fields::field_tokens(pretty::field_text(key, value), lenient) == Ok::<
            Seq<Seq<char>>,
            Seq<char>,
        >(seq![pretty::field_text(key, value)]),
        fields::field_parse(pretty::field_text(key, value)) == Ok::<
            (Seq<char>, Seq<char>),
            Seq<char>,
        >((key, value)),
{
    let t = pretty::field_text(key, value);
    assert(t.subrange(0, t.len() as int) =~= t);
    lemma_field_scan(t, 0, key, value);
    lemma_field_parse(key, value);
    text::lemma_skip_spaces(t, 0);
    assert(t[0] == key[0]);
    text::lemma_skip_spaces(t, t.len());
    assert(fields::tokens_from(t, t.len(), lenient) == Ok::<Seq<Seq<char>>, Seq<char>>(seq![]));
    assert(seq![t] + seq![] =~= seq![t]);
}


/// The texts of the fields, one per field.
pub open spec fn field_texts(fl: Seq<(Seq<char>, Seq<char>)>) -> Seq<Seq<char>> {
    fl.map_values(|f: (Seq<char>, Seq<char>)| pretty::field_text(f.0, f.1))
}

/// Every key is an identifier.
pub open spec fn keys_are_identifiers(fl: Seq<(Seq<char>, Seq<char>)>) -> bool {
    forall|i: int| 0 <= i < fl.len() ==> names::is_identifier(#[trigger] fl[i].0)
}

proof fn lemma_fields_text_front(fl: Seq<(Seq<char>, Seq<char>)>)
    requires
        fl.len() > 1,
    ensures
        pretty::fields_text(fl) == pretty::field_text(fl[0].0, fl[0].1) + seq![' ']
            + pretty::fields_text(fl.skip(1)),
    decreases fl.len(),
{
    let rest = fl.skip(1);
    let dl = fl.drop_last();
    let f0 = pretty::field_text(fl[0].0, fl[0].1);
    let fl_last = pretty::field_text(fl.last().0, fl.last().1);
    assert(pretty::fields_text(fl) == pretty::fields_text(dl) + seq![' '] + fl_last);
    assert(rest.last() == fl.last());
    assert(dl[0] == fl[0]);
    if fl.len() == 2 {
        assert(pretty::fields_text(dl) == f0);
        assert(rest[0] == fl.last());
        assert(pretty::fields_text(rest) == fl_last);
    } else {
        lemma_fields_text_front(dl);
        assert(dl.skip(1) =~= rest.drop_last());
        assert(pretty::fields_text(rest) == pretty::fields_text(rest.drop_last()) + seq![' ']
            + fl_last);
        assert(pretty::fields_text(fl) =~= f0 + seq![' '] + pretty::fields_text(rest));
    }
}

proof fn lemma_fields_tokens(s: Seq<char>, p: nat, fl: Seq<(Seq<char>, Seq<char>)>, lenient: bool)
    requires
        keys_are_identifiers(fl),
        fl.len() > 0,
        p <= s.len(),
        s.skip(p as int) == pretty::fields_text(fl),
    ensures
        fields::tokens_from(s, p, lenient) == Ok::<Seq<Seq<char>>, Seq<char>>(field_texts(fl)),
    decreases fl.len(),
{
    let f0 = pretty::field_text(fl[0].0, fl[0].1);
    let k0 = fl[0].0;
    assert(names::is_identifier(k0));
    let e = p + f0.len();
    if fl.len() > 1 {
        lemma_fields_text_front(fl);
    } else {
        assert(pretty::fields_text(fl) == f0);
    }
    assert(pretty::fields_text(fl).len() >= f0.len());
    assert(s.skip(p as int).subrange(0, f0.len() as int) =~= f0);
    assert(e <= s.len());
    assert(s.subrange(p as int, e as int) =~= f0);
    lemma_field_scan(s, p, k0, fl[0].1);
    text::lemma_skip_spaces(s, p);
    assert(s[p as int] == s.skip(p as int)[0]);
    assert(f0[0] == k0[0]);
    assert(text::skip_spaces(s, p) == p);
    if fl.len() == 1 {
        assert(e == s.len());
        text::lemma_skip_spaces(s, e);
        assert(fields::tokens_from(s, e, lenient) == Ok::<Seq<Seq<char>>, Seq<char>>(seq![]));
        assert(field_texts(fl) =~= seq![f0]);
    } else {
        assert(s[e as int] == s.skip(p as int)[f0.len() as int]);
        assert(s[e as int] == ' ');
        assert(fields::token_end(s, e, false) == (e, false));
        lemma_tokens_from_space(s, e, lenient);
        assert(s.skip(e + 1 as int) =~= pretty::fields_text(fl.skip(1))) by {
            let ft = pretty::fields_text(fl.skip(1));
            assert forall|k: int| 0 <= k < ft.len() implies s.skip(e + 1 as int)[k] == ft[k] by {
                assert(s.skip(p as int)[f0.len() + 1 + k] == ft[k]);
            }
        }
        lemma_fields_tokens(s, e + 1, fl.skip(1), lenient);
        assert(field_texts(fl) =~= seq![f0] + field_texts(fl.skip(1)));
    }
}

proof fn lemma_field_list_of_texts(fl: Seq<(Seq<char>, Seq<char>)>, lenient: bool)
    requires
        keys_are_identifiers(fl),
        keys_distinct(fl),
    ensures
        parser::field_list(field_texts(fl), lenient) == Ok::<
            Seq<(Seq<char>, Seq<char>)>,
            Seq<char>,
        >(fl),
    decreases fl.len(),
{
    if fl.len() == 0 {
        assert(field_texts(fl) =~= seq![]);
        assert(fl =~= seq![]);
    } else {
        let init = fl.drop_last();
        assert(field_texts(fl).drop_last() =~= field_texts(init));
        lemma_field_list_of_texts(init, lenient);
        let (k, v) = fl.last();
        assert(names::is_identifier(fl[fl.len() - 1].0));
        lemma_field_parse(k, v);
        parser::lemma_key_index(init, k, 0);
        if parser::key_index(init, k, 0) is Some {
            let j = parser::key_index(init, k, 0)->0;
            assert(fl[j as int].0 != fl[fl.len() - 1].0);
        }
        assert(init.push((k, v)) =~= fl);
    }
}

/// The written field list of identifier keys splits back into one token
/// per field, the text of that field, in order.
pub proof fn law_fields_text_tokenizes(fl: Seq<(Seq<char>, Seq<char>)>, lenient: bool)
    requires
        keys_are_identifiers(fl),
    ensures
        fields::field_tokens(pretty::fields_text(fl), lenient) == Ok::<
            Seq<Seq<char>>,
            Seq<char>,
        >(field_texts(fl)),
{
    let t = pretty::fields_text(fl);
    if fl.len() == 0 {
        assert(t =~= Seq::<char>::empty());
        text::lemma_skip_spaces(t, 0);
        assert(field_texts(fl) =~= Seq::<Seq<char>>::empty());
    } else {
        assert(t.skip(0) =~= t);
        lemma_fields_tokens(t, 0, fl, lenient);
    }
}

/// The written field list of distinct identifier keys splits back into
/// one token per field, and those tokens give back the same fields.
pub proof fn law_fields_text_reads_back(fl: Seq<(Seq<char>, Seq<char>)>, lenient: bool)
    requires
        keys_are_identifiers(fl),
        keys_distinct(fl),
    ensures
        fields::field_tokens(pretty::fields_text(fl), lenient) == Ok::<
            Seq<Seq<char>>,
            Seq<char>,
        >(field_texts(fl)),
        parser::field_list(field_texts(fl), lenient) == Ok::<
            Seq<(Seq<char>, Seq<char>)>,
            Seq<char>,
        >(fl),
{
    law_fields_text_tokenizes(fl, lenient);
    lemma_field_list_of_texts(fl, lenient);
}


proof fn lemma_skip_leading_spaces(s: Seq<char>, n: nat, i: nat)
    requires
        i <= n <= s.len(),
        forall|k: int| 0 <= k < n ==> #[trigger] s[k] == ' ',
        n == s.len() || s[n as int] != ' ',
    ensures
        text::skip_spaces(s, i) == n,
    decreases n - i,
{
    if i < n {
        lemma_skip_leading_spaces(s, n, i + 1);
    }
}

/// In lenient mode, splitting `k` spaces, a space-free token `a`, a space
/// and `b` gives `a` and `b`.
proof fn lemma_split_lenient(k: nat, a: Seq<char>, b: Seq<char>)
    requires
        a.len() > 0,
        forall|j: int| 0 <= j < a.len() ==> #[trigger] a[j] != ' ',
    ensures
        parser::token_split(text::repeat(' ', k) + a + seq![' '] + b, true) == Ok::<
            (Seq<char>, Seq<char>),
            Seq<char>,
        >((a, b)),
{
    let s = text::repeat(' ', k) + a + seq![' '] + b;
    assert(s[k as int] == a[0]);
    lemma_skip_leading_spaces(s, k, 0);
    let t = s.skip(k as int);
    assert(t =~= a + seq![' '] + b);
    assert(t[a.len() as int] == ' ');
    lemma_find_char_at(t, ' ', 0, a.len());
    assert(t.take(a.len() as int) =~= a);
    assert(t.skip(a.len() + 1 as int) =~= b);
}

proof fn lemma_find_separator_prefix(y: Seq<char>, n: nat, i: nat)
    requires
        n <= y.len(),
    ensures
        parser::find_separator(y.take(n as int), i) matches Some(j) ==> parser::find_separator(y, i)
            == Some(j),
        parser::find_separator(y, i) matches Some(j) ==> (j + 3 <= n ==> parser::find_separator(
            y.take(n as int),
            i,
        ) == Some(j)) && (j + 3 > n ==> parser::find_separator(y.take(n as int), i) is None),
    decreases y.len() - i,
{
    let x = y.take(n as int);
    if i + 3 <= y.len() {
        if i + 3 <= n {
            assert(x[i as int] == y[i as int] && x[i + 1 as int] == y[i + 1 as int] && x[i + 2 as int]
                == y[i + 2 as int]);
        }
        lemma_find_separator_prefix(y, n, i + 1);
    }
}

/// The line a `LevelView` is written as is non-empty and free of spaces
/// when it is a known level.
proof fn lemma_level_name_shape(l: Level)
    ensures
        parser::level_name(l).len() > 0,
        forall|j: int| 0 <= j < parser::level_name(l).len() ==> #[trigger] parser::level_name(l)[j]
            != ' ',
{
}

/// An entry whose written line (with the module column at its own width)
/// parses back to it in lenient mode: its timestamp is in range, its level
/// text is a single token naming the level it stands for, its module name
/// holds no space, the first ` | ` after its message is the separator, and
/// its field keys are distinct identifiers.
pub open spec fn rereadable(e: EntryView) -> bool {
    &&& match e.timestamp {
        Some(t) => timestamp::valid_timestamp(t) && t.year <= 9999 && t.millis <= 999,
        None => true,
    }
    &&& match e.level {
        LevelView::Known(_) => true,
        LevelView::Unknown(u) => u.len() > 0 && !u.contains(' ') && parser::level_named(u) is None,
    }
    &&& !e.module.contains(' ')
    &&& parser::find_separator(e.message + seq![' ', '|', ' '], 0) == Some(e.message.len())
    &&& keys_are_identifiers(e.fields)
    &&& keys_distinct(e.fields)
}

/// A message followed by the written fields splits back into the same
/// message and fields, in either mode, when the first ` | ` after the
/// message is the separator, the keys are distinct identifiers, and (for
/// strict mode) the message is non-empty and free of control characters.
pub proof fn law_message_and_fields_read_back(
    msg: Seq<char>,
    fl: Seq<(Seq<char>, Seq<char>)>,
    lenient: bool,
)
    requires
        parser::find_separator(msg + seq![' ', '|', ' '], 0) == Some(msg.len()),
        keys_are_identifiers(fl),
        keys_distinct(fl),
        !lenient ==> msg.len() > 0 && parser::first_control(msg, 0) is None,
    ensures
        parser::message_and_fields(msg + pretty::fields_suffix(fl), lenient) == Ok::<
            (Seq<char>, Seq<(Seq<char>, Seq<char>)>),
            Seq<char>,
        >((msg, fl)),
{
    let ms = msg + seq![' ', '|', ' '];
    let rest = msg + pretty::fields_suffix(fl);
    if fl.len() == 0 {
        assert(rest =~= msg);
        assert(ms.take(msg.len() as int) =~= msg);
        lemma_find_separator_prefix(ms, msg.len(), 0);
        assert(fl =~= seq![]);
    } else {
        let ft = pretty::fields_text(fl);
        assert(rest =~= ms + ft);
        assert(rest.take(ms.len() as int) =~= ms);
        lemma_find_separator_prefix(rest, ms.len(), 0);
        assert(rest.skip(msg.len() + 3 as int) =~= ft);
        assert(rest.take(msg.len() as int) =~= msg);
        law_fields_text_reads_back(fl, lenient);
    }
}

/// In lenient mode, the line written for an entry (with the module column
/// at the entry's own module width, and without its newline) parses back
/// to the entry.
pub proof fn law_entry_line_reads_back(e: EntryView)
    requires
        rereadable(e),
    ensures
        parser::line_parse(pretty::entry_text(e, e.module.len()).drop_last(), true) == Ok::<
            EntryView,
            Seq<char>,
        >(e),
{
    let line = pretty::entry_text(e, e.module.len()).drop_last();
    let ts = pretty::timestamp_column(e.timestamp);
    let lt = parser::level_text(e.level);
    let k: nat = if lt.len() < 5 {
        (5 - lt.len()) as nat
    } else {
        0
    };
    let mc = e.module + seq![':'];
    let tail = e.message + pretty::fields_suffix(e.fields);
    let r2 = mc + seq![' '] + tail;
    let r1 = lt + seq![' '] + (text::repeat(' ', k) + r2);
    assert(text::pad_right(mc, ' ', e.module.len() + 1) =~= mc);
    assert(text::pad_right(lt, ' ', 5) =~= lt + text::repeat(' ', k));
    assert(line =~= text::repeat(' ', 0) + ts + seq![' '] + r1);
    // the timestamp column
    match e.timestamp {
        Some(t) => {
            timestamp::lemma_timestamp_text_shape(t);
            timestamp::law_timestamp_text_parses_back(t);
        },
        None => {
            timestamp::lemma_dashes_are_no_timestamp();
        },
    }
    assert(ts.len() == 24);
    assert forall|j: int| 0 <= j < ts.len() implies #[trigger] ts[j] != ' ' by {}
    lemma_split_lenient(0, ts, r1);
    // the level column
    match e.level {
        LevelView::Known(l) => {
            lemma_level_name_shape(l);
            law_level_name_reads_back(l);
        },
        LevelView::Unknown(u) => {
            assert forall|j: int| 0 <= j < u.len() implies #[trigger] u[j] != ' ' by {
                if u[j] == ' ' {
                    assert(u.contains(' '));
                }
            }
        },
    }
    assert(r1 =~= text::repeat(' ', 0) + lt + seq![' '] + (text::repeat(' ', k) + r2));
    lemma_split_lenient(0, lt, text::repeat(' ', k) + r2);
    // the module column
    assert forall|j: int| 0 <= j < mc.len() implies #[trigger] mc[j] != ' ' by {
        if j < e.module.len() && e.module[j] == ' ' {
            assert(e.module.contains(' '));
        }
    }
    assert(text::repeat(' ', k) + r2 =~= text::repeat(' ', k) + mc + seq![' '] + tail);
    lemma_split_lenient(k, mc, tail);
    assert(mc.drop_last() =~= e.module);
    // the message and the fields
    law_message_and_fields_read_back(e.message, e.fields, true);
}


proof fn lemma_line_results_strict_clean(lines: Seq<Seq<char>>)
    requires
        lint::line_results(lines, false).1.len() == 0,
    ensures
        lint::line_results(lines, true) == lint::line_results(lines, false),
    decreases lines.len(),
{
    if lines.len() > 0 {
        let init = lines.drop_last();
        let (entries, diags) = lint::line_results(init, false);
        let line = lines.last();
        if !lint::is_blank(line) {
            match parser::line_parse(line, false) {
                Ok(_) => {
                    law_strict_acceptance_carries_to_lenient(line);
                },
                Err(_) => {
                    assert(lint::line_results(lines, false).1.len() == diags.len() + 1);
                },
            }
        }
        lemma_line_results_strict_clean(init);
    }
}

/// A file that passes in strict mode gets the same report in lenient mode.
pub proof fn law_strict_clean_file_reads_the_same_leniently(contents: Seq<char>)
    requires
        lint::file_report(contents, false).exit_code == 0,
    ensures
        lint::file_report(contents, true) == lint::file_report(contents, false),
{
    lemma_line_results_strict_clean(lint::lines_of(contents));
}


/// Blank lines give neither an entry nor a failure, in either mode (they
/// still count for the line numbers).
pub proof fn law_blank_lines_are_skipped(lines: Seq<Seq<char>>, blank: Seq<char>, lenient: bool)
    requires
        lint::is_blank(blank),
    ensures
        lint::line_results(lines.push(blank), lenient) == lint::line_results(lines, lenient),
{
    assert(lines.push(blank).drop_last() =~= lines);
}

/// The exit code is 1 exactly when some line failed; strict mode then
/// prints nothing, lenient mode always prints what it recovered.
pub proof fn law_report_outcome(contents: Seq<char>, lenient: bool)
    ensures
        (lint::file_report(contents, lenient).exit_code == 1) == (lint::file_report(
            contents,
            lenient,
        ).diagnostics.len() > 0),
        lint::file_report(contents, lenient).exit_code == 0 || lint::file_report(
            contents,
            lenient,
        ).exit_code == 1,
        !lenient ==> (lint::file_report(contents, lenient).output is None <==> lint::file_report(
            contents,
            lenient,
        ).exit_code == 1),
        lenient ==> lint::file_report(contents, lenient).output is Some,
{
}

proof fn lemma_field_list_keys(tokens: Seq<Seq<char>>, lenient: bool)
    requires
        parser::field_list(tokens, lenient) is Ok,
    ensures
        keys_are_identifiers(parser::field_list(tokens, lenient)->Ok_0),
    decreases tokens.len(),
{
    if tokens.len() > 0 {
        lemma_field_list_keys(tokens.drop_last(), lenient);
        let acc = parser::field_list(tokens.drop_last(), lenient)->Ok_0;
        match fields::field_parse(tokens.last()) {
            Ok((k, v)) => {
                let tok = tokens.last();
                text::lemma_find_char(tok, '=', 0);
                let i = text::find_char(tok, '=', 0)->0;
                names::law_identifier_check(tok.take(i as int));
                parser::lemma_key_index(acc, k, 0);
                match parser::key_index(acc, k, 0) {
                    Some(j) => {
                        if lenient {
                            let out = acc.remove(j as int).push((k, v));
                            assert forall|a: int| 0 <= a < out.len() implies names::is_identifier(
                                #[trigger] out[a].0,
                            ) by {
                                if a < j {
                                    assert(out[a] == acc[a]);
                                } else if a < out.len() - 1 {
                                    assert(out[a] == acc[a + 1]);
                                }
                            }
                        }
                    },
                    None => {
                        let out = acc.push((k, v));
                        assert forall|a: int| 0 <= a < out.len() implies names::is_identifier(
                            #[trigger] out[a].0,
                        ) by {
                            if a < acc.len() {
                                assert(out[a] == acc[a]);
                            }
                        }
                    },
                }
            },
            Err(_) => {},
        }
    }
}

/// What a strict parse accepts conforms to the grammar: a timestamp in
/// range, a known level, a dotted module name, a non-empty message free of
/// control characters and of ` | `, and fields with distinct identifier
/// keys.
pub proof fn law_strict_entry_conforms(line: Seq<char>)
    requires
        parser::line_parse(line, false) is Ok,
    ensures
        ({
            let e = parser::line_parse(line, false)->Ok_0;
            &&& e.timestamp matches Some(t) && timestamp::valid_timestamp(t)
            &&& e.level is Known
            &&& names::module_error(e.module) is None
            &&& e.message.len() > 0
            &&& parser::first_control(e.message, 0) is None
            &&& parser::find_separator(e.message, 0) is None
            &&& keys_are_identifiers(e.fields)
            &&& keys_distinct(e.fields)
        }),
{
    law_field_keys_distinct(line, false);
    let (ts, r1) = parser::token_split(line, false)->Ok_0;
    timestamp::law_parsed_timestamp_is_valid(ts);
    let (lv, r2) = parser::token_split(r1, false)->Ok_0;
    let (mt, r3) = parser::token_split(r2, false)->Ok_0;
    match parser::find_separator(r3, 0) {
        None => {},
        Some(i) => {
            parser::lemma_find_separator(r3, 0);
            lemma_find_separator_prefix(r3, i, 0);
            let f = r3.skip(i + 3 as int);
            lemma_field_list_keys(fields::field_tokens(f, false)->Ok_0, false);
        },
    }
}


/// The characters strict mode refuses in a message are exactly those of the
/// Unicode general category `Cc`: U+0000..=U+001F and U+007F..=U+009F.
pub proof fn law_control_characters_are_cc(c: char)
    ensures
        text::is_control(c) <==> ((c as u32) <= 0x1f || (0x7f <= (c as u32) && (c as u32)
            <= 0x9f)),
{
}

proof fn lemma_first_control(msg: Seq<char>, i: nat)
    ensures
        match parser::first_control(msg, i) {
            Some(j) => i <= j < msg.len() && text::is_control(msg[j as int]) && forall|k: int|
                i <= k < j ==> !text::is_control(#[trigger] msg[k]),
            None => forall|k: int| i <= k < msg.len() ==> !text::is_control(#[trigger] msg[k]),
        },
    decreases msg.len() - i,
{
    if i < msg.len() && !text::is_control(msg[i as int]) {
        lemma_first_control(msg, i + 1);
    }
}

/// The control check of a message finds nothing in a message without a
/// `Cc` character (such as one of letters with accents), and otherwise
/// finds its first `Cc` character.
pub proof fn law_message_control_check(msg: Seq<char>)
    ensures
        parser::first_control(msg, 0) is None <==> forall|k: int| 0 <= k < msg.len() ==> !(
        (#[trigger] msg[k] as u32) <= 0x1f || (0x7f <= (msg[k] as u32) && (msg[k] as u32)
            <= 0x9f)),
        parser::first_control(msg, 0) matches Some(j) ==> j < msg.len() && ((msg[j as int] as u32)
            <= 0x1f || (0x7f <= (msg[j as int] as u32) && (msg[j as int] as u32) <= 0x9f))
            && forall|k: int| 0 <= k < j ==> !((#[trigger] msg[k] as u32) <= 0x1f || (0x7f <= (
            msg[k] as u32) && (msg[k] as u32) <= 0x9f)),
{
    lemma_first_control(msg, 0);
    if parser::first_control(msg, 0) is None {
    } else {
        let j = parser::first_control(msg, 0)->0;
        assert(text::is_control(msg[j as int]));
    }
}

/// The Gregorian month lengths: 30 days in April, June, September and
/// November, 31 in January, March, May, July, August, October and December,
/// 29 in February of a leap year (divisible by 4 but not by 100, or by 400)
/// and 28 in other years; a month outside 1..=12 has no days.
pub proof fn law_month_lengths(year: int, month: int)
    ensures
        month == 4 || month == 6 || month == 9 || month == 11 ==> timestamp::month_days(year, month)
            == 30,
        month == 1 || month == 3 || month == 5 || month == 7 || month == 8 || month == 10 || month
            == 12 ==> timestamp::month_days(year, month) == 31,
        month == 2 && ((year % 4 == 0 && year % 100 != 0) || year % 400 == 0)
            ==> timestamp::month_days(year, month) == 29,
        month == 2 && !((year % 4 == 0 && year % 100 != 0) || year % 400 == 0)
            ==> timestamp::month_days(year, month) == 28,
        month < 1 || month > 12 ==> timestamp::month_days(year, month) == 0,
{
}

/// The months of a year add up to 365 days, 366 in a leap year.
pub proof fn law_year_length(year: int)
    ensures
        timestamp::month_days(year, 1) + timestamp::month_days(year, 2) + timestamp::month_days(
            year,
            3,
        ) + timestamp::month_days(year, 4) + timestamp::month_days(year, 5)
            + timestamp::month_days(year, 6) + timestamp::month_days(year, 7)
            + timestamp::month_days(year, 8) + timestamp::month_days(year, 9)
            + timestamp::month_days(year, 10) + timestamp::month_days(year, 11)
            + timestamp::month_days(year, 12) == if (year % 4 == 0 && year % 100 != 0) || year
            % 400 == 0 {
            366int
        } else {
            365int
        },
{
}

/// A parsed timestamp names a day that exists: never past the 30th in
/// April, June, September or November, never past the 31st, and in
/// February never past the 29th, nor the 28th outside leap years.
pub proof fn law_parsed_dates_exist(s: Seq<char>)
    requires
        timestamp::timestamp_parse(s) is Ok,
    ensures
        ({
            let ts = timestamp::timestamp_parse(s)->Ok_0;
            let y = ts.year as int;
            &&& 1 <= ts.month <= 12
            &&& 1 <= ts.day <= 31
            &&& (ts.month == 4 || ts.month == 6 || ts.month == 9 || ts.month == 11) ==> ts.day <= 30
            &&& ts.month == 2 ==> ts.day <= 29
            &&& (ts.month == 2 && !((y % 4 == 0 && y % 100 != 0) || y % 400 == 0)) ==> ts.day <= 28
        }),
{
    timestamp::law_parsed_timestamp_is_valid(s);
    let ts = timestamp::timestamp_parse(s)->Ok_0;
    law_month_lengths(ts.year as int, ts.month as int);
}

/// The characters that may start an identifier are the ASCII letters of
/// either case and `_`; those that may continue one add the ASCII digits.
pub proof fn law_identifier_characters(c: char)
    ensures
        text::is_ident_start(c) <==> (('A' <= c && c <= 'Z') || ('a' <= c && c <= 'z') || c
            == '_'),
        text::is_ident_char(c) <==> (('A' <= c && c <= 'Z') || ('a' <= c && c <= 'z') || ('0'
            <= c && c <= '9') || c == '_'),
{
}

/// The module column is exactly as wide as the widest module name of the
/// batch, whatever else the entries hold: no module is wider, and some
/// module (if there is any) is that wide.
pub proof fn law_module_width_is_widest(es: Seq<EntryView>)
    ensures
        forall|i: int| 0 <= i < es.len() ==> (#[trigger] es[i]).module.len()
            <= pretty::module_width(es),
        es.len() == 0 ==> pretty::module_width(es) == 0,
        es.len() > 0 ==> exists|i: int| 0 <= i < es.len() && (#[trigger] es[i]).module.len()
            == pretty::module_width(es),
    decreases es.len(),
{
    if es.len() > 0 {
        let init = es.drop_last();
        law_module_width_is_widest(init);
        assert forall|i: int| 0 <= i < es.len() implies (#[trigger] es[i]).module.len()
            <= pretty::module_width(es) by {
            if i < init.len() {
                assert(es[i] == init[i]);
            }
        }
        if es.last().module.len() > pretty::module_width(init) {
            assert(es[es.len() - 1].module.len() == pretty::module_width(es));
        } else if init.len() == 0 {
            assert(es[0].module.len() == pretty::module_width(es));
        } else {
            let i = choose|i: int| 0 <= i < init.len() && (#[trigger] init[i]).module.len()
                == pretty::module_width(init);
            assert(es[i] == init[i]);
        }
    }
}

/// A text names a level only when it is exactly that level's name, written
/// in capitals: `TRACE`, `DEBUG`, `INFO`, `WARN` or `ERROR`.
pub proof fn law_level_names_are_exact(s: Seq<char>)
    ensures
        parser::level_named(s) matches Some(l) ==> s == parser::level_name(l),
        parser::level_named(s) == Some(Level::Trace) <==> s == seq!['T', 'R', 'A', 'C', 'E'],
        parser::level_named(s) == Some(Level::Debug) <==> s == seq!['D', 'E', 'B', 'U', 'G'],
        parser::level_named(s) == Some(Level::Info) <==> s == seq!['I', 'N', 'F', 'O'],
        parser::level_named(s) == Some(Level::Warn) <==> s == seq!['W', 'A', 'R', 'N'],
        parser::level_named(s) == Some(Level::Error) <==> s == seq!['E', 'R', 'R', 'O', 'R'],
{
    law_level_name_reads_back(Level::Trace);
    law_level_name_reads_back(Level::Debug);
    law_level_name_reads_back(Level::Info);
    law_level_name_reads_back(Level::Warn);
    law_level_name_reads_back(Level::Error);
}


/// The characters that make a line blank or force a field value into
/// quotes are exactly those of the Unicode `White_Space` property.
pub proof fn law_whitespace_characters(c: char)
    ensures
        text::is_whitespace(c) <==> {
            let u = c as u32;
            (0x09 <= u && u <= 0x0d) || u == 0x20 || u == 0x85 || u == 0xa0 || u == 0x1680 || (
            0x2000 <= u && u <= 0x200a) || u == 0x2028 || u == 0x2029 || u == 0x202f || u
                == 0x205f || u == 0x3000
        },
{
}

/// The value of a text of decimal digits.
pub open spec fn digits_value(d: Seq<char>) -> int
    decreases d.len(),
{
    if d.len() == 0 {
        0
    } else {
        digits_value(d.drop_last()) * 10 + (d.last() as int - 48)
    }
}

/// The decimal rendering of `n` is a non-empty run of the digits `0`..`9`,
/// without a leading zero unless it is `0` itself, whose value is `n`.
pub proof fn law_decimal(n: nat)
    ensures
        text::decimal(n).len() > 0,
        forall|i: int| 0 <= i < text::decimal(n).len() ==> '0' <= #[trigger] text::decimal(n)[i]
            && text::decimal(n)[i] <= '9',
        text::decimal(n).len() > 1 ==> text::decimal(n)[0] != '0',
        digits_value(text::decimal(n)) == n,
    decreases n,
{
    let d = text::decimal(n);
    if n >= 10 {
        law_decimal(n / 10);
        let p = text::decimal(n / 10);
        assert(d.drop_last() =~= p);
        assert(d[0] == p[0]);
        if p.len() == 1 {
            assert(digits_value(p.drop_last()) == 0);
            assert(p[0] as int - 48 == n / 10);
        }
        assert(d.last() == text::digit_char(n % 10));
        assert((text::digit_char(n % 10) as int) == n % 10 + 48);
        vstd::arithmetic::div_mod::lemma_fundamental_div_mod(n as int, 10);
        assert(digits_value(d) == digits_value(p) * 10 + (d.last() as int - 48));
    } else {
        assert(d.drop_last() =~= Seq::<char>::empty());
        assert(digits_value(d.drop_last()) == 0);
        assert(d.last() == text::digit_char(n));
    }
}

/// The value of a text of lowercase hexadecimal digits.
pub open spec fn hex_value(d: Seq<char>) -> int
    decreases d.len(),
{
    if d.len() == 0 {
        0
    } else {
        let c = d.last();
        let v = if c <= '9' {
            c as int - 48
        } else {
            c as int - 87
        };
        hex_value(d.drop_last()) * 16 + v
    }
}

/// The hexadecimal rendering of `n` is a non-empty run of `0`..`9` and
/// `a`..`f`, without a leading zero unless it is `0` itself, whose value is
/// `n`.
pub proof fn law_hex(n: nat)
    ensures
        text::hex(n).len() > 0,
        forall|i: int| 0 <= i < text::hex(n).len() ==> ('0' <= #[trigger] text::hex(n)[i]
            && text::hex(n)[i] <= '9') || ('a' <= text::hex(n)[i] && text::hex(n)[i] <= 'f'),
        text::hex(n).len() > 1 ==> text::hex(n)[0] != '0',
        hex_value(text::hex(n)) == n,
    decreases n,
{
    let d = text::hex(n);
    if n >= 16 {
        law_hex(n / 16);
        let p = text::hex(n / 16);
        assert(d.drop_last() =~= p);
        assert(d[0] == p[0]);
        if p.len() == 1 {
            assert(hex_value(p.drop_last()) == 0);
        }
        vstd::arithmetic::div_mod::lemma_fundamental_div_mod(n as int, 16);
        assert(hex_value(d) == hex_value(p) * 16 + (if d.last() <= '9' {
            d.last() as int - 48
        } else {
            d.last() as int - 87
        }));
    } else {
        assert(d.drop_last() =~= Seq::<char>::empty());
        assert(hex_value(d.drop_last()) == 0);
    }
}

/// Padding keeps the text, fills with the pad character up to the width,
/// and never shortens.
pub proof fn law_pad_right(s: Seq<char>, c: char, width: nat)
    ensures
        text::pad_right(s, c, width).len() == if s.len() >= width {
            s.len()
        } else {
            width
        },
        text::pad_right(s, c, width).take(s.len() as int) == s,
        forall|j: int| s.len() <= j < text::pad_right(s, c, width).len() ==> #[trigger] text::pad_right(
            s,
            c,
            width,
        )[j] == c,
{
    assert(text::pad_right(s, c, width).take(s.len() as int) =~= s);
}

proof fn lemma_separator_search(s: Seq<char>, i: nat)
    ensures
        match parser::find_separator(s, i) {
            Some(j) => i <= j && j + 3 <= s.len() && s[j as int] == ' ' && s[j + 1 as int] == '|' && s[j
                + 2 as int] == ' ' && forall|k: int| i <= k < j ==> !(#[trigger] s[k] == ' ' && s[k + 1]
                == '|' && s[k + 2] == ' '),
            None => forall|k: int| i <= k && k + 3 <= s.len() ==> !(#[trigger] s[k] == ' ' && s[k
                + 1] == '|' && s[k + 2] == ' '),
        },
    decreases s.len() - i,
{
    if i + 3 <= s.len() && !(s[i as int] == ' ' && s[i + 1 as int] == '|' && s[i + 2 as int]
        == ' ') {
        lemma_separator_search(s, i + 1);
    }
}

/// The message ends at the first ` | ` of the text after the module, if
/// there is one: what is found is ` | `, and none stands before it.
pub proof fn law_separator_is_first(s: Seq<char>)
    ensures
        match parser::find_separator(s, 0) {
            Some(j) => j + 3 <= s.len() && s.subrange(j as int, j + 3 as int) == seq![' ', '|', ' ']
                && forall|k: int| 0 <= k < j ==> #[trigger] s.subrange(k, k + 3) != seq![' ', '|', ' '],
            None => forall|k: int| 0 <= k && k + 3 <= s.len() ==> #[trigger] s.subrange(k, k + 3) != seq![
                ' ',
                '|',
                ' ',
            ],
        },
{
    lemma_separator_search(s, 0);
    match parser::find_separator(s, 0) {
        Some(j) => {
            assert(s.subrange(j as int, j + 3 as int) =~= seq![' ', '|', ' ']);
            assert forall|k: int| 0 <= k < j implies #[trigger] s.subrange(k, k + 3) != seq![' ', '|', ' '] by {
                if s.subrange(k, k + 3) == seq![' ', '|', ' '] {
                    assert(s.subrange(k, k + 3)[0] == s[k]);
                    assert(s.subrange(k, k + 3)[1] == s[k + 1]);
                    assert(s.subrange(k, k + 3)[2] == s[k + 2]);
                    assert(s[k] == ' ' && s[k + 1] == '|' && s[k + 2] == ' ');
                }
            }
        },
        None => {
            assert forall|k: int| 0 <= k && k + 3 <= s.len() implies #[trigger] s.subrange(k, k + 3) != seq![
                ' ',
                '|',
                ' ',
            ] by {
                if s.subrange(k, k + 3) == seq![' ', '|', ' '] {
                    assert(s.subrange(k, k + 3)[0] == s[k]);
                    assert(s.subrange(k, k + 3)[1] == s[k + 1]);
                    assert(s.subrange(k, k + 3)[2] == s[k + 2]);
                    assert(s[k] == ' ' && s[k + 1] == '|' && s[k + 2] == ' ');
                }
            }
        },
    }
}

/// Splitting off a token takes a non-empty run of non-spaces, after the
/// leading spaces that only lenient mode allows, and the single space after
/// it: the text is those spaces, the token, a space and the rest.
pub proof fn law_token_split_shape(s: Seq<char>, lenient: bool)
    ensures
        parser::token_split(s, lenient) matches Ok((t, r)) ==> {
            let k = s.len() - t.len() - 1 - r.len();
            &&& t.len() > 0
            &&& forall|j: int| 0 <= j < t.len() ==> #[trigger] t[j] != ' '
            &&& 0 <= k
            &&& !lenient ==> k == 0
            &&& s == text::repeat(' ', k as nat) + t + seq![' '] + r
        },
{
    if parser::token_split(s, lenient) is Ok {
        let (t, r) = parser::token_split(s, lenient)->Ok_0;
        let k: nat = if lenient {
            text::skip_spaces(s, 0)
        } else {
            0
        };
        text::lemma_skip_spaces(s, 0);
        let u = s.skip(k as int);
        assert(!lenient ==> u =~= s);
        text::lemma_find_char(u, ' ', 0);
        let i = text::find_char(u, ' ', 0)->0;
        assert(t =~= u.take(i as int));
        assert(r =~= u.skip(i + 1 as int));
        assert(u =~= t + seq![' '] + r);
        assert(s =~= text::repeat(' ', k) + t + seq![' '] + r) by {
            assert forall|j: int| 0 <= j < s.len() implies s[j] == (text::repeat(' ', k) + t
                + seq![' '] + r)[j] by {
                if j < k {
                } else {
                    assert(s[j] == u[j - k]);
                }
            }
        }
    }
}


/// Position `i` of `s` holds a dot or an identifier character.
pub open spec fn dotted_char(s: Seq<char>, i: int) -> bool {
    s[i] == '.' || text::is_ident_char(s[i])
}

/// Position `i` of `s`, when it starts the text or follows a dot, holds a
/// character that may start an identifier.
pub open spec fn segment_start(s: Seq<char>, i: int) -> bool {
    (i == 0 || s[i - 1] == '.') ==> text::is_ident_start(s[i])
}

/// `s` is one or more `.`-separated identifiers: it is not empty, does not
/// end with `.`, holds only identifier characters and dots, and a character
/// that starts the text or follows a dot may start an identifier (so no
/// segment is empty and none starts with a digit).
pub open spec fn is_dotted_name(s: Seq<char>) -> bool {
    &&& s.len() > 0
    &&& s.last() != '.'
    &&& forall|i: int| 0 <= i < s.len() ==> #[trigger] dotted_char(s, i)
    &&& forall|i: int| 0 <= i < s.len() ==> #[trigger] segment_start(s, i)
}

proof fn lemma_single_segment(r: Seq<char>)
    requires
        forall|k: int| 0 <= k < r.len() ==> #[trigger] r[k] != '.',
    ensures
        names::is_identifier(r) <==> is_dotted_name(r),
{
    if is_dotted_name(r) {
        assert forall|j: int| 1 <= j < r.len() implies #[trigger] text::is_ident_char(r[j]) by {
            assert(dotted_char(r, j));
        }
        assert(segment_start(r, 0));
    }
    if names::is_identifier(r) {
        assert(r.last() == r[r.len() - 1]);
        assert forall|i: int| 0 <= i < r.len() implies #[trigger] dotted_char(r, i) by {
            if i == 0 {
                assert(text::is_ident_start(r[0]));
            } else {
                assert(text::is_ident_char(r[i]));
            }
        }
        assert forall|i: int| 0 <= i < r.len() implies #[trigger] segment_start(r, i) by {
            if i > 0 {
                assert(r[i - 1] != '.');
            }
        }
    }
}

#[verifier::rlimit(30)]
proof fn lemma_join_forward(r: Seq<char>, i: int)
    requires
        0 <= i < r.len(),
        r[i] == '.',
        forall|k: int| 0 <= k < i ==> #[trigger] r[k] != '.',
        names::is_identifier(r.take(i)),
        is_dotted_name(r.skip(i + 1)),
    ensures
        is_dotted_name(r),
{
    let seg = r.take(i);
    let rest = r.skip(i + 1);
    assert(r.last() == rest.last());
    assert forall|j: int| 0 <= j < r.len() implies #[trigger] dotted_char(r, j) by {
        if j < i {
            assert(r[j] == seg[j]);
            if j == 0 {
                assert(text::is_ident_start(seg[0]));
            } else {
                assert(text::is_ident_char(seg[j]));
            }
        } else if j > i {
            assert(r[j] == rest[j - i - 1]);
            assert(dotted_char(rest, j - i - 1));
        }
    }
    assert forall|j: int| 0 <= j < r.len() implies #[trigger] segment_start(r, j) by {
        if j == 0 {
            assert(r[0] == seg[0]);
        } else if j - 1 < i {
            assert(r[j - 1] != '.');
        } else if j - 1 == i {
            assert(r[j] == rest[0]);
            assert(segment_start(rest, 0));
        } else {
            assert(r[j] == rest[j - i - 1]);
            assert(rest[j - i - 2] == r[j - 1]);
            assert(segment_start(rest, j - i - 1));
        }
    }
}

#[verifier::rlimit(30)]
proof fn lemma_join_backward(r: Seq<char>, i: int)
    requires
        0 <= i < r.len(),
        r[i] == '.',
        forall|k: int| 0 <= k < i ==> #[trigger] r[k] != '.',
        is_dotted_name(r),
    ensures
        names::is_identifier(r.take(i)),
        is_dotted_name(r.skip(i + 1)),
{
    let seg = r.take(i);
    let rest = r.skip(i + 1);
    assert(segment_start(r, 0));
    assert(i != 0);
    assert(r[r.len() - 1] != '.');
    assert(text::is_ident_start(seg[0]));
    assert forall|j: int| 1 <= j < seg.len() implies #[trigger] text::is_ident_char(seg[j]) by {
        assert(seg[j] == r[j]);
        assert(dotted_char(r, j));
    }
    assert(rest.last() == r.last());
    assert forall|k: int| 0 <= k < rest.len() implies #[trigger] dotted_char(rest, k) by {
        assert(rest[k] == r[k + i + 1]);
        assert(dotted_char(r, k + i + 1));
    }
    assert forall|k: int| 0 <= k < rest.len() implies #[trigger] segment_start(rest, k) by {
        assert(rest[k] == r[k + i + 1]);
        if k > 0 {
            assert(rest[k - 1] == r[k + i]);
        }
        assert(segment_start(r, k + i + 1));
    }
}

proof fn lemma_segments(whole: Seq<char>, r: Seq<char>)
    ensures
        names::segments_error(whole, r) is None <==> is_dotted_name(r),
    decreases r.len(),
{
    text::lemma_find_char(r, '.', 0);
    match text::find_char(r, '.', 0) {
        None => {
            names::law_identifier_check(r);
            lemma_single_segment(r);
        },
        Some(i) => {
            let i = i as int;
            lemma_segments(whole, r.skip(i + 1));
            names::law_identifier_check(r.take(i));
            if names::is_identifier(r.take(i)) && is_dotted_name(r.skip(i + 1)) {
                lemma_join_forward(r, i);
            }
            if is_dotted_name(r) {
                lemma_join_backward(r, i);
            }
        },
    }
}

/// The module check accepts exactly the dotted names: one or more
/// identifiers joined by single dots.
pub proof fn law_module_names(s: Seq<char>)
    ensures
        names::module_error(s) is None <==> is_dotted_name(s),
{
    lemma_segments(s, s);
}


proof fn lemma_digits_value_2(s: Seq<char>)
    requires
        s.len() == 2,
    ensures
        digits_value(s) == (s[0] as int - 48) * 10 + (s[1] as int - 48),
{
    let a = s.drop_last();
    assert(a.drop_last() =~= Seq::<char>::empty());
    assert(digits_value(a.drop_last()) == 0);
    assert(a.last() == s[0]);
    assert(digits_value(a) == s[0] as int - 48);
    assert(s.last() == s[1]);
}

proof fn lemma_digits_value_3(s: Seq<char>)
    requires
        s.len() == 3,
    ensures
        digits_value(s) == (s[0] as int - 48) * 100 + (s[1] as int - 48) * 10 + (s[2] as int - 48),
{
    lemma_digits_value_2(s.drop_last());
}

proof fn lemma_digits_value_4(s: Seq<char>)
    requires
        s.len() == 4,
    ensures
        digits_value(s) == (s[0] as int - 48) * 1000 + (s[1] as int - 48) * 100 + (s[2] as int
            - 48) * 10 + (s[3] as int - 48),
{
    lemma_digits_value_3(s.drop_last());
}

/// A text parses as a timestamp only in the layout
/// `YYYY-MM-DDTHH:MM:SS.mmmZ`: 24 characters, digits `0`..`9` everywhere but
/// the separators `-`, `-`, `T`, `:`, `:`, `.`, `Z` at positions 4, 7, 10,
/// 13, 16, 19, 23; and each field of the timestamp is the decimal value of
/// its digits.
pub proof fn law_timestamp_layout(s: Seq<char>)
    requires
        timestamp::timestamp_parse(s) is Ok,
    ensures
        s.len() == 24,
        s[4] == '-' && s[7] == '-' && s[10] == 'T' && s[13] == ':' && s[16] == ':' && s[19] == '.'
            && s[23] == 'Z',
        forall|j: int|
            0 <= j < 24 && j != 4 && j != 7 && j != 10 && j != 13 && j != 16 && j != 19 && j != 23
                ==> '0' <= #[trigger] s[j] && s[j] <= '9',
        ({
            let ts = timestamp::timestamp_parse(s)->Ok_0;
            &&& ts.year == digits_value(s.subrange(0, 4))
            &&& ts.month == digits_value(s.subrange(5, 7))
            &&& ts.day == digits_value(s.subrange(8, 10))
            &&& ts.hour == digits_value(s.subrange(11, 13))
            &&& ts.minute == digits_value(s.subrange(14, 16))
            &&& ts.second == digits_value(s.subrange(17, 19))
            &&& ts.millis == digits_value(s.subrange(20, 23))
        }),
{
    timestamp::lemma_parsed_shape(s);
    timestamp::law_parsed_timestamp_is_valid(s);
    assert forall|j: int|
        0 <= j < 24 && j != 4 && j != 7 && j != 10 && j != 13 && j != 16 && j != 19 && j != 23
            implies '0' <= #[trigger] s[j] && s[j] <= '9' by {
        assert(timestamp::fits_layout(s[j], j));
    }
    assert(timestamp::fits_layout(s[4], 4) && timestamp::fits_layout(s[7], 7));
    assert(timestamp::fits_layout(s[10], 10) && timestamp::fits_layout(s[13], 13));
    assert(timestamp::fits_layout(s[16], 16) && timestamp::fits_layout(s[19], 19));
    assert(timestamp::fits_layout(s[23], 23));
    lemma_digits_value_4(s.subrange(0, 4));
    lemma_digits_value_2(s.subrange(5, 7));
    lemma_digits_value_2(s.subrange(8, 10));
    lemma_digits_value_2(s.subrange(11, 13));
    lemma_digits_value_2(s.subrange(14, 16));
    lemma_digits_value_2(s.subrange(17, 19));
    lemma_digits_value_3(s.subrange(20, 23));
    assert(0 <= s[0] as int - 48 <= 9 && 0 <= s[1] as int - 48 <= 9);
    assert(0 <= s[2] as int - 48 <= 9 && 0 <= s[3] as int - 48 <= 9);
    assert(0 <= s[5] as int - 48 <= 9 && 0 <= s[6] as int - 48 <= 9);
    assert(0 <= s[8] as int - 48 <= 9 && 0 <= s[9] as int - 48 <= 9);
    assert(0 <= s[11] as int - 48 <= 9 && 0 <= s[12] as int - 48 <= 9);
    assert(0 <= s[14] as int - 48 <= 9 && 0 <= s[15] as int - 48 <= 9);
    assert(0 <= s[17] as int - 48 <= 9 && 0 <= s[18] as int - 48 <= 9);
    assert(0 <= s[20] as int - 48 <= 9 && 0 <= s[21] as int - 48 <= 9);
    assert(0 <= s[22] as int - 48 <= 9);
}

/// A line is blank when every character of it is whitespace (so an empty
/// line is blank too).
pub proof fn law_blank_lines_are_whitespace(line: Seq<char>)
    ensures
        lint::is_blank(line) <==> forall|k: int| 0 <= k < line.len() ==> {
            let u = #[trigger] line[k] as u32;
            (0x09 <= u && u <= 0x0d) || u == 0x20 || u == 0x85 || u == 0xa0 || u == 0x1680 || (
            0x2000 <= u && u <= 0x200a) || u == 0x2028 || u == 0x2029 || u == 0x202f || u
                == 0x205f || u == 0x3000
        },
{
}


/// Each line followed by a newline, one after the other.
pub open spec fn terminated(ls: Seq<Seq<char>>) -> Seq<char>
    decreases ls.len(),
{
    if ls.len() == 0 {
        seq![]
    } else {
        ls[0] + seq!['\n'] + terminated(ls.skip(1))
    }
}

/// For a text without carriage returns, the lines hold no newline, and
/// putting a newline after each gives back the text (with a final newline
/// added where it had none).
pub proof fn law_lines_of(s: Seq<char>)
    requires
        forall|k: int| 0 <= k < s.len() ==> #[trigger] s[k] != '\r',
    ensures
        forall|i: int, j: int|
            0 <= i < lint::lines_of(s).len() && 0 <= j < lint::lines_of(s)[i].len() ==> #[trigger] lint::lines_of(
                s,
            )[i][j] != '\n',
        terminated(lint::lines_of(s)) == if s.len() == 0 || s.last() == '\n' {
            s
        } else {
            s + seq!['\n']
        },
    decreases s.len(),
{
    if s.len() > 0 {
        text::lemma_find_char(s, '\n', 0);
        match text::find_char(s, '\n', 0) {
            None => {
                let ls = lint::lines_of(s);
                assert(ls =~= seq![s]);
                assert(ls.skip(1) =~= Seq::<Seq<char>>::empty());
                assert(s.last() == s[s.len() - 1]);
                assert(terminated(ls.skip(1)) =~= Seq::<char>::empty());
                assert(terminated(ls) == ls[0] + seq!['\n'] + terminated(ls.skip(1)));
                assert(terminated(ls) =~= s + seq!['\n']);
            },
            Some(i) => {
                let i = i as int;
                let head = s.take(i);
                let rest = s.skip(i + 1);
                assert forall|k: int| 0 <= k < rest.len() implies #[trigger] rest[k] != '\r' by {
                    assert(rest[k] == s[k + i + 1]);
                }
                law_lines_of(rest);
                if i > 0 {
                    assert(head.last() == s[i - 1]);
                }
                assert(lint::strip_cr(head) == head);
                let ls = lint::lines_of(s);
                assert(ls == seq![head] + lint::lines_of(rest));
                assert(ls.skip(1) =~= lint::lines_of(rest));
                assert forall|a: int, j: int| 0 <= a < ls.len() && 0 <= j < ls[a].len() implies #[trigger] ls[a][j]
                    != '\n' by {
                    if a == 0 {
                        assert(ls[0] == head);
                        assert(head[j] == s[j]);
                    } else {
                        assert(ls[a] == lint::lines_of(rest)[a - 1]);
                    }
                }
                if rest.len() == 0 {
                    assert(s.last() == '\n');
                    assert(terminated(lint::lines_of(rest)) =~= Seq::<char>::empty());
                    assert(terminated(ls) =~= s);
                } else {
                    assert(s.last() == rest.last());
                    if rest.last() == '\n' {
                        assert(terminated(ls) =~= s);
                    } else {
                        assert(terminated(ls) =~= s + seq!['\n']);
                    }
                }
            },
        }
    }
}

/// A carriage return just before a newline ends the line with it; one at the
/// very end of a text with no newline after it stays in the last line.
pub proof fn law_carriage_returns(a: Seq<char>, b: Seq<char>)
    requires
        forall|k: int| 0 <= k < a.len() ==> #[trigger] a[k] != '\n',
    ensures
        lint::lines_of(a + seq!['\r', '\n'] + b) == seq![a] + lint::lines_of(b),
        lint::lines_of(a + seq!['\r']) == seq![a + seq!['\r']],
{
    let s = a + seq!['\r', '\n'] + b;
    assert(s[a.len() + 1int] == '\n');
    assert forall|k: int| 0 <= k < a.len() + 1 implies #[trigger] s[k] != '\n' by {
        if k < a.len() {
            assert(s[k] == a[k]);
        }
    }
    lemma_find_char_at(s, '\n', 0, (a.len() + 1) as nat);
    assert(s.take(a.len() + 1int) =~= a + seq!['\r']);
    assert((a + seq!['\r']).drop_last() =~= a);
    assert(s.skip(a.len() + 2int) =~= b);
    let t = a + seq!['\r'];
    text::lemma_find_char(t, '\n', 0);
    assert forall|k: int| 0 <= k < t.len() implies #[trigger] t[k] != '\n' by {
        if k < a.len() {
            assert(t[k] == a[k]);
        }
    }
}

} // verus!
