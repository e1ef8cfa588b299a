//! The field list after ` | `: space-separated `key=value` pairs, where a
//! value holding whitespace or a double quote is wrapped in double quotes
//! with `\"` and `\\` as its escapes.

use vstd::prelude::*;
use crate::text;
use crate::names;
use crate::parser::ParseError;

verus! {

/// `s` with each `\"` read as `"` and each `\\` as `\`; any other backslash
/// is kept, together with the character after it.
pub open spec fn unescaped(s: Seq<char>) -> Seq<char>
    decreases s.len(),
{
    if s.len() == 0 {
        seq![]
    } else if s[0] == '\\' {
        if s.len() == 1 {
            seq!['\\']
        } else if s[1] == '"' || s[1] == '\\' {
            seq![s[1]] + unescaped(s.skip(2))
        } else {
            seq!['\\', s[1]] + unescaped(s.skip(2))
        }
    } else {
        seq![s[0]] + unescaped(s.skip(1))
    }
}

/// Resolves the escapes `\"` and `\\` of a quoted value's inside.
pub fn unescape(s: &[char]) -> (r: String)
    ensures
        r@ == unescaped(s@),
{
    let mut out: Vec<char> = Vec::new();
    let mut i: usize = 0;
    assert(s@.skip(0) =~= s@);
    assert(out@ + unescaped(s@) =~= unescaped(s@));
    while i < s.len()
        invariant
            i <= s@.len(),
            out@ + unescaped(s@.skip(i as int)) == unescaped(s@),
        decreases s@.len() - i,
    {
        let ghost rest = s@.skip(i as int);
        let c = s[i];
        if c == '\\' {
            if i + 1 < s.len() {
                let next = s[i + 1];
                assert(rest.skip(2) =~= s@.skip(i + 2));
                if next == '"' || next == '\\' {
                    out.push(next);
                } else {
                    out.push('\\');
                    out.push(next);
                }
                i = i + 2;
            } else {
                out.push('\\');
                i = i + 1;
                assert(s@.skip(i as int) =~= seq![]);
            }
        } else {
            assert(rest.skip(1) =~= s@.skip(i + 1));
            out.push(c);
            i = i + 1;
        }
        assert(out@ + unescaped(s@.skip(i as int)) =~= unescaped(s@));
    }
    assert(s@.skip(i as int) =~= seq![]);
    assert(out@ =~= unescaped(s@));
    text::string_of(out.as_slice())
}


/// Scanning a field token from `i` with the quote state `quoted`: where the
/// token ends (at a space outside quotes, or at the end of `s`) and whether
/// a quote is still open there. Inside quotes, `\"` and `\\` are skipped as
/// pairs.
pub open spec fn token_end(s: Seq<char>, i: nat, quoted: bool) -> (nat, bool)
    decreases s.len() - i,
{
    if i >= s.len() {
        (i, quoted)
    } else if s[i as int] == '"' {
        token_end(s, i + 1, !quoted)
    } else if s[i as int] == '\\' && quoted && i + 1 < s.len() && (s[i + 1 as int] == '"' || s[i + 1 as int]
        == '\\') {
        token_end(s, i + 2, quoted)
    } else if s[i as int] == ' ' && !quoted {
        (i, quoted)
    } else {
        token_end(s, i + 1, quoted)
    }
}

/// A token scan ends within `s`, and moves past its start whenever the
/// character there is inside quotes or is not a space.
pub proof fn lemma_token_end(s: Seq<char>, i: nat, quoted: bool)
    requires
        i <= s.len(),
    ensures
        i <= token_end(s, i, quoted).0 <= s.len(),
        i < s.len() && (quoted || s[i as int] != ' ') ==> i < token_end(s, i, quoted).0,
    decreases s.len() - i,
{
    if i < s.len() {
        if s[i as int] == '"' {
            lemma_token_end(s, i + 1, !quoted);
        } else if s[i as int] == '\\' && quoted && i + 1 < s.len() && (s[i + 1 as int] == '"' || s[i
            + 1 as int] == '\\') {
            lemma_token_end(s, i + 2, quoted);
        } else if s[i as int] == ' ' && !quoted {
        } else {
            lemma_token_end(s, i + 1, quoted);
        }
    }
}

/// The field tokens of `s` from `i` on; in strict mode a token that ends
/// inside quotes is an error.
pub open spec fn tokens_from(s: Seq<char>, i: nat, lenient: bool) -> Result<
    Seq<Seq<char>>,
    Seq<char>,
>
    decreases s.len() - i,
{
    if i > s.len() {
        Ok(seq![])
    } else {
        let j = text::skip_spaces(s, i);
        if j >= s.len() {
            Ok(seq![])
        } else {
            let (end, quoted) = token_end(s, j, false);
            proof {
                text::lemma_skip_spaces(s, i);
                lemma_token_end(s, j, false);
            }
            if quoted && !lenient {
                Err(
                    "unterminated quoted value starting at '"@ + s.subrange(j as int, end as int)
                        + "'"@,
                )
            } else {
                match tokens_from(s, end, lenient) {
                    Ok(rest) => Ok(seq![s.subrange(j as int, end as int)] + rest),
                    Err(e) => Err(e),
                }
            }
        }
    }
}

/// The field tokens of `s`.
pub open spec fn field_tokens(s: Seq<char>, lenient: bool) -> Result<Seq<Seq<char>>, Seq<char>> {
    tokens_from(s, 0, lenient)
}

/// `r` with `acc` put in front of its tokens.
pub open spec fn after_tokens(acc: Seq<Seq<char>>, r: Result<Seq<Seq<char>>, Seq<char>>) -> Result<
    Seq<Seq<char>>,
    Seq<char>,
> {
    match r {
        Ok(t) => Ok(acc + t),
        Err(e) => Err(e),
    }
}

/// The views of a list of character slices.
pub open spec fn slices_view(v: Seq<&[char]>) -> Seq<Seq<char>> {
    v.map_values(|t: &[char]| t@)
}

/// Splits the field list into tokens at spaces outside double quotes.
pub fn tokenize_fields<'a>(s: &'a [char], lenient: bool) -> (r: Result<Vec<&'a [char]>, ParseError>)
    ensures
        match r {
            Ok(v) => field_tokens(s@, lenient) == Ok::<Seq<Seq<char>>, Seq<char>>(
                slices_view(v@),
            ),
            Err(e) => field_tokens(s@, lenient) == Err::<Seq<Seq<char>>, Seq<char>>(e.0@),
        },
{
    let mut tokens: Vec<&'a [char]> = Vec::new();
    let len = s.len();
    let mut i: usize = 0;
    assert(after_tokens(slices_view(tokens@), tokens_from(s@, 0, lenient)) =~= tokens_from(s@, 0, lenient)) by {
        assert(slices_view(tokens@) =~= seq![]);
        match tokens_from(s@, 0, lenient) {
            Ok(t) => { assert(seq![] + t =~= t); },
            Err(e) => {},
        }
    }
    loop
        invariant_except_break
            len == s@.len(),
            i <= len,
            field_tokens(s@, lenient) == after_tokens(slices_view(tokens@), tokens_from(s@, i as nat, lenient)),
        ensures
            field_tokens(s@, lenient) == Ok::<Seq<Seq<char>>, Seq<char>>(slices_view(tokens@)),
        decreases len - i,
    {
        let ghost i0 = i as nat;
        while i < len && s[i] == ' '
            invariant
                i0 <= i <= len,
                len == s@.len(),
                text::skip_spaces(s@, i0) == text::skip_spaces(s@, i as nat),
            decreases len - i,
        {
            i = i + 1;
        }
        if i >= len {
            proof {
                text::lemma_skip_spaces(s@, i0);
            }
            assert(tokens_from(s@, i0, lenient) == Ok::<Seq<Seq<char>>, Seq<char>>(seq![]));
            assert(slices_view(tokens@) + seq![] =~= slices_view(tokens@));
            break;
        }
        let start = i;
        let mut in_quotes = false;
        while i < len
            invariant
                start <= i <= len,
                len == s@.len(),
                token_end(s@, start as nat, false) == token_end(s@, i as nat, in_quotes),
            ensures
                token_end(s@, start as nat, false) == (i as nat, in_quotes),
            decreases len - i,
        {
            let b = s[i];
            if b == '"' {
                in_quotes = !in_quotes;
                i = i + 1;
            } else if b == '\\' && in_quotes && i + 1 < len && (s[i + 1] == '"' || s[i + 1] == '\\') {
                i = i + 2;
            } else if b == ' ' && !in_quotes {
                break;
            } else {
                i = i + 1;
            }
        }
        proof {
            text::lemma_skip_spaces(s@, i0);
            lemma_token_end(s@, start as nat, false);
        }
        assert(token_end(s@, start as nat, false) == (i as nat, in_quotes));
        let token = vstd::slice::slice_subrange(s, start, i);
        if in_quotes && !lenient {
            let mut out: Vec<char> = Vec::new();
            text::push_str(&mut out, "unterminated quoted value starting at '");
            text::push_all(&mut out, token);
            text::push_str(&mut out, "'");
            assert(out@ =~= "unterminated quoted value starting at '"@ + token@ + "'"@);
            return Err(ParseError(text::string_of(out.as_slice())));
        }
        let ghost before = slices_view(tokens@);
        tokens.push(token);
        assert(slices_view(tokens@) =~= before.push(token@));
        assert(after_tokens(before, tokens_from(s@, i0, lenient)) =~= after_tokens(slices_view(tokens@), tokens_from(s@, i as nat, lenient))) by {
            match tokens_from(s@, i as nat, lenient) {
                Ok(t) => { assert(before + (seq![token@] + t) =~= before.push(token@) + t); },
                Err(e) => {},
            }
        }
    }
    Ok(tokens)
}


/// The inside of a quoted value holds a double quote that is not part of a
/// `\"` or `\\` pair (a backslash takes the character after it along).
pub open spec fn has_bare_quote(s: Seq<char>) -> bool
    decreases s.len(),
{
    if s.len() == 0 {
        false
    } else if s[0] == '\\' && s.len() >= 2 {
        has_bare_quote(s.skip(2))
    } else if s[0] == '"' {
        true
    } else {
        has_bare_quote(s.skip(1))
    }
}

/// `s` holds a whitespace character.
pub open spec fn has_whitespace(s: Seq<char>) -> bool {
    exists|i: int| 0 <= i < s.len() && text::is_whitespace(#[trigger] s[i])
}

fn contains_bare_quote(s: &[char]) -> (b: bool)
    ensures
        b == has_bare_quote(s@),
{
    let n = s.len();
    let mut i: usize = 0;
    assert(s@.skip(0) =~= s@);
    while i < n
        invariant
            n == s@.len(),
            i <= n,
            has_bare_quote(s@) == has_bare_quote(s@.skip(i as int)),
        decreases n - i,
    {
        let ghost rest = s@.skip(i as int);
        if s[i] == '\\' && i + 1 < n {
            assert(rest.skip(2) =~= s@.skip(i + 2));
            i = i + 2;
        } else if s[i] == '"' {
            return true;
        } else {
            assert(rest.skip(1) =~= s@.skip(i + 1));
            i = i + 1;
        }
    }
    assert(s@.skip(i as int).len() == 0);
    false
}

fn contains_whitespace(s: &[char]) -> (b: bool)
    ensures
        b == has_whitespace(s@),
{
    let mut i: usize = 0;
    while i < s.len()
        invariant
            i <= s@.len(),
            forall|k: int| 0 <= k < i ==> !text::is_whitespace(#[trigger] s@[k]),
        decreases s@.len() - i,
    {
        if text::char_is_whitespace(s[i]) {
            return true;
        }
        i = i + 1;
    }
    false
}

/// What a field token parses to: the key before the first `=`, which must
/// be an identifier, and the value after it. A value that starts with a
/// double quote must end with one, and its inside may hold a double quote
/// only as `\"`; it is unescaped. Any other value must hold neither a
/// double quote nor whitespace.
pub open spec fn field_parse(tok: Seq<char>) -> Result<(Seq<char>, Seq<char>), Seq<char>> {
    match text::find_char(tok, '=', 0) {
        None => Err("field '"@ + tok + "' is missing '='"@),
        Some(i) => {
            let key = tok.take(i as int);
            let raw = tok.skip(i + 1 as int);
            match names::identifier_error(key) {
                Some(e) => Err("invalid field key '"@ + key + "': "@ + e),
                None => if raw.len() > 0 && raw[0] == '"' {
                    if raw.len() < 2 || raw.last() != '"' {
                        Err("value for field '"@ + key + "' has an unterminated quote"@)
                    } else if has_bare_quote(raw.subrange(1, raw.len() - 1)) {
                        Err("value for field '"@ + key + "' contains an unescaped quote"@)
                    } else {
                        Ok((key, unescaped(raw.subrange(1, raw.len() - 1))))
                    }
                } else if raw.contains('"') {
                    Err("value for field '"@ + key + "' contains a stray quote"@)
                } else if has_whitespace(raw) {
                    Err("value for field '"@ + key + "' contains whitespace but is not quoted"@)
                } else {
                    Ok((key, raw))
                },
            }
        },
    }
}

/// Parses one `key=value` token.
pub fn parse_field(token: &[char]) -> (r: Result<(String, String), String>)
    ensures
        match r {
            Ok((k, v)) => field_parse(token@) == Ok::<(Seq<char>, Seq<char>), Seq<char>>(
                (k@, v@),
            ),
            Err(e) => field_parse(token@) == Err::<(Seq<char>, Seq<char>), Seq<char>>(e@),
        },
{
    let mut out: Vec<char> = Vec::new();
    proof {
        text::lemma_find_char(token@, '=', 0);
    }
    let eq_idx = match text::find_char_from(token, '=', 0) {
        Some(i) => i,
        None => {
            text::push_str(&mut out, "field '");
            text::push_all(&mut out, token);
            text::push_str(&mut out, "' is missing '='");
            assert(out@ =~= "field '"@ + token@ + "' is missing '='"@);
            return Err(text::string_of(out.as_slice()));
        },
    };
    let n = token.len();
    let key = vstd::slice::slice_subrange(token, 0, eq_idx);
    let raw = vstd::slice::slice_subrange(token, eq_idx + 1, n);
    assert(key@ =~= token@.take(eq_idx as int));
    assert(raw@ =~= token@.skip(eq_idx + 1 as int));
    match names::validate_identifier(key) {
        Err(e) => {
            text::push_str(&mut out, "invalid field key '");
            text::push_all(&mut out, key);
            text::push_str(&mut out, "': ");
            text::push_str(&mut out, e.as_str());
            assert(out@ =~= "invalid field key '"@ + key@ + "': "@ + e@);
            return Err(text::string_of(out.as_slice()));
        },
        Ok(()) => {},
    }
    if raw.len() > 0 && raw[0] == '"' {
        if raw.len() < 2 || raw[raw.len() - 1] != '"' {
            text::push_str(&mut out, "value for field '");
            text::push_all(&mut out, key);
            text::push_str(&mut out, "' has an unterminated quote");
            assert(out@ =~= "value for field '"@ + key@ + "' has an unterminated quote"@);
            return Err(text::string_of(out.as_slice()));
        }
        let inner = vstd::slice::slice_subrange(raw, 1, raw.len() - 1);
        if contains_bare_quote(inner) {
            text::push_str(&mut out, "value for field '");
            text::push_all(&mut out, key);
            text::push_str(&mut out, "' contains an unescaped quote");
            assert(out@ =~= "value for field '"@ + key@ + "' contains an unescaped quote"@);
            return Err(text::string_of(out.as_slice()));
        }
        Ok((text::string_of(key), unescape(inner)))
    } else {
        match text::find_char_from(raw, '"', 0) {
            Some(_) => {
                proof {
                    text::lemma_find_char(raw@, '"', 0);
                }
                text::push_str(&mut out, "value for field '");
                text::push_all(&mut out, key);
                text::push_str(&mut out, "' contains a stray quote");
                assert(out@ =~= "value for field '"@ + key@ + "' contains a stray quote"@);
                Err(text::string_of(out.as_slice()))
            },
            None => {
                proof {
                    text::lemma_find_char(raw@, '"', 0);
                }
                assert(!raw@.contains('"'));
                if contains_whitespace(raw) {
                    text::push_str(&mut out, "value for field '");
                    text::push_all(&mut out, key);
                    text::push_str(&mut out, "' contains whitespace but is not quoted");
                    assert(out@ =~= "value for field '"@ + key@
                        + "' contains whitespace but is not quoted"@);
                    return Err(text::string_of(out.as_slice()));
                }
                Ok((text::string_of(key), text::string_of(raw)))
            },
        }
    }
}

} // verus!
