//! Identifiers (field keys, module segments) and dotted module names.

use vstd::prelude::*;
use crate::text;
use crate::parser::ParseError;

verus! {

/// The first index at or after `i` whose character cannot continue an
/// identifier.
pub open spec fn first_non_ident(s: Seq<char>, i: nat) -> Option<nat>
    decreases s.len() - i,
{
    if i >= s.len() {
        None
    } else if !text::is_ident_char(s[i as int]) {
        Some(i)
    } else {
        first_non_ident(s, i + 1)
    }
}

/// `s` is an identifier: an ASCII letter or `_`, then ASCII letters, digits
/// and `_`.
pub open spec fn is_identifier(s: Seq<char>) -> bool {
    &&& s.len() > 0
    &&& text::is_ident_start(s[0])
    &&& forall|j: int| 1 <= j < s.len() ==> #[trigger] text::is_ident_char(s[j])
}

/// Why `s` is not an identifier (the first offending character); `None`
/// when it is one.
pub open spec fn identifier_error(s: Seq<char>) -> Option<Seq<char>> {
    if s.len() == 0 {
        Some("must not be empty"@)
    } else if !text::is_ident_start(s[0]) {
        Some("must start with a letter or underscore, found '"@ + seq![s[0]] + "'"@)
    } else {
        match first_non_ident(s, 1) {
            Some(j) => Some("invalid character '"@ + seq![s[j as int]] + "'"@),
            None => None,
        }
    }
}

proof fn lemma_first_non_ident(s: Seq<char>, i: nat)
    ensures
        match first_non_ident(s, i) {
            Some(j) => i <= j < s.len() && !text::is_ident_char(s[j as int]),
            None => forall|k: int| i <= k < s.len() ==> #[trigger] text::is_ident_char(s[k]),
        },
    decreases s.len() - i,
{
    if i < s.len() && text::is_ident_char(s[i as int]) {
        lemma_first_non_ident(s, i + 1);
    }
}

/// The identifier check rejects exactly the texts that are not identifiers.
pub proof fn law_identifier_check(s: Seq<char>)
    ensures
        identifier_error(s) is None <==> is_identifier(s),
{
    lemma_first_non_ident(s, 1);
}

/// Checks that `s` is an identifier.
pub fn validate_identifier(s: &[char]) -> (r: Result<(), String>)
    ensures
        match r {
            Ok(()) => identifier_error(s@) is None,
            Err(e) => identifier_error(s@) == Some(e@),
        },
{
    let mut out: Vec<char> = Vec::new();
    if s.len() == 0 {
        text::push_str(&mut out, "must not be empty");
        return Err(text::string_of(out.as_slice()));
    }
    if !text::char_is_ident_start(s[0]) {
        text::push_str(&mut out, "must start with a letter or underscore, found '");
        out.push(s[0]);
        text::push_str(&mut out, "'");
        assert(out@ =~= "must start with a letter or underscore, found '"@ + seq![s@[0]] + "'"@);
        return Err(text::string_of(out.as_slice()));
    }
    let mut i: usize = 1;
    while i < s.len()
        invariant
            1 <= i <= s@.len(),
            text::is_ident_start(s@[0]),
            first_non_ident(s@, 1) == first_non_ident(s@, i as nat),
            out@.len() == 0,
        decreases s@.len() - i,
    {
        if !text::char_is_ident_char(s[i]) {
            text::push_str(&mut out, "invalid character '");
            out.push(s[i]);
            text::push_str(&mut out, "'");
            assert(out@ =~= "invalid character '"@ + seq![s@[i as int]] + "'"@);
            return Err(text::string_of(out.as_slice()));
        }
        i = i + 1;
    }
    Ok(())
}

/// The message for segment `seg` of the module name `whole` failing the
/// identifier check with `e`.
pub open spec fn segment_message(seg: Seq<char>, whole: Seq<char>, e: Seq<char>) -> Seq<char> {
    "invalid module segment '"@ + seg + "' in '"@ + whole + "': "@ + e
}

/// The first of the `.`-separated segments of `rest` that is not an
/// identifier, reported against the whole module name `whole`.
pub open spec fn segments_error(whole: Seq<char>, rest: Seq<char>) -> Option<Seq<char>>
    decreases rest.len(),
{
    match text::find_char(rest, '.', 0) {
        None => match identifier_error(rest) {
            Some(e) => Some(segment_message(rest, whole, e)),
            None => None,
        },
        Some(i) => {
            proof {
                text::lemma_find_char(rest, '.', 0);
            }
            match identifier_error(rest.take(i as int)) {
                Some(e) => Some(segment_message(rest.take(i as int), whole, e)),
                None => segments_error(whole, rest.skip(i + 1 as int)),
            }
        },
    }
}

/// Why `s` is not a module name (one or more `.`-separated identifiers);
/// `None` when it is one.
pub open spec fn module_error(s: Seq<char>) -> Option<Seq<char>> {
    if s.len() == 0 {
        Some("module name must not be empty"@)
    } else {
        segments_error(s, s)
    }
}

/// Checks that `s` is one or more `.`-separated identifiers.
pub fn validate_module(s: &[char]) -> (r: Result<(), ParseError>)
    ensures
        match r {
            Ok(()) => module_error(s@) is None,
            Err(e) => module_error(s@) == Some(e.0@),
        },
{
    if s.len() == 0 {
        let mut out: Vec<char> = Vec::new();
        text::push_str(&mut out, "module name must not be empty");
        return Err(ParseError(text::string_of(out.as_slice())));
    }
    let mut start: usize = 0;
    assert(s@.subrange(0, s@.len() as int) =~= s@);
    loop
        invariant
            start <= s@.len(),
            s@.len() > 0,
            module_error(s@) == segments_error(s@, s@.subrange(start as int, s@.len() as int)),
        decreases s@.len() - start,
    {
        let rest = vstd::slice::slice_subrange(s, start, s.len());
        let dot = text::find_char_from(rest, '.', 0);
        proof {
            text::lemma_find_char(rest@, '.', 0);
        }
        let end = match dot {
            Some(i) => i,
            None => rest.len(),
        };
        let seg = vstd::slice::slice_subrange(rest, 0, end);
        assert(dot is Some ==> seg@ == rest@.take(end as int));
        assert(dot is None ==> seg@ == rest@);
        match validate_identifier(seg) {
            Err(e) => {
                let mut out: Vec<char> = Vec::new();
                text::push_str(&mut out, "invalid module segment '");
                text::push_all(&mut out, seg);
                text::push_str(&mut out, "' in '");
                text::push_all(&mut out, s);
                text::push_str(&mut out, "': ");
                let msg = text::chars_of(e.as_str());
                text::push_all(&mut out, msg.as_slice());
                assert(out@ =~= segment_message(seg@, s@, e@));
                return Err(ParseError(text::string_of(out.as_slice())));
            },
            Ok(()) => {},
        }
        match dot {
            None => {
                return Ok(());
            },
            Some(i) => {
                assert(rest@.skip(i + 1) =~= s@.subrange(start + i + 1, s@.len() as int));
                start = start + i + 1;
            },
        }
    }
}

} // verus!
