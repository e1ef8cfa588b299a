//! Renders parsed entries back into aligned text: timestamp, level (padded
//! to 5 columns, the width of `ERROR`), module and its colon (padded to the
//! widest module name in the batch), message, then the fields in the
//! order they were read in.

use vstd::prelude::*;
use crate::text;
use crate::timestamp;
use crate::parser::{self, LogEntry, EntryView};

verus! {

/// A value must be quoted when it is empty or holds whitespace or a double
/// quote.
pub open spec fn needs_quotes(v: Seq<char>) -> bool {
    v.len() == 0 || exists|i: int| 0 <= i < v.len() && (text::is_whitespace(#[trigger] v[i]) || v[i] == '"')
}

/// `v` with each `\` written as `\\` and each `"` as `\"`.
pub open spec fn escaped(v: Seq<char>) -> Seq<char>
    decreases v.len(),
{
    if v.len() == 0 {
        seq![]
    } else {
        let c = v.last();
        escaped(v.drop_last()) + if c == '\\' {
            seq!['\\', '\\']
        } else if c == '"' {
            seq!['\\', '"']
        } else {
            seq![c]
        }
    }
}

/// How a field is written: `key=value`, or `key="escaped value"` where the
/// value needs quotes.
pub open spec fn field_text(key: Seq<char>, value: Seq<char>) -> Seq<char> {
    if needs_quotes(value) {
        key + seq!['=', '"'] + escaped(value) + seq!['"']
    } else {
        key + seq!['='] + value
    }
}

/// The fields written one after the other, separated by single spaces.
pub open spec fn fields_text(fields: Seq<(Seq<char>, Seq<char>)>) -> Seq<char>
    decreases fields.len(),
{
    if fields.len() == 0 {
        seq![]
    } else if fields.len() == 1 {
        field_text(fields[0].0, fields[0].1)
    } else {
        fields_text(fields.drop_last()) + seq![' '] + field_text(fields.last().0, fields.last().1)
    }
}

/// The timestamp column: the timestamp's text, or 24 dashes when there is
/// none.
pub open spec fn timestamp_column(ts: Option<timestamp::Timestamp>) -> Seq<char> {
    match ts {
        Some(t) => timestamp::timestamp_text(t),
        None => text::repeat('-', 24),
    }
}

/// ` | ` and the fields, or nothing when there are no fields.
pub open spec fn fields_suffix(fields: Seq<(Seq<char>, Seq<char>)>) -> Seq<char> {
    if fields.len() == 0 {
        seq![]
    } else {
        seq![' ', '|', ' '] + fields_text(fields)
    }
}

/// How one entry is written, given the width of the module column: the
/// timestamp column, the level padded to 5, the module and its colon padded
/// to one more than the width, the message, the fields, and a newline.
pub open spec fn entry_text(e: EntryView, width: nat) -> Seq<char> {
    timestamp_column(e.timestamp) + seq![' '] + text::pad_right(parser::level_text(e.level), ' ', 5)
        + seq![' '] + text::pad_right(e.module + seq![':'], ' ', width + 1) + seq![' ']
        + e.message + fields_suffix(e.fields) + seq!['\n']
}

/// The widest module name among the entries, in characters.
pub open spec fn module_width(entries: Seq<EntryView>) -> nat
    decreases entries.len(),
{
    if entries.len() == 0 {
        0
    } else {
        let w = module_width(entries.drop_last());
        let m = entries.last().module.len();
        if m > w {
            m
        } else {
            w
        }
    }
}

/// The entries written one after the other with a common module width.
pub open spec fn entries_text(entries: Seq<EntryView>, width: nat) -> Seq<char>
    decreases entries.len(),
{
    if entries.len() == 0 {
        seq![]
    } else {
        entries_text(entries.drop_last(), width) + entry_text(entries.last(), width)
    }
}

/// The views of a list of entries.
pub open spec fn entries_view(entries: Seq<LogEntry>) -> Seq<EntryView> {
    entries.map_values(|e: LogEntry| e@)
}

/// What `pretty_print` writes for the entries.
pub open spec fn pretty_text(entries: Seq<EntryView>) -> Seq<char> {
    entries_text(entries, module_width(entries))
}

fn push_escaped(out: &mut Vec<char>, v: &[char])
    ensures
        final(out)@ == old(out)@ + escaped(v@),
{
    let ghost start = out@;
    let mut i: usize = 0;
    while i < v.len()
        invariant
            i <= v@.len(),
            out@ == start + escaped(v@.take(i as int)),
        decreases v@.len() - i,
    {
        let c = v[i];
        assert(v@.take(i + 1).drop_last() =~= v@.take(i as int));
        if c == '\\' {
            out.push('\\');
            out.push('\\');
        } else if c == '"' {
            out.push('\\');
            out.push('"');
        } else {
            out.push(c);
        }
        i = i + 1;
        assert(out@ =~= start + escaped(v@.take(i as int)));
    }
    assert(v@.take(v@.len() as int) =~= v@);
}

fn value_needs_quotes(v: &[char]) -> (b: bool)
    ensures
        b == needs_quotes(v@),
{
    if v.len() == 0 {
        return true;
    }
    let mut i: usize = 0;
    while i < v.len()
        invariant
            i <= v@.len(),
            forall|k: int| 0 <= k < i ==> !(text::is_whitespace(#[trigger] v@[k]) || v@[k] == '"'),
        decreases v@.len() - i,
    {
        if text::char_is_whitespace(v[i]) || v[i] == '"' {
            return true;
        }
        i = i + 1;
    }
    false
}

fn push_field(out: &mut Vec<char>, key: &str, value: &str)
    ensures
        final(out)@ == old(out)@ + field_text(key@, value@),
{
    let k = text::chars_of(key);
    let v = text::chars_of(value);
    text::push_all(out, k.as_slice());
    if value_needs_quotes(v.as_slice()) {
        out.push('=');
        out.push('"');
        push_escaped(out, v.as_slice());
        out.push('"');
    } else {
        out.push('=');
        text::push_all(out, v.as_slice());
    }
    assert(out@ =~= old(out)@ + field_text(key@, value@));
}

/// How a field is written: `key=value`, quoting and escaping the value
/// where it needs it.
pub fn render_field(key: &str, value: &str) -> (r: String)
    ensures
        r@ == field_text(key@, value@),
{
    let mut out: Vec<char> = Vec::new();
    push_field(&mut out, key, value);
    assert(out@ =~= field_text(key@, value@));
    text::string_of(out.as_slice())
}

fn push_timestamp_column(out: &mut Vec<char>, ts: &Option<timestamp::Timestamp>)
    ensures
        final(out)@ == old(out)@ + timestamp_column(*ts),
{
    match ts {
        Some(t) => {
            let text = t.to_string();
            text::push_str(out, text.as_str());
        },
        None => {
            text::push_repeat(out, '-', 24);
        },
    }
}

fn push_padded(out: &mut Vec<char>, s: &[char], width: usize)
    ensures
        final(out)@ == old(out)@ + text::pad_right(s@, ' ', width as nat),
{
    text::push_all(out, s);
    if s.len() < width {
        text::push_repeat(out, ' ', width - s.len());
    }
    assert(out@ =~= old(out)@ + text::pad_right(s@, ' ', width as nat));
}

fn push_fields_suffix(out: &mut Vec<char>, fields: &Vec<(String, String)>)
    ensures
        final(out)@ == old(out)@ + fields_suffix(parser::pairs_view(fields@)),
{
    let ghost start = out@;
    let ghost fv = parser::pairs_view(fields@);
    let n = fields.len();
    if n == 0 {
        assert(out@ =~= start + fields_suffix(fv));
        return;
    }
    out.push(' ');
    out.push('|');
    out.push(' ');
    let ghost mid = out@;
    let mut i: usize = 0;
    while i < n
        invariant
            i <= n,
            n == fields@.len(),
            fv == parser::pairs_view(fields@),
            i == 0 ==> out@ == mid,
            i > 0 ==> out@ == mid + fields_text(fv.take(i as int)),
        decreases n - i,
    {
        assert(fv.take(i + 1).drop_last() =~= fv.take(i as int));
        if i > 0 {
            out.push(' ');
        }
        push_field(out, fields[i].0.as_str(), fields[i].1.as_str());
        i = i + 1;
        assert(out@ =~= mid + fields_text(fv.take(i as int)));
    }
    assert(fv.take(n as int) =~= fv);
    assert(out@ =~= start + fields_suffix(fv));
}

fn push_entry(out: &mut Vec<char>, e: &LogEntry, width: usize)
    ensures
        final(out)@ == old(out)@ + entry_text(e@, width as nat),
{
    let ghost start = out@;
    push_timestamp_column(out, &e.timestamp);
    out.push(' ');
    let level = text::chars_of(e.level.as_str());
    push_padded(out, level.as_slice(), 5);
    out.push(' ');
    let module = text::chars_of(e.module.as_str());
    let ghost before_module = out@;
    text::push_all(out, module.as_slice());
    out.push(':');
    if module.len() < width {
        text::push_repeat(out, ' ', width - module.len());
    }
    assert(out@ =~= before_module + text::pad_right(module@ + seq![':'], ' ', (width + 1) as nat));
    out.push(' ');
    text::push_str(out, e.message.as_str());
    push_fields_suffix(out, &e.fields);
    out.push('\n');
    assert(out@ =~= start + entry_text(e@, width as nat));
}

/// Renders the entries into aligned text, one line each.
pub fn pretty_print(entries: &[LogEntry]) -> (r: String)
    ensures
        r@ == pretty_text(entries_view(entries@)),
{
    let ghost ev = entries_view(entries@);
    let mut width: usize = 0;
    let mut i: usize = 0;
    while i < entries.len()
        invariant
            i <= entries@.len(),
            ev == entries_view(entries@),
            width == module_width(ev.take(i as int)),
        decreases entries@.len() - i,
    {
        assert(ev.take(i + 1).drop_last() =~= ev.take(i as int));
        let m = entries[i].module.as_str().unicode_len();
        if m > width {
            width = m;
        }
        i = i + 1;
    }
    assert(ev.take(entries@.len() as int) =~= ev);
    let mut out: Vec<char> = Vec::new();
    let mut j: usize = 0;
    while j < entries.len()
        invariant
            j <= entries@.len(),
            ev == entries_view(entries@),
            width == module_width(ev),
            out@ == entries_text(ev.take(j as int), width as nat),
        decreases entries@.len() - j,
    {
        assert(ev.take(j + 1).drop_last() =~= ev.take(j as int));
        push_entry(&mut out, &entries[j], width);
        j = j + 1;
    }
    assert(ev.take(entries@.len() as int) =~= ev);
    text::string_of(out.as_slice())
}

} // verus!
