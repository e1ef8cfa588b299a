//! A whole file: its lines are parsed one by one (blank lines skipped), the
//! failures reported with their line numbers, and the entries rendered
//! unless strict mode met a failure.

use vstd::prelude::*;
use crate::text;
use crate::parser::{self, LogEntry, EntryView};
use crate::pretty;

verus! {

/// `s` without one trailing carriage return.
pub open spec fn strip_cr(s: Seq<char>) -> Seq<char> {
    if s.len() > 0 && s.last() == '\r' {
        s.drop_last()
    } else {
        s
    }
}

/// The lines of `s` as `str::lines` gives them: split after each `\n`,
/// which is dropped together with a `\r` just before it; a final line
/// ending is optional.
pub open spec fn lines_of(s: Seq<char>) -> Seq<Seq<char>>
    decreases s.len(),
{
    if s.len() == 0 {
        seq![]
    } else {
        match text::find_char(s, '\n', 0) {
            None => seq![s],
            Some(i) => {
                proof {
                    text::lemma_find_char(s, '\n', 0);
                }
                seq![strip_cr(s.take(i as int))] + lines_of(s.skip(i + 1 as int))
            },
        }
    }
}

/// A line that holds nothing but whitespace (or nothing at all).
pub open spec fn is_blank(line: Seq<char>) -> bool {
    forall|i: int| 0 <= i < line.len() ==> text::is_whitespace(#[trigger] line[i])
}

/// The report line for a failure on line number `number`.
pub open spec fn diagnostic(number: nat, message: Seq<char>) -> Seq<char> {
    "line "@ + text::decimal(number) + ": "@ + message
}

/// The entries and the diagnostics that the lines give, in order; line
/// numbers count from 1 and include the blank lines.
pub open spec fn line_results(lines: Seq<Seq<char>>, lenient: bool) -> (
    Seq<EntryView>,
    Seq<Seq<char>>,
)
    decreases lines.len(),
{
    if lines.len() == 0 {
        (seq![], seq![])
    } else {
        let (entries, diags) = line_results(lines.drop_last(), lenient);
        let line = lines.last();
        if is_blank(line) {
            (entries, diags)
        } else {
            match parser::line_parse(line, lenient) {
                Ok(e) => (entries.push(e), diags),
                Err(msg) => (entries, diags.push(diagnostic(lines.len(), msg))),
            }
        }
    }
}

/// The outcome of checking a file.
pub struct Report {
    /// One line per failure, `line N: message`, in file order.
    pub diagnostics: Vec<String>,
    /// The rendered entries; `None` when strict mode met a failure.
    pub output: Option<String>,
    /// 0 on a clean parse, 1 when any line failed.
    pub exit_code: i32,
}

/// The abstract value of a `Report`.
pub struct ReportView {
    pub diagnostics: Seq<Seq<char>>,
    pub output: Option<Seq<char>>,
    pub exit_code: int,
}

impl View for Report {
    type V = ReportView;

    open spec fn view(&self) -> ReportView {
        ReportView {
            diagnostics: self.diagnostics@.map_values(|d: String| d@),
            output: match self.output {
                Some(o) => Some(o@),
                None => None,
            },
            exit_code: self.exit_code as int,
        }
    }
}

/// What checking the text of a file reports.
pub open spec fn file_report(contents: Seq<char>, lenient: bool) -> ReportView {
    let (entries, diags) = line_results(lines_of(contents), lenient);
    let failed = diags.len() > 0;
    ReportView {
        diagnostics: diags,
        output: if failed && !lenient {
            None
        } else {
            Some(pretty::pretty_text(entries))
        },
        exit_code: if failed {
            1
        } else {
            0
        },
    }
}

fn line_is_blank(line: &[char]) -> (b: bool)
    ensures
        b == is_blank(line@),
{
    let mut i: usize = 0;
    while i < line.len()
        invariant
            i <= line@.len(),
            forall|k: int| 0 <= k < i ==> text::is_whitespace(#[trigger] line@[k]),
        decreases line@.len() - i,
    {
        if !text::char_is_whitespace(line[i]) {
            return false;
        }
        i = i + 1;
    }
    true
}

/// Checks the text of a file line by line.
pub fn lint_text(contents: &str, lenient: bool) -> (r: Report)
    ensures
        r@ == file_report(contents@, lenient),
{
    let chars = text::chars_of(contents);
    let s = chars.as_slice();
    let n = s.len();
    let mut entries: Vec<LogEntry> = Vec::new();
    let mut diagnostics: Vec<String> = Vec::new();
    let ghost mut done: Seq<Seq<char>> = seq![];
    let mut pos: usize = 0;
    let mut number: u128 = 0;
    assert(s@.skip(0) =~= s@);
    assert(done + lines_of(s@) =~= lines_of(s@));
    while pos < n
        invariant
            n == s@.len(),
            pos <= n,
            s@ == contents@,
            number == done.len(),
            number <= pos,
            done + lines_of(s@.skip(pos as int)) == lines_of(s@),
            line_results(done, lenient) == (
                pretty::entries_view(entries@),
                diagnostics@.map_values(|d: String| d@),
            ),
        decreases n - pos,
    {
        let rest = vstd::slice::slice_subrange(s, pos, n);
        proof {
            text::lemma_find_char(rest@, '\n', 0);
        }
        let (end, next, terminated) = match text::find_char_from(rest, '\n', 0) {
            Some(i) => (i, pos + i + 1, true),
            None => (rest.len(), n, false),
        };
        let raw = vstd::slice::slice_subrange(rest, 0, end);
        let line = if terminated && end > 0 && raw[end - 1] == '\r' {
            vstd::slice::slice_subrange(raw, 0, end - 1)
        } else {
            raw
        };
        assert(rest@ =~= s@.skip(pos as int));
        assert(terminated ==> line@ =~= strip_cr(raw@)) by {
            if end > 0 && raw@[end - 1] == '\r' {
                assert(raw@.drop_last() =~= raw@.subrange(0, end - 1));
            }
        }
        proof {
            let ghost tail = s@.skip(pos as int);
            match text::find_char(tail, '\n', 0) {
                Some(i) => {
                    assert(raw@ =~= tail.take(i as int));
                    assert(tail.skip(i + 1 as int) =~= s@.skip(next as int));
                },
                None => {
                    assert(raw@ =~= tail);
                    assert(s@.skip(next as int) =~= seq![]);
                    assert(lines_of(seq![]) =~= seq![]);
                    assert(seq![tail] + lines_of(seq![]) =~= seq![tail]);
                },
            }
            assert(lines_of(tail) == seq![line@] + lines_of(s@.skip(next as int)));
        }
        let ghost prev = done;
        proof {
            done = done.push(line@);
            assert(done + lines_of(s@.skip(next as int)) =~= prev + lines_of(s@.skip(pos as int)));
            assert(done.drop_last() =~= prev);
        }
        number = number + 1;
        if !line_is_blank(line) {
            match parser::parse_line_chars(line, lenient) {
                Ok(entry) => {
                    let ghost before = pretty::entries_view(entries@);
                    entries.push(entry);
                    assert(pretty::entries_view(entries@) =~= before.push(entry@));
                },
                Err(e) => {
                    let mut out: Vec<char> = Vec::new();
                    text::push_str(&mut out, "line ");
                    text::push_decimal(&mut out, number);
                    text::push_str(&mut out, ": ");
                    text::push_str(&mut out, e.0.as_str());
                    assert(out@ =~= diagnostic(number as nat, e.0@));
                    let ghost before = diagnostics@.map_values(|d: String| d@);
                    diagnostics.push(text::string_of(out.as_slice()));
                    assert(diagnostics@.map_values(|d: String| d@) =~= before.push(out@));
                },
            }
        }
        pos = next;
    }
    assert(s@.skip(pos as int) =~= seq![]);
    assert(done + seq![] =~= done);
    let failed = diagnostics.len() > 0;
    let output = if failed && !lenient {
        None
    } else {
        Some(pretty::pretty_print(entries.as_slice()))
    };
    let exit_code: i32 = if failed {
        1
    } else {
        0
    };
    let r = Report { diagnostics, output, exit_code };
    assert(r@.diagnostics =~= file_report(contents@, lenient).diagnostics);
    r
}

} // verus!
