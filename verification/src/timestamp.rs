//! Fixed-width UTC timestamps, `YYYY-MM-DDTHH:MM:SS.mmmZ`.

use vstd::prelude::*;
use crate::text;

verus! {

/// A calendar timestamp in UTC with millisecond precision.
#[derive(Debug, Clone, Copy, PartialEq, Eq, Structural)]
pub struct Timestamp {
    pub year: u16,
    pub month: u8,
    pub day: u8,
    pub hour: u8,
    pub minute: u8,
    pub second: u8,
    pub millis: u16,
}

/// Gregorian leap years.
pub open spec fn leap_year(year: int) -> bool {
    (year % 4 == 0 && year % 100 != 0) || year % 400 == 0
}

/// Number of days in `month` of `year`, 0 for a month outside 1..=12.
pub open spec fn month_days(year: int, month: int) -> int {
    if month == 1 || month == 3 || month == 5 || month == 7 || month == 8 || month == 10 || month
        == 12 {
        31
    } else if month == 4 || month == 6 || month == 9 || month == 11 {
        30
    } else if month == 2 {
        if leap_year(year) {
            29
        } else {
            28
        }
    } else {
        0
    }
}

/// The calendar and clock fields are in range.
pub open spec fn valid_timestamp(ts: Timestamp) -> bool {
    &&& 1 <= ts.month <= 12
    &&& 1 <= ts.day <= month_days(ts.year as int, ts.month as int)
    &&& ts.hour <= 23
    &&& ts.minute <= 59
    &&& ts.second <= 59
}

/// The message of the first range check that `ts` fails, checked in the
/// order month, day, hour, minute, second; `None` when all pass.
pub open spec fn timestamp_range_error(ts: Timestamp) -> Option<Seq<char>> {
    if ts.month < 1 || ts.month > 12 {
        Some("month "@ + text::decimal(ts.month as nat) + " out of range"@)
    } else if ts.day < 1 || ts.day > month_days(ts.year as int, ts.month as int) {
        Some(
            "day "@ + text::decimal(ts.day as nat) + " out of range for "@ + text::zero_padded(
                ts.year as nat,
                4,
            ) + "-"@ + text::zero_padded(ts.month as nat, 2),
        )
    } else if ts.hour > 23 {
        Some("hour "@ + text::decimal(ts.hour as nat) + " out of range"@)
    } else if ts.minute > 59 {
        Some("minute "@ + text::decimal(ts.minute as nat) + " out of range"@)
    } else if ts.second > 59 {
        Some("second "@ + text::decimal(ts.second as nat) + " out of range"@)
    } else {
        None
    }
}

impl Timestamp {
    pub fn is_leap_year(year: u16) -> (b: bool)
        ensures
            b == leap_year(year as int),
    {
        (year % 4 == 0 && year % 100 != 0) || year % 400 == 0
    }

    pub fn days_in_month(year: u16, month: u8) -> (d: u8)
        ensures
            d == month_days(year as int, month as int),
    {
        match month {
            1 | 3 | 5 | 7 | 8 | 10 | 12 => 31,
            4 | 6 | 9 | 11 => 30,
            2 => {
                if Self::is_leap_year(year) {
                    29
                } else {
                    28
                }
            },
            _ => 0,
        }
    }

    /// Checks the ranges of the fields; the error names the first field out
    /// of range.
    pub fn validate(&self) -> (r: Result<(), String>)
        ensures
            match r {
                Ok(()) => timestamp_range_error(*self) is None,
                Err(e) => timestamp_range_error(*self) == Some(e@),
            },
    {
        let mut out: Vec<char> = Vec::new();
        if self.month < 1 || self.month > 12 {
            text::push_str(&mut out, "month ");
            text::push_decimal(&mut out, self.month as u128);
            text::push_str(&mut out, " out of range");
            return Err(text::string_of(out.as_slice()));
        }
        let max_day = Self::days_in_month(self.year, self.month);
        if self.day < 1 || self.day > max_day {
            text::push_str(&mut out, "day ");
            text::push_decimal(&mut out, self.day as u128);
            text::push_str(&mut out, " out of range for ");
            text::push_zero_padded(&mut out, self.year as u128, 4);
            text::push_str(&mut out, "-");
            text::push_zero_padded(&mut out, self.month as u128, 2);
            return Err(text::string_of(out.as_slice()));
        }
        if self.hour > 23 {
            text::push_str(&mut out, "hour ");
            text::push_decimal(&mut out, self.hour as u128);
            text::push_str(&mut out, " out of range");
            return Err(text::string_of(out.as_slice()));
        }
        if self.minute > 59 {
            text::push_str(&mut out, "minute ");
            text::push_decimal(&mut out, self.minute as u128);
            text::push_str(&mut out, " out of range");
            return Err(text::string_of(out.as_slice()));
        }
        if self.second > 59 {
            text::push_str(&mut out, "second ");
            text::push_decimal(&mut out, self.second as u128);
            text::push_str(&mut out, " out of range");
            return Err(text::string_of(out.as_slice()));
        }
        Ok(())
    }
}


/// The separator that the layout `YYYY-MM-DDTHH:MM:SS.mmmZ` puts at position
/// `i`; `None` where it puts a digit.
pub open spec fn layout_separator(i: int) -> Option<char> {
    if i == 4 || i == 7 {
        Some('-')
    } else if i == 10 {
        Some('T')
    } else if i == 13 || i == 16 {
        Some(':')
    } else if i == 19 {
        Some('.')
    } else if i == 23 {
        Some('Z')
    } else {
        None
    }
}

/// `c` is what the layout expects at position `i`.
pub open spec fn fits_layout(c: char, i: int) -> bool {
    match layout_separator(i) {
        Some(sep) => c == sep,
        None => text::is_digit(c),
    }
}

/// The character that the first byte of `c`'s UTF-8 encoding stands for
/// when read as Latin-1: `c` itself when it is ASCII.
pub open spec fn first_byte_char(c: char) -> char {
    text::utf8_lead_byte(c) as char
}

/// The message for position `i` of the layout holding `c` instead of what
/// the layout expects.
pub open spec fn layout_error(i: nat, c: char) -> Seq<char> {
    match layout_separator(i as int) {
        Some(sep) => "expected '"@ + seq![sep] + "' at position "@ + text::decimal(i)
            + ", found '"@ + seq![first_byte_char(c)] + "'"@,
        None => "expected digit at position "@ + text::decimal(i) + ", found '"@ + seq![
            first_byte_char(c),
        ] + "'"@,
    }
}

/// The first position at or after `i` (and before 24) where `s` does not
/// fit the layout.
pub open spec fn first_misfit(s: Seq<char>, i: nat) -> Option<nat>
    decreases 24 - i,
{
    if i >= 24 {
        None
    } else if !fits_layout(s[i as int], i as int) {
        Some(i)
    } else {
        first_misfit(s, i + 1)
    }
}

/// The value of the decimal digit `c`.
pub open spec fn digit_value(c: char) -> int {
    c as int - 48
}

/// The timestamp that the digits of a text in the layout spell.
pub open spec fn timestamp_fields(s: Seq<char>) -> Timestamp {
    Timestamp {
        year: (digit_value(s[0]) * 1000 + digit_value(s[1]) * 100 + digit_value(s[2]) * 10
            + digit_value(s[3])) as u16,
        month: (digit_value(s[5]) * 10 + digit_value(s[6])) as u8,
        day: (digit_value(s[8]) * 10 + digit_value(s[9])) as u8,
        hour: (digit_value(s[11]) * 10 + digit_value(s[12])) as u8,
        minute: (digit_value(s[14]) * 10 + digit_value(s[15])) as u8,
        second: (digit_value(s[17]) * 10 + digit_value(s[18])) as u8,
        millis: (digit_value(s[20]) * 100 + digit_value(s[21]) * 10 + digit_value(
            s[22],
        )) as u16,
    }
}

/// What parsing the text `s` as a timestamp gives: the length is checked in
/// UTF-8 bytes, then the layout position by position, then the ranges.
pub open spec fn timestamp_parse(s: Seq<char>) -> Result<Timestamp, Seq<char>> {
    if text::utf8_len(s) != 24 {
        Err(
            "timestamp must be exactly 24 characters (YYYY-MM-DDTHH:MM:SS.mmmZ), got "@
                + text::decimal(text::utf8_len(s)),
        )
    } else {
        match first_misfit(s, 0) {
            Some(i) => Err(layout_error(i, s[i as int])),
            None => {
                let ts = timestamp_fields(s);
                match timestamp_range_error(ts) {
                    Some(e) => Err(e),
                    None => Ok(ts),
                }
            },
        }
    }
}

fn separator_at(i: usize) -> (r: Option<char>)
    ensures
        r == layout_separator(i as int),
{
    if i == 4 || i == 7 {
        Some('-')
    } else if i == 10 {
        Some('T')
    } else if i == 13 || i == 16 {
        Some(':')
    } else if i == 19 {
        Some('.')
    } else if i == 23 {
        Some('Z')
    } else {
        None
    }
}

fn digit_at(s: &[char], i: usize) -> (d: u32)
    requires
        i < s@.len(),
        text::is_digit(s@[i as int]),
    ensures
        d == digit_value(s@[i as int]),
        d <= 9,
{
    (s[i] as u32) - 48
}

proof fn lemma_utf8_len_ascii(s: Seq<char>)
    requires
        forall|j: int| 0 <= j < s.len() ==> (#[trigger] s[j] as u32) < 0x80,
    ensures
        text::utf8_len(s) == s.len(),
    decreases s.len(),
{
    if s.len() > 0 {
        lemma_utf8_len_ascii(s.drop_last());
    }
}

/// Parses a timestamp in the layout `YYYY-MM-DDTHH:MM:SS.mmmZ`.
pub fn parse_timestamp(s: &[char]) -> (r: Result<Timestamp, String>)
    ensures
        match r {
            Ok(ts) => timestamp_parse(s@) == Ok::<Timestamp, Seq<char>>(ts),
            Err(e) => timestamp_parse(s@) == Err::<Timestamp, Seq<char>>(e@),
        },
{
    let mut out: Vec<char> = Vec::new();
    let n = text::utf8_length(s);
    if n != 24 {
        text::push_str(
            &mut out,
            "timestamp must be exactly 24 characters (YYYY-MM-DDTHH:MM:SS.mmmZ), got ",
        );
        text::push_decimal(&mut out, n);
        return Err(text::string_of(out.as_slice()));
    }
    let mut i: usize = 0;
    while i < 24
        invariant
            i <= 24,
            text::utf8_len(s@) == 24,
            i <= s@.len(),
            forall|j: int| 0 <= j < i ==> #[trigger] fits_layout(s@[j], j),
            first_misfit(s@, 0) == first_misfit(s@, i as nat),
            out@.len() == 0,
        decreases 24 - i,
    {
        if i == s.len() {
            proof {
                assert forall|j: int| 0 <= j < s@.len() implies (#[trigger] s@[j] as u32) < 0x80 by {
                    assert(fits_layout(s@[j], j));
                }
                lemma_utf8_len_ascii(s@);
            }
        }
        let c = s[i];
        let fits = match separator_at(i) {
            Some(sep) => c == sep,
            None => text::char_is_digit(c),
        };
        if !fits {
            match separator_at(i) {
                Some(sep) => {
                    text::push_str(&mut out, "expected '");
                    out.push(sep);
                    text::push_str(&mut out, "' at position ");
                    text::push_decimal(&mut out, i as u128);
                },
                None => {
                    text::push_str(&mut out, "expected digit at position ");
                    text::push_decimal(&mut out, i as u128);
                },
            }
            text::push_str(&mut out, ", found '");
            out.push(text::char_utf8_lead_byte(c) as char);
            text::push_str(&mut out, "'");
            let ghost e = layout_error(i as nat, c);
            assert(out@ =~= e);
            return Err(text::string_of(out.as_slice()));
        }
        i = i + 1;
    }
    assert(first_misfit(s@, 24) is None);
    assert(fits_layout(s@[0], 0) && fits_layout(s@[1], 1) && fits_layout(s@[2], 2));
    assert(fits_layout(s@[3], 3) && fits_layout(s@[5], 5) && fits_layout(s@[6], 6));
    assert(fits_layout(s@[8], 8) && fits_layout(s@[9], 9) && fits_layout(s@[11], 11));
    assert(fits_layout(s@[12], 12) && fits_layout(s@[14], 14) && fits_layout(s@[15], 15));
    assert(fits_layout(s@[17], 17) && fits_layout(s@[18], 18) && fits_layout(s@[20], 20));
    assert(fits_layout(s@[21], 21) && fits_layout(s@[22], 22));
    let year = digit_at(s, 0) * 1000 + digit_at(s, 1) * 100 + digit_at(s, 2) * 10 + digit_at(s, 3);
    let month = digit_at(s, 5) * 10 + digit_at(s, 6);
    let day = digit_at(s, 8) * 10 + digit_at(s, 9);
    let hour = digit_at(s, 11) * 10 + digit_at(s, 12);
    let minute = digit_at(s, 14) * 10 + digit_at(s, 15);
    let second = digit_at(s, 17) * 10 + digit_at(s, 18);
    let millis = digit_at(s, 20) * 100 + digit_at(s, 21) * 10 + digit_at(s, 22);
    let ts = Timestamp {
        year: year as u16,
        month: month as u8,
        day: day as u8,
        hour: hour as u8,
        minute: minute as u8,
        second: second as u8,
        millis: millis as u16,
    };
    assert(ts == timestamp_fields(s@));
    match ts.validate() {
        Ok(()) => Ok(ts),
        Err(e) => Err(e),
    }
}


/// The text of `ts` in the layout `YYYY-MM-DDTHH:MM:SS.mmmZ`, each field
/// zero-padded to its width.
pub open spec fn timestamp_text(ts: Timestamp) -> Seq<char> {
    text::zero_padded(ts.year as nat, 4) + seq!['-'] + text::zero_padded(ts.month as nat, 2)
        + seq!['-'] + text::zero_padded(ts.day as nat, 2) + seq!['T'] + text::zero_padded(
        ts.hour as nat,
        2,
    ) + seq![':'] + text::zero_padded(ts.minute as nat, 2) + seq![':'] + text::zero_padded(
        ts.second as nat,
        2,
    ) + seq!['.'] + text::zero_padded(ts.millis as nat, 3) + seq!['Z']
}

impl Timestamp {
    /// Renders the timestamp as `YYYY-MM-DDTHH:MM:SS.mmmZ`.
    pub fn to_string(&self) -> (r: String)
        ensures
            r@ == timestamp_text(*self),
    {
        let mut out: Vec<char> = Vec::new();
        text::push_zero_padded(&mut out, self.year as u128, 4);
        out.push('-');
        text::push_zero_padded(&mut out, self.month as u128, 2);
        out.push('-');
        text::push_zero_padded(&mut out, self.day as u128, 2);
        out.push('T');
        text::push_zero_padded(&mut out, self.hour as u128, 2);
        out.push(':');
        text::push_zero_padded(&mut out, self.minute as u128, 2);
        out.push(':');
        text::push_zero_padded(&mut out, self.second as u128, 2);
        out.push('.');
        text::push_zero_padded(&mut out, self.millis as u128, 3);
        out.push('Z');
        assert(out@ =~= timestamp_text(*self));
        text::string_of(out.as_slice())
    }
}


proof fn lemma_first_misfit_none(s: Seq<char>, i: nat)
    requires
        i <= 24,
    ensures
        first_misfit(s, i) is None <==> (forall|j: int| i <= j < 24 ==> #[trigger] fits_layout(
            s[j],
            j,
        )),
    decreases 24 - i,
{
    if i < 24 {
        lemma_first_misfit_none(s, i + 1);
        if first_misfit(s, i) is None {
            assert(fits_layout(s[i as int], i as int));
        }
    }
}

proof fn lemma_utf8_len_at_least_len(s: Seq<char>)
    ensures
        text::utf8_len(s) >= s.len(),
    decreases s.len(),
{
    if s.len() > 0 {
        lemma_utf8_len_at_least_len(s.drop_last());
    }
}

/// A timestamp passes the range checks exactly when its fields are in range.
pub proof fn law_range_checks_are_validity(ts: Timestamp)
    ensures
        timestamp_range_error(ts) is None <==> valid_timestamp(ts),
{
}

/// Whatever parses as a timestamp is in range, has a four-digit year and a
/// three-digit millisecond count.
pub proof fn law_parsed_timestamp_is_valid(s: Seq<char>)
    requires
        timestamp_parse(s) is Ok,
    ensures
        valid_timestamp(timestamp_parse(s)->Ok_0),
        timestamp_parse(s)->Ok_0.year <= 9999,
        timestamp_parse(s)->Ok_0.millis <= 999,
{
    lemma_first_misfit_none(s, 0);
    assert(fits_layout(s[0], 0) && fits_layout(s[1], 1) && fits_layout(s[2], 2));
    assert(fits_layout(s[3], 3) && fits_layout(s[20], 20) && fits_layout(s[21], 21));
    assert(fits_layout(s[22], 22));
}

/// The 24 characters of the text of a timestamp whose year and millisecond
/// count fit their widths.
spec fn spelled(ts: Timestamp) -> Seq<char> {
    let y = ts.year as nat;
    let ms = ts.millis as nat;
    seq![
        text::digit_char(y / 1000),
        text::digit_char((y / 100) % 10),
        text::digit_char((y / 10) % 10),
        text::digit_char(y % 10),
        '-',
        text::digit_char(ts.month as nat / 10),
        text::digit_char(ts.month as nat % 10),
        '-',
        text::digit_char(ts.day as nat / 10),
        text::digit_char(ts.day as nat % 10),
        'T',
        text::digit_char(ts.hour as nat / 10),
        text::digit_char(ts.hour as nat % 10),
        ':',
        text::digit_char(ts.minute as nat / 10),
        text::digit_char(ts.minute as nat % 10),
        ':',
        text::digit_char(ts.second as nat / 10),
        text::digit_char(ts.second as nat % 10),
        '.',
        text::digit_char(ms / 100),
        text::digit_char((ms / 10) % 10),
        text::digit_char(ms % 10),
        'Z',
    ]
}

proof fn lemma_text_spelled(ts: Timestamp)
    requires
        ts.year <= 9999,
        ts.month < 100,
        ts.day < 100,
        ts.hour < 100,
        ts.minute < 100,
        ts.second < 100,
        ts.millis <= 999,
    ensures
        timestamp_text(ts) == spelled(ts),
{
    let y = ts.year as nat;
    let ms = ts.millis as nat;
    let dc = |n: nat| text::digit_char(n);
    text::lemma_zero_padded_4(y);
    text::lemma_zero_padded_2(ts.month as nat);
    text::lemma_zero_padded_2(ts.day as nat);
    text::lemma_zero_padded_2(ts.hour as nat);
    text::lemma_zero_padded_2(ts.minute as nat);
    text::lemma_zero_padded_2(ts.second as nat);
    text::lemma_zero_padded_3(ms);
    let p1 = text::zero_padded(y, 4) + seq!['-'];
    assert(p1 =~= seq![dc(y / 1000), dc((y / 100) % 10), dc((y / 10) % 10), dc(y % 10), '-']);
    let p2 = p1 + text::zero_padded(ts.month as nat, 2) + seq!['-'];
    assert(p2 =~= p1 + seq![dc(ts.month as nat / 10), dc(ts.month as nat % 10), '-']);
    let p3 = p2 + text::zero_padded(ts.day as nat, 2) + seq!['T'];
    assert(p3 =~= p2 + seq![dc(ts.day as nat / 10), dc(ts.day as nat % 10), 'T']);
    let p4 = p3 + text::zero_padded(ts.hour as nat, 2) + seq![':'];
    assert(p4 =~= p3 + seq![dc(ts.hour as nat / 10), dc(ts.hour as nat % 10), ':']);
    let p5 = p4 + text::zero_padded(ts.minute as nat, 2) + seq![':'];
    assert(p5 =~= p4 + seq![dc(ts.minute as nat / 10), dc(ts.minute as nat % 10), ':']);
    let p6 = p5 + text::zero_padded(ts.second as nat, 2) + seq!['.'];
    assert(p6 =~= p5 + seq![dc(ts.second as nat / 10), dc(ts.second as nat % 10), '.']);
    let p7 = p6 + text::zero_padded(ms, 3) + seq!['Z'];
    assert(p7 =~= p6 + seq![dc(ms / 100), dc((ms / 10) % 10), dc(ms % 10), 'Z']);
    assert(timestamp_text(ts) == p7);
    assert(p7 =~= spelled(ts));
}

proof fn lemma_digit_char(d: nat)
    requires
        d < 10,
    ensures
        text::is_digit(text::digit_char(d)),
        digit_value(text::digit_char(d)) == d,
        (text::digit_char(d) as u32) < 0x80,
{
}

proof fn lemma_digit_value(c: char)
    requires
        text::is_digit(c),
    ensures
        0 <= digit_value(c) <= 9,
        text::digit_char(digit_value(c) as nat) == c,
{
}

proof fn lemma_four_digits(y: nat)
    requires
        y <= 9999,
    ensures
        (y / 1000) * 1000 + ((y / 100) % 10) * 100 + ((y / 10) % 10) * 10 + y % 10 == y,
        y / 1000 < 10,
{
    let a = y as int;
    vstd::arithmetic::div_mod::lemma_fundamental_div_mod(a, 10);
    vstd::arithmetic::div_mod::lemma_fundamental_div_mod(a / 10, 10);
    vstd::arithmetic::div_mod::lemma_fundamental_div_mod(a / 100, 10);
    vstd::arithmetic::div_mod::lemma_div_denominator(a, 10, 10);
    vstd::arithmetic::div_mod::lemma_div_denominator(a, 100, 10);
    assert((a / 10) / 10 == a / 100);
    assert((a / 100) / 10 == a / 1000);
}

proof fn lemma_three_digits(ms: nat)
    requires
        ms <= 999,
    ensures
        (ms / 100) * 100 + ((ms / 10) % 10) * 10 + ms % 10 == ms,
        ms / 100 < 10,
{
}

proof fn lemma_two_digits(n: nat)
    requires
        n < 100,
    ensures
        (n / 10) * 10 + n % 10 == n,
        n / 10 < 10,
{
}

proof fn lemma_spelled_digits(ts: Timestamp)
    requires
        ts.year <= 9999,
        ts.month < 100,
        ts.day < 100,
        ts.hour < 100,
        ts.minute < 100,
        ts.second < 100,
        ts.millis <= 999,
    ensures
        forall|j: int| 0 <= j < 24 ==> (#[trigger] spelled(ts)[j] as u32) < 0x80,
        forall|j: int| 0 <= j < 24 ==> #[trigger] fits_layout(spelled(ts)[j], j),
        timestamp_fields(spelled(ts)) == ts,
        spelled(ts).len() == 24,
{
    let y = ts.year as nat;
    let ms = ts.millis as nat;
    lemma_four_digits(y);
    lemma_three_digits(ms);
    lemma_two_digits(ts.month as nat);
    lemma_two_digits(ts.day as nat);
    lemma_two_digits(ts.hour as nat);
    lemma_two_digits(ts.minute as nat);
    lemma_two_digits(ts.second as nat);
    let t = spelled(ts);
    let ds = seq![
        y / 1000,
        (y / 100) % 10,
        (y / 10) % 10,
        y % 10,
        0,
        ts.month as nat / 10,
        ts.month as nat % 10,
        0,
        ts.day as nat / 10,
        ts.day as nat % 10,
        0,
        ts.hour as nat / 10,
        ts.hour as nat % 10,
        0,
        ts.minute as nat / 10,
        ts.minute as nat % 10,
        0,
        ts.second as nat / 10,
        ts.second as nat % 10,
        0,
        ms / 100,
        (ms / 10) % 10,
        ms % 10,
        0,
    ];
    assert forall|j: int| 0 <= j < 24 && layout_separator(j) is None implies t[j]
        == text::digit_char(#[trigger] ds[j]) && ds[j] < 10 by {}
    assert forall|j: int| 0 <= j < 24 implies (#[trigger] t[j] as u32) < 0x80 && fits_layout(
        t[j],
        j,
    ) by {
        if layout_separator(j) is None {
            lemma_digit_char(ds[j]);
        }
    }
    assert forall|j: int| 0 <= j < 24 && layout_separator(j) is None implies digit_value(
        #[trigger] t[j],
    ) == ds[j] by {
        lemma_digit_char(ds[j]);
    }
    assert(digit_value(t[0]) == ds[0] && digit_value(t[1]) == ds[1]);
    assert(digit_value(t[2]) == ds[2] && digit_value(t[3]) == ds[3]);
    assert(digit_value(t[5]) == ds[5] && digit_value(t[6]) == ds[6]);
    assert(digit_value(t[8]) == ds[8] && digit_value(t[9]) == ds[9]);
    assert(digit_value(t[11]) == ds[11] && digit_value(t[12]) == ds[12]);
    assert(digit_value(t[14]) == ds[14] && digit_value(t[15]) == ds[15]);
    assert(digit_value(t[17]) == ds[17] && digit_value(t[18]) == ds[18]);
    assert(digit_value(t[20]) == ds[20] && digit_value(t[21]) == ds[21]);
    assert(digit_value(t[22]) == ds[22]);
}

/// The text of a timestamp in range (with a year and a millisecond count
/// that fit their widths) parses back to the same timestamp.
pub proof fn law_timestamp_text_parses_back(ts: Timestamp)
    requires
        valid_timestamp(ts),
        ts.year <= 9999,
        ts.millis <= 999,
    ensures
        timestamp_parse(timestamp_text(ts)) == Ok::<Timestamp, Seq<char>>(ts),
{
    lemma_text_spelled(ts);
    lemma_spelled_digits(ts);
    let t = spelled(ts);
    lemma_utf8_len_ascii(t);
    lemma_first_misfit_none(t, 0);
}

proof fn lemma_split_four(a: int, b: int, c: int, d: int)
    requires
        0 <= a <= 9,
        0 <= b <= 9,
        0 <= c <= 9,
        0 <= d <= 9,
    ensures
        ({
            let y = a * 1000 + b * 100 + c * 10 + d;
            y / 1000 == a && (y / 100) % 10 == b && (y / 10) % 10 == c && y % 10 == d
        }),
{
    let y = a * 1000 + b * 100 + c * 10 + d;
    vstd::arithmetic::div_mod::lemma_fundamental_div_mod_converse(y, 1000, a, b * 100 + c * 10 + d);
    vstd::arithmetic::div_mod::lemma_fundamental_div_mod_converse(y, 100, a * 10 + b, c * 10 + d);
    vstd::arithmetic::div_mod::lemma_fundamental_div_mod_converse(a * 10 + b, 10, a, b);
    vstd::arithmetic::div_mod::lemma_fundamental_div_mod_converse(y, 10, a * 100 + b * 10 + c, d);
    vstd::arithmetic::div_mod::lemma_fundamental_div_mod_converse(a * 100 + b * 10 + c, 10, a * 10 + b, c);
}

proof fn lemma_split_three(a: int, b: int, c: int)
    requires
        0 <= a <= 9,
        0 <= b <= 9,
        0 <= c <= 9,
    ensures
        ({
            let y = a * 100 + b * 10 + c;
            y / 100 == a && (y / 10) % 10 == b && y % 10 == c
        }),
{
}

proof fn lemma_split_two(a: int, b: int)
    requires
        0 <= a <= 9,
        0 <= b <= 9,
    ensures
        ({
            let y = a * 10 + b;
            y / 10 == a && y % 10 == b
        }),
{
}

/// A text that parses is 24 characters in the layout, and the timestamp
/// is the one its digits spell.
pub proof fn lemma_parsed_shape(s: Seq<char>)
    requires
        timestamp_parse(s) is Ok,
    ensures
        s.len() == 24,
        forall|j: int| 0 <= j < 24 ==> #[trigger] fits_layout(s[j], j),
        timestamp_parse(s)->Ok_0 == timestamp_fields(s),
{
    lemma_first_misfit_none(s, 0);
    lemma_utf8_len_at_least_len(s);
    if s.len() < 24 {
        assert forall|j: int| 0 <= j < s.len() implies (#[trigger] s[j] as u32) < 0x80 by {
            assert(fits_layout(s[j], j));
        }
        lemma_utf8_len_ascii(s);
    }
}

proof fn lemma_fields_spelled(s: Seq<char>)
    requires
        s.len() == 24,
        forall|j: int| 0 <= j < 24 ==> #[trigger] fits_layout(s[j], j),
    ensures
        timestamp_fields(s).year <= 9999,
        timestamp_fields(s).month < 100,
        timestamp_fields(s).day < 100,
        timestamp_fields(s).hour < 100,
        timestamp_fields(s).minute < 100,
        timestamp_fields(s).second < 100,
        timestamp_fields(s).millis <= 999,
        spelled(timestamp_fields(s)) == s,
{
    assert forall|j: int| 0 <= j < 24 && layout_separator(j) is None implies 0 <= digit_value(
        #[trigger] s[j],
    ) <= 9 && text::digit_char(digit_value(s[j]) as nat) == s[j] by {
        assert(fits_layout(s[j], j));
        lemma_digit_value(s[j]);
    }
    let d = |j: int| digit_value(s[j]);
    assert(0 <= d(0) <= 9 && 0 <= d(1) <= 9 && 0 <= d(2) <= 9 && 0 <= d(3) <= 9);
    assert(0 <= d(5) <= 9 && 0 <= d(6) <= 9 && 0 <= d(8) <= 9 && 0 <= d(9) <= 9);
    assert(0 <= d(11) <= 9 && 0 <= d(12) <= 9 && 0 <= d(14) <= 9 && 0 <= d(15) <= 9);
    assert(0 <= d(17) <= 9 && 0 <= d(18) <= 9 && 0 <= d(20) <= 9 && 0 <= d(21) <= 9);
    assert(0 <= d(22) <= 9);
    lemma_split_four(d(0), d(1), d(2), d(3));
    lemma_split_two(d(5), d(6));
    lemma_split_two(d(8), d(9));
    lemma_split_two(d(11), d(12));
    lemma_split_two(d(14), d(15));
    lemma_split_two(d(17), d(18));
    lemma_split_three(d(20), d(21), d(22));
    let ts = timestamp_fields(s);
    assert forall|j: int| 0 <= j < 24 implies #[trigger] spelled(ts)[j] == s[j] by {
        assert(fits_layout(s[j], j));
    }
    assert(spelled(ts) =~= s);
}

/// A text that parses as a timestamp is the canonical text of the timestamp
/// it parses to.
pub proof fn law_parsed_text_is_canonical(s: Seq<char>)
    requires
        timestamp_parse(s) is Ok,
    ensures
        timestamp_text(timestamp_parse(s)->Ok_0) == s,
{
    lemma_parsed_shape(s);
    lemma_fields_spelled(s);
    lemma_text_spelled(timestamp_fields(s));
}


/// The text of a timestamp in range is 24 characters, none of them a
/// space.
pub proof fn lemma_timestamp_text_shape(ts: Timestamp)
    requires
        valid_timestamp(ts),
        ts.year <= 9999,
        ts.millis <= 999,
    ensures
        timestamp_text(ts).len() == 24,
        forall|j: int| 0 <= j < 24 ==> #[trigger] timestamp_text(ts)[j] != ' ',
{
    lemma_text_spelled(ts);
    lemma_spelled_digits(ts);
    assert forall|j: int| 0 <= j < 24 implies #[trigger] timestamp_text(ts)[j] != ' ' by {
        assert(fits_layout(spelled(ts)[j], j));
    }
}

/// Twenty-four dashes are no timestamp.
pub proof fn lemma_dashes_are_no_timestamp()
    ensures
        timestamp_parse(text::repeat('-', 24)) is Err,
{
    let s = text::repeat('-', 24);
    assert forall|j: int| 0 <= j < s.len() implies (#[trigger] s[j] as u32) < 0x80 by {}
    lemma_utf8_len_ascii(s);
    assert(!fits_layout(s[0], 0));
}

} // verus!
