//! Journal entries: the hand-typeable timestamp header, the on-disk form of
//! an entry, and its human-facing display.
use crate::elapsed::{diff_text, render_diff, Elapsed};
use crate::calendar::{
    date_exists, date_stamp, days_in_month, digits, month_day_stamp, year_stamp, string_view, lemma_digits, pow10, time_stamp, full_stamp, local_now, strftime, strftime_result, valid_date, valid_time,
    DateTime, time_exists,
};
use crate::text::{
    extend_chars, extend_str, from_chars, join_lines, join_lines_vec, lines, normalize_trailing_blank_lines, normalized, split_lines, to_chars, views,
    all_digits, all_ws, contains, decimal_value, drop_blank_tail, is_digit, is_ws, lacks, lemma_drop_blank_tail,
    lemma_lines_from_last, lemma_lines_from_line, lemma_words_from_concat, lemma_words_from_shape, lemma_lines_from_no_newline, lemma_normalized_last, lemma_normalized_lines,
    lemma_split_from_last, lemma_split_from_piece, lemma_words_from_last, lemma_words_from_word,
    ends_with_cr, lemma_join_lines_front, lemma_join_lines_split, lemma_lines_of_join_newline,
    no_newline, no_ws, occurs_at, strip_cr, parse_digits_up_to, split_chars, split_on, split_whitespace, trim, trim_chars,
    words,
};
use vstd::prelude::*;

verus! {

/// The strftime template of the `[YYYY-MM-DD HH:MM:SS]` header this tool
/// writes.
pub const TIMESTAMP_FMT: &'static str = "%Y-%m-%d %H:%M:%S";

/// The timestamp shape to store for a newly created interactive entry.
#[derive(Debug, Clone, Copy, PartialEq, Eq, Structural)]
pub enum TimestampShape {
    Full,
    Year,
    MonthDay,
    Time,
}

impl Default for TimestampShape {
    fn default() -> (s: Self)
        ensures
            s == TimestampShape::Full,
    {
        TimestampShape::Full
    }
}

/// How `-h/--human` renders the elapsed-time annotation next to the
/// timestamp (`[timestamp].diff` in config.toml).
#[derive(Debug, Clone, Copy, PartialEq, Eq, Structural)]
pub enum DiffStyle {
    /// No elapsed-time annotation at all -- just the formatted date.
    Disabled,
    /// At most the two highest-order units from the first non-zero one,
    /// abbreviated, no direction word: `3h, 1m`.
    Short,
    /// At most the three highest-order units from the first non-zero one,
    /// spelled out and pluralized, with a direction word: `3 hours, 1 minute,
    /// 16 seconds ago`.
    Long,
}

impl Default for DiffStyle {
    fn default() -> (s: Self)
        ensures
            s == DiffStyle::Short,
    {
        DiffStyle::Short
    }
}

/// The date half of a `Timestamp`: one of the three written date shapes, or
/// no date part at all.
#[derive(Debug, Clone, Copy, PartialEq, Eq, Structural)]
pub enum DateSpec {
    /// No date part -- stands for whatever day it is when displayed.
    Today,
    /// Just a year (`YYYY`); month and day are `1`/`1`.
    YearOnly(i32),
    /// Just a month and day (`MM-DD`); the year is the current one when
    /// displayed.
    MonthDayOnly { month: u32, day: u32 },
    /// A full date (`YYYY-MM-DD`).
    Full { year: i32, month: u32, day: u32 },
}

/// A header's parsed timestamp: a date part and a time of day (seconds
/// defaulting to `0`, a missing time part to midnight).
#[derive(Debug, Clone, Copy, PartialEq, Eq, Structural)]
pub struct Timestamp {
    pub date: DateSpec,
    pub hour: u32,
    pub minute: u32,
    pub second: u32,
}

impl DateSpec {
    /// The date part is one some header can spell: a `YYYY` year with a
    /// valid 1 January, an `MM-DD` valid in a leap year, or a valid full
    /// date.
    pub open spec fn wf(self) -> bool {
        match self {
            DateSpec::Today => true,
            DateSpec::YearOnly(y) => valid_date(y as int, 1, 1),
            DateSpec::MonthDayOnly { month, day } => valid_date(4, month as int, day as int),
            DateSpec::Full { year, month, day } => valid_date(
                year as int,
                month as int,
                day as int,
            ),
        }
    }
}

impl Timestamp {
    pub open spec fn wf(self) -> bool {
        self.date.wf() && valid_time(self.hour as int, self.minute as int, self.second as int)
    }

    /// The date this timestamp stands for when `today` is the current day.
    pub open spec fn resolved_date(self, today: DateTime) -> (int, int, int) {
        match self.date {
            DateSpec::Today => (today.year as int, today.month as int, today.day as int),
            DateSpec::YearOnly(y) => (y as int, 1, 1),
            DateSpec::MonthDayOnly { month, day } => if valid_date(
                today.year as int,
                month as int,
                day as int,
            ) {
                (today.year as int, month as int, day as int)
            } else {
                (today.year as int, month as int, day - 1)
            },
            DateSpec::Full { year, month, day } => (year as int, month as int, day as int),
        }
    }

    /// The point in time this timestamp stands for when `today` is the
    /// current day: a missing date is `today`, a missing year is `today`'s
    /// year, and `02-29` in a year without that day is `02-28`.
    pub open spec fn resolved_spec(self, today: DateTime) -> DateTime {
        let (y, m, d) = self.resolved_date(today);
        DateTime {
            year: y as i32,
            month: m as u32,
            day: d as u32,
            hour: self.hour,
            minute: self.minute,
            second: self.second,
        }
    }

    /// The timestamp with every component given, for `dt`.
    pub open spec fn of(dt: DateTime) -> Timestamp {
        Timestamp {
            date: DateSpec::Full { year: dt.year, month: dt.month, day: dt.day },
            hour: dt.hour,
            minute: dt.minute,
            second: dt.second,
        }
    }

    /// The timestamp with every component given (what this tool writes for
    /// a new entry).
    pub fn from_datetime(dt: DateTime) -> (ts: Timestamp)
        ensures
            ts == Timestamp::of(dt),
    {
        Timestamp {
            date: DateSpec::Full { year: dt.year, month: dt.month, day: dt.day },
            hour: dt.hour,
            minute: dt.minute,
            second: dt.second,
        }
    }

    /// The point in time to display when `today` is the current day.
    pub fn resolved_at(&self, today: DateTime) -> (dt: DateTime)
        requires
            self.wf(),
            today.wf(),
        ensures
            dt == self.resolved_spec(today),
            dt.wf(),
    {
        match self.date {
            DateSpec::Today => DateTime {
                year: today.year,
                month: today.month,
                day: today.day,
                hour: self.hour,
                minute: self.minute,
                second: self.second,
            },
            DateSpec::YearOnly(y) => DateTime {
                year: y,
                month: 1,
                day: 1,
                hour: self.hour,
                minute: self.minute,
                second: self.second,
            },
            DateSpec::MonthDayOnly { month, day } => {
                let y = today.year;
                if date_exists(y, month, day) {
                    DateTime {
                        year: y,
                        month,
                        day,
                        hour: self.hour,
                        minute: self.minute,
                        second: self.second,
                    }
                } else {
                    assert(month == 2 && day == 29);
                    DateTime {
                        year: y,
                        month,
                        day: day - 1,
                        hour: self.hour,
                        minute: self.minute,
                        second: self.second,
                    }
                }
            },
            DateSpec::Full { year, month, day } => DateTime {
                year,
                month,
                day,
                hour: self.hour,
                minute: self.minute,
                second: self.second,
            },
        }
    }

    /// The point in time to display, with a missing date or year filled in
    /// from the clock's current day.
    pub fn resolved(&self) -> (dt: DateTime)
        requires
            self.wf(),
        ensures
            dt.wf(),
            exists|today: DateTime| today.wf() && dt == self.resolved_spec(today),
    {
        let today = local_now();
        self.resolved_at(today)
    }

    /// The full `YYYY-MM-DD HH:MM:SS` rendering of the point in time this
    /// timestamp stands for on `today`.
    pub fn render_at(&self, today: DateTime) -> (s: String)
        requires
            self.wf(),
            today.wf(),
        ensures
            strftime_result(TIMESTAMP_FMT@, self.resolved_spec(today)) == Some(s@),
            0 <= self.resolved_spec(today).year <= 9999 ==> s@ == full_stamp(
                self.resolved_spec(today),
            ),
    {
        let dt = self.resolved_at(today);
        render_full(dt)
    }

    /// The full `YYYY-MM-DD HH:MM:SS` rendering, resolving a missing date or
    /// year from the clock as `resolved` does.
    pub fn render(&self) -> (s: String)
        requires
            self.wf(),
        ensures
            exists|today: DateTime|
                today.wf() && strftime_result(TIMESTAMP_FMT@, self.resolved_spec(today)) == Some(
                    s@,
                ),
    {
        let today = local_now();
        self.render_at(today)
    }
}

/// `dt` in the `TIMESTAMP_FMT` layout.
pub fn render_full(dt: DateTime) -> (s: String)
    requires
        dt.wf(),
    ensures
        strftime_result(TIMESTAMP_FMT@, dt) == Some(s@),
        0 <= dt.year <= 9999 ==> s@ == full_stamp(dt),
{
    let r = strftime(TIMESTAMP_FMT, dt);
    match r {
        Some(s) => s,
        None => {
            assert(false);
            String::new()
        },
    }
}

impl TimestampShape {
    /// The strftime template storing just this shape's components.
    pub open spec fn template(self) -> Seq<char> {
        match self {
            TimestampShape::Full => TIMESTAMP_FMT@,
            TimestampShape::Year => "%Y"@,
            TimestampShape::MonthDay => "%m-%d"@,
            TimestampShape::Time => "%H:%M:%S"@,
        }
    }

    /// The header text this shape stores for `dt`, field by field: the
    /// whole `YYYY-MM-DD HH:MM:SS`, the year `YYYY`, `MM-DD`, or
    /// `HH:MM:SS`, each number zero-padded.
    pub open spec fn stamp(self, dt: DateTime) -> Seq<char> {
        match self {
            TimestampShape::Full => full_stamp(dt),
            TimestampShape::Year => year_stamp(dt),
            TimestampShape::MonthDay => month_day_stamp(dt),
            TimestampShape::Time => time_stamp(dt),
        }
    }

    /// What the header text of this shape for `dt` reads back as: the
    /// components the shape keeps, the rest left for the reader to fill
    /// in (midnight for a missing time, today for a missing date).
    pub open spec fn kept(self, dt: DateTime) -> Timestamp {
        match self {
            TimestampShape::Full => Timestamp::of(dt),
            TimestampShape::Year => Timestamp { date: DateSpec::YearOnly(dt.year), hour: 0, minute: 0, second: 0 },
            TimestampShape::MonthDay => Timestamp {
                date: DateSpec::MonthDayOnly { month: dt.month, day: dt.day },
                hour: 0,
                minute: 0,
                second: 0,
            },
            TimestampShape::Time => Timestamp { date: DateSpec::Today, hour: dt.hour, minute: dt.minute, second: dt.second },
        }
    }

    /// The header text of this shape for `timestamp`.
    pub fn format(self, timestamp: DateTime) -> (s: String)
        requires
            timestamp.wf(),
        ensures
            strftime_result(self.template(), timestamp) == Some(s@),
            (self is MonthDay || self is Time || 0 <= timestamp.year <= 9999) ==> s@ == self.stamp(timestamp),
    {
        let fmt = match self {
            TimestampShape::Full => TIMESTAMP_FMT,
            TimestampShape::Year => "%Y",
            TimestampShape::MonthDay => "%m-%d",
            TimestampShape::Time => "%H:%M:%S",
        };
        match strftime(fmt, timestamp) {
            Some(s) => s,
            None => {
                assert(false);
                String::new()
            },
        }
    }
}

/// A header field of exactly `w` ASCII digits, read as a number.
pub open spec fn field_value(s: Seq<char>, w: nat) -> Option<nat> {
    if s.len() == w && all_digits(s) {
        Some(decimal_value(s))
    } else {
        None
    }
}

/// The date part a header token spells: `YYYY`, `MM-DD` or `YYYY-MM-DD`,
/// with exactly four digits for a year and two for a month or a day.
pub open spec fn date_spec_of(tok: Seq<char>) -> Option<DateSpec> {
    let p = split_on(tok, '-');
    if p.len() == 1 {
        match field_value(p[0], 4) {
            Some(y) => if valid_date(y as int, 1, 1) {
                Some(DateSpec::YearOnly(y as i32))
            } else {
                None
            },
            None => None,
        }
    } else if p.len() == 2 {
        match (field_value(p[0], 2), field_value(p[1], 2)) {
            (Some(m), Some(d)) => if valid_date(4, m as int, d as int) {
                Some(DateSpec::MonthDayOnly { month: m as u32, day: d as u32 })
            } else {
                None
            },
            _ => None,
        }
    } else if p.len() == 3 {
        match (field_value(p[0], 4), field_value(p[1], 2), field_value(p[2], 2)) {
            (Some(y), Some(m), Some(d)) => if valid_date(y as int, m as int, d as int) {
                Some(DateSpec::Full { year: y as i32, month: m as u32, day: d as u32 })
            } else {
                None
            },
            _ => None,
        }
    } else {
        None
    }
}

/// The time of day a header token spells: `HH:MM` or `HH:MM:SS`, two
/// digits each, seconds defaulting to `0`.
pub open spec fn time_of(tok: Seq<char>) -> Option<(u32, u32, u32)> {
    let p = split_on(tok, ':');
    if p.len() == 2 {
        match (field_value(p[0], 2), field_value(p[1], 2)) {
            (Some(h), Some(m)) => if valid_time(h as int, m as int, 0) {
                Some((h as u32, m as u32, 0u32))
            } else {
                None
            },
            _ => None,
        }
    } else if p.len() == 3 {
        match (field_value(p[0], 2), field_value(p[1], 2), field_value(p[2], 2)) {
            (Some(h), Some(m), Some(sec)) => if valid_time(h as int, m as int, sec as int) {
                Some((h as u32, m as u32, sec as u32))
            } else {
                None
            },
            _ => None,
        }
    } else {
        None
    }
}

/// The timestamp that the text between a header's brackets spells: a
/// date token and a time token separated by whitespace, or one token that
/// is a date (midnight) or else a time (no date part).
pub open spec fn timestamp_of(text: Seq<char>) -> Option<Timestamp> {
    let w = words(text);
    if w.len() == 2 {
        match (date_spec_of(w[0]), time_of(w[1])) {
            (Some(d), Some(t)) => Some(Timestamp { date: d, hour: t.0, minute: t.1, second: t.2 }),
            _ => None,
        }
    } else if w.len() == 1 {
        match date_spec_of(w[0]) {
            Some(d) => Some(Timestamp { date: d, hour: 0, minute: 0, second: 0 }),
            None => match time_of(w[0]) {
                Some(t) => Some(
                    Timestamp { date: DateSpec::Today, hour: t.0, minute: t.1, second: t.2 },
                ),
                None => None,
            },
        }
    } else {
        None
    }
}

/// `j` is the first position of `c` in `s`.
pub open spec fn first_index(s: Seq<char>, c: char, j: int) -> bool {
    0 <= j < s.len() && s[j] == c && forall|k: int| 0 <= k < j ==> s[k] != c
}

/// A header line: `[`, the timestamp text up to the first `]`, and any
/// text after it (trimmed; `None` when there is none). Yields the parsed
/// timestamp, the exact bracket-interior text, and that trailing text.
pub open spec fn header_of(line: Seq<char>) -> Option<(Timestamp, Seq<char>, Option<Seq<char>>)> {
    if line.len() > 0 && line[0] == '[' && exists|j: int| first_index(line.drop_first(), ']', j) {
        let rest = line.drop_first();
        let j = choose|j: int| first_index(rest, ']', j);
        let inner = rest.take(j);
        let after = trim(rest.skip(j + 1));
        match timestamp_of(inner) {
            Some(t) => Some(
                (
                    t,
                    inner,
                    if after.len() > 0 {
                        Some(after)
                    } else {
                        None
                    },
                ),
            ),
            None => None,
        }
    } else {
        None
    }
}

proof fn lemma_timestamp_of_wf(text: Seq<char>)
    ensures
        timestamp_of(text) matches Some(t) ==> t.wf(),
{
}

/// Numbers of at most four digits stay below `10^4`.
proof fn lemma_decimal_value_bound(s: Seq<char>)
    requires
        all_digits(s),
    ensures
        decimal_value(s) < pow10(s.len()),
    decreases s.len(),
{
    if s.len() > 0 {
        let d = s.drop_last();
        assert(all_digits(d)) by {
            assert forall|i: int| 0 <= i < d.len() implies is_digit(#[trigger] d[i]) by {
                assert(d[i] == s[i]);
            }
        }
        lemma_decimal_value_bound(d);
        assert(is_digit(s.last()));
        let v = decimal_value(d);
        let p = pow10(d.len());
        assert(pow10(s.len()) == 10 * p);
        assert(v * 10 + 9 < 10 * p) by (nonlinear_arith)
            requires
                v < p,
        ;
    }
}

/// A header field of exactly `width` ASCII digits (`width` from 1 to 4).
pub fn parse_digits(s: &[char], width: usize) -> (res: Option<u32>)
    requires
        1 <= width <= 4,
    ensures
        res matches Some(v) ==> field_value(s@, width as nat) == Some(v as nat) && v <= 9999,
        res is None ==> field_value(s@, width as nat) is None,
{
    if s.len() != width {
        return None;
    }
    proof {
        if all_digits(s@) {
            lemma_decimal_value_bound(s@);
            reveal_with_fuel(pow10, 5);
            assert(pow10(s@.len()) <= 10000);
        }
    }
    match parse_digits_up_to(s, 9999u64) {
        Some(v) => Some(v as u32),
        None => None,
    }
}

/// Parses one of the three date shapes of a header.
pub fn parse_date_tok(s: &[char]) -> (res: Option<DateSpec>)
    ensures
        res == date_spec_of(s@),
{
    let parts = split_chars(s, '-');
    if parts.len() == 1 {
        match parse_digits(parts[0].as_slice(), 4) {
            Some(y) => {
                let year = y as i32;
                if date_exists(year, 1, 1) {
                    Some(DateSpec::YearOnly(year))
                } else {
                    None
                }
            },
            None => None,
        }
    } else if parts.len() == 2 {
        let m = parse_digits(parts[0].as_slice(), 2);
        let d = parse_digits(parts[1].as_slice(), 2);
        match (m, d) {
            (Some(month), Some(day)) => if date_exists(4, month, day) {
                Some(DateSpec::MonthDayOnly { month, day })
            } else {
                None
            },
            _ => None,
        }
    } else if parts.len() == 3 {
        let y = parse_digits(parts[0].as_slice(), 4);
        let m = parse_digits(parts[1].as_slice(), 2);
        let d = parse_digits(parts[2].as_slice(), 2);
        match (y, m, d) {
            (Some(y), Some(month), Some(day)) => {
                let year = y as i32;
                if date_exists(year, month, day) {
                    Some(DateSpec::Full { year, month, day })
                } else {
                    None
                }
            },
            _ => None,
        }
    } else {
        None
    }
}

/// Parses `HH:MM` or `HH:MM:SS` into `(hour, minute, second)`.
pub fn parse_time_tok(s: &[char]) -> (res: Option<(u32, u32, u32)>)
    ensures
        res == time_of(s@),
{
    let parts = split_chars(s, ':');
    if parts.len() == 2 {
        let h = parse_digits(parts[0].as_slice(), 2);
        let m = parse_digits(parts[1].as_slice(), 2);
        match (h, m) {
            (Some(h), Some(m)) => if time_exists(h, m, 0) {
                Some((h, m, 0))
            } else {
                None
            },
            _ => None,
        }
    } else if parts.len() == 3 {
        let h = parse_digits(parts[0].as_slice(), 2);
        let m = parse_digits(parts[1].as_slice(), 2);
        let sec = parse_digits(parts[2].as_slice(), 2);
        match (h, m, sec) {
            (Some(h), Some(m), Some(sec)) => if time_exists(h, m, sec) {
                Some((h, m, sec))
            } else {
                None
            },
            _ => None,
        }
    } else {
        None
    }
}

/// Parses the text between a header's `[` and `]` into a `Timestamp`.
pub fn parse_timestamp_text(s: &[char]) -> (res: Option<Timestamp>)
    ensures
        res == timestamp_of(s@),
        res matches Some(t) ==> t.wf(),
{
    let tokens = split_whitespace(s);
    proof {
        lemma_timestamp_of_wf(s@);
    }
    if tokens.len() == 2 {
        let d = parse_date_tok(tokens[0].as_slice());
        let t = parse_time_tok(tokens[1].as_slice());
        match (d, t) {
            (Some(date), Some((hour, minute, second))) => Some(
                Timestamp { date, hour, minute, second },
            ),
            _ => None,
        }
    } else if tokens.len() == 1 {
        match parse_date_tok(tokens[0].as_slice()) {
            Some(date) => Some(Timestamp { date, hour: 0, minute: 0, second: 0 }),
            None => match parse_time_tok(tokens[0].as_slice()) {
                Some((hour, minute, second)) => Some(
                    Timestamp { date: DateSpec::Today, hour, minute, second },
                ),
                None => None,
            },
        }
    } else {
        None
    }
}

/// A parsed header line: the timestamp, the exact bracket-interior text,
/// and any text after the `]` (trimmed), which callers keep rather than
/// drop.
pub struct Header {
    pub timestamp: Timestamp,
    pub raw: Vec<char>,
    pub overflow: Option<Vec<char>>,
}

impl Header {
    pub open spec fn matches_spec(self, h: (Timestamp, Seq<char>, Option<Seq<char>>)) -> bool {
        &&& self.timestamp == h.0
        &&& self.raw@ == h.1
        &&& match (self.overflow, h.2) {
            (Some(o), Some(p)) => o@ == p,
            (None, None) => true,
            _ => false,
        }
    }
}

/// Parses a header line: `[`, a timestamp, `]`, and possibly stray text
/// after it.
pub fn parse_header(line: &[char]) -> (res: Option<Header>)
    ensures
        res is Some <==> header_of(line@) is Some,
        res matches Some(h) ==> h.matches_spec(header_of(line@)->0) && h.timestamp.wf(),
{
    if line.len() == 0 || line[0] != '[' {
        return None;
    }
    let mut j: usize = 1;
    while j < line.len() && line[j] != ']'
        invariant
            1 <= j <= line@.len(),
            forall|k: int| 1 <= k < j ==> line@[k] != ']',
        decreases line.len() - j,
    {
        j = j + 1;
    }
    let ghost rest = line@.drop_first();
    if j == line.len() {
        assert forall|jj: int| !first_index(rest, ']', jj) by {
            if first_index(rest, ']', jj) {
                assert(rest[jj] == line@[jj + 1]);
            }
        }
        return None;
    }
    assert(first_index(rest, ']', j - 1)) by {
        assert forall|k: int| 0 <= k < j - 1 implies rest[k] != ']' by {
            assert(rest[k] == line@[k + 1]);
        }
    }
    assert forall|jj: int| first_index(rest, ']', jj) implies jj == j - 1 by {
        if jj < j - 1 {
            assert(rest[jj] == line@[jj + 1]);
        }
        if jj > j - 1 {
            assert(rest[j - 1] == ']');
        }
    }
    let mut inner: Vec<char> = Vec::new();
    let mut k: usize = 1;
    while k < j
        invariant
            1 <= k <= j < line@.len(),
            inner@ == line@.subrange(1, k as int),
        decreases j - k,
    {
        inner.push(line[k]);
        k = k + 1;
        assert(inner@ =~= line@.subrange(1, k as int));
    }
    assert(inner@ =~= rest.take(j - 1));
    let mut after: Vec<char> = Vec::new();
    let mut k: usize = j + 1;
    while k < line.len()
        invariant
            j + 1 <= k <= line@.len(),
            after@ == line@.subrange(j + 1, k as int),
        decreases line.len() - k,
    {
        after.push(line[k]);
        k = k + 1;
        assert(after@ =~= line@.subrange(j + 1, k as int));
    }
    assert(after@ =~= rest.skip(j as int));
    let ts = parse_timestamp_text(inner.as_slice());
    match ts {
        Some(timestamp) => {
            let trimmed = trim_chars(after.as_slice());
            let overflow = if trimmed.len() > 0 {
                Some(trimmed)
            } else {
                None
            };
            Some(Header { timestamp, raw: inner, overflow })
        },
        None => None,
    }
}

/// A token is a tag by its shape alone: `@` followed by at least one more
/// character (`@\S+`).
pub open spec fn is_tag(w: Seq<char>) -> bool {
    w.len() > 1 && w[0] == '@'
}

/// Whether a token is a tag: `@` and at least one more character.
fn is_tag_token(token: &Vec<char>) -> (b: bool)
    ensures
        b == is_tag(token@),
{
    token.len() > 1 && token[0] == '@'
}

/// The tag tokens among `ws`, in order.
pub open spec fn tag_words(ws: Seq<Seq<char>>) -> Seq<Seq<char>>
    decreases ws.len(),
{
    if ws.len() == 0 {
        Seq::empty()
    } else if is_tag(ws.last()) {
        tag_words(ws.drop_last()).push(ws.last())
    } else {
        tag_words(ws.drop_last())
    }
}

/// Every `@tag` token of a body, in the order it appears.
pub open spec fn tags_of(body: Seq<char>) -> Seq<Seq<char>> {
    tag_words(words(body))
}

/// The on-disk form of an entry whose header text is `header`: the
/// timestamp alone on its line, the body (if any) and one blank line.
pub open spec fn render_with(header: Seq<char>, body: Seq<char>) -> Seq<char> {
    seq!['['] + header + seq![']', '\n'] + (if body.len() > 0 {
        body + seq!['\n']
    } else {
        Seq::empty()
    }) + seq!['\n']
}

/// What parsing one entry block yields: its timestamp, its body (the
/// lines after the header, with stray text from the header line put in
/// front, trailing blank lines trimmed) and the exact header text.
pub open spec fn parse_spec(raw: Seq<char>) -> Option<(Timestamp, Seq<char>, Seq<char>)> {
    let ls = lines(raw);
    if ls.len() == 0 {
        None
    } else {
        match header_of(ls[0]) {
            None => None,
            Some(h) => {
                let rest = join_lines(ls.drop_first());
                let body = match h.2 {
                    Some(o) => if rest.len() == 0 {
                        o
                    } else {
                        o + seq!['\n'] + rest
                    },
                    None => rest,
                };
                Some((h.0, normalized(body), h.1))
            },
        }
    }
}

/// The positions, among the first `n` lines, of those that are headers.
pub open spec fn header_positions(ls: Seq<Seq<char>>, n: int) -> Seq<int>
    decreases n,
{
    if n <= 0 {
        Seq::empty()
    } else if header_of(ls[n - 1]) is Some {
        header_positions(ls, n - 1).push(n - 1)
    } else {
        header_positions(ls, n - 1)
    }
}

/// The lines of the `k`-th entry block: from its header up to the next
/// header (or the end).
pub open spec fn block(ls: Seq<Seq<char>>, hs: Seq<int>, k: int) -> Seq<Seq<char>> {
    let end = if k + 1 < hs.len() {
        hs[k + 1]
    } else {
        ls.len() as int
    };
    ls.subrange(hs[k], end)
}

/// What a whole journal file parses to: one entry per header line, each
/// block re-joined and parsed as one entry.
pub open spec fn parse_all_spec(text: Seq<char>) -> Seq<Option<(Timestamp, Seq<char>, Seq<char>)>> {
    let ls = lines(text);
    let hs = header_positions(ls, ls.len() as int);
    Seq::new(hs.len(), |k: int| parse_spec(join_lines(block(ls, hs, k))))
}

/// The present values of `s`, in order.
pub open spec fn somes<T>(s: Seq<Option<T>>) -> Seq<T>
    decreases s.len(),
{
    if s.len() == 0 {
        Seq::empty()
    } else {
        match s.last() {
            Some(v) => somes(s.drop_last()).push(v),
            None => somes(s.drop_last()),
        }
    }
}

/// An entry: its timestamp, its body, and -- for an entry read from a
/// file -- the exact header text it was written with.
#[derive(Debug, Clone, PartialEq, Eq)]
pub struct Entry {
    pub timestamp: Timestamp,
    pub body: String,
    /// The exact bracket-interior text this entry was parsed from (`None`
    /// for an entry built fresh). Rendering writes it back verbatim, so a
    /// hand-typed shorthand header stays as it was on disk.
    pub raw_header: Option<String>,
}

impl Entry {
    pub open spec fn wf(self) -> bool {
        self.timestamp.wf()
    }

    /// This entry holds what `p` (a result of `parse_spec`) describes.
    pub open spec fn is_parsed(self, p: (Timestamp, Seq<char>, Seq<char>)) -> bool {
        &&& self.timestamp == p.0
        &&& self.body@ == p.1
        &&& self.raw_header matches Some(r) && r@ == p.2
    }

    /// A new entry at `timestamp` with `body` (trailing blank lines
    /// trimmed).
    pub fn new(timestamp: Timestamp, body: &str) -> (e: Entry)
        ensures
            e.timestamp == timestamp,
            e.body@ == normalized(body@),
            e.raw_header is None,
    {
        let cs = to_chars(body);
        let b = normalize_trailing_blank_lines(cs.as_slice());
        Entry { timestamp, body: from_chars(b.as_slice()), raw_header: None }
    }

    /// A new entry stamped with the current local date and time.
    pub fn now(body: &str) -> (e: Entry)
        ensures
            exists|dt: DateTime| dt.wf() && e.timestamp == Timestamp::of(dt),
            e.body@ == normalized(body@),
            e.raw_header is None,
    {
        let dt = local_now();
        Entry::new(Timestamp::from_datetime(dt), body)
    }

    /// A new entry at `timestamp` whose header stores only the components
    /// that `shape` selects.
    pub fn new_with_shape(timestamp: DateTime, body: &str, shape: TimestampShape) -> (e: Entry)
        requires
            timestamp.wf(),
        ensures
            e.timestamp == Timestamp::of(timestamp),
            e.body@ == normalized(body@),
            e.raw_header matches Some(r) && strftime_result(shape.template(), timestamp) == Some(
                r@,
            ),
            0 <= timestamp.year <= 9999 ==> (e.raw_header matches Some(r) && r@ == shape.stamp(timestamp)),
    {
        let mut e = Entry::new(Timestamp::from_datetime(timestamp), body);
        e.raw_header = Some(shape.format(timestamp));
        e
    }

    /// A new entry stamped with the current local date and time, whose
    /// header stores only the components that `shape` selects.
    pub fn now_with_shape(body: &str, shape: TimestampShape) -> (e: Entry)
        ensures
            exists|dt: DateTime|
                dt.wf() && e.timestamp == Timestamp::of(dt) && (e.raw_header matches Some(r)
                    && strftime_result(shape.template(), dt) == Some(r@)) && (0 <= dt.year <= 9999
                    ==> (e.raw_header matches Some(r) && r@ == shape.stamp(dt))),
            e.body@ == normalized(body@),
    {
        let dt = local_now();
        Entry::new_with_shape(dt, body, shape)
    }

    /// Every `@tag` token found anywhere in the body, in order.
    pub fn tags(&self) -> (out: Vec<String>)
        ensures
            out@.len() == tags_of(self.body@).len(),
            forall|k: int| 0 <= k < out@.len() ==> #[trigger] out@[k]@ == tags_of(self.body@)[k],
    {
        let cs = to_chars(self.body.as_str());
        let ws = split_whitespace(cs.as_slice());
        let ghost wv = words(self.body@);
        let mut out: Vec<String> = Vec::new();
        let mut i: usize = 0;
        assert(wv.take(0) =~= Seq::<Seq<char>>::empty());
        while i < ws.len()
            invariant
                i <= ws@.len(),
                ws@.len() == wv.len(),
                forall|k: int| 0 <= k < ws@.len() ==> #[trigger] ws@[k]@ == wv[k],
                out@.len() == tag_words(wv.take(i as int)).len(),
                forall|k: int|
                    0 <= k < out@.len() ==> #[trigger] out@[k]@ == tag_words(wv.take(i as int))[k],
            decreases ws.len() - i,
        {
            assert(wv.take(i + 1).drop_last() =~= wv.take(i as int));
            assert(wv.take(i + 1).last() == ws@[i as int]@);
            if is_tag_token(&ws[i]) {
                out.push(from_chars(ws[i].as_slice()));
            }
            i = i + 1;
        }
        assert(wv.take(wv.len() as int) =~= wv);
        out
    }

    /// The on-disk form, with `header` as the bracket-interior text.
    fn render_header(&self, header: &[char]) -> (s: String)
        ensures
            s@ == render_with(header@, self.body@),
    {
        let mut out: Vec<char> = Vec::new();
        out.push('[');
        extend_chars(&mut out, header);
        out.push(']');
        out.push('\n');
        let ghost before = out@;
        if !self.body.as_str().is_empty() {
            extend_str(&mut out, self.body.as_str());
            out.push('\n');
        }
        out.push('\n');
        proof {
            if self.body@.len() > 0 {
                assert(out@ =~= render_with(header@, self.body@));
            } else {
                assert(out@ =~= render_with(header@, self.body@));
            }
        }
        from_chars(out.as_slice())
    }

    /// The on-disk form when `today` is the current day: the stored header
    /// text verbatim if this entry was read from a file, else the full
    /// `YYYY-MM-DD HH:MM:SS` rendering of its timestamp.
    pub fn render_at(&self, today: DateTime) -> (s: String)
        requires
            self.wf(),
            today.wf(),
        ensures
            self.raw_header matches Some(r) ==> s@ == render_with(r@, self.body@),
            self.raw_header is None ==> exists|stamp: Seq<char>|
                strftime_result(TIMESTAMP_FMT@, self.timestamp.resolved_spec(today)) == Some(stamp)
                    && s@ == render_with(stamp, self.body@),
            self.raw_header is None && 0 <= self.timestamp.resolved_spec(today).year <= 9999
                ==> s@ == render_with(full_stamp(self.timestamp.resolved_spec(today)), self.body@),
    {
        match &self.raw_header {
            Some(raw) => {
                let cs = to_chars(raw.as_str());
                self.render_header(cs.as_slice())
            },
            None => {
                let stamp = self.timestamp.render_at(today);
                let cs = to_chars(stamp.as_str());
                self.render_header(cs.as_slice())
            },
        }
    }

    /// The on-disk representation: the header alone on its own line, the
    /// body, and the single trailing blank line that ends every entry.
    pub fn render(&self) -> (s: String)
        requires
            self.wf(),
        ensures
            self.raw_header matches Some(r) ==> s@ == render_with(r@, self.body@),
            self.raw_header is None ==> exists|today: DateTime, stamp: Seq<char>|
                today.wf() && strftime_result(TIMESTAMP_FMT@, self.timestamp.resolved_spec(today))
                    == Some(stamp) && s@ == render_with(stamp, self.body@),
            forall|dt: DateTime|
                self.raw_header is None && self.timestamp == #[trigger] Timestamp::of(dt) && 0
                    <= dt.year <= 9999 ==> s@ == render_with(full_stamp(dt), self.body@),
    {
        let today = local_now();
        self.render_at(today)
    }

    /// Parses one entry block given as characters.
    pub fn parse_chars(raw: &[char]) -> (res: Option<Entry>)
        ensures
            res is Some <==> parse_spec(raw@) is Some,
            res matches Some(e) ==> e.is_parsed(parse_spec(raw@)->0) && e.wf(),
    {
        let ls = split_lines(raw);
        if ls.len() == 0 {
            return None;
        }
        assert(ls@[0]@ == lines(raw@)[0]);
        let h = parse_header(ls[0].as_slice());
        match h {
            None => None,
            Some(h) => {
                let ghost lv = views(ls@);
                assert(lv =~= lines(raw@));
                let mut rest_lines: Vec<Vec<char>> = Vec::new();
                let mut i: usize = 1;
                while i < ls.len()
                    invariant
                        1 <= i <= ls@.len(),
                        lv == views(ls@),
                        lv == lines(raw@),
                        rest_lines@.len() == i - 1,
                        forall|k: int|
                            0 <= k < rest_lines@.len() ==> #[trigger] rest_lines@[k]@ == lv[k + 1],
                    decreases ls.len() - i,
                {
                    rest_lines.push(ls[i].clone());
                    i = i + 1;
                }
                assert(views(rest_lines@) =~= lv.drop_first());
                let n = rest_lines.len();
                let rest = join_lines_vec(rest_lines.as_slice(), n);
                assert(views(rest_lines@).take(n as int) =~= views(rest_lines@));
                let body = match h.overflow {
                    Some(o) => if rest.len() == 0 {
                        o
                    } else {
                        let mut b = o;
                        b.push('\n');
                        extend_chars(&mut b, rest.as_slice());
                        b
                    },
                    None => rest,
                };
                let ghost hh = header_of(lines(raw@)[0])->0;
                assert(body@ == match hh.2 {
                    Some(o) => if rest@.len() == 0 {
                        o
                    } else {
                        o + seq!['\n'] + rest@
                    },
                    None => rest@,
                });
                let nb = normalize_trailing_blank_lines(body.as_slice());
                let e = Entry {
                    timestamp: h.timestamp,
                    body: from_chars(nb.as_slice()),
                    raw_header: Some(from_chars(h.raw.as_slice())),
                };
                let ghost p = parse_spec(raw@)->0;
                assert(rest@ == join_lines(lines(raw@).drop_first()));
                assert(e.timestamp == p.0);
                assert(e.raw_header->0@ == p.2);
                assert(e.body@ == p.1);
                Some(e)
            },
        }
    }

    /// Parses a single entry block: a header line followed by its body
    /// lines. Text on the header line after the timestamp is folded into
    /// the body rather than dropped.
    pub fn parse(raw: &str) -> (res: Option<Entry>)
        ensures
            res is Some <==> parse_spec(raw@) is Some,
            res matches Some(e) ==> e.is_parsed(parse_spec(raw@)->0) && e.wf(),
    {
        let cs = to_chars(raw);
        Entry::parse_chars(cs.as_slice())
    }

    /// Parses every entry of a journal file. Entry boundaries are the
    /// header lines, not blank lines, since a body may hold blank lines of
    /// its own.
    pub fn parse_all(text: &str) -> (out: Vec<Entry>)
        ensures
            out@.len() == somes(parse_all_spec(text@)).len(),
            forall|k: int|
                0 <= k < out@.len() ==> #[trigger] out@[k].is_parsed(
                    somes(parse_all_spec(text@))[k],
                ) && out@[k].wf(),
    {
        let cs = to_chars(text);
        let ls = split_lines(cs.as_slice());
        let ghost lv = views(ls@);
        assert(lv =~= lines(text@));
        let mut hs: Vec<usize> = Vec::new();
        let mut i: usize = 0;
        while i < ls.len()
            invariant
                i <= ls@.len(),
                lv == views(ls@),
                hs@.len() == header_positions(lv, i as int).len(),
                forall|k: int|
                    0 <= k < hs@.len() ==> #[trigger] hs@[k] as int == header_positions(
                        lv,
                        i as int,
                    )[k],
                forall|k: int| 0 <= k < hs@.len() ==> #[trigger] hs@[k] < i,
                forall|k: int, l: int| 0 <= k < l < hs@.len() ==> hs@[k] < hs@[l],
            decreases ls.len() - i,
        {
            if parse_header(ls[i].as_slice()).is_some() {
                hs.push(i);
            }
            i = i + 1;
        }
        let ghost hv = header_positions(lv, lv.len() as int);
        let ghost all = parse_all_spec(text@);
        assert(all.take(0) =~= Seq::<Option<(Timestamp, Seq<char>, Seq<char>)>>::empty());
        let mut out: Vec<Entry> = Vec::new();
        let mut n: usize = 0;
        while n < hs.len()
            invariant
                n <= hs@.len(),
                lv == views(ls@),
                hv == header_positions(lv, lv.len() as int),
                lv == lines(text@),
                all == parse_all_spec(text@),
                all.len() == hv.len(),
                hs@.len() == hv.len(),
                forall|k: int| 0 <= k < hs@.len() ==> #[trigger] hs@[k] as int == hv[k],
                forall|k: int| 0 <= k < hs@.len() ==> #[trigger] hs@[k] < ls@.len(),
                forall|k: int, l: int| 0 <= k < l < hs@.len() ==> hs@[k] < hs@[l],
                out@.len() == somes(all.take(n as int)).len(),
                forall|k: int|
                    0 <= k < out@.len() ==> (#[trigger] out@[k]).is_parsed(
                        somes(all.take(n as int))[k],
                    ) && out@[k].wf(),
            decreases hs.len() - n,
        {
            let start = hs[n];
            let end = if n + 1 < hs.len() {
                hs[n + 1]
            } else {
                ls.len()
            };
            let mut seg: Vec<Vec<char>> = Vec::new();
            let mut j: usize = start;
            while j < end
                invariant
                    start <= j <= end <= ls@.len(),
                    lv == views(ls@),
                    seg@.len() == j - start,
                    forall|k: int| 0 <= k < seg@.len() ==> #[trigger] seg@[k]@ == lv[k + start],
                decreases end - j,
            {
                seg.push(ls[j].clone());
                j = j + 1;
            }
            assert(views(seg@) =~= block(lv, hv, n as int));
            let len = seg.len();
            let joined = join_lines_vec(seg.as_slice(), len);
            assert(views(seg@).take(len as int) =~= views(seg@));
            assert(all[n as int] == parse_spec(join_lines(block(lv, hv, n as int))));
            assert(all.take(n + 1).drop_last() =~= all.take(n as int));
            let ghost prev = all.take(n as int);
            let ghost cur = all.take(n + 1);
            match Entry::parse_chars(joined.as_slice()) {
                Some(e) => {
                    assert(somes(cur) == somes(prev).push(all[n as int]->0));
                    assert(joined@ == join_lines(block(lv, hv, n as int)));
                    let ghost old_out = out@;
                    out.push(e);
                    assert forall|k: int| 0 <= k < out@.len() implies (#[trigger] out@[k]).is_parsed(
                        somes(cur)[k],
                    ) && out@[k].wf() by {
                        if k < old_out.len() {
                            assert(out@[k] == old_out[k]);
                            assert(somes(cur)[k] == somes(prev)[k]);
                        }
                    }
                },
                None => {
                    assert(somes(cur) == somes(prev));
                    assert forall|k: int| 0 <= k < out@.len() implies (#[trigger] out@[k]).is_parsed(
                        somes(cur)[k],
                    ) && out@[k].wf() by {
                        assert(somes(cur)[k] == somes(prev)[k]);
                    }
                },
            }
            n = n + 1;
        }
        assert(all.take(hs@.len() as int) =~= all);
        out
    }
}

/// Controls how `Entry::display` and `Entry::display_header` render the
/// timestamp header.
pub struct DisplayOpts<'a> {
    /// `-h/--human`: render `format` and the elapsed-time annotation
    /// rather than the plain resolved timestamp.
    pub human: bool,
    /// strftime template applied to the entry's own timestamp.
    pub format: &'a str,
    /// How to render (or whether to render at all) the elapsed-time
    /// annotation.
    pub diff: DiffStyle,
    /// Whether to show the header line at all (`--no-headers` clears it);
    /// without it the blank line between entries is dropped too.
    pub header: bool,
}

/// Why a header could not be rendered.
#[derive(Debug, Clone, Copy, PartialEq, Eq, Structural)]
pub enum DisplayError {
    /// `chrono` cannot render the configured strftime template for a date
    /// and time without a time zone.
    UnrenderableFormat,
}

/// The characters of a rendering result, or the error.
pub open spec fn result_view(r: Result<String, DisplayError>) -> Result<Seq<char>, DisplayError> {
    match r {
        Ok(s) => Ok(s@),
        Err(e) => Err(e),
    }
}

impl Entry {
    /// The header line shown for this entry when `now` is the current
    /// date and time: empty without headers; `### ` and the resolved
    /// timestamp in `TIMESTAMP_FMT` by default; with `human`, `### `, the
    /// resolved timestamp under `opts.format`, and ` (annotation)` unless
    /// the annotation is disabled.
    pub open spec fn header_spec(self, human: bool, format: Seq<char>, diff: DiffStyle, header: bool, now: DateTime) -> Result<Seq<char>, DisplayError> {
        let resolved = self.timestamp.resolved_spec(now);
        if !header {
            Ok(Seq::empty())
        } else if !human {
            Ok("### "@ + strftime_result(TIMESTAMP_FMT@, resolved)->0 + seq!['\n'])
        } else {
            match strftime_result(format, resolved) {
                None => Err(DisplayError::UnrenderableFormat),
                Some(date) => if diff is Disabled {
                    Ok("### "@ + date + seq!['\n'])
                } else {
                    Ok("### "@ + date + " ("@ + diff_text(diff, Elapsed::of(resolved, now))->0
                        + seq![')', '\n'])
                },
            }
        }
    }

    /// The displayed entry: header line, body, and -- with headers -- the
    /// blank line that separates it from the next.
    pub open spec fn display_spec(self, human: bool, format: Seq<char>, diff: DiffStyle, header: bool, now: DateTime) -> Result<Seq<char>, DisplayError> {
        match self.header_spec(human, format, diff, header, now) {
            Err(e) => Err(e),
            Ok(h) => Ok(h + (if self.body@.len() > 0 {
                self.body@ + seq!['\n']
            } else {
                Seq::empty()
            }) + (if header {
                seq!['\n']
            } else {
                Seq::empty()
            })),
        }
    }

    /// The header line of `display` when `now` is the current date and
    /// time (also the resolving day for a missing date or year).
    pub fn display_header_at(&self, opts: &DisplayOpts, now: DateTime) -> (res: Result<String, DisplayError>)
        requires
            self.wf(),
            now.wf(),
        ensures
            result_view(res) == self.header_spec(opts.human, opts.format@, opts.diff, opts.header, now),
            opts.format@ == "%Y-%m-%d %H:%M"@ ==> res is Ok,
    {
        if !opts.header {
            let e = String::new();
            assert(e@ =~= Seq::<char>::empty());
            return Ok(e);
        }
        let resolved = self.timestamp.resolved_at(now);
        let mut out: Vec<char> = Vec::new();
        extend_str(&mut out, "### ");
        if opts.human {
            match strftime(opts.format, resolved) {
                None => Err(DisplayError::UnrenderableFormat),
                Some(date) => {
                    extend_str(&mut out, date.as_str());
                    match opts.diff {
                        DiffStyle::Disabled => {
                            out.push('\n');
                            assert(out@ =~= "### "@ + date@ + seq!['\n']);
                            Ok(from_chars(out.as_slice()))
                        },
                        _ => {
                            match render_diff(opts.diff, resolved, now) {
                                Some(d) => {
                                    extend_str(&mut out, " (");
                                    extend_str(&mut out, d.as_str());
                                    out.push(')');
                                    out.push('\n');
                                    assert(out@ =~= "### "@ + date@ + " ("@ + d@ + seq![')', '\n']);
                                    Ok(from_chars(out.as_slice()))
                                },
                                None => {
                                    assert(false);
                                    Err(DisplayError::UnrenderableFormat)
                                },
                            }
                        },
                    }
                },
            }
        } else {
            let stamp = render_full(resolved);
            extend_str(&mut out, stamp.as_str());
            out.push('\n');
            assert(out@ =~= "### "@ + stamp@ + seq!['\n']);
            Ok(from_chars(out.as_slice()))
        }
    }

    /// The header line of `display`, resolving against the clock.
    pub fn display_header(&self, opts: &DisplayOpts) -> (res: Result<String, DisplayError>)
        requires
            self.wf(),
        ensures
            exists|now: DateTime|
                now.wf() && result_view(res) == self.header_spec(
                    opts.human,
                    opts.format@,
                    opts.diff,
                    opts.header,
                    now,
                ),
            opts.format@ == "%Y-%m-%d %H:%M"@ ==> res is Ok,
    {
        let now = local_now();
        self.display_header_at(opts, now)
    }

    /// The entry for a reader when `now` is the current date and time.
    pub fn display_at(&self, opts: &DisplayOpts, now: DateTime) -> (res: Result<String, DisplayError>)
        requires
            self.wf(),
            now.wf(),
        ensures
            result_view(res) == self.display_spec(opts.human, opts.format@, opts.diff, opts.header, now),
            opts.format@ == "%Y-%m-%d %H:%M"@ ==> res is Ok,
    {
        let h = self.display_header_at(opts, now);
        match h {
            Err(e) => Err(e),
            Ok(h) => {
                let mut out = to_chars(h.as_str());
                if !self.body.as_str().is_empty() {
                    extend_str(&mut out, self.body.as_str());
                    out.push('\n');
                }
                if opts.header {
                    out.push('\n');
                }
                assert(out@ =~= h@ + (if self.body@.len() > 0 {
                    self.body@ + seq!['\n']
                } else {
                    Seq::empty()
                }) + (if opts.header {
                    seq!['\n']
                } else {
                    Seq::empty()
                }));
                Ok(from_chars(out.as_slice()))
            },
        }
    }

    /// The entry for a reader (`journal -s`, `journal -N`): the header as
    /// a Markdown heading rather than the on-disk `[...]` form.
    pub fn display(&self, opts: &DisplayOpts) -> (res: Result<String, DisplayError>)
        requires
            self.wf(),
        ensures
            exists|now: DateTime|
                now.wf() && result_view(res) == self.display_spec(
                    opts.human,
                    opts.format@,
                    opts.diff,
                    opts.header,
                    now,
                ),
            opts.format@ == "%Y-%m-%d %H:%M"@ ==> res is Ok,
    {
        let now = local_now();
        self.display_at(opts, now)
    }
}


/// Text with all its trailing line breaks removed
/// (`str::trim_end_matches('\n')`).
pub open spec fn trim_end_newlines(s: Seq<char>) -> Seq<char>
    decreases s.len(),
{
    if s.len() > 0 && s.last() == '\n' {
        trim_end_newlines(s.drop_last())
    } else {
        s
    }
}

proof fn lemma_stamp_pieces(dt: DateTime)
    requires
        dt.wf(),
        0 <= dt.year <= 9999,
    ensures
        no_ws(date_stamp(dt)),
        no_ws(time_stamp(dt)),
        lacks(full_stamp(dt), ']'),
        lacks(full_stamp(dt), '\n'),
        full_stamp(dt) == date_stamp(dt) + seq![' '] + time_stamp(dt),
        date_spec_of(date_stamp(dt)) == Some(
            DateSpec::Full { year: dt.year, month: dt.month, day: dt.day },
        ),
        time_of(time_stamp(dt)) == Some((dt.hour, dt.minute, dt.second)),
{
    let y = digits(dt.year as nat, 4);
    let mo = digits(dt.month as nat, 2);
    let d = digits(dt.day as nat, 2);
    let h = digits(dt.hour as nat, 2);
    let mi = digits(dt.minute as nat, 2);
    let se = digits(dt.second as nat, 2);
    lemma_digits(dt.year as nat, 4);
    lemma_digits(dt.month as nat, 2);
    lemma_digits(dt.day as nat, 2);
    lemma_digits(dt.hour as nat, 2);
    lemma_digits(dt.minute as nat, 2);
    lemma_digits(dt.second as nat, 2);
    assert(pow10(2) == 100) by {
        reveal_with_fuel(pow10, 3);
    }
    assert(pow10(4) == 10000) by {
        reveal_with_fuel(pow10, 5);
    }
    let ds = date_stamp(dt);
    let ts = time_stamp(dt);
    assert(ds == y + seq!['-'] + mo + seq!['-'] + d);
    assert(ts == h + seq![':'] + mi + seq![':'] + se);
    assert forall|i: int| 0 <= i < ds.len() implies !is_ws(#[trigger] ds[i]) && ds[i] != ']'
        && (ds[i] == '-' || is_digit(ds[i])) by {
        if i < 4 {
            assert(ds[i] == y[i]);
        } else if i == 4 || i == 7 {
        } else if i < 7 {
            assert(ds[i] == mo[i - 5]);
        } else {
            assert(ds[i] == d[i - 8]);
        }
    }
    assert forall|i: int| 0 <= i < ts.len() implies !is_ws(#[trigger] ts[i]) && ts[i] != ']' by {
        if i < 2 {
            assert(ts[i] == h[i]);
        } else if i == 2 || i == 5 {
        } else if i < 5 {
            assert(ts[i] == mi[i - 3]);
        } else {
            assert(ts[i] == se[i - 6]);
        }
    }
    assert(full_stamp(dt) =~= ds + seq![' '] + ts);
    let fs = full_stamp(dt);
    assert forall|i: int| 0 <= i < fs.len() implies #[trigger] fs[i] != ']' && fs[i] != '\n' by {
        if i < ds.len() {
            assert(fs[i] == ds[i]);
        } else if i > ds.len() {
            assert(fs[i] == ts[i - ds.len() - 1]);
        }
    }
    assert forall|x: Seq<char>, c: char| all_digits(x) && c == '-' implies lacks(x, c) by {
        assert forall|i: int| 0 <= i < x.len() implies #[trigger] x[i] != c by {
            assert(is_digit(x[i]));
        }
    }
    assert forall|x: Seq<char>, c: char| all_digits(x) && c == ':' implies lacks(x, c) by {
        assert forall|i: int| 0 <= i < x.len() implies #[trigger] x[i] != c by {
            assert(is_digit(x[i]));
        }
    }
    // the date token splits at '-' into its three fields
    lemma_split_from_piece(y, '-', mo + seq!['-'] + d, Seq::empty());
    assert(y + seq!['-'] + (mo + seq!['-'] + d) =~= ds);
    lemma_split_from_piece(mo, '-', d, Seq::empty());
    lemma_split_from_last(d, '-', Seq::empty());
    assert(Seq::<char>::empty() + y =~= y);
    assert(Seq::<char>::empty() + mo =~= mo);
    assert(Seq::<char>::empty() + d =~= d);
    assert(split_on(ds, '-') =~= seq![y, mo, d]);
    // the time token splits at ':' into its three fields
    lemma_split_from_piece(h, ':', mi + seq![':'] + se, Seq::empty());
    assert(h + seq![':'] + (mi + seq![':'] + se) =~= ts);
    lemma_split_from_piece(mi, ':', se, Seq::empty());
    lemma_split_from_last(se, ':', Seq::empty());
    assert(Seq::<char>::empty() + h =~= h);
    assert(Seq::<char>::empty() + mi =~= mi);
    assert(Seq::<char>::empty() + se =~= se);
    assert(split_on(ts, ':') =~= seq![h, mi, se]);
    assert(field_value(y, 4) == Some(dt.year as nat));
    assert(field_value(mo, 2) == Some(dt.month as nat));
    assert(field_value(d, 2) == Some(dt.day as nat));
    assert(field_value(h, 2) == Some(dt.hour as nat));
    assert(field_value(mi, 2) == Some(dt.minute as nat));
    assert(field_value(se, 2) == Some(dt.second as nat));
}

/// The header line `[YYYY-MM-DD HH:MM:SS]` this tool writes for `dt` parses
/// back to `dt`'s timestamp, with that exact text and nothing after it.
pub proof fn lemma_header_of_stamp(dt: DateTime)
    requires
        dt.wf(),
        0 <= dt.year <= 9999,
    ensures
        header_of(seq!['['] + full_stamp(dt) + seq![']']) == Some(
            (Timestamp::of(dt), full_stamp(dt), None::<Seq<char>>),
        ),
{
    lemma_stamp_pieces(dt);
    let fs = full_stamp(dt);
    let line = seq!['['] + fs + seq![']'];
    let rest = line.drop_first();
    assert(rest =~= fs + seq![']']);
    let n = fs.len() as int;
    assert(first_index(rest, ']', n));
    assert forall|j: int| first_index(rest, ']', j) implies j == n by {
        if j < n {
            assert(rest[j] == fs[j]);
        }
        if j > n {
            assert(rest[n] == ']');
        }
    }
    let j = choose|j: int| first_index(rest, ']', j);
    assert(j == n);
    assert(rest.take(n) =~= fs);
    assert(rest.skip(n + 1) =~= Seq::<char>::empty());
    assert(trim(Seq::<char>::empty()) =~= Seq::<char>::empty());
    // the two words of the stamp
    lemma_words_from_word(date_stamp(dt), ' ', time_stamp(dt), Seq::empty());
    lemma_words_from_last(time_stamp(dt), Seq::empty());
    assert(Seq::<char>::empty() + date_stamp(dt) =~= date_stamp(dt));
    assert(Seq::<char>::empty() + time_stamp(dt) =~= time_stamp(dt));
    assert(words(fs) =~= seq![date_stamp(dt), time_stamp(dt)]);
    assert(timestamp_of(fs) == Some(Timestamp::of(dt)));
}

/// The pieces of the shorter stamps: each is one token without blanks,
/// and its fields split apart and read back as the numbers they spell.
proof fn lemma_short_stamp_pieces(dt: DateTime)
    requires
        dt.wf(),
        0 <= dt.year <= 9999,
    ensures
        words(year_stamp(dt)) == seq![year_stamp(dt)],
        words(month_day_stamp(dt)) == seq![month_day_stamp(dt)],
        words(time_stamp(dt)) == seq![time_stamp(dt)],
        words(date_stamp(dt)) == seq![date_stamp(dt)],
        date_spec_of(year_stamp(dt)) == Some(DateSpec::YearOnly(dt.year)),
        date_spec_of(month_day_stamp(dt)) == Some(DateSpec::MonthDayOnly { month: dt.month, day: dt.day }),
        date_spec_of(time_stamp(dt)) is None,
{
    lemma_stamp_pieces(dt);
    let y = digits(dt.year as nat, 4);
    let mo = digits(dt.month as nat, 2);
    let d = digits(dt.day as nat, 2);
    let h = digits(dt.hour as nat, 2);
    let mi = digits(dt.minute as nat, 2);
    let se = digits(dt.second as nat, 2);
    lemma_digits(dt.year as nat, 4);
    lemma_digits(dt.month as nat, 2);
    lemma_digits(dt.day as nat, 2);
    lemma_digits(dt.hour as nat, 2);
    lemma_digits(dt.minute as nat, 2);
    lemma_digits(dt.second as nat, 2);
    assert(pow10(2) == 100) by {
        reveal_with_fuel(pow10, 3);
    }
    assert(pow10(4) == 10000) by {
        reveal_with_fuel(pow10, 5);
    }
    let ys = year_stamp(dt);
    let md = month_day_stamp(dt);
    let ts = time_stamp(dt);
    let ds = date_stamp(dt);
    assert(ys == y);
    assert(md == mo + seq!['-'] + d);
    assert(ts == h + seq![':'] + mi + seq![':'] + se);
    assert forall|x: Seq<char>| all_digits(x) implies lacks(x, '-') && no_ws(x) by {
        assert forall|i: int| 0 <= i < x.len() implies #[trigger] x[i] != '-' by {
            assert(is_digit(x[i]));
        }
        assert forall|i: int| 0 <= i < x.len() implies !is_ws(#[trigger] x[i]) by {
            assert(is_digit(x[i]));
        }
    }
    assert(no_ws(ys));
    assert forall|i: int| 0 <= i < md.len() implies !is_ws(#[trigger] md[i]) by {
        if i < 2 {
            assert(md[i] == mo[i]);
        } else if i > 2 {
            assert(md[i] == d[i - 3]);
        }
    }
    assert forall|i: int| 0 <= i < ts.len() implies #[trigger] ts[i] != '-' && !is_ws(ts[i]) by {
        if i < 2 {
            assert(ts[i] == h[i]);
        } else if 2 < i < 5 {
            assert(ts[i] == mi[i - 3]);
        } else if i > 5 {
            assert(ts[i] == se[i - 6]);
        }
    }
    // one word each
    lemma_words_from_last(ys, Seq::empty());
    lemma_words_from_last(md, Seq::empty());
    lemma_words_from_last(ts, Seq::empty());
    lemma_words_from_last(ds, Seq::empty());
    assert(Seq::<char>::empty() + ys =~= ys);
    assert(Seq::<char>::empty() + md =~= md);
    assert(Seq::<char>::empty() + ts =~= ts);
    assert(Seq::<char>::empty() + ds =~= ds);
    // the year alone
    lemma_split_from_last(y, '-', Seq::empty());
    assert(split_on(ys, '-') =~= seq![y]);
    assert(field_value(y, 4) == Some(dt.year as nat));
    assert(valid_date(dt.year as int, 1, 1));
    // month and day
    lemma_split_from_piece(mo, '-', d, Seq::empty());
    lemma_split_from_last(d, '-', Seq::empty());
    assert(Seq::<char>::empty() + mo =~= mo);
    assert(Seq::<char>::empty() + d =~= d);
    assert(split_on(md, '-') =~= seq![mo, d]);
    assert(field_value(mo, 2) == Some(dt.month as nat));
    assert(field_value(d, 2) == Some(dt.day as nat));
    assert(days_in_month(dt.year as int, dt.month as int) <= days_in_month(4, dt.month as int));
    assert(valid_date(4, dt.month as int, dt.day as int));
    // the time holds no '-', and is too long to be a year
    lemma_split_from_last(ts, '-', Seq::empty());
    assert(Seq::<char>::empty() + ts =~= ts);
    assert(split_on(ts, '-') =~= seq![ts]);
    assert(ts.len() == 8);
}

/// A header holding just a full date `YYYY-MM-DD` reads as that very date
/// at midnight, for every date with a four-digit year.
pub proof fn lemma_date_header_is_midnight(dt: DateTime)
    requires
        dt.wf(),
        0 <= dt.year <= 9999,
    ensures
        timestamp_of(date_stamp(dt)) == Some(
            Timestamp { date: DateSpec::Full { year: dt.year, month: dt.month, day: dt.day }, hour: 0, minute: 0, second: 0 },
        ),
{
    lemma_stamp_pieces(dt);
    lemma_short_stamp_pieces(dt);
}

/// The header text that each timestamp shape stores for a date and time
/// with a four-digit year reads back as exactly the components that shape
/// keeps: the whole timestamp, the year alone (1 January, midnight), the
/// month and day (midnight), or the time of day (today).
pub proof fn lemma_shape_header_reads_back(shape: TimestampShape, dt: DateTime)
    requires
        dt.wf(),
        0 <= dt.year <= 9999,
    ensures
        timestamp_of(shape.stamp(dt)) == Some(shape.kept(dt)),
{
    lemma_stamp_pieces(dt);
    lemma_short_stamp_pieces(dt);
    match shape {
        TimestampShape::Full => {
            lemma_words_from_word(date_stamp(dt), ' ', time_stamp(dt), Seq::empty());
            lemma_words_from_last(time_stamp(dt), Seq::empty());
            assert(Seq::<char>::empty() + date_stamp(dt) =~= date_stamp(dt));
            assert(Seq::<char>::empty() + time_stamp(dt) =~= time_stamp(dt));
            assert(words(full_stamp(dt)) =~= seq![date_stamp(dt), time_stamp(dt)]);
        },
        _ => {},
    }
}

proof fn lemma_trim_end_newlines_push(a: Seq<char>)
    ensures
        trim_end_newlines(a + seq!['\n']) == trim_end_newlines(a),
{
    assert((a + seq!['\n']).drop_last() =~= a);
}

/// An entry written out and read back keeps its timestamp and its body:
/// for a new entry at `dt` (a year of four digits) with text `text`,
/// parsing its rendering, trailing line breaks removed, gives the same
/// timestamp, the same (normalized) body, and the written header text.
/// A body holding a carriage return right before a line break is the
/// exception: reading splits lines there and drops the carriage return.
pub proof fn lemma_render_parse_round_trip(dt: DateTime, text: Seq<char>)
    requires
        dt.wf(),
        0 <= dt.year <= 9999,
        !contains(normalized(text), seq!['\r', '\n']),
    ensures
        parse_spec(trim_end_newlines(render_with(full_stamp(dt), normalized(text)))) == Some(
            (Timestamp::of(dt), normalized(text), full_stamp(dt)),
        ),
{
    lemma_header_of_stamp(dt);
    lemma_stamp_pieces(dt);
    let fs = full_stamp(dt);
    assert forall|i: int| 0 <= i < fs.len() implies fs[i] != '\n' by {
        assert(fs[i] != '\n');
    }
    lemma_round_trip_with_header(fs, Timestamp::of(dt), text);
}

/// Writing an entry with header text `h0` and reading it back gives that
/// timestamp, that body and that header text, when the header line reads
/// as `h0` alone.
proof fn lemma_round_trip_with_header(h0: Seq<char>, t: Timestamp, text: Seq<char>)
    requires
        header_of(seq!['['] + h0 + seq![']']) == Some((t, h0, None::<Seq<char>>)),
        no_newline(h0),
        !contains(normalized(text), seq!['\r', '\n']),
    ensures
        parse_spec(trim_end_newlines(render_with(h0, normalized(text)))) == Some(
            (t, normalized(text), h0),
        ),
{
    let body = normalized(text);
    let h = seq!['['] + h0 + seq![']'];
    lemma_normalized_lines(text);
    lemma_normalized_last(text);
    assert(no_newline(h)) by {
        assert forall|i: int| 0 <= i < h.len() implies h[i] != '\n' by {
            if 0 < i < h.len() - 1 {
                assert(h[i] == h0[i - 1]);
            }
        }
    }
    assert(strip_cr(h) == h);
    assert(Seq::<char>::empty() + h =~= h);
    let r = render_with(h0, body);
    if body.len() > 0 {
        let raw = h + seq!['\n'] + body;
        assert(r =~= raw + seq!['\n'] + seq!['\n']);
        lemma_trim_end_newlines_push(raw + seq!['\n']);
        lemma_trim_end_newlines_push(raw);
        assert(raw.last() == body.last());
        assert(trim_end_newlines(raw) == raw);
        lemma_lines_from_line(h, body, Seq::empty());
        assert(lines(raw) == seq![h] + lines(body));
        assert(lines(raw).drop_first() =~= lines(body));
        assert(lines(raw)[0] == h);
    } else {
        assert(r =~= h + seq!['\n'] + seq!['\n']);
        lemma_trim_end_newlines_push(h + seq!['\n']);
        lemma_trim_end_newlines_push(h);
        assert(trim_end_newlines(h) == h);
        lemma_lines_from_last(h, Seq::empty());
        assert(lines(h) =~= seq![h]);
        assert(lines(h).drop_first() =~= Seq::<Seq<char>>::empty());
        assert(join_lines(Seq::<Seq<char>>::empty()) =~= Seq::<char>::empty());
        assert(lines(Seq::<char>::empty()) =~= Seq::<Seq<char>>::empty());
        assert(normalized(Seq::<char>::empty()) =~= Seq::<char>::empty());
    }
}

/// An entry read from the file, written back and read again, is the same
/// entry with the same header text, byte for byte: a hand-typed shorthand
/// header such as `[2025]` or `[08:30]` is kept as it was, never expanded
/// or corrected. (As for a new entry, a body holding a carriage return
/// right before a line break is the exception.)
pub proof fn lemma_reparse_keeps_header(raw: Seq<char>)
    requires
        parse_spec(raw) is Some,
        !contains((parse_spec(raw)->0).1, seq!['\r', '\n']),
    ensures
        ({
            let p = parse_spec(raw)->0;
            parse_spec(trim_end_newlines(render_with(p.2, p.1))) == Some(p)
        }),
{
    let p = parse_spec(raw)->0;
    let ls = lines(raw);
    let line = ls[0];
    let hd = header_of(line)->0;
    let rest = line.drop_first();
    let j = choose|j: int| first_index(rest, ']', j);
    let h0 = rest.take(j);
    assert(h0 == p.2);
    assert(timestamp_of(h0) == Some(p.0));
    // the body is the normalized form of what followed the header
    let after = join_lines(ls.drop_first());
    let pre = match hd.2 {
        Some(o) => if after.len() == 0 {
            o
        } else {
            o + seq!['\n'] + after
        },
        None => after,
    };
    assert(p.1 == normalized(pre));
    // the header text holds no line break and no `]`
    lemma_lines_from_no_newline(raw, Seq::empty());
    assert(no_newline(line));
    assert forall|i: int| 0 <= i < h0.len() implies h0[i] != '\n' && h0[i] != ']' by {
        assert(h0[i] == line[i + 1]);
    }
    // so the written header line reads back as `h0` alone
    let h = seq!['['] + h0 + seq![']'];
    let rest2 = h.drop_first();
    assert(rest2 =~= h0 + seq![']']);
    assert(first_index(rest2, ']', h0.len() as int));
    assert forall|k: int| first_index(rest2, ']', k) implies k == h0.len() by {
        if k < h0.len() {
            assert(rest2[k] == h0[k]);
        }
        if k > h0.len() {
            assert(rest2[h0.len() as int] == ']');
        }
    }
    assert(rest2.take(h0.len() as int) =~= h0);
    assert(rest2.skip(h0.len() as int + 1) =~= Seq::<char>::empty());
    assert(trim(Seq::<char>::empty()) =~= Seq::<char>::empty());
    assert(header_of(h) == Some((p.0, h0, None::<Seq<char>>)));
    lemma_round_trip_with_header(h0, p.0, pre);
}


/// A `-t` word as a tag: kept when it already starts with `@`, else
/// prefixed with `@`.
pub open spec fn flag_tag(w: Seq<char>) -> Seq<char> {
    if w.len() > 0 && w[0] == '@' {
        w
    } else {
        seq!['@'] + w
    }
}

/// The words joined with single spaces (`[..].join(" ")`).
pub open spec fn join_words(ws: Seq<Seq<char>>) -> Seq<char>
    decreases ws.len(),
{
    if ws.len() == 0 {
        Seq::empty()
    } else if ws.len() == 1 {
        ws[0]
    } else {
        join_words(ws.drop_last()) + seq![' '] + ws.last()
    }
}

/// The words of a `-t` value, each made a tag.
pub open spec fn flag_tags(s: Seq<char>) -> Seq<Seq<char>> {
    Seq::new(words(s).len(), |k: int| flag_tag(words(s)[k]))
}

/// The tags line a `-t` value makes: its words, bare ones prefixed with
/// `@`, joined by single spaces; none when the value has no words.
pub open spec fn tags_line_spec(s: Seq<char>) -> Option<Seq<char>> {
    if words(s).len() == 0 {
        None
    } else {
        Some(join_words(flag_tags(s)))
    }
}

/// Builds the tags line that `-t/--tags` appends: splits `s` on whitespace
/// and prefixes any bare word with `@`, so `"beer @store"` becomes
/// `"@beer @store"`. `None` when `s` has no words at all.
pub fn tags_line_from_flag(s: &str) -> (res: Option<String>)
    ensures
        string_view(res) == tags_line_spec(s@),
{
    let cs = to_chars(s);
    let ws = split_whitespace(cs.as_slice());
    if ws.len() == 0 {
        return None;
    }
    let ghost tags = flag_tags(s@);
    let mut out: Vec<char> = Vec::new();
    let mut i: usize = 0;
    while i < ws.len()
        invariant
            i <= ws@.len() == words(s@).len() == tags.len(),
            tags == flag_tags(s@),
            forall|j: int| 0 <= j < ws@.len() ==> #[trigger] ws@[j]@ == words(s@)[j],
            out@ == join_words(tags.take(i as int)),
        decreases ws.len() - i,
    {
        let ghost prev = tags.take(i as int);
        if i > 0 {
            out.push(' ');
        }
        let w = &ws[i];
        if !(w.len() > 0 && w[0] == '@') {
            out.push('@');
        }
        extend_chars(&mut out, w.as_slice());
        proof {
            let next = tags.take(i + 1);
            assert(next.drop_last() =~= prev);
            assert(next.last() == flag_tag(w@));
            if i == 0 {
                assert(out@ =~= next[0]);
            } else {
                assert(out@ =~= join_words(prev) + seq![' '] + next.last());
            }
        }
        i = i + 1;
    }
    assert(tags.take(ws.len() as int) =~= tags);
    Some(from_chars(out.as_slice()))
}

/// The characters of an optional string slice.
pub open spec fn opt_view(o: Option<&str>) -> Option<Seq<char>> {
    match o {
        Some(s) => Some(s@),
        None => None,
    }
}

/// The body of a new entry: the entry text, trailing blank lines trimmed,
/// with the tags line of `tags_flag` (if it makes one) as its own last
/// line.
pub open spec fn entry_body_spec(text: Seq<char>, tags_flag: Option<Seq<char>>) -> Seq<char> {
    let body = normalized(text);
    match tags_flag {
        None => body,
        Some(f) => match tags_line_spec(f) {
            None => body,
            Some(line) => if body.len() == 0 {
                line
            } else {
                body + seq!['\n'] + line
            },
        },
    }
}

/// The body of a new entry from its text and an optional `-t/--tags`
/// value: the text with trailing blank lines trimmed, and the tags line
/// appended as its own line.
pub fn entry_body(text: &str, tags_flag: Option<&str>) -> (body: String)
    ensures
        body@ == entry_body_spec(text@, opt_view(tags_flag)),
{
    let cs = to_chars(text);
    let mut out = normalize_trailing_blank_lines(cs.as_slice());
    match tags_flag {
        None => {},
        Some(f) => match tags_line_from_flag(f) {
            None => {},
            Some(line) => {
                if out.len() > 0 {
                    out.push('\n');
                }
                extend_str(&mut out, line.as_str());
            },
        },
    }
    from_chars(out.as_slice())
}


proof fn lemma_join_words_front(ws: Seq<Seq<char>>)
    requires
        ws.len() >= 2,
    ensures
        join_words(ws) == ws[0] + seq![' '] + join_words(ws.drop_first()),
    decreases ws.len(),
{
    let d = ws.drop_last();
    let r = ws.drop_first();
    assert(join_words(ws) == join_words(d) + seq![' '] + ws.last());
    if ws.len() > 2 {
        lemma_join_words_front(d);
        assert(d.drop_first() =~= r.drop_last());
        assert(r.last() == ws.last());
        assert(join_words(r) == join_words(r.drop_last()) + seq![' '] + r.last());
        assert(d[0] == ws[0]);
        assert(join_words(ws) =~= ws[0] + seq![' '] + join_words(r));
    } else {
        assert(d =~= seq![ws[0]]);
        assert(r =~= seq![ws[1]]);
        assert(join_words(d) == ws[0]);
        assert(join_words(r) == ws[1]);
    }
}

/// Non-empty words without whitespace, joined by spaces, split back into
/// the same words.
proof fn lemma_words_of_join_words(ws: Seq<Seq<char>>)
    requires
        forall|k: int| 0 <= k < ws.len() ==> (#[trigger] ws[k]).len() > 0 && no_ws(ws[k]),
    ensures
        words(join_words(ws)) == ws,
    decreases ws.len(),
{
    if ws.len() == 0 {
        assert(words(Seq::<char>::empty()) =~= ws);
    } else if ws.len() == 1 {
        assert(ws[0].len() > 0 && no_ws(ws[0]));
        lemma_words_from_last(ws[0], Seq::empty());
        assert(Seq::<char>::empty() + ws[0] =~= ws[0]);
        assert(seq![ws[0]] =~= ws);
    } else {
        lemma_join_words_front(ws);
        let r = ws.drop_first();
        assert forall|k: int| 0 <= k < r.len() implies (#[trigger] r[k]).len() > 0 && no_ws(r[k]) by {
            assert(r[k] == ws[k + 1]);
        }
        lemma_words_of_join_words(r);
        assert(ws[0].len() > 0 && no_ws(ws[0]));
        assert(is_ws(' '));
        lemma_words_from_word(ws[0], ' ', join_words(r), Seq::empty());
        assert(Seq::<char>::empty() + ws[0] =~= ws[0]);
        assert(seq![ws[0]] + r =~= ws);
    }
}

proof fn lemma_flag_tags_shape(s: Seq<char>)
    ensures
        forall|k: int|
            0 <= k < flag_tags(s).len() ==> (#[trigger] flag_tags(s)[k]).len() > 0 && no_ws(
                flag_tags(s)[k],
            ) && flag_tags(s)[k][0] == '@',
{
    lemma_words_from_shape(s, Seq::empty());
    assert forall|k: int| 0 <= k < flag_tags(s).len() implies (#[trigger] flag_tags(s)[k]).len()
        > 0 && no_ws(flag_tags(s)[k]) && flag_tags(s)[k][0] == '@' by {
        let w = words(s)[k];
        let t = flag_tags(s)[k];
        assert(t == flag_tag(w));
        assert(w.len() > 0 && no_ws(w));
        if !(w[0] == '@') {
            assert(t == seq!['@'] + w);
            assert forall|i: int| 0 <= i < t.len() implies !is_ws(#[trigger] t[i]) by {
                if i > 0 {
                    assert(t[i] == w[i - 1]);
                }
            }
        }
    }
}

/// Normalizing a tags line a second time changes nothing.
pub proof fn lemma_tags_line_idempotent(s: Seq<char>)
    requires
        tags_line_spec(s) is Some,
    ensures
        tags_line_spec(tags_line_spec(s)->0) == tags_line_spec(s),
{
    let t = flag_tags(s);
    let line = join_words(t);
    lemma_flag_tags_shape(s);
    lemma_words_of_join_words(t);
    assert(words(line) == t);
    assert(flag_tags(line) =~= t);
}

/// `tag_words` of two lists of words is that of each, in turn.
proof fn lemma_tag_words_concat(x: Seq<Seq<char>>, y: Seq<Seq<char>>)
    ensures
        tag_words(x + y) == tag_words(x) + tag_words(y),
    decreases y.len(),
{
    if y.len() == 0 {
        assert(x + y =~= x);
        assert(tag_words(x) + tag_words(y) =~= tag_words(x));
    } else {
        lemma_tag_words_concat(x, y.drop_last());
        assert((x + y).drop_last() =~= x + y.drop_last());
        assert((x + y).last() == y.last());
    }
}

/// A list of tags is all kept by `tag_words`.
proof fn lemma_tag_words_all(ws: Seq<Seq<char>>)
    requires
        forall|k: int| 0 <= k < ws.len() ==> is_tag(#[trigger] ws[k]),
    ensures
        tag_words(ws) == ws,
    decreases ws.len(),
{
    if ws.len() > 0 {
        let d = ws.drop_last();
        assert forall|k: int| 0 <= k < d.len() implies is_tag(#[trigger] d[k]) by {
            assert(d[k] == ws[k]);
        }
        lemma_tag_words_all(d);
        assert(is_tag(ws[ws.len() - 1]));
        assert(d.push(ws.last()) =~= ws);
    }
}

/// The tags of a new entry made with `-t/--tags` are the tags of its text,
/// then each word of the flag value as a tag, in order. A word that is a
/// lone `@` is the exception: it is written but is not a tag.
pub proof fn lemma_entry_body_tags(text: Seq<char>, flag: Seq<char>)
    requires
        forall|k: int| 0 <= k < words(flag).len() ==> #[trigger] words(flag)[k] != seq!['@'],
    ensures
        tags_of(entry_body_spec(text, Some(flag))) == tags_of(normalized(text)) + flag_tags(flag),
{
    let t = flag_tags(flag);
    let body = normalized(text);
    lemma_flag_tags_shape(flag);
    lemma_words_from_shape(flag, Seq::empty());
    assert forall|k: int| 0 <= k < t.len() implies is_tag(#[trigger] t[k]) by {
        let w = words(flag)[k];
        assert(t[k] == flag_tag(w));
        assert(w.len() > 0);
        if w[0] == '@' {
            assert(w != seq!['@']);
            if w.len() == 1 {
                assert(w =~= seq!['@']);
            }
        } else {
            assert(t[k] == seq!['@'] + w);
            assert(t[k].len() == w.len() + 1);
            assert(t[k][0] == '@');
        }
    }
    lemma_tag_words_all(t);
    if words(flag).len() == 0 {
        assert(t =~= Seq::<Seq<char>>::empty());
        assert(tags_of(body) + t =~= tags_of(body));
    } else {
        let line = join_words(t);
        lemma_words_of_join_words(t);
        assert(tags_of(line) == t);
        if body.len() == 0 {
            assert(words(body) =~= Seq::<Seq<char>>::empty());
            assert(tags_of(body) + t =~= t);
        } else {
            assert(is_ws('\n'));
            lemma_words_from_concat(body, '\n', line, Seq::empty());
            lemma_tag_words_concat(words(body), words(line));
        }
    }
}


/// Every written entry ends with exactly one blank line: a line break,
/// then an empty line, whatever trailing blank lines its text had.
pub proof fn lemma_render_ends_with_one_blank_line(header: Seq<char>, text: Seq<char>)
    ensures
        ({
            let r = render_with(header, normalized(text));
            &&& r.len() >= 3
            &&& r[r.len() - 1] == '\n'
            &&& r[r.len() - 2] == '\n'
            &&& r[r.len() - 3] != '\n'
        }),
{
    let body = normalized(text);
    lemma_normalized_last(text);
    let r = render_with(header, body);
    if body.len() > 0 {
        let front = seq!['['] + header + seq![']', '\n'];
        assert(r =~= front + body + seq!['\n'] + seq!['\n']);
        assert(r[r.len() - 3] == body.last());
    } else {
        assert(r =~= seq!['['] + header + seq![']', '\n'] + seq!['\n']);
        assert(r[r.len() - 3] == ']');
    }
}


/// The lines an entry written at `dt` with text `text` takes up in the
/// file: its header, its body lines, and the blank line that ends it.
pub open spec fn entry_lines(dt: DateTime, text: Seq<char>) -> Seq<Seq<char>> {
    seq![seq!['['] + full_stamp(dt) + seq![']']] + lines(normalized(text)) + seq![
        Seq::<char>::empty(),
    ]
}

/// An entry that reads back on its own exactly as it was written: a date
/// with a four-digit year, and no carriage return right before a line
/// break of the written body (its last line included).
pub open spec fn writes_cleanly(dt: DateTime, text: Seq<char>) -> bool {
    &&& dt.wf()
    &&& 0 <= dt.year <= 9999
    &&& !contains(normalized(text) + seq!['\n'], seq!['\r', '\n'])
}

/// An entry that also reads back exactly as written among others in a
/// file: in addition, no body line is itself a header line.
pub open spec fn reads_back(dt: DateTime, text: Seq<char>) -> bool {
    &&& writes_cleanly(dt, text)
    &&& forall|j: int|
        0 <= j < lines(normalized(text)).len() ==> header_of(#[trigger] lines(normalized(text))[j])
            is None
}

/// The journal file made by writing the first `n` entries, one after the
/// other.
pub open spec fn journal_text(stamps: Seq<DateTime>, texts: Seq<Seq<char>>, n: int) -> Seq<char>
    decreases n,
{
    if n <= 0 {
        Seq::empty()
    } else {
        journal_text(stamps, texts, n - 1) + render_with(
            full_stamp(stamps[n - 1]),
            normalized(texts[n - 1]),
        )
    }
}

/// The lines of the journal file made by writing the first `n` entries.
pub open spec fn journal_lines(stamps: Seq<DateTime>, texts: Seq<Seq<char>>, n: int) -> Seq<
    Seq<char>,
>
    decreases n,
{
    if n <= 0 {
        Seq::empty()
    } else {
        journal_lines(stamps, texts, n - 1) + entry_lines(stamps[n - 1], texts[n - 1])
    }
}

/// Each item shifted by `d`.
pub open spec fn shifted(s: Seq<int>, d: int) -> Seq<int> {
    Seq::new(s.len(), |i: int| s[i] + d)
}

proof fn lemma_header_positions_prefix(x: Seq<Seq<char>>, y: Seq<Seq<char>>, n: int)
    requires
        0 <= n <= x.len(),
        n <= y.len(),
        x.take(n) == y.take(n),
    ensures
        header_positions(x, n) == header_positions(y, n),
    decreases n,
{
    if n > 0 {
        assert(x[n - 1] == x.take(n)[n - 1]);
        assert(y[n - 1] == y.take(n)[n - 1]);
        assert(x.take(n - 1) =~= x.take(n).take(n - 1));
        assert(y.take(n - 1) =~= y.take(n).take(n - 1));
        lemma_header_positions_prefix(x, y, n - 1);
    }
}

proof fn lemma_header_positions_concat(a: Seq<Seq<char>>, b: Seq<Seq<char>>, m: int)
    requires
        0 <= m <= b.len(),
    ensures
        header_positions(a + b, a.len() + m) == header_positions(a, a.len() as int) + shifted(
            header_positions(b, m),
            a.len() as int,
        ),
    decreases m,
{
    if m == 0 {
        assert((a + b).take(a.len() as int) =~= a.take(a.len() as int));
        lemma_header_positions_prefix(a + b, a, a.len() as int);
        assert(shifted(header_positions(b, 0), a.len() as int) =~= Seq::<int>::empty());
        assert(header_positions(a, a.len() as int) + Seq::<int>::empty() =~= header_positions(
            a,
            a.len() as int,
        ));
    } else {
        lemma_header_positions_concat(a, b, m - 1);
        assert((a + b)[a.len() + m - 1] == b[m - 1]);
        let hb = header_positions(b, m - 1);
        if header_of(b[m - 1]) is Some {
            assert(shifted(hb.push(m - 1), a.len() as int) =~= shifted(hb, a.len() as int).push(
                a.len() + m - 1,
            ));
        }
    }
}

proof fn lemma_header_positions_first_only(ls: Seq<Seq<char>>, n: int)
    requires
        1 <= n <= ls.len(),
        header_of(ls[0]) is Some,
        forall|j: int| 1 <= j < ls.len() ==> header_of(#[trigger] ls[j]) is None,
    ensures
        header_positions(ls, n) == seq![0int],
    decreases n,
{
    if n > 1 {
        lemma_header_positions_first_only(ls, n - 1);
    } else {
        assert(header_positions(ls, 0) =~= Seq::<int>::empty());
        assert(Seq::<int>::empty().push(0) =~= seq![0int]);
    }
}

/// The lines of a written body: none holds a line break or ends in a
/// carriage return, and they join back into the body.
proof fn lemma_body_lines(text: Seq<char>)
    requires
        !contains(normalized(text) + seq!['\n'], seq!['\r', '\n']),
    ensures
        forall|k: int|
            0 <= k < lines(normalized(text)).len() ==> no_newline(
                #[trigger] lines(normalized(text))[k],
            ) && !ends_with_cr(lines(normalized(text))[k]),
        join_lines(lines(normalized(text))) == normalized(text),
        normalized(normalized(text)) == normalized(text),
        !contains(normalized(text), seq!['\r', '\n']),
{
    let b = normalized(text);
    let d = lines(b);
    if contains(b, seq!['\r', '\n']) {
        let p = choose|p: int| occurs_at(b, seq!['\r', '\n'], p);
        assert((b + seq!['\n']).subrange(p, p + 2) =~= b.subrange(p, p + 2));
        assert(occurs_at(b + seq!['\n'], seq!['\r', '\n'], p));
    }
    lemma_normalized_lines(text);
    if d.len() > 0 {
        if d.len() >= 2 {
            assert(join_lines(d) == join_lines(d.drop_last()) + seq!['\n'] + d.last());
        }
        assert(b.last() == d.last().last());
        if ends_with_cr(d.last()) {
            let p = b.len() - 1;
            assert((b + seq!['\n']).subrange(p, p + 2) =~= seq!['\r', '\n']);
            assert(occurs_at(b + seq!['\n'], seq!['\r', '\n'], p));
        }
    }
    assert forall|k: int| 0 <= k < d.len() implies no_newline(#[trigger] d[k]) && !ends_with_cr(
        d[k],
    ) by {
        if k == d.len() - 1 {
            assert(d[k] == d.last());
        }
    }
}

/// The header line of `dt` holds no line break and does not end in a
/// carriage return.
proof fn lemma_header_line_shape(dt: DateTime)
    requires
        dt.wf(),
        0 <= dt.year <= 9999,
    ensures
        no_newline(seq!['['] + full_stamp(dt) + seq![']']),
        !ends_with_cr(seq!['['] + full_stamp(dt) + seq![']']),
{
    lemma_stamp_pieces(dt);
    let fs = full_stamp(dt);
    let h = seq!['['] + fs + seq![']'];
    assert forall|i: int| 0 <= i < h.len() implies h[i] != '\n' by {
        if 0 < i < h.len() - 1 {
            assert(h[i] == fs[i - 1]);
        }
    }
}

/// How a written entry's rendering is made of its lines.
proof fn lemma_entry_render(dt: DateTime, text: Seq<char>)
    requires
        writes_cleanly(dt, text),
    ensures
        render_with(full_stamp(dt), normalized(text)) == join_lines(entry_lines(dt, text)) + seq![
            '\n',
        ],
        join_lines(entry_lines(dt, text)) == join_lines(
            seq![seq!['['] + full_stamp(dt) + seq![']']] + lines(normalized(text)),
        ) + seq!['\n'],
        entry_lines(dt, text).len() >= 2,
        forall|k: int|
            0 <= k < entry_lines(dt, text).len() ==> no_newline(#[trigger] entry_lines(dt, text)[k])
                && !ends_with_cr(entry_lines(dt, text)[k]),
{
    let fs = full_stamp(dt);
    let h = seq!['['] + fs + seq![']'];
    let b = normalized(text);
    let d = lines(b);
    let e = entry_lines(dt, text);
    let hd = seq![h] + d;
    assert(e =~= hd + seq![Seq::<char>::empty()]);
    lemma_body_lines(text);
    lemma_header_line_shape(dt);
    assert forall|k: int| 0 <= k < e.len() implies no_newline(#[trigger] e[k]) && !ends_with_cr(
        e[k],
    ) by {
        if k == 0 {
            assert(e[k] == h);
        } else if k < hd.len() {
            assert(e[k] == d[k - 1]);
        } else {
            assert(e[k] == Seq::<char>::empty());
        }
    }
    assert(e.drop_last() =~= hd);
    assert(join_lines(e) == join_lines(hd) + seq!['\n'] + Seq::<char>::empty());
    assert(join_lines(e) =~= join_lines(hd) + seq!['\n']);
    if d.len() > 0 {
        lemma_join_lines_front(hd);
        assert(hd.drop_first() =~= d);
        assert(join_lines(hd) == h + seq!['\n'] + b);
        assert(render_with(fs, b) =~= join_lines(e) + seq!['\n']);
    } else {
        assert(hd =~= seq![h]);
        assert(render_with(fs, b) =~= join_lines(e) + seq!['\n']);
    }
}

/// The lines of one written entry: how its rendering is made of them, that
/// only the first is a header, and what reading them gives back.
proof fn lemma_entry_lines(dt: DateTime, text: Seq<char>)
    requires
        reads_back(dt, text),
    ensures
        render_with(full_stamp(dt), normalized(text)) == join_lines(entry_lines(dt, text)) + seq![
            '\n',
        ],
        entry_lines(dt, text).len() >= 2,
        forall|k: int|
            0 <= k < entry_lines(dt, text).len() ==> no_newline(#[trigger] entry_lines(dt, text)[k])
                && !ends_with_cr(entry_lines(dt, text)[k]),
        header_positions(entry_lines(dt, text), entry_lines(dt, text).len() as int) == seq![0int],
        parse_spec(join_lines(entry_lines(dt, text))) == Some(
            (Timestamp::of(dt), normalized(text), full_stamp(dt)),
        ),
{
    let fs = full_stamp(dt);
    let h = seq!['['] + fs + seq![']'];
    let b = normalized(text);
    let d = lines(b);
    let e = entry_lines(dt, text);
    let hd = seq![h] + d;
    lemma_entry_render(dt, text);
    lemma_body_lines(text);
    lemma_header_line_shape(dt);
    lemma_header_of_stamp(dt);
    // only the first line is a header
    assert forall|j: int| 1 <= j < e.len() implies header_of(#[trigger] e[j]) is None by {
        if j < hd.len() {
            assert(e[j] == d[j - 1]);
        } else {
            assert(e[j] == Seq::<char>::empty());
        }
    }
    assert(e[0] == h);
    lemma_header_positions_first_only(e, e.len() as int);
    // reading the entry back
    assert forall|k: int| 0 <= k < hd.len() implies no_newline(#[trigger] hd[k]) && !ends_with_cr(
        hd[k],
    ) by {
        if k > 0 {
            assert(hd[k] == d[k - 1]);
        }
    }
    lemma_lines_of_join_newline(hd);
    let ls = lines(join_lines(e));
    assert(ls == hd);
    assert(ls[0] == h);
    assert(ls.drop_first() =~= d);
}

proof fn lemma_journal_lines(stamps: Seq<DateTime>, texts: Seq<Seq<char>>, n: int)
    requires
        0 <= n <= stamps.len(),
        stamps.len() == texts.len(),
        forall|k: int| 0 <= k < stamps.len() ==> reads_back(#[trigger] stamps[k], texts[k]),
    ensures
        n > 0 ==> journal_text(stamps, texts, n) == join_lines(journal_lines(stamps, texts, n))
            + seq!['\n'],
        n == 0 ==> journal_text(stamps, texts, n).len() == 0 && journal_lines(stamps, texts, n).len()
            == 0,
        forall|j: int|
            0 <= j < journal_lines(stamps, texts, n).len() ==> no_newline(
                #[trigger] journal_lines(stamps, texts, n)[j],
            ) && !ends_with_cr(journal_lines(stamps, texts, n)[j]),
        header_positions(journal_lines(stamps, texts, n), journal_lines(stamps, texts, n).len() as int)
            == Seq::new(n as nat, |k: int| journal_lines(stamps, texts, k).len() as int),
        forall|k: int|
            0 <= k <= n ==> #[trigger] journal_lines(stamps, texts, k).len() <= journal_lines(
                stamps,
                texts,
                n,
            ).len() && journal_lines(stamps, texts, n).take(
                journal_lines(stamps, texts, k).len() as int,
            ) == journal_lines(stamps, texts, k),
    decreases n,
{
    let jl = journal_lines(stamps, texts, n);
    if n == 0 {
        assert(header_positions(jl, 0) =~= Seq::<int>::empty());
        assert(Seq::new(0, |k: int| journal_lines(stamps, texts, k).len() as int) =~= Seq::<
            int,
        >::empty());
        assert(jl.take(0) =~= jl);
    } else {
        lemma_journal_lines(stamps, texts, n - 1);
        let prev = journal_lines(stamps, texts, n - 1);
        let e = entry_lines(stamps[n - 1], texts[n - 1]);
        assert(reads_back(stamps[n - 1], texts[n - 1]));
        lemma_entry_lines(stamps[n - 1], texts[n - 1]);
        assert(jl == prev + e);
        // the text
        if n > 1 {
            lemma_join_lines_split(jl, prev.len() as int);
            assert(jl.take(prev.len() as int) =~= prev);
            assert(jl.skip(prev.len() as int) =~= e);
        } else {
            assert(prev.len() == 0);
            assert(jl =~= e);
            assert(journal_text(stamps, texts, 0).len() == 0);
            assert(journal_text(stamps, texts, 1) =~= render_with(
                full_stamp(stamps[0]),
                normalized(texts[0]),
            ));
        }
        // the lines
        assert forall|j: int| 0 <= j < jl.len() implies no_newline(#[trigger] jl[j]) && !ends_with_cr(
            jl[j],
        ) by {
            if j < prev.len() {
                assert(jl[j] == prev[j]);
            } else {
                assert(jl[j] == e[j - prev.len()]);
            }
        }
        // the headers
        lemma_header_positions_concat(prev, e, e.len() as int);
        assert(shifted(seq![0int], prev.len() as int) =~= seq![prev.len() as int]);
        assert(header_positions(jl, jl.len() as int) =~= Seq::new(
            n as nat,
            |k: int| journal_lines(stamps, texts, k).len() as int,
        ));
        // the prefixes
        assert forall|k: int| 0 <= k <= n implies #[trigger] journal_lines(stamps, texts, k).len()
            <= jl.len() && jl.take(journal_lines(stamps, texts, k).len() as int) == journal_lines(
            stamps,
            texts,
            k,
        ) by {
            if k == n {
                assert(jl.take(jl.len() as int) =~= jl);
            } else {
                let pk = journal_lines(stamps, texts, k);
                assert(pk.len() <= prev.len());
                assert(prev.take(pk.len() as int) == pk);
                assert(jl.take(pk.len() as int) =~= prev.take(pk.len() as int));
            }
        }
    }
}

/// `somes` of values that are all present is those values.
proof fn lemma_somes_all<T>(s: Seq<Option<T>>)
    requires
        forall|k: int| 0 <= k < s.len() ==> (#[trigger] s[k]) is Some,
    ensures
        somes(s) == Seq::new(s.len(), |k: int| s[k]->0),
    decreases s.len(),
{
    if s.len() > 0 {
        let d = s.drop_last();
        assert forall|k: int| 0 <= k < d.len() implies (#[trigger] d[k]) is Some by {
            assert(d[k] == s[k]);
        }
        lemma_somes_all(d);
        assert(s.last() is Some);
        assert(somes(s) =~= Seq::new(s.len(), |k: int| s[k]->0));
    } else {
        assert(somes(s) =~= Seq::new(s.len(), |k: int| s[k]->0));
    }
}

/// A journal file written entry by entry reads back entry by entry: each
/// written entry is found again, in order, with its timestamp, its
/// (normalized) body and the header text it was written with. This holds
/// for entries that read back as written (see `reads_back`); a body line
/// that is itself a header line would start an entry of its own.
#[verifier::rlimit(50)]
pub proof fn lemma_journal_reads_back(stamps: Seq<DateTime>, texts: Seq<Seq<char>>)
    requires
        stamps.len() == texts.len(),
        forall|k: int| 0 <= k < stamps.len() ==> reads_back(#[trigger] stamps[k], texts[k]),
    ensures
        parse_all_spec(journal_text(stamps, texts, stamps.len() as int)) == Seq::new(
            stamps.len(),
            |k: int| Some((Timestamp::of(stamps[k]), normalized(texts[k]), full_stamp(stamps[k]))),
        ),
        somes(parse_all_spec(journal_text(stamps, texts, stamps.len() as int))) == Seq::new(
            stamps.len(),
            |k: int| (Timestamp::of(stamps[k]), normalized(texts[k]), full_stamp(stamps[k])),
        ),
{
    let n = stamps.len() as int;
    let t = journal_text(stamps, texts, n);
    let jl = journal_lines(stamps, texts, n);
    lemma_journal_lines(stamps, texts, n);
    let expected = Seq::new(
        stamps.len(),
        |k: int| Some((Timestamp::of(stamps[k]), normalized(texts[k]), full_stamp(stamps[k]))),
    );
    if n == 0 {
        assert(t =~= Seq::<char>::empty());
        assert(lines(t) =~= Seq::<Seq<char>>::empty());
        assert(header_positions(lines(t), 0) =~= Seq::<int>::empty());
        assert(parse_all_spec(t) =~= expected);
    } else {
        assert(jl.len() > 0) by {
            lemma_journal_lines(stamps, texts, n - 1);
            lemma_entry_lines(stamps[n - 1], texts[n - 1]);
        }
        lemma_lines_of_join_newline(jl);
        let ls = lines(t);
        assert(ls == jl);
        let hs = header_positions(ls, ls.len() as int);
        assert forall|k: int| 0 <= k < n implies parse_spec(join_lines(block(ls, hs, k)))
            == #[trigger] expected[k] by {
            let pk = journal_lines(stamps, texts, k);
            let pk1 = journal_lines(stamps, texts, k + 1);
            let e = entry_lines(stamps[k], texts[k]);
            assert(pk1 == pk + e);
            lemma_entry_lines(stamps[k], texts[k]);
            assert(hs[k] == pk.len());
            let end = if k + 1 < hs.len() {
                hs[k + 1]
            } else {
                ls.len() as int
            };
            if k + 1 < n {
                assert(end == pk1.len());
            } else {
                assert(pk1 == jl);
            }
            assert(pk1.len() <= jl.len());
            assert(jl.take(pk1.len() as int) == pk1);
            assert(jl.subrange(pk.len() as int, pk1.len() as int) =~= pk1.subrange(
                pk.len() as int,
                pk1.len() as int,
            ));
            assert(pk1.subrange(pk.len() as int, pk1.len() as int) =~= e);
            assert(block(ls, hs, k) =~= e);
        }
        assert(parse_all_spec(t) =~= expected);
    }
    lemma_somes_all(parse_all_spec(t));
    assert(somes(parse_all_spec(t)) =~= Seq::new(
        stamps.len(),
        |k: int| (Timestamp::of(stamps[k]), normalized(texts[k]), full_stamp(stamps[k])),
    ));
}


/// A new entry, rendered exactly as `render` writes it (its final blank
/// line included) and parsed, gives the entry back: `Entry::new` of
/// `Timestamp::of(dt)` and `text` has `e.raw_header` none and `e.body` the
/// normalized text; `render` then yields `s`; and parsing `s` yields the
/// same timestamp and body, with the written header text, whose own
/// rendering is `s` again. A body holding a carriage return right before
/// a line break is the exception.
pub proof fn lemma_parse_of_render(e: Entry, dt: DateTime, text: Seq<char>, s: Seq<char>)
    requires
        writes_cleanly(dt, text),
        e.raw_header is None,
        e.timestamp == Timestamp::of(dt),
        e.body@ == normalized(text),
        s == render_with(full_stamp(dt), e.body@),
    ensures
        parse_spec(s) matches Some(p) && p.0 == e.timestamp && p.1 == e.body@ && p.2 == full_stamp(
            dt,
        ) && render_with(p.2, p.1) == s,
{
    let h = seq!['['] + full_stamp(dt) + seq![']'];
    let b = normalized(text);
    let d = lines(b);
    let en = entry_lines(dt, text);
    lemma_entry_render(dt, text);
    lemma_body_lines(text);
    lemma_header_of_stamp(dt);
    lemma_normalized_lines(text);
    lemma_drop_blank_tail(lines(text));
    lemma_lines_of_join_newline(en);
    let ls = lines(s);
    assert(ls == en);
    assert(ls[0] == h);
    assert(ls.drop_first() =~= d + seq![Seq::<char>::empty()]);
    let rest = join_lines(ls.drop_first());
    if d.len() == 0 {
        assert(d + seq![Seq::<char>::empty()] =~= seq![Seq::<char>::empty()]);
        assert(rest =~= Seq::<char>::empty());
        assert(b =~= Seq::<char>::empty());
        assert(lines(Seq::<char>::empty()) =~= Seq::<Seq<char>>::empty());
        assert(normalized(rest) =~= Seq::<char>::empty());
    } else {
        assert((d + seq![Seq::<char>::empty()]).drop_last() =~= d);
        assert(rest == join_lines(d) + seq!['\n'] + Seq::<char>::empty());
        assert(rest =~= b + seq!['\n']);
        lemma_lines_of_join_newline(d);
        assert(lines(rest) == d);
        assert(!all_ws(d.last()));
        assert(drop_blank_tail(d) == d);
        assert(normalized(rest) == b);
    }
}

} // verus!
