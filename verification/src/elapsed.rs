//! The elapsed time between two dates and times as a calendar breakdown
//! (years, months, days, hours, minutes, seconds), and its short and long
//! renderings for `-h/--human`.
use crate::calendar::{
    add_months_in_range, add_months_spec, checked_add_months, earlier, is_earlier,
    lemma_add_months, lemma_day_number_order, lemma_earlier_by_seconds, lemma_month_step,
    lemma_second_year_after_next_day, month_index, seconds_between, seconds_of, DateTime,
    MAX_YEAR, MIN_YEAR,
};
use crate::entry::DiffStyle;
use crate::text::{decimal, extend_str, from_chars, push_decimal};
use vstd::prelude::*;

verus! {

/// The elapsed time between two points, cascaded into calendar years and
/// months (real month lengths and leap years) and then days, hours,
/// minutes and seconds. `future` is true when `then` is after `now`.
#[derive(Debug, Clone, Copy, PartialEq, Eq, Structural)]
pub struct Elapsed {
    pub future: bool,
    pub years: u64,
    pub months: u64,
    pub days: u64,
    pub hours: u64,
    pub minutes: u64,
    pub seconds: u64,
}

/// `then` and `now` in chronological order (earlier first).
pub open spec fn ordered(then: DateTime, now: DateTime) -> (DateTime, DateTime) {
    if earlier(now, then) {
        (now, then)
    } else {
        (then, now)
    }
}

/// Both are valid dates and times.
pub open spec fn diff_in_range(then: DateTime, now: DateTime) -> bool {
    then.wf() && now.wf()
}

impl Elapsed {
    /// `self` is the calendar breakdown of the time from `then` to `now`:
    /// the most whole years that fit, then the most whole months (at most
    /// 11) that fit after those, then the rest in days, hours, minutes and
    /// seconds.
    #[verifier::opaque]
    pub open spec fn is_breakdown(self, then: DateTime, now: DateTime) -> bool {
        let (e, l) = ordered(then, now);
        let anchor = add_months_spec(e, 12 * self.years);
        let anchor2 = add_months_spec(anchor, self.months as int);
        let r = seconds_of(l) - seconds_of(anchor2);
        &&& self.future == earlier(now, then)
        &&& add_months_in_range(e, 12 * self.years)
        &&& !earlier(l, anchor)
        &&& earlier(l, add_months_spec(e, 12 * (self.years + 1)))
        &&& self.months <= 11
        &&& !earlier(l, anchor2)
        &&& (self.months == 11 || earlier(l, add_months_spec(anchor, self.months + 1)))
        &&& self.days == r / 86400
        &&& self.hours == (r % 86400) / 3600
        &&& self.minutes == (r % 86400) % 3600 / 60
        &&& self.seconds == (r % 86400) % 60
    }

    /// The breakdown of the time from `then` to `now`.
    pub open spec fn of(then: DateTime, now: DateTime) -> Elapsed {
        choose|el: Elapsed| el.is_breakdown(then, now)
    }

    /// The six components, from years down to seconds.
    pub open spec fn values(self) -> Seq<u64> {
        seq![self.years, self.months, self.days, self.hours, self.minutes, self.seconds]
    }
}

proof fn lemma_index_year(dt: DateTime, k: int)
    requires
        dt.wf(),
        0 <= k <= 12,
    ensures
        dt.year <= (month_index(dt) + k) / 12 <= dt.year + 1,
        dt.month + k <= 12 ==> (month_index(dt) + k) / 12 == dt.year,
        dt.month + k > 12 ==> (month_index(dt) + k) / 12 == dt.year + 1,
{
    let t = month_index(dt) + k;
    if dt.month + k <= 12 {
        vstd::arithmetic::div_mod::lemma_fundamental_div_mod_converse(
            t,
            12,
            dt.year as int,
            dt.month - 1 + k,
        );
    } else {
        vstd::arithmetic::div_mod::lemma_fundamental_div_mod_converse(
            t,
            12,
            dt.year + 1,
            dt.month - 1 + k - 12,
        );
    }
    vstd::arithmetic::div_mod::lemma_fundamental_div_mod(t, 12);
    let q = t / 12;
    assert(dt.year * 12 <= t < (dt.year + 2) * 12);
    assert(dt.year <= q <= dt.year + 1) by (nonlinear_arith)
        requires
            dt.year * 12 <= t < (dt.year + 2) * 12,
            t == 12 * q + t % 12,
            0 <= t % 12 < 12,
    ;
}

proof fn lemma_index_years(dt: DateTime, k: int)
    requires
        dt.wf(),
    ensures
        (month_index(dt) + 12 * k) / 12 == dt.year + k,
{
    let t = month_index(dt) + 12 * k;
    assert(t == (dt.year + k) * 12 + (dt.month - 1)) by (nonlinear_arith)
        requires
            t == dt.year * 12 + dt.month - 1 + 12 * k,
    ;
    vstd::arithmetic::div_mod::lemma_fundamental_div_mod_converse(
        t,
        12,
        dt.year + k,
        dt.month - 1,
    );
}

/// `dt` shifted by `n` months, known to stay in range.
fn shift(dt: DateTime, n: u32) -> (r: DateTime)
    requires
        dt.wf(),
        add_months_in_range(dt, n as int),
    ensures
        r == add_months_spec(dt, n as int),
        r.wf(),
{
    proof {
        lemma_add_months(dt, n as int);
    }
    match checked_add_months(dt, n) {
        Some(r) => r,
        None => {
            assert(false);
            dt
        },
    }
}

proof fn lemma_years_unique(e: DateTime, l: DateTime, ya: int, yb: int)
    requires
        e.wf(),
        0 <= ya,
        0 <= yb,
        add_months_in_range(e, 12 * ya),
        add_months_in_range(e, 12 * yb),
        !earlier(l, add_months_spec(e, 12 * ya)),
        earlier(l, add_months_spec(e, 12 * (ya + 1))),
        !earlier(l, add_months_spec(e, 12 * yb)),
        earlier(l, add_months_spec(e, 12 * (yb + 1))),
    ensures
        ya == yb,
{
    lemma_index_years(e, ya);
    lemma_index_years(e, ya + 1);
    lemma_index_years(e, yb);
    lemma_index_years(e, yb + 1);
    if ya < yb {
        lemma_shift_order(e, 12 * (ya + 1), 12 * yb);
    }
    if yb < ya {
        lemma_shift_order(e, 12 * (yb + 1), 12 * ya);
    }
}

proof fn lemma_months_unique(anchor: DateTime, l: DateTime, ma: int, mb: int)
    requires
        anchor.wf(),
        0 <= ma <= 11,
        0 <= mb <= 11,
        !earlier(l, add_months_spec(anchor, ma)),
        ma == 11 || earlier(l, add_months_spec(anchor, ma + 1)),
        !earlier(l, add_months_spec(anchor, mb)),
        mb == 11 || earlier(l, add_months_spec(anchor, mb + 1)),
    ensures
        ma == mb,
{
    lemma_index_year(anchor, ma);
    lemma_index_year(anchor, ma + 1);
    lemma_index_year(anchor, mb);
    lemma_index_year(anchor, mb + 1);
    if ma < mb {
        lemma_shift_order(anchor, ma + 1, mb);
    }
    if mb < ma {
        lemma_shift_order(anchor, mb + 1, ma);
    }
}

/// A breakdown is unique: at most one value satisfies `is_breakdown`.
pub proof fn lemma_breakdown_unique(a: Elapsed, b: Elapsed, then: DateTime, now: DateTime)
    requires
        then.wf(),
        now.wf(),
        a.is_breakdown(then, now),
        b.is_breakdown(then, now),
    ensures
        a == b,
{
    reveal(Elapsed::is_breakdown);
    let (e, l) = ordered(then, now);
    lemma_years_unique(e, l, a.years as int, b.years as int);
    let anchor = add_months_spec(e, 12 * a.years);
    lemma_index_years(e, a.years as int);
    lemma_index_years(e, a.years + 1);
    lemma_add_months(e, 12 * a.years);
    lemma_months_unique(anchor, l, a.months as int, b.months as int);
}

/// Shifting by more months never lands earlier.
proof fn lemma_shift_order(dt: DateTime, k1: int, k2: int)
    requires
        dt.wf(),
        k1 <= k2,
        MIN_YEAR <= (month_index(dt) + k1) / 12,
        (month_index(dt) + k2) / 12 <= MAX_YEAR + 1,
    ensures
        !earlier(add_months_spec(dt, k2), add_months_spec(dt, k1)),
{
    let t1 = month_index(dt) + k1;
    let t2 = month_index(dt) + k2;
    let a = add_months_spec(dt, k1);
    let b = add_months_spec(dt, k2);
    assert(a.year as int == t1 / 12);
    assert(b.year as int == t2 / 12);
    assert(a.month as int == t1 % 12 + 1);
    assert(b.month as int == t2 % 12 + 1);
    vstd::arithmetic::div_mod::lemma_fundamental_div_mod(t1, 12);
    vstd::arithmetic::div_mod::lemma_fundamental_div_mod(t2, 12);
    if t1 / 12 > t2 / 12 {
        assert(false) by (nonlinear_arith)
            requires
                t1 <= t2,
                t1 == 12 * (t1 / 12) + t1 % 12,
                t2 == 12 * (t2 / 12) + t2 % 12,
                0 <= t1 % 12 < 12,
                0 <= t2 % 12 < 12,
                t1 / 12 > t2 / 12,
        ;
    }
    if t1 / 12 == t2 / 12 {
        assert(t1 % 12 <= t2 % 12);
        if t1 % 12 == t2 % 12 {
            assert(t1 == t2);
        }
    }
}

/// The most whole years from `e` that still fit before `l`.
fn whole_years(e: DateTime, l: DateTime) -> (years: u32)
    requires
        e.wf(),
        l.wf(),
        !earlier(l, e),
    ensures
        add_months_in_range(e, 12 * years),
        !earlier(l, add_months_spec(e, 12 * years)),
        earlier(l, add_months_spec(e, 12 * (years + 1))),
        add_months_spec(e, 12 * years).wf(),
        add_months_spec(e, 12 * years).year <= l.year,
{
    assert(e.year <= l.year);
    let mut years: u32 = (l.year - e.year) as u32;
    proof {
        lemma_index_years(e, years as int);
        lemma_add_months(e, 12 * years);
        lemma_index_years(e, years + 1);
    }
    let anchor = shift(e, years * 12);
    if is_earlier(&l, &anchor) {
        proof {
            if years == 0 {
                lemma_add_months(e, 0);
            }
        }
        years = years - 1;
        proof {
            lemma_index_years(e, years as int);
            lemma_add_months(e, 12 * years);
            lemma_index_years(e, years + 1);
        }
    }
    years
}

/// The most whole months (at most 11) from `anchor` that still fit before
/// `l`.
fn whole_months(anchor: DateTime, l: DateTime) -> (months: u32)
    requires
        anchor.wf(),
        l.wf(),
        anchor.year <= l.year,
        !earlier(l, anchor),
    ensures
        months <= 11,
        add_months_in_range(anchor, months as int),
        !earlier(l, add_months_spec(anchor, months as int)),
        months == 11 || earlier(l, add_months_spec(anchor, months + 1)),
{
    let mut months: u32 = 0;
    proof {
        lemma_add_months(anchor, 0);
    }
    loop
        invariant
            anchor.wf(),
            l.wf(),
            anchor.year <= l.year,
            months <= 11,
            add_months_in_range(anchor, months as int),
            !earlier(l, add_months_spec(anchor, months as int)),
        ensures
            months <= 11,
            add_months_in_range(anchor, months as int),
            !earlier(l, add_months_spec(anchor, months as int)),
            months == 11 || earlier(l, add_months_spec(anchor, months + 1)),
        decreases 11 - months,
    {
        if months >= 11 {
            break ;
        }
        proof {
            lemma_index_year(anchor, months + 1);
        }
        if anchor.year == MAX_YEAR && anchor.month + months + 1 > 12 {
            // one more month would lie past the last year there is, so
            // after `l`
            break ;
        }
        let next = shift(anchor, months + 1);
        if is_earlier(&l, &next) {
            break ;
        }
        months = months + 1;
    }
    months
}

impl Elapsed {
    /// The calendar breakdown of the time between `then` and `now`, in
    /// either direction.
    #[verifier::rlimit(40)]
    pub fn between(then: DateTime, now: DateTime) -> (el: Elapsed)
        requires
            diff_in_range(then, now),
        ensures
            el.is_breakdown(then, now),
            el == Elapsed::of(then, now),
    {
        let future = is_earlier(&now, &then);
        let (e, l) = if future {
            (now, then)
        } else {
            (then, now)
        };
        let years = whole_years(e, l);
        proof {
            lemma_index_years(e, years as int);
        }
        let anchor = shift(e, years * 12);
        let months = whole_months(anchor, l);
        proof {
            lemma_index_year(anchor, months as int);
        }
        let anchor2 = shift(anchor, months);
        proof {
            if anchor2 != l {
                lemma_day_number_order(anchor2, l);
            }
        }
        let rem = seconds_between(l, anchor2);
        let r = rem as u64;
        let days = r / 86400;
        let secs_left = r - days * 86400;
        assert(secs_left == r % 86400);
        let el = Elapsed {
            future,
            years: years as u64,
            months: months as u64,
            days,
            hours: secs_left / 3600,
            minutes: secs_left % 3600 / 60,
            seconds: secs_left % 60,
        };
        assert(el.is_breakdown(then, now)) by {
            reveal(Elapsed::is_breakdown);
        }
        proof {
            let c = Elapsed::of(then, now);
            assert(c.is_breakdown(then, now));
            lemma_breakdown_unique(el, c, then, now);
        }
        el
    }
}

/// The index of the first non-zero value at or after `i` (the length if
/// there is none).
pub open spec fn first_nonzero_from(vals: Seq<u64>, i: int) -> int
    decreases vals.len() - i,
{
    if i >= vals.len() {
        vals.len() as int
    } else if vals[i] != 0 {
        i
    } else {
        first_nonzero_from(vals, i + 1)
    }
}

/// The indices in `[lo, hi)` whose value is non-zero, ascending.
pub open spec fn nonzero_in(vals: Seq<u64>, lo: int, hi: int) -> Seq<int>
    decreases hi - lo,
{
    if hi <= lo {
        Seq::empty()
    } else if vals[hi - 1] != 0 {
        nonzero_in(vals, lo, hi - 1).push(hi - 1)
    } else {
        nonzero_in(vals, lo, hi - 1)
    }
}

/// The units to show: a window of `max` units anchored at the first
/// non-zero one, with the zero units inside it left out; just the seconds
/// unit when every value is zero.
pub open spec fn window(vals: Seq<u64>, max: int) -> Seq<int> {
    let start = first_nonzero_from(vals, 0);
    if start >= vals.len() {
        seq![vals.len() - 1]
    } else {
        let end = if start + max < vals.len() {
            start + max
        } else {
            vals.len() as int
        };
        nonzero_in(vals, start, end)
    }
}

pub open spec fn unit_name(i: int) -> Seq<char> {
    if i == 0 {
        "year"@
    } else if i == 1 {
        "month"@
    } else if i == 2 {
        "day"@
    } else if i == 3 {
        "hour"@
    } else if i == 4 {
        "minute"@
    } else {
        "second"@
    }
}

pub open spec fn unit_abbrev(i: int) -> Seq<char> {
    if i == 0 {
        "y"@
    } else if i == 1 {
        "mo"@
    } else if i == 2 {
        "d"@
    } else if i == 3 {
        "h"@
    } else if i == 4 {
        "m"@
    } else {
        "s"@
    }
}

/// `N name` with the name pluralized unless `N` is 1.
pub open spec fn long_part(v: u64, i: int) -> Seq<char> {
    decimal(v as nat) + " "@ + unit_name(i) + (if v == 1 {
        Seq::empty()
    } else {
        "s"@
    })
}

/// `N` followed by the unit's abbreviation.
pub open spec fn short_part(v: u64, i: int) -> Seq<char> {
    decimal(v as nat) + unit_abbrev(i)
}

/// The parts for the units `idx`, joined with `, `.
pub open spec fn joined_parts(vals: Seq<u64>, idx: Seq<int>, long: bool) -> Seq<char>
    decreases idx.len(),
{
    if idx.len() == 0 {
        Seq::empty()
    } else {
        let i = idx.last();
        let part = if long {
            long_part(vals[i], i)
        } else {
            short_part(vals[i], i)
        };
        if idx.len() == 1 {
            part
        } else {
            joined_parts(vals, idx.drop_last(), long) + ", "@ + part
        }
    }
}

/// The annotation for `el` in `style`: none when disabled; the two-unit
/// window abbreviated for short; the three-unit window spelled out with a
/// direction word for long.
pub open spec fn diff_text(style: DiffStyle, el: Elapsed) -> Option<Seq<char>> {
    match style {
        DiffStyle::Disabled => None,
        DiffStyle::Short => Some(joined_parts(el.values(), window(el.values(), 2), false)),
        DiffStyle::Long => Some(
            joined_parts(el.values(), window(el.values(), 3), true) + (if el.future {
                " from now"@
            } else {
                " ago"@
            }),
        ),
    }
}

impl Elapsed {
    fn value(&self, i: usize) -> (v: u64)
        requires
            i < 6,
        ensures
            v == self.values()[i as int],
    {
        if i == 0 {
            self.years
        } else if i == 1 {
            self.months
        } else if i == 2 {
            self.days
        } else if i == 3 {
            self.hours
        } else if i == 4 {
            self.minutes
        } else {
            self.seconds
        }
    }

    /// The units to show (see `window`) as indices into `values()`.
    pub fn windowed_nonzero(&self, max: usize) -> (out: Vec<usize>)
        ensures
            forall|k: int| 0 <= k < out@.len() ==> #[trigger] out@[k] < 6,
            out@.len() == window(self.values(), max as int).len(),
            forall|k: int|
                0 <= k < out@.len() ==> #[trigger] out@[k] as int == window(
                    self.values(),
                    max as int,
                )[k],
    {
        let ghost vals = self.values();
        let mut start: usize = 0;
        while start < 6 && self.value(start) == 0
            invariant
                start <= 6,
                vals == self.values(),
                first_nonzero_from(vals, 0) == first_nonzero_from(vals, start as int),
            decreases 6 - start,
        {
            start = start + 1;
        }
        let mut out: Vec<usize> = Vec::new();
        if start == 6 {
            out.push(5);
            return out;
        }
        let end = if max < 6 - start {
            start + max
        } else {
            6
        };
        let mut i: usize = start;
        while i < end
            invariant
                start <= i <= end <= 6,
                vals == self.values(),
                out@.len() == nonzero_in(vals, start as int, i as int).len(),
                forall|k: int| 0 <= k < out@.len() ==> #[trigger] out@[k] < 6,
                forall|k: int|
                    0 <= k < out@.len() ==> #[trigger] out@[k] as int == nonzero_in(
                        vals,
                        start as int,
                        i as int,
                    )[k],
            decreases end - i,
        {
            if self.value(i) != 0 {
                out.push(i);
            }
            i = i + 1;
        }
        out
    }
}

fn push_unit_name(out: &mut Vec<char>, i: usize, long: bool)
    ensures
        final(out)@ == old(out)@ + if long {
            unit_name(i as int)
        } else {
            unit_abbrev(i as int)
        },
{
    if long {
        if i == 0 {
            extend_str(out, "year");
        } else if i == 1 {
            extend_str(out, "month");
        } else if i == 2 {
            extend_str(out, "day");
        } else if i == 3 {
            extend_str(out, "hour");
        } else if i == 4 {
            extend_str(out, "minute");
        } else {
            extend_str(out, "second");
        }
    } else {
        if i == 0 {
            extend_str(out, "y");
        } else if i == 1 {
            extend_str(out, "mo");
        } else if i == 2 {
            extend_str(out, "d");
        } else if i == 3 {
            extend_str(out, "h");
        } else if i == 4 {
            extend_str(out, "m");
        } else {
            extend_str(out, "s");
        }
    }
}

/// The unit parts for the indices `idx`, joined with `, `.
fn render_parts(el: &Elapsed, idx: &Vec<usize>, long: bool) -> (out: Vec<char>)
    requires
        forall|k: int| 0 <= k < idx@.len() ==> #[trigger] idx@[k] < 6,
    ensures
        out@ == joined_parts(el.values(), Seq::new(idx@.len(), |k: int| idx@[k] as int), long),
{
    let ghost vals = el.values();
    let ghost iv = Seq::new(idx@.len(), |k: int| idx@[k] as int);
    let mut out: Vec<char> = Vec::new();
    let mut k: usize = 0;
    assert(iv.take(0) =~= Seq::<int>::empty());
    while k < idx.len()
        invariant
            k <= idx@.len(),
            vals == el.values(),
            iv == Seq::new(idx@.len(), |k: int| idx@[k] as int),
            forall|j: int| 0 <= j < idx@.len() ==> #[trigger] idx@[j] < 6,
            out@ == joined_parts(vals, iv.take(k as int), long),
        decreases idx.len() - k,
    {
        let i = idx[k];
        if k > 0 {
            extend_str(&mut out, ", ");
        }
        let v = el.value(i);
        push_decimal(&mut out, v);
        if long {
            out.push(' ');
            push_unit_name(&mut out, i, true);
            if v != 1 {
                out.push('s');
            }
        } else {
            push_unit_name(&mut out, i, false);
        }
        proof {
            let t = iv.take(k + 1);
            assert(t.drop_last() =~= iv.take(k as int));
            assert(t.last() == i as int);
            reveal_strlit(" ");
            reveal_strlit("s");
        }
        k = k + 1;
        assert(out@ =~= joined_parts(vals, iv.take(k as int), long));
    }
    assert(iv.take(idx@.len() as int) =~= iv);
    out
}

/// The elapsed-time annotation for `-h/--human` headers: `None` for
/// `DiffStyle::Disabled`, else the short or long rendering of the
/// breakdown from `then` to `now`.
pub fn render_diff(style: DiffStyle, then: DateTime, now: DateTime) -> (res: Option<String>)
    requires
        diff_in_range(then, now),
    ensures
        match res {
            Some(s) => diff_text(style, Elapsed::of(then, now)) == Some(s@),
            None => diff_text(style, Elapsed::of(then, now)) is None,
        },
{
    match style {
        DiffStyle::Disabled => None,
        DiffStyle::Short => {
            let el = Elapsed::between(then, now);
            let idx = el.windowed_nonzero(2);
            let out = render_parts(&el, &idx, false);
            assert(Seq::new(idx@.len(), |k: int| idx@[k] as int) =~= window(el.values(), 2));
            Some(from_chars(out.as_slice()))
        },
        DiffStyle::Long => {
            let el = Elapsed::between(then, now);
            let idx = el.windowed_nonzero(3);
            let mut out = render_parts(&el, &idx, true);
            assert(Seq::new(idx@.len(), |k: int| idx@[k] as int) =~= window(el.values(), 3));
            if el.future {
                extend_str(&mut out, " from now");
            } else {
                extend_str(&mut out, " ago");
            }
            Some(from_chars(out.as_slice()))
        },
    }
}


/// An entry exactly one calendar year and one day before `now` is `1 year,
/// 1 day` old, whether or not a leap day lies in between (one calendar
/// year on from 29 February is 28 February).
pub proof fn lemma_one_year_one_day(then: DateTime, now: DateTime)
    requires
        then.wf(),
        now.wf(),
        then.year < MAX_YEAR,
        seconds_of(now) == seconds_of(add_months_spec(then, 12)) + 86400,
    ensures
        Elapsed::of(then, now) == (Elapsed {
            future: false,
            years: 1,
            months: 0,
            days: 1,
            hours: 0,
            minutes: 0,
            seconds: 0,
        }),
{
    let cand = Elapsed { future: false, years: 1, months: 0, days: 1, hours: 0, minutes: 0, seconds: 0 };
    let a = add_months_spec(then, 12);
    lemma_index_years(then, 1);
    lemma_add_months(then, 12);
    assert(12int % 12 == 0);
    assert(a.year == then.year + 1);
    assert(earlier(then, a));
    lemma_day_number_order(then, a);
    if earlier(now, then) {
        lemma_day_number_order(now, then);
    }
    if earlier(now, a) {
        lemma_day_number_order(now, a);
    }
    // two years on lies after `now`
    if then.year + 2 <= MAX_YEAR {
        lemma_add_months(then, 24);
        lemma_second_year_after_next_day(then);
        lemma_earlier_by_seconds(now, add_months_spec(then, 24));
    } else {
        lemma_index_years(then, 2);
        assert(add_months_spec(then, 24).year == then.year + 2);
        assert(earlier(now, add_months_spec(then, 24)));
    }
    // one month on from the anniversary lies after `now`
    lemma_add_months(a, 0);
    lemma_index_year(a, 1);
    if a.year < MAX_YEAR || a.month < 12 {
        lemma_month_step(a);
        lemma_add_months(a, 1);
        lemma_earlier_by_seconds(now, add_months_spec(a, 1));
    } else {
        assert(add_months_spec(a, 1).year == a.year + 1);
        assert(earlier(now, add_months_spec(a, 1)));
    }
    assert(cand.is_breakdown(then, now)) by {
        reveal(Elapsed::is_breakdown);
        assert(ordered(then, now) == (then, now));
        assert(12 * (cand.years + 1) == 24);
        assert(12 * cand.years == 12);
        assert(cand.months + 1 == 1);
    }
    let el = Elapsed::of(then, now);
    assert(el.is_breakdown(then, now));
    lemma_breakdown_unique(el, cand, then, now);
}

} // verus!
