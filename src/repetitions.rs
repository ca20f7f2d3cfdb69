use vstd::prelude::*;
use crate::timestamp::{civil_at, civil_of, instant_at, instant_of, CivilDateTime, Timestamp};

verus! {

/// Milliseconds in one week.
pub const WEEK_MILLIS: i64 = 604_800_000;

/// How many consecutive months, starting with the reference instant's, are tried by the
/// monthly rule: that month may be past, and the next may lack the day, but no two consecutive
/// months both lack a day of the month.
pub const MONTHS_TRIED: u64 = 3;

/// How many years after the reference year are tried for a February 29: two multiples of four
/// always lie among eight consecutive years, and one of them is a leap year.
pub const LEAP_YEARS_TRIED: u64 = 8;

/// How many more times a recurring task may fire.
#[derive(PartialEq, Eq, Clone, Copy, Debug, Structural)]
pub enum RepetitionCount {
    Infinite,
    Finite(u64),
}

impl RepetitionCount {
    /// The count left once one occurrence is used up; a finite count never goes below zero.
    pub open spec fn consumed(self) -> RepetitionCount {
        match self {
            RepetitionCount::Infinite => RepetitionCount::Infinite,
            RepetitionCount::Finite(n) => RepetitionCount::Finite(
                if n == 0 { 0 } else { (n - 1) as u64 },
            ),
        }
    }

    /// Whether using up one occurrence leaves the budget exhausted (a count of zero is
    /// exhausted at once).
    pub open spec fn exhausted_by_consume(self) -> bool {
        match self {
            RepetitionCount::Infinite => false,
            RepetitionCount::Finite(n) => n <= 1,
        }
    }

    /// The count after `k` occurrences are used up.
    pub open spec fn consumed_times(self, k: nat) -> RepetitionCount
        decreases k,
    {
        if k == 0 {
            self
        } else {
            self.consumed_times((k - 1) as nat).consumed()
        }
    }

    /// Uses up one occurrence and tells whether the budget is now exhausted.
    pub fn is_finished_on_update(&mut self) -> (finished: bool)
        ensures
            *final(self) == old(self).consumed(),
            finished == old(self).exhausted_by_consume(),
    {
        match self {
            RepetitionCount::Infinite => false,
            RepetitionCount::Finite(count) => {
                if *count > 0 {
                    *count = *count - 1;
                }
                *count == 0
            },
        }
    }

    /// Uses up one occurrence and tells whether the budget is now exhausted (the same operation
    /// as `is_finished_on_update`).
    pub fn update_and_check(&mut self) -> (finished: bool)
        ensures
            *final(self) == old(self).consumed(),
            finished == old(self).exhausted_by_consume(),
    {
        self.is_finished_on_update()
    }

    /// A finite budget of `n >= 1` occurrences is exhausted by the `n`-th use and by no earlier
    /// one.
    pub proof fn lemma_finite_budget(n: u64, k: nat)
        requires
            n >= 1,
            k < n,
        ensures
            RepetitionCount::Finite(n).consumed_times(k) == RepetitionCount::Finite((n - k) as u64),
            RepetitionCount::Finite(n).consumed_times(k).exhausted_by_consume() <==> k == n - 1,
        decreases k,
    {
        if k > 0 {
            RepetitionCount::lemma_finite_budget(n, (k - 1) as nat);
        }
    }
}

/// How the due date of a task moves on after it fires. The gap of `ConstGap` is in
/// milliseconds and must be positive.
#[derive(PartialEq, Eq, Clone, Copy, Debug, Structural)]
pub enum RepetitionType {
    Once,
    Weekly(RepetitionCount),
    Monthly(RepetitionCount),
    Yearly(RepetitionCount),
    ConstGap { gap: i64, count: RepetitionCount },
    Custom,
}

/// A recurrence policy supplied by the caller for tasks of the `Custom` rule.
pub trait CustomRepetition {
    /// Whether this handler can be asked for dates at all.
    spec fn handles_custom(&self) -> bool;

    /// The next due date of a task due at `current`, seen from `now`; `None` stops the task.
    spec fn next_date(&self, now: Timestamp, current: Timestamp) -> Option<Timestamp>;

    fn is_available(&self) -> (r: bool)
        ensures
            r == self.handles_custom(),
    ;

    fn update_date(&self, now: &Timestamp, current_date: &Timestamp) -> (r: Option<Timestamp>)
        requires
            self.handles_custom(),
        ensures
            r == self.next_date(*now, *current_date),
    ;
}

/// The handler in place when none is configured: it handles nothing, so a scheduler that holds
/// it refuses to run a lane with a `Custom` task.
#[derive(Clone, Copy, Debug)]
pub struct NoCustomRepetition;

impl CustomRepetition for NoCustomRepetition {
    open spec fn handles_custom(&self) -> bool {
        false
    }

    open spec fn next_date(&self, now: Timestamp, current: Timestamp) -> Option<Timestamp> {
        None
    }

    fn is_available(&self) -> (r: bool) {
        false
    }

    fn update_date(&self, now: &Timestamp, current_date: &Timestamp) -> (r: Option<Timestamp>) {
        None
    }
}

/// The first instant `origin + k * gap` (with `k >= 0`) that lies after `now`.
pub open spec fn gap_target(now: int, origin: int, gap: int) -> int {
    if origin > now {
        origin
    } else {
        now + gap - (now - origin) % gap
    }
}

/// The date of the constant-gap rule, kept in the offset of `date`; `None` where it overflows.
pub open spec fn const_gap_next(now: Timestamp, date: Timestamp, gap: i64) -> Option<Timestamp> {
    let t = gap_target(now.millis as int, date.millis as int, gap as int);
    if i64::MIN <= t <= i64::MAX {
        Some(Timestamp { millis: t as i64, offset: date.offset })
    } else {
        None
    }
}

/// The month `k` months after month `m` of year `y`.
pub open spec fn month_after(y: int, m: int, k: nat) -> (int, int)
    decreases k,
{
    if k == 0 {
        (y, m)
    } else {
        let prev = month_after(y, m, (k - 1) as nat);
        if prev.1 >= 12 {
            (prev.0 + 1, 1)
        } else {
            (prev.0, prev.1 + 1)
        }
    }
}

/// The reading `d` moved to month `m` of year `y`, day and time kept.
pub open spec fn civil_in_month(d: CivilDateTime, y: int, m: int) -> CivilDateTime {
    CivilDateTime {
        year: y as i32,
        month: m as u32,
        day: d.day,
        hour: d.hour,
        minute: d.minute,
        second: d.second,
        millisecond: d.millisecond,
    }
}

/// The instant of day and time `d` in the month `k` months after the month of `n`.
pub open spec fn monthly_candidate(n: CivilDateTime, d: CivilDateTime, offset: i32, k: nat) -> Option<i64> {
    let ym = month_after(n.year as int, n.month as int, k);
    if i32::MIN <= ym.0 <= i32::MAX && ym.1 <= u32::MAX {
        instant_of(civil_in_month(d, ym.0, ym.1), offset)
    } else {
        None
    }
}

/// The first candidate from the `k`-th month on, among the months tried, that lies after `now`.
pub open spec fn monthly_from(now: i64, n: CivilDateTime, d: CivilDateTime, offset: i32, k: nat) -> Option<i64>
    decreases MONTHS_TRIED - k,
{
    if k >= MONTHS_TRIED {
        None
    } else {
        match monthly_candidate(n, d, offset, k) {
            Some(ms) if ms > now => Some(ms),
            _ => monthly_from(now, n, d, offset, k + 1),
        }
    }
}

/// The date of the monthly rule: the first instant after `now` that has the day of month and
/// time of day of `date` (both read at the offset of `date`), searched from the month of `now`
/// on. A month that lacks the day is skipped.
pub open spec fn monthly_next(now: Timestamp, date: Timestamp) -> Option<Timestamp> {
    match (civil_of(now.millis, date.offset), civil_of(date.millis, date.offset)) {
        (Some(n), Some(d)) => match monthly_from(now.millis, n, d, date.offset, 0) {
            Some(ms) => Some(Timestamp { millis: ms, offset: date.offset }),
            None => None,
        },
        _ => None,
    }
}

/// Gregorian leap years.
pub open spec fn is_leap_year(y: int) -> bool {
    y % 4 == 0 && (y % 100 != 0 || y % 400 == 0)
}

/// The first leap year from `y` on, looking at most `fuel` years further.
pub open spec fn leap_year_from(y: int, fuel: nat) -> int
    decreases fuel,
{
    if fuel == 0 || is_leap_year(y) {
        y
    } else {
        leap_year_from(y + 1, (fuel - 1) as nat)
    }
}

/// The first leap year after `y`.
pub open spec fn next_leap_year(y: int) -> int {
    leap_year_from(y + 1, LEAP_YEARS_TRIED as nat)
}

/// The year that the yearly rule moves a date read as `d` to, seen from year `now_year`.
pub open spec fn yearly_target(now_year: int, d: CivilDateTime) -> int {
    if d.month == 2 && d.day == 29 {
        next_leap_year(now_year)
    } else {
        now_year + 1
    }
}

/// The date of the yearly rule: month, day and time of `date` in the year after that of `now`
/// (read at the offset of `date`), or, for February 29, in the first leap year after it.
pub open spec fn yearly_next(now: Timestamp, date: Timestamp) -> Option<Timestamp> {
    match (civil_of(now.millis, date.offset), civil_of(date.millis, date.offset)) {
        (Some(n), Some(d)) => {
            let y = yearly_target(n.year as int, d);
            if y <= i32::MAX {
                match instant_of(civil_in_month(d, y, d.month as int), date.offset) {
                    Some(ms) => Some(Timestamp { millis: ms, offset: date.offset }),
                    None => None,
                }
            } else {
                None
            }
        },
        _ => None,
    }
}

/// Date computations of the recurring rules. Each one moves `date` on, as seen from `now`, and
/// returns `true`; where the new date cannot be computed it leaves `date` alone and returns
/// `false`.
pub struct RepetitionHelpers;

impl RepetitionHelpers {
    /// Moves `date` to the first instant after `now` reached from it by whole weeks.
    pub fn update_weekly(now: &Timestamp, date: &mut Timestamp) -> (ok: bool)
        ensures
            ok == const_gap_next(*now, *old(date), WEEK_MILLIS) is Some,
            ok ==> *final(date) == const_gap_next(*now, *old(date), WEEK_MILLIS)->Some_0,
            !ok ==> *final(date) == *old(date),
    {
        Self::update_const_gap(now, date, WEEK_MILLIS)
    }

    /// Moves `date` to the first instant after `now` reached from it by whole gaps; a date
    /// already after `now` stays.
    pub fn update_const_gap(now: &Timestamp, date: &mut Timestamp, gap: i64) -> (ok: bool)
        requires
            gap > 0,
        ensures
            ok == const_gap_next(*now, *old(date), gap) is Some,
            ok ==> *final(date) == const_gap_next(*now, *old(date), gap)->Some_0,
            !ok ==> *final(date) == *old(date),
    {
        if date.millis > now.millis {
            return true;
        }
        let diff: u64 = (now.millis as i128 - date.millis as i128) as u64;
        let rem: u64 = diff % (gap as u64);
        let step: i64 = (gap as u64 - rem) as i64;
        match now.millis.checked_add(step) {
            Some(m) => {
                date.millis = m;
                true
            },
            None => false,
        }
    }

    /// Moves `date` to the first instant after `now` with the same day of month and time of day,
    /// skipping months that lack the day.
    pub fn update_monthly(now: &Timestamp, date: &mut Timestamp) -> (ok: bool)
        ensures
            ok == monthly_next(*now, *old(date)) is Some,
            ok ==> *final(date) == monthly_next(*now, *old(date))->Some_0,
            !ok ==> *final(date) == *old(date),
    {
        let n = match civil_at(now.millis, date.offset) {
            Some(c) => c,
            None => return false,
        };
        let d = match civil_at(date.millis, date.offset) {
            Some(c) => c,
            None => return false,
        };
        let mut y: i64 = n.year as i64;
        let mut m: u32 = n.month;
        let mut k: u64 = 0;
        while k < MONTHS_TRIED
            invariant
                0 <= k <= MONTHS_TRIED,
                month_after(n.year as int, n.month as int, k as nat) == (y as int, m as int),
                i32::MIN <= y <= i32::MAX + k,
                monthly_next(*now, *old(date)) == match monthly_from(now.millis, n, d, date.offset, k as nat) {
                    Some(ms) => Some(Timestamp { millis: ms, offset: date.offset }),
                    None => None::<Timestamp>,
                },
                *date == *old(date),
                civil_of(now.millis, date.offset) == Some(n),
                civil_of(date.millis, date.offset) == Some(d),
            decreases MONTHS_TRIED - k,
        {
            if y <= i32::MAX as i64 {
                let c = CivilDateTime {
                    year: y as i32,
                    month: m,
                    day: d.day,
                    hour: d.hour,
                    minute: d.minute,
                    second: d.second,
                    millisecond: d.millisecond,
                };
                assert(c == civil_in_month(d, y as int, m as int));
                match instant_at(c, date.offset) {
                    Some(ms) => {
                        if ms > now.millis {
                            date.millis = ms;
                            return true;
                        }
                    },
                    None => {},
                }
            }
            if m >= 12 {
                m = 1;
                y = y + 1;
            } else {
                m = m + 1;
            }
            k = k + 1;
        }
        false
    }

    /// Moves `date` to its month, day and time in the year after that of `now`; a February 29
    /// goes to the first leap year after that of `now`.
    pub fn update_yearly(now: &Timestamp, date: &mut Timestamp) -> (ok: bool)
        ensures
            ok == yearly_next(*now, *old(date)) is Some,
            ok ==> *final(date) == yearly_next(*now, *old(date))->Some_0,
            !ok ==> *final(date) == *old(date),
    {
        let n = match civil_at(now.millis, date.offset) {
            Some(c) => c,
            None => return false,
        };
        let d = match civil_at(date.millis, date.offset) {
            Some(c) => c,
            None => return false,
        };
        let y: i64 = if d.month == 2 && d.day == 29 {
            next_leap_year_after(n.year)
        } else {
            n.year as i64 + 1
        };
        if y > i32::MAX as i64 {
            return false;
        }
        let c = CivilDateTime {
            year: y as i32,
            month: d.month,
            day: d.day,
            hour: d.hour,
            minute: d.minute,
            second: d.second,
            millisecond: d.millisecond,
        };
        assert(c == civil_in_month(d, y as int, d.month as int));
        match instant_at(c, date.offset) {
            Some(ms) => {
                date.millis = ms;
                true
            },
            None => false,
        }
    }
}

/// Whether `y` is a leap year (for the years that an `i32` holds, and a few more).
fn leap(y: i64) -> (r: bool)
    requires
        i32::MIN <= y <= i32::MAX + LEAP_YEARS_TRIED,
    ensures
        r == is_leap_year(y as int),
{
    // A multiple of 400 added to the year keeps its residues by 4, 100 and 400.
    let u: u64 = (y + 4_294_967_200) as u64;
    assert(u as int % 4 == y as int % 4);
    assert(u as int % 100 == y as int % 100);
    assert(u as int % 400 == y as int % 400);
    u % 4 == 0 && (u % 100 != 0 || u % 400 == 0)
}

/// The first leap year after `year`.
fn next_leap_year_after(year: i32) -> (r: i64)
    ensures
        r == next_leap_year(year as int),
{
    let mut y: i64 = year as i64 + 1;
    let mut fuel: u64 = LEAP_YEARS_TRIED;
    while fuel > 0 && !leap(y)
        invariant
            fuel <= LEAP_YEARS_TRIED,
            y == year as int + 1 + (LEAP_YEARS_TRIED - fuel),
            leap_year_from(y as int, fuel as nat) == next_leap_year(year as int),
        decreases fuel,
    {
        y = y + 1;
        fuel = fuel - 1;
    }
    y
}

/// The constant-gap rule, for a positive gap, lands on the first of `origin`, `origin + gap`,
/// `origin + 2 * gap`, ... that lies after `now`.
pub proof fn lemma_gap_target_first_after(now: int, origin: int, gap: int)
    requires
        gap > 0,
    ensures
        gap_target(now, origin, gap) > now,
        exists|k: int|
            k >= 0 && #[trigger] (origin + k * gap) == gap_target(now, origin, gap) && (k == 0
                || origin + (k - 1) * gap <= now),
{
    if origin <= now {
        let diff = now - origin;
        let q = diff / gap;
        let rem = diff % gap;
        vstd::arithmetic::div_mod::lemma_fundamental_div_mod(diff, gap);
        assert(0 <= rem < gap);
        assert(q >= 0) by {
            vstd::arithmetic::div_mod::lemma_div_pos_is_pos(diff, gap);
        }
        assert(origin + (q + 1) * gap == gap_target(now, origin, gap)) by (nonlinear_arith)
            requires
                diff == q * gap + rem,
                diff == now - origin,
                gap_target(now, origin, gap) == now + gap - rem,
        ;
        assert(origin + ((q + 1) - 1) * gap <= now) by (nonlinear_arith)
            requires
                diff == q * gap + rem,
                diff == now - origin,
                rem >= 0,
        ;
        assert(origin + (q + 1) * gap == gap_target(now, origin, gap));
    } else {
        assert(origin + 0 * gap == gap_target(now, origin, gap));
    }
}

/// The weekly rule moves a date to an instant after `now` that lies a whole number of weeks
/// from it, at the same offset, so the weekday and the time of day are kept.
pub proof fn lemma_weekly_keeps_weekday_and_time(now: Timestamp, date: Timestamp)
    ensures
        const_gap_next(now, date, WEEK_MILLIS) matches Some(r) ==> {
            &&& r.millis > now.millis
            &&& r.offset == date.offset
            &&& (r.millis - date.millis) % (WEEK_MILLIS as int) == 0
            &&& date.millis > now.millis || r.millis - WEEK_MILLIS <= now.millis
        },
{
    let g = WEEK_MILLIS as int;
    lemma_gap_target_first_after(now.millis as int, date.millis as int, g);
    let t = gap_target(now.millis as int, date.millis as int, g);
    let k = choose|k: int|
        k >= 0 && #[trigger] (date.millis + k * g) == t && (k == 0 || date.millis + (k - 1) * g
            <= now.millis);
    assert((t - date.millis) % g == 0) by {
        vstd::arithmetic::div_mod::lemma_mod_multiples_basic(k, g);
    }
    assert(k == 0 || t - g <= now.millis) by (nonlinear_arith)
        requires
            date.millis + k * g == t,
            k == 0 || date.millis + (k - 1) * g <= now.millis,
    ;
}

/// A February 29 moves to the first leap year after a given year.
proof fn lemma_leap_year_from(y: int, fuel: nat, z: int)
    requires
        y <= z <= y + fuel,
        is_leap_year(z),
    ensures
        is_leap_year(leap_year_from(y, fuel)),
        y <= leap_year_from(y, fuel) <= z,
        forall|w: int| y <= w < leap_year_from(y, fuel) ==> !is_leap_year(w),
    decreases fuel,
{
    if fuel > 0 && !is_leap_year(y) {
        lemma_leap_year_from(y + 1, (fuel - 1) as nat, z);
    }
}

/// The yearly rule keeps month, day and time, and moves to the year after `now_year`; a
/// February 29 moves instead to the first leap year after `now_year`, which is a multiple of
/// four, and is the next multiple of four unless that one is a century year not divisible by
/// 400.
pub proof fn lemma_yearly_target(now_year: int, d: CivilDateTime)
    ensures
        !(d.month == 2 && d.day == 29) ==> yearly_target(now_year, d) == now_year + 1,
        d.month == 2 && d.day == 29 ==> {
            let y = yearly_target(now_year, d);
            &&& y > now_year
            &&& y % 4 == 0
            &&& is_leap_year(y)
            &&& forall|w: int| now_year < w < y ==> !is_leap_year(w)
            &&& (is_leap_year(now_year + 4 - now_year % 4) ==> y == now_year + 4 - now_year % 4)
        },
        civil_in_month(d, yearly_target(now_year, d), d.month as int).month == d.month,
        civil_in_month(d, yearly_target(now_year, d), d.month as int).day == d.day,
{
    let m = now_year + 4 - now_year % 4;
    if is_leap_year(m) {
        lemma_leap_year_from(now_year + 1, LEAP_YEARS_TRIED as nat, m);
    } else {
        assert(is_leap_year(m + 4));
        lemma_leap_year_from(now_year + 1, LEAP_YEARS_TRIED as nat, m + 4);
    }
}

} // verus!
