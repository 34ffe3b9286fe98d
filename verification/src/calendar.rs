//! Calendar time: seconds since the epoch as a time stamp in UTC.

use vstd::prelude::*;

use crate::number;
use crate::number::{decimal_of, digit};

verus! {

/// Is `y` a leap year?
pub open spec fn leap(y: nat) -> bool {
    y % 4 == 0 && (y % 100 != 0 || y % 400 == 0)
}

/// How many days the year `y` has.
pub open spec fn year_days(y: nat) -> nat {
    if leap(y) {
        366
    } else {
        365
    }
}

/// How many days the month `m` of the year `y` has.
pub open spec fn month_days(y: nat, m: nat) -> nat {
    if m == 2 {
        if leap(y) {
            29
        } else {
            28
        }
    } else if m == 4 || m == 6 || m == 9 || m == 11 {
        30
    } else {
        31
    }
}

/// How many days lie between the epoch and the year `y`.
pub open spec fn days_to_year(y: nat) -> nat
    decreases y,
{
    if y <= 1970 {
        0
    } else {
        days_to_year((y - 1) as nat) + year_days((y - 1) as nat)
    }
}

/// How many days of the year `y` lie before the month `m`.
pub open spec fn days_to_month(y: nat, m: nat) -> nat
    decreases m,
{
    if m <= 1 {
        0
    } else {
        days_to_month(y, (m - 1) as nat) + month_days(y, (m - 1) as nat)
    }
}

/// A day of the calendar.
pub struct Day {
    pub year: nat,
    pub month: nat,
    pub day: nat,
}

impl Day {
    /// Is this a day from the epoch on?
    pub open spec fn valid(self) -> bool {
        &&& self.year >= 1970
        &&& 1 <= self.month <= 12
        &&& 1 <= self.day <= month_days(self.year, self.month)
    }

    /// How many days lie between the epoch and this one.
    pub open spec fn number(self) -> int {
        days_to_year(self.year) + days_to_month(self.year, self.month) + self.day - 1
    }
}

/// The day that comes `n` days after the epoch.
pub open spec fn day_at(n: nat) -> Day {
    choose|d: Day| #[trigger] d.valid() && d.number() == n
}

proof fn lemma_year_whole(y: nat)
    ensures
        days_to_month(y, 13) == year_days(y),
        forall|m: nat|
            1 <= m <= 12 ==> #[trigger] days_to_month(y, m) + month_days(y, m) <= year_days(y),
{
    reveal_with_fuel(days_to_month, 14);
}

proof fn lemma_years_ascend(a: nat, b: nat)
    requires
        1970 <= a < b,
    ensures
        days_to_year(a) + year_days(a) <= days_to_year(b),
    decreases b,
{
    if a < b - 1 {
        lemma_years_ascend(a, (b - 1) as nat);
    }
}

proof fn lemma_months_ascend(y: nat, a: nat, b: nat)
    requires
        1 <= a < b,
    ensures
        days_to_month(y, a) + month_days(y, a) <= days_to_month(y, b),
    decreases b,
{
    if a < b - 1 {
        lemma_months_ascend(y, a, (b - 1) as nat);
    }
}

/// No two days come equally long after the epoch.
pub proof fn lemma_days_distinct(a: Day, b: Day)
    requires
        a.valid(),
        b.valid(),
        a.number() == b.number(),
    ensures
        a == b,
{
    lemma_year_whole(a.year);
    lemma_year_whole(b.year);
    assert(days_to_month(a.year, a.month) + month_days(a.year, a.month) <= year_days(a.year));
    assert(days_to_month(b.year, b.month) + month_days(b.year, b.month) <= year_days(b.year));
    if a.year < b.year {
        lemma_years_ascend(a.year, b.year);
    } else if b.year < a.year {
        lemma_years_ascend(b.year, a.year);
    } else if a.month < b.month {
        lemma_months_ascend(a.year, a.month, b.month);
    } else if b.month < a.month {
        lemma_months_ascend(a.year, b.month, a.month);
    }
}

/// How many leap years there are before `y`.
spec fn leaps(y: nat) -> int {
    (y - 1) / 4 - (y - 1) / 100 + (y - 1) / 400
}

proof fn lemma_days_to_year(y: nat)
    requires
        y >= 1970,
    ensures
        days_to_year(y) == 365 * (y - 1970) + leaps(y) - leaps(1970),
    decreases y,
{
    if y > 1970 {
        lemma_days_to_year((y - 1) as nat);
    }
}

proof fn lemma_cycles(k: nat)
    ensures
        days_to_year(1970 + 400 * k) == 146097 * k,
{
    lemma_days_to_year(1970 + 400 * k);
}

fn is_leap(y: u64) -> (b: bool)
    ensures
        b == leap(y as nat),
{
    y % 4 == 0 && (y % 100 != 0 || y % 400 == 0)
}

fn days_in_year(y: u64) -> (n: u64)
    ensures
        n == year_days(y as nat),
{
    if is_leap(y) {
        366
    } else {
        365
    }
}

fn days_in_month(y: u64, m: u64) -> (n: u64)
    ensures
        n == month_days(y as nat, m as nat),
{
    if m == 2 {
        if is_leap(y) {
            29
        } else {
            28
        }
    } else if m == 4 || m == 6 || m == 9 || m == 11 {
        30
    } else {
        31
    }
}

/// The year, the month and the day that come `n` days after the epoch.
pub fn date(n: u64) -> (r: (u64, u64, u64))
    requires
        n <= u64::MAX / 86400,
    ensures
        (Day { year: r.0 as nat, month: r.1 as nat, day: r.2 as nat }).valid(),
        (Day { year: r.0 as nat, month: r.1 as nat, day: r.2 as nat }).number() == n,
        (Day { year: r.0 as nat, month: r.1 as nat, day: r.2 as nat }) == day_at(n as nat),
{
    // The calendar repeats itself every four hundred years.
    let cycle: u64 = n / 146097;
    let first: u64 = 1970 + 400 * cycle;
    let mut y: u64 = first;
    let mut rest: u64 = n % 146097;
    proof {
        lemma_cycles(cycle as nat);
    }
    while rest >= days_in_year(y)
        invariant
            1970 <= first <= y,
            first < 0x1_0000_0000_0000,
            rest < 146097,
            (y - first) * 365 + rest < 146097,
            days_to_year(y as nat) + rest == n,
        decreases rest,
    {
        rest = rest - days_in_year(y);
        y = y + 1;
    }
    let mut m: u64 = 1;
    proof {
        lemma_year_whole(y as nat);
    }
    while rest >= days_in_month(y, m)
        invariant
            y >= 1970,
            1 <= m <= 12,
            days_to_month(y as nat, 13) == year_days(y as nat),
            days_to_month(y as nat, m as nat) + rest < year_days(y as nat),
            days_to_year(y as nat) + days_to_month(y as nat, m as nat) + rest == n,
        decreases rest,
    {
        if m == 12 {
            assert(days_to_month(y as nat, 13) == days_to_month(y as nat, 12) + month_days(
                y as nat,
                12,
            ));
        }
        rest = rest - days_in_month(y, m);
        m = m + 1;
    }
    proof {
        let d = Day { year: y as nat, month: m as nat, day: (rest + 1) as nat };
        assert(d.valid() && d.number() == n);
        lemma_days_distinct(d, day_at(n as nat));
    }
    (y, m, rest + 1)
}

/// A number in two digits.
pub open spec fn two(n: nat) -> Seq<char> {
    seq![digit(n / 10 % 10), digit(n % 10)]
}

fn push_two(s: &mut String, n: u64)
    ensures
        final(s)@ == old(s)@ + two(n as nat),
{
    let tens: u8 = (n / 10 % 10) as u8;
    let ones: u8 = (n % 10) as u8;
    s.push((48 + tens) as char);
    s.push((48 + ones) as char);
    assert(s@ =~= old(s)@ + two(n as nat));
}

/// The time stamp of the moment `secs` seconds after the epoch, such as
/// `2026-09-15T12:01:47Z`.
pub open spec fn stamp_of(secs: u64) -> Seq<char> {
    let d = day_at((secs / 86400) as nat);
    let rest = (secs % 86400) as nat;
    decimal_of(d.year) + "-"@ + two(d.month) + "-"@ + two(d.day) + "T"@ + two(rest / 3600) + ":"@
        + two(rest / 60 % 60) + ":"@ + two(rest % 60) + "Z"@
}

/// The time stamp of the moment `secs` seconds after the epoch.
pub fn stamp(secs: u64) -> (r: String)
    ensures
        r@ == stamp_of(secs),
{
    let (y, m, d) = date(secs / 86400);
    let rest: u64 = secs % 86400;
    let mut s = number::decimal(y);
    s.append("-");
    push_two(&mut s, m);
    s.append("-");
    push_two(&mut s, d);
    s.append("T");
    push_two(&mut s, rest / 3600);
    s.append(":");
    push_two(&mut s, rest / 60 % 60);
    s.append(":");
    push_two(&mut s, rest % 60);
    s.append("Z");
    s
}

/// A time stamp is made of digits, hyphens, colons and two capital letters.
pub proof fn lemma_stamp_plain(secs: u64, i: int)
    requires
        0 <= i < stamp_of(secs).len(),
    ensures
        45 <= stamp_of(secs)[i] as u32 <= 90,
{
    reveal_strlit("-");
    reveal_strlit("T");
    reveal_strlit(":");
    reveal_strlit("Z");
    let year = decimal_of(day_at((secs / 86400) as nat).year);
    number::lemma_decimal_reads_back(day_at((secs / 86400) as nat).year);
    if i < year.len() {
        assert(stamp_of(secs)[i] == year[i]);
        assert(number::decimal_digit(year[i]));
    }
}

/// Months have thirty-one days and thirty in turn, February aside, from January to July and
/// again from August to December; February has one more day in a leap year, and the months of
/// a year make up its days.
pub proof fn lemma_months(y: nat, m: nat)
    requires
        1 <= m <= 12,
    ensures
        m != 2 && m <= 7 ==> month_days(y, m) == 30 + m % 2,
        m >= 8 ==> month_days(y, m) == 31 - m % 2,
        month_days(y, 2) == year_days(y) - 337,
        days_to_month(y, 13) == year_days(y),
{
    lemma_year_whole(y);
}

/// Every fourth year is a leap year but for full centuries, of which every fourth is; four
/// hundred years have 146097 days, whichever they are.
pub proof fn lemma_leap_years(y: nat, k: nat)
    ensures
        y % 4 != 0 ==> year_days(y) == 365,
        y % 4 == 0 && y % 100 != 0 ==> year_days(y) == 366,
        y % 100 == 0 && y % 400 != 0 ==> year_days(y) == 365,
        y % 400 == 0 ==> year_days(y) == 366,
        year_days(y) == year_days(y + 400),
        days_to_year(1970 + 400 * k) == 146097 * k,
{
    lemma_cycles(k);
    assert(y % 400 == 0 ==> y % 100 == 0 && y % 4 == 0);
    assert(y % 100 == 0 ==> y % 4 == 0);
    assert((y + 400) % 4 == y % 4);
    assert((y + 400) % 100 == y % 100);
    assert((y + 400) % 400 == y % 400);
}

/// The day after a day is the next of the month, or the first of the next month, or the first
/// of the next year.
pub proof fn lemma_next_day(d: Day, next: Day)
    requires
        d.valid(),
        next.valid(),
        next.number() == d.number() + 1,
    ensures
        d.day < month_days(d.year, d.month) ==> next == (Day { day: d.day + 1, ..d }),
        d.day == month_days(d.year, d.month) && d.month < 12 ==> next == (Day {
            year: d.year,
            month: d.month + 1,
            day: 1,
        }),
        d.day == month_days(d.year, d.month) && d.month == 12 ==> next == (Day {
            year: d.year + 1,
            month: 1,
            day: 1,
        }),
{
    if d.day < month_days(d.year, d.month) {
        lemma_days_distinct(next, Day { day: d.day + 1, ..d });
    } else if d.month < 12 {
        let e = Day { year: d.year, month: d.month + 1, day: 1 };
        assert(days_to_month(d.year, d.month + 1) == days_to_month(d.year, d.month) + month_days(
            d.year,
            d.month,
        ));
        lemma_days_distinct(next, e);
    } else {
        let e = Day { year: d.year + 1, month: 1, day: 1 };
        lemma_year_whole(d.year);
        assert(days_to_month(d.year, 13) == days_to_month(d.year, 12) + month_days(d.year, 12));
        assert(days_to_year(d.year + 1) == days_to_year(d.year) + year_days(d.year));
        lemma_days_distinct(next, e);
    }
}

/// Two digits read back as the number.
pub proof fn lemma_two(n: nat)
    requires
        n < 100,
    ensures
        two(n).len() == 2,
        (two(n)[0] as u32 - 48) * 10 + (two(n)[1] as u32 - 48) == n,
{
}

/// A stamp shows the time of day: hours, minutes and seconds that add up to the seconds since
/// midnight, two digits each, in universal time.
pub proof fn lemma_stamp_time(secs: u64, h: nat, m: nat, s: nat)
    requires
        h < 24,
        m < 60,
        s < 60,
        3600 * h + 60 * m + s == secs % 86400,
    ensures
        ({
            let end = "T"@ + two(h) + ":"@ + two(m) + ":"@ + two(s) + "Z"@;
            let all = stamp_of(secs);
            all.len() >= end.len() && all.skip(all.len() - end.len()) == end
        }),
{
    let d = day_at((secs / 86400) as nat);
    let rest = (secs % 86400) as nat;
    assert(rest / 3600 == h);
    assert(rest / 60 % 60 == m);
    assert(rest % 60 == s);
    let front = decimal_of(d.year) + "-"@ + two(d.month) + "-"@ + two(d.day);
    let e1 = "T"@ + two(h);
    let e2 = e1 + ":"@;
    let e3 = e2 + two(m);
    let e4 = e3 + ":"@;
    let e5 = e4 + two(s);
    let end = e5 + "Z"@;
    let all = stamp_of(secs);
    assert(front + e1 =~= front + "T"@ + two(h));
    assert(front + e2 =~= front + e1 + ":"@);
    assert(front + e3 =~= front + e2 + two(m));
    assert(front + e4 =~= front + e3 + ":"@);
    assert(front + e5 =~= front + e4 + two(s));
    assert(front + end =~= front + e5 + "Z"@);
    assert(all == front + end);
    assert(all.skip(all.len() - end.len()) =~= end);
}

/// A stamp begins with the day on which it falls.
pub proof fn lemma_stamp_day(secs: u64, d: Day)
    requires
        d.valid(),
        d.number() == secs / 86400,
    ensures
        crate::text::begins(
            stamp_of(secs),
            decimal_of(d.year) + "-"@ + two(d.month) + "-"@ + two(d.day) + "T"@,
        ),
{
    let e = day_at((secs / 86400) as nat);
    assert(exists|x: Day| #[trigger] x.valid() && x.number() == (secs / 86400) as nat);
    lemma_days_distinct(e, d);
    let front = decimal_of(d.year) + "-"@ + two(d.month) + "-"@ + two(d.day) + "T"@;
    assert(stamp_of(secs).subrange(0, front.len() as int) =~= front);
}

} // verus!
