use vstd::prelude::*;

verus! {

pub open spec fn is_leap_year(year: int) -> bool {
    (year % 4 == 0 && year % 100 != 0) || year % 400 == 0
}

pub open spec fn days_in_month(year: int, month: int) -> int {
    if month == 2 {
        if is_leap_year(year) {
            29
        } else {
            28
        }
    } else if month == 4 || month == 6 || month == 9 || month == 11 {
        30
    } else {
        31
    }
}

/// The character of a decimal digit.
pub open spec fn digit_char(n: int) -> char {
    ((n + '0' as int) as u32) as char
}

/// `n` in exactly `width` decimal digits, zeros first.
pub open spec fn padded_digits(n: int, width: nat) -> Seq<char>
    decreases width,
{
    if width == 0 {
        Seq::empty()
    } else {
        padded_digits(n / 10, (width - 1) as nat).push(digit_char(n % 10))
    }
}

/// The largest year that the four-digit key can hold.
pub const MAX_YEAR: u32 = 9999;

/// A day of the proleptic Gregorian calendar.
#[derive(Clone, Copy, Debug, PartialEq, Eq, Structural)]
pub struct CalendarDate {
    pub year: u32,
    pub month: u32,
    pub day: u32,
}

impl CalendarDate {
    pub open spec fn wf(self) -> bool {
        &&& self.year <= MAX_YEAR
        &&& 1 <= self.month <= 12
        &&& 1 <= self.day <= days_in_month(self.year as int, self.month as int)
    }

    /// The date as the store keys it: `YYYY-MM-DD`.
    pub open spec fn key_text(self) -> Seq<char> {
        padded_digits(self.year as int, 4) + seq!['-'] + padded_digits(self.month as int, 2) + seq![
            '-',
        ] + padded_digits(self.day as int, 2)
    }

    /// The date of the given year, month and day, where such a day exists.
    pub fn new(year: u32, month: u32, day: u32) -> (r: Option<CalendarDate>)
        ensures
            r is Some <==> (CalendarDate { year, month, day }).wf(),
            r is Some ==> r->Some_0 == (CalendarDate { year, month, day }),
    {
        if year > MAX_YEAR || month < 1 || month > 12 || day < 1 {
            return None;
        }
        let leap = (year % 4 == 0 && year % 100 != 0) || year % 400 == 0;
        let last: u32 = if month == 2 {
            if leap {
                29
            } else {
                28
            }
        } else if month == 4 || month == 6 || month == 9 || month == 11 {
            30
        } else {
            31
        };
        if day > last {
            None
        } else {
            Some(CalendarDate { year, month, day })
        }
    }

    /// The key text of the date, `YYYY-MM-DD`.
    pub fn key(&self) -> (r: String)
        requires
            self.wf(),
        ensures
            r@ == self.key_text(),
    {
        let mut r = String::new();
        append_padded(&mut r, self.year, 4);
        append_dash(&mut r);
        append_padded(&mut r, self.month, 2);
        append_dash(&mut r);
        append_padded(&mut r, self.day, 2);
        r
    }
}

fn append_dash(s: &mut String)
    ensures
        final(s)@ == old(s)@ + seq!['-'],
{
    proof {
        reveal_strlit("-");
    }
    s.append("-");
}

/// The one-character text of a digit.
fn digit_text(n: u32) -> (r: &'static str)
    requires
        n < 10,
    ensures
        r@ == seq![digit_char(n as int)],
{
    proof {
        reveal_strlit("0");
        reveal_strlit("1");
        reveal_strlit("2");
        reveal_strlit("3");
        reveal_strlit("4");
        reveal_strlit("5");
        reveal_strlit("6");
        reveal_strlit("7");
        reveal_strlit("8");
        reveal_strlit("9");
    }
    let r = match n {
        0 => "0",
        1 => "1",
        2 => "2",
        3 => "3",
        4 => "4",
        5 => "5",
        6 => "6",
        7 => "7",
        8 => "8",
        _ => "9",
    };
    assert(r@ =~= seq![digit_char(n as int)]);
    r
}

/// Appends `n` in `width` digits, zeros first.
fn append_padded(s: &mut String, n: u32, width: u32)
    requires
        width <= 4,
    ensures
        final(s)@ == old(s)@ + padded_digits(n as int, width as nat),
    decreases width,
{
    if width > 0 {
        append_padded(s, n / 10, width - 1);
        s.append(digit_text(n % 10));
        assert(padded_digits(n as int, width as nat) == padded_digits(n as int / 10, (width - 1) as nat).push(
            digit_char(n as int % 10),
        ));
        assert(final(s)@ =~= old(s)@ + padded_digits(n as int, width as nat));
    } else {
        assert(old(s)@ + padded_digits(n as int, 0) =~= old(s)@);
    }
}

/// Seconds in one day.
pub const SECONDS_PER_DAY: u64 = 86400;

/// The instant one day before `now`, both in seconds since the Unix epoch;
/// `None` for an instant within the epoch's first day.
pub fn day_before(now: u64) -> (r: Option<u64>)
    ensures
        r == if now >= SECONDS_PER_DAY {
            Some((now - SECONDS_PER_DAY) as u64)
        } else {
            None::<u64>
        },
{
    if now >= SECONDS_PER_DAY {
        Some(now - SECONDS_PER_DAY)
    } else {
        None
    }
}

} // verus!
