//! Naive date-times (no timezone) and their display strings.
//!
//! A date-time renders as `"DD Mon YYYY"` with a zero-padded two-digit day,
//! a fixed English three-letter month abbreviation, and a four-digit year.
//! The year alone renders as its four digits, so that lexicographic order of
//! year strings coincides with numeric order of years.

use vstd::prelude::*;
use vstd::string::StringExecFns;

verus! {

/// A naive calendar date with a time of day, without a timezone.
#[derive(Clone, Copy, PartialEq, Eq, Structural, Debug)]
pub struct DateTime {
    pub year: u16,
    pub month: u8,
    pub day: u8,
    pub hour: u8,
    pub minute: u8,
    pub second: u8,
}

impl DateTime {
    /// Fields lie within calendar ranges and the year has at most four digits.
    pub open spec fn wf(self) -> bool {
        &&& self.year <= 9999
        &&& 1 <= self.month <= 12
        &&& 1 <= self.day <= 31
        &&& self.hour < 24
        &&& self.minute < 60
        &&& self.second < 60
    }

    /// Builds a date-time from already-validated calendar fields.
    pub fn new(year: u16, month: u8, day: u8, hour: u8, minute: u8, second: u8) -> (d: DateTime)
        requires
            year <= 9999,
            1 <= month <= 12,
            1 <= day <= 31,
            hour < 24,
            minute < 60,
            second < 60,
        ensures
            d == (DateTime { year, month, day, hour, minute, second }),
            d.wf(),
    {
        DateTime { year, month, day, hour, minute, second }
    }
}

/// The decimal digit character for a value below ten.
pub open spec fn digit_char(n: nat) -> char
    recommends
        n < 10,
{
    if n == 0 {
        '0'
    } else if n == 1 {
        '1'
    } else if n == 2 {
        '2'
    } else if n == 3 {
        '3'
    } else if n == 4 {
        '4'
    } else if n == 5 {
        '5'
    } else if n == 6 {
        '6'
    } else if n == 7 {
        '7'
    } else if n == 8 {
        '8'
    } else {
        '9'
    }
}

/// A value below one hundred as two decimal digits, zero padded.
pub open spec fn two_digit_chars(n: nat) -> Seq<char>
    recommends
        n < 100,
{
    seq![digit_char(n / 10), digit_char(n % 10)]
}

/// A value below ten thousand as four decimal digits, zero padded.
pub open spec fn four_digit_chars(n: nat) -> Seq<char>
    recommends
        n < 10000,
{
    seq![
        digit_char(n / 1000),
        digit_char((n / 100) % 10),
        digit_char((n / 10) % 10),
        digit_char(n % 10),
    ]
}

/// The fixed English three-letter abbreviation of a month.
pub open spec fn month_abbrev_chars(m: nat) -> Seq<char>
    recommends
        1 <= m <= 12,
{
    if m == 1 {
        seq!['J', 'a', 'n']
    } else if m == 2 {
        seq!['F', 'e', 'b']
    } else if m == 3 {
        seq!['M', 'a', 'r']
    } else if m == 4 {
        seq!['A', 'p', 'r']
    } else if m == 5 {
        seq!['M', 'a', 'y']
    } else if m == 6 {
        seq!['J', 'u', 'n']
    } else if m == 7 {
        seq!['J', 'u', 'l']
    } else if m == 8 {
        seq!['A', 'u', 'g']
    } else if m == 9 {
        seq!['S', 'e', 'p']
    } else if m == 10 {
        seq!['O', 'c', 't']
    } else if m == 11 {
        seq!['N', 'o', 'v']
    } else {
        seq!['D', 'e', 'c']
    }
}

/// The display string of a date: `"DD Mon YYYY"`.
pub open spec fn date_display(d: DateTime) -> Seq<char> {
    two_digit_chars(d.day as nat) + seq![' '] + month_abbrev_chars(d.month as nat) + seq![' ']
        + four_digit_chars(d.year as nat)
}

/// The display string of a year: its four digits.
pub open spec fn year_display(d: DateTime) -> Seq<char> {
    four_digit_chars(d.year as nat)
}

/// The one-character string for a decimal digit.
fn digit_str(n: u8) -> (r: &'static str)
    requires
        n < 10,
    ensures
        r@ == seq![digit_char(n as nat)],
{
    if n == 0 {
        proof {
            reveal_strlit("0");
            assert("0"@ =~= seq![digit_char(0)]);
        }
        "0"
    } else if n == 1 {
        proof {
            reveal_strlit("1");
            assert("1"@ =~= seq![digit_char(1)]);
        }
        "1"
    } else if n == 2 {
        proof {
            reveal_strlit("2");
            assert("2"@ =~= seq![digit_char(2)]);
        }
        "2"
    } else if n == 3 {
        proof {
            reveal_strlit("3");
            assert("3"@ =~= seq![digit_char(3)]);
        }
        "3"
    } else if n == 4 {
        proof {
            reveal_strlit("4");
            assert("4"@ =~= seq![digit_char(4)]);
        }
        "4"
    } else if n == 5 {
        proof {
            reveal_strlit("5");
            assert("5"@ =~= seq![digit_char(5)]);
        }
        "5"
    } else if n == 6 {
        proof {
            reveal_strlit("6");
            assert("6"@ =~= seq![digit_char(6)]);
        }
        "6"
    } else if n == 7 {
        proof {
            reveal_strlit("7");
            assert("7"@ =~= seq![digit_char(7)]);
        }
        "7"
    } else if n == 8 {
        proof {
            reveal_strlit("8");
            assert("8"@ =~= seq![digit_char(8)]);
        }
        "8"
    } else {
        proof {
            reveal_strlit("9");
            assert("9"@ =~= seq![digit_char(9)]);
        }
        "9"
    }
}

/// The fixed abbreviation of a month, as a string slice.
fn month_str(m: u8) -> (r: &'static str)
    requires
        1 <= m <= 12,
    ensures
        r@ == month_abbrev_chars(m as nat),
{
    if m == 1 {
        proof {
            reveal_strlit("Jan");
            assert("Jan"@ =~= month_abbrev_chars(1));
        }
        "Jan"
    } else if m == 2 {
        proof {
            reveal_strlit("Feb");
            assert("Feb"@ =~= month_abbrev_chars(2));
        }
        "Feb"
    } else if m == 3 {
        proof {
            reveal_strlit("Mar");
            assert("Mar"@ =~= month_abbrev_chars(3));
        }
        "Mar"
    } else if m == 4 {
        proof {
            reveal_strlit("Apr");
            assert("Apr"@ =~= month_abbrev_chars(4));
        }
        "Apr"
    } else if m == 5 {
        proof {
            reveal_strlit("May");
            assert("May"@ =~= month_abbrev_chars(5));
        }
        "May"
    } else if m == 6 {
        proof {
            reveal_strlit("Jun");
            assert("Jun"@ =~= month_abbrev_chars(6));
        }
        "Jun"
    } else if m == 7 {
        proof {
            reveal_strlit("Jul");
            assert("Jul"@ =~= month_abbrev_chars(7));
        }
        "Jul"
    } else if m == 8 {
        proof {
            reveal_strlit("Aug");
            assert("Aug"@ =~= month_abbrev_chars(8));
        }
        "Aug"
    } else if m == 9 {
        proof {
            reveal_strlit("Sep");
            assert("Sep"@ =~= month_abbrev_chars(9));
        }
        "Sep"
    } else if m == 10 {
        proof {
            reveal_strlit("Oct");
            assert("Oct"@ =~= month_abbrev_chars(10));
        }
        "Oct"
    } else if m == 11 {
        proof {
            reveal_strlit("Nov");
            assert("Nov"@ =~= month_abbrev_chars(11));
        }
        "Nov"
    } else {
        proof {
            reveal_strlit("Dec");
            assert("Dec"@ =~= month_abbrev_chars(12));
        }
        "Dec"
    }
}

/// Appends a value below one hundred as two zero-padded digits.
fn push_two_digits(s: &mut String, n: u8)
    requires
        n < 100,
    ensures
        final(s)@ == old(s)@ + two_digit_chars(n as nat),
{
    s.append(digit_str(n / 10));
    s.append(digit_str(n % 10));
    proof {
        assert(s@ =~= old(s)@ + two_digit_chars(n as nat));
    }
}

/// Appends a value below ten thousand as four zero-padded digits.
fn push_four_digits(s: &mut String, n: u16)
    requires
        n < 10000,
    ensures
        final(s)@ == old(s)@ + four_digit_chars(n as nat),
{
    s.append(digit_str((n / 1000) as u8));
    s.append(digit_str(((n / 100) % 10) as u8));
    s.append(digit_str(((n / 10) % 10) as u8));
    s.append(digit_str((n % 10) as u8));
    proof {
        assert(s@ =~= old(s)@ + four_digit_chars(n as nat));
    }
}

/// Renders a date as `"DD Mon YYYY"`.
pub fn date_to_string(d: &DateTime) -> (s: String)
    requires
        d.wf(),
    ensures
        s@ == date_display(*d),
{
    let mut s = String::new();
    push_two_digits(&mut s, d.day);
    proof {
        reveal_strlit(" ");
        assert(" "@ =~= seq![' ']);
    }
    s.append(" ");
    s.append(month_str(d.month));
    s.append(" ");
    push_four_digits(&mut s, d.year);
    proof {
        assert(s@ =~= date_display(*d));
    }
    s
}

/// Renders the year of a date as its four digits.
pub fn year_to_string(d: &DateTime) -> (s: String)
    requires
        d.year <= 9999,
    ensures
        s@ == year_display(*d),
{
    let mut s = String::new();
    push_four_digits(&mut s, d.year);
    proof {
        assert(s@ =~= year_display(*d));
    }
    s
}

} // verus!
