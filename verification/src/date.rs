use vstd::prelude::*;

use crate::text::{dec_val, is_digit};

verus! {

/// A calendar date carried by a snapshot file name, as plain year, month
/// and day numbers.
#[derive(Debug, Clone, Copy, PartialEq, Eq, Structural)]
pub struct SnapshotDate {
    pub year: u32,
    pub month: u32,
    pub day: u32,
}

/// A leap year of the Gregorian calendar.
pub open spec fn is_leap_year(y: int) -> bool {
    y % 4 == 0 && (y % 100 != 0 || y % 400 == 0)
}

/// How many days the given month of the given year has.
pub open spec fn days_in_month(y: int, m: int) -> int {
    if m == 2 {
        if is_leap_year(y) {
            29
        } else {
            28
        }
    } else if m == 4 || m == 6 || m == 9 || m == 11 {
        30
    } else {
        31
    }
}

impl SnapshotDate {
    /// The fields name a real calendar date with a four-digit year.
    pub open spec fn valid(self) -> bool {
        self.year <= 9999 && 1 <= self.month <= 12 && 1 <= self.day <= days_in_month(
            self.year as int,
            self.month as int,
        )
    }

    /// The date as one number, `year * 10000 + month * 100 + day`; dates
    /// compare the same way these numbers do.
    pub open spec fn num(self) -> int {
        self.year * 10000 + self.month * 100 + self.day
    }

    /// The date as one number, `year * 10000 + month * 100 + day`.
    pub fn num_value(&self) -> (r: u32)
        requires
            self.valid(),
        ensures
            r == self.num(),
    {
        self.year * 10000 + self.month * 100 + self.day
    }
}

/// The date written in the first eight characters of a digit sequence:
/// four year digits, two month digits, two day digits.
pub open spec fn date_of_digits(s: Seq<char>) -> SnapshotDate {
    SnapshotDate {
        year: dec_val(s.subrange(0, 4)) as u32,
        month: dec_val(s.subrange(4, 6)) as u32,
        day: dec_val(s.subrange(6, 8)) as u32,
    }
}

/// Reads the first eight characters as a `YYYYMMDD` date. Returns the date
/// when it names a real calendar day, and nothing otherwise.
pub fn parse_yyyymmdd(s: &Vec<char>) -> (r: Option<SnapshotDate>)
    requires
        s@.len() >= 8,
        forall|k: int| 0 <= k < 8 ==> is_digit(#[trigger] s@[k]),
    ensures
        r is Some <==> date_of_digits(s@).valid(),
        r matches Some(d) ==> d == date_of_digits(s@) && d.valid(),
{
    proof {
        lemma_two_digits(s@, 4);
        lemma_two_digits(s@, 6);
        lemma_four_digits(s@);
    }
    let year: u32 = digit(s[0]) * 1000 + digit(s[1]) * 100 + digit(s[2]) * 10 + digit(s[3]);
    let month: u32 = digit(s[4]) * 10 + digit(s[5]);
    let day: u32 = digit(s[6]) * 10 + digit(s[7]);
    let d = SnapshotDate { year, month, day };
    if month < 1 || month > 12 {
        return None;
    }
    let dim: u32 = if month == 2 {
        let leap = year % 4 == 0 && (year % 100 != 0 || year % 400 == 0);
        if leap {
            29
        } else {
            28
        }
    } else if month == 4 || month == 6 || month == 9 || month == 11 {
        30
    } else {
        31
    };
    if day < 1 || day > dim {
        return None;
    }
    Some(d)
}

/// The numeric value of one digit character.
fn digit(c: char) -> (r: u32)
    requires
        is_digit(c),
    ensures
        r == crate::text::digit_val(c),
{
    (c as u32) - 0x30
}

/// The value of two digits starting at `i`, spelled out.
proof fn lemma_two_digits(s: Seq<char>, i: int)
    requires
        0 <= i,
        i + 2 <= s.len(),
    ensures
        dec_val(s.subrange(i, i + 2)) == crate::text::digit_val(s[i]) * 10
            + crate::text::digit_val(s[i + 1]),
{
    let t1 = s.subrange(i, i + 1);
    let t2 = s.subrange(i, i + 2);
    assert(t1.drop_last() =~= Seq::<char>::empty());
    assert(t1.last() == s[i]);
    assert(dec_val(Seq::<char>::empty()) == 0);
    assert(dec_val(t1) == crate::text::digit_val(s[i]));
    assert(t2.drop_last() =~= t1);
    assert(t2.last() == s[i + 1]);
    assert(dec_val(t2) == dec_val(t1) * 10 + crate::text::digit_val(s[i + 1]));
}

/// The value of the first four digits, spelled out.
proof fn lemma_four_digits(s: Seq<char>)
    requires
        s.len() >= 4,
    ensures
        dec_val(s.subrange(0, 4)) == crate::text::digit_val(s[0]) * 1000 + crate::text::digit_val(
            s[1],
        ) * 100 + crate::text::digit_val(s[2]) * 10 + crate::text::digit_val(s[3]),
{
    let t1 = s.subrange(0, 1);
    let t2 = s.subrange(0, 2);
    let t3 = s.subrange(0, 3);
    let t4 = s.subrange(0, 4);
    assert(t1.drop_last() =~= Seq::<char>::empty());
    assert(t1.last() == s[0]);
    assert(dec_val(Seq::<char>::empty()) == 0);
    assert(dec_val(t1) == crate::text::digit_val(s[0]));
    assert(t2.drop_last() =~= t1);
    assert(t2.last() == s[1]);
    assert(dec_val(t2) == dec_val(t1) * 10 + crate::text::digit_val(s[1]));
    assert(t3.drop_last() =~= t2);
    assert(t3.last() == s[2]);
    assert(dec_val(t3) == dec_val(t2) * 10 + crate::text::digit_val(s[2]));
    assert(t4.drop_last() =~= t3);
    assert(t4.last() == s[3]);
    assert(dec_val(t4) == dec_val(t3) * 10 + crate::text::digit_val(s[3]));
}

} // verus!

