//! Calendar dates and UTC-day bounds.
//!
//! A processing job is keyed by a civil date; every record of that job must
//! fall into the UTC day `[days * 86400, days * 86400 + 86399]` where `days`
//! counts days since 1970-01-01.  The day count follows the standard
//! era-based civil-calendar formula.

use vstd::prelude::*;

verus! {

pub open spec fn spec_is_leap(y: int) -> bool {
    y % 4 == 0 && (y % 100 != 0 || y % 400 == 0)
}

pub open spec fn spec_days_in_month(y: int, m: int) -> int {
    if m == 2 {
        if spec_is_leap(y) {
            29
        } else {
            28
        }
    } else if m == 4 || m == 6 || m == 9 || m == 11 {
        30
    } else {
        31
    }
}

/// Days from 1970-01-01 to the civil date `(y, m, d)`, for years from 1600
/// so that every intermediate quotient is of non-negative numbers.
pub open spec fn spec_epoch_days(y: int, m: int, d: int) -> int {
    let yy = if m <= 2 {
        y - 1
    } else {
        y
    };
    let era = yy / 400;
    let yoe = yy - era * 400;
    let mp = if m > 2 {
        m - 3
    } else {
        m + 9
    };
    let doy = (153 * mp + 2) / 5 + d - 1;
    let doe = yoe * 365 + yoe / 4 - yoe / 100 + doy;
    era * 146097 + doe - 719468
}

/// One calendar date, year 1600 to 9999.
#[derive(Clone, Copy, PartialEq, Eq, Structural)]
pub struct CivilDate {
    pub year: u16,
    pub month: u8,
    pub day: u8,
}

impl CivilDate {
    pub open spec fn valid(&self) -> bool {
        &&& 1600 <= self.year <= 9999
        &&& 1 <= self.month <= 12
        &&& 1 <= self.day <= spec_days_in_month(self.year as int, self.month as int)
    }

    /// A date from its parts, `None` when they name no calendar day.
    pub fn new(year: u16, month: u8, day: u8) -> (r: Option<CivilDate>)
        ensures
            match r {
                Some(date) => date.valid() && date.year == year && date.month == month
                    && date.day == day,
                None => !(CivilDate { year, month, day }).valid(),
            },
    {
        if !(1600 <= year && year <= 9999) || month < 1 || month > 12 {
            return None;
        }
        let leap: bool = year % 4 == 0 && (year % 100 != 0 || year % 400 == 0);
        let dim: u8 = if month == 2 {
            if leap {
                29
            } else {
                28
            }
        } else if month == 4 || month == 6 || month == 9 || month == 11 {
            30
        } else {
            31
        };
        if day < 1 || day > dim {
            return None;
        }
        Some(CivilDate { year, month, day })
    }

    /// Days since 1970-01-01.
    pub fn epoch_days(&self) -> (r: i64)
        requires
            self.valid(),
        ensures
            r == spec_epoch_days(self.year as int, self.month as int, self.day as int),
            -200_000 <= r <= 3_000_000,
    {
        let y: i64 = self.year as i64;
        let m: i64 = self.month as i64;
        let d: i64 = self.day as i64;
        let yy: i64 = if m <= 2 {
            y - 1
        } else {
            y
        };
        proof {
            assert(1599 <= yy <= 9999);
        }
        let era: i64 = yy / 400;
        proof {
            assert(3 <= era <= 24) by {
                vstd::arithmetic::div_mod::lemma_div_is_ordered(1599, yy as int, 400);
                vstd::arithmetic::div_mod::lemma_div_is_ordered(yy as int, 9999, 400);
            }
        }
        let yoe: i64 = yy - era * 400;
        let mp: i64 = if m > 2 {
            m - 3
        } else {
            m + 9
        };
        let doy: i64 = (153 * mp + 2) / 5 + d - 1;
        let doe: i64 = yoe * 365 + yoe / 4 - yoe / 100 + doy;
        era * 146097 + doe - 719468
    }

    /// First second of the date's UTC day.
    pub open spec fn spec_day_start(&self) -> int {
        spec_epoch_days(self.year as int, self.month as int, self.day as int) * 86400
    }

    /// Last second of the date's UTC day.
    pub open spec fn spec_day_end(&self) -> int {
        self.spec_day_start() + 86399
    }

    /// The inclusive second bounds of the UTC day.
    pub fn day_bounds(&self) -> (r: (i64, i64))
        requires
            self.valid(),
        ensures
            r.0 == self.spec_day_start(),
            r.1 == self.spec_day_end(),
            r.1 == r.0 + 86399,
            -20_000_000_000 <= r.0,
            r.1 <= 300_000_000_000,
    {
        let days = self.epoch_days();
        let start = days * 86400;
        (start, start + 86399)
    }

    /// The rendering `YYYY-MM-DD`.
    pub open spec fn spec_ymd(&self) -> Seq<char> {
        crate::numtext::spec_padded(self.year as nat, 4) + seq!['-'] + crate::numtext::spec_padded(
            self.month as nat,
            2,
        ) + seq!['-'] + crate::numtext::spec_padded(self.day as nat, 2)
    }

    pub fn format_ymd(&self) -> (r: String)
        ensures
            r@ == self.spec_ymd(),
    {
        let mut v = crate::numtext::padded_u64_chars(self.year as u64, 4);
        v.push('-');
        let mo = crate::numtext::padded_u64_chars(self.month as u64, 2);
        let n1 = mo.len();
        for i in 0..n1
            invariant
                n1 == mo@.len(),
                mo@ == crate::numtext::spec_padded(self.month as nat, 2),
                v@ == crate::numtext::spec_padded(self.year as nat, 4) + seq!['-'] + mo@.subrange(
                    0,
                    i as int,
                ),
        {
            v.push(mo[i]);
            proof {
                assert(mo@.subrange(0, i as int).push(mo@[i as int]) =~= mo@.subrange(0, i + 1));
                assert((crate::numtext::spec_padded(self.year as nat, 4) + seq!['-'] + mo@.subrange(
                    0,
                    i as int,
                )).push(mo@[i as int]) =~= crate::numtext::spec_padded(self.year as nat, 4)
                    + seq!['-'] + mo@.subrange(0, i + 1));
            }
        }
        proof {
            assert(mo@.subrange(0, n1 as int) =~= mo@);
        }
        v.push('-');
        let dy = crate::numtext::padded_u64_chars(self.day as u64, 2);
        let n2 = dy.len();
        let ghost head = crate::numtext::spec_padded(self.year as nat, 4) + seq!['-']
            + crate::numtext::spec_padded(self.month as nat, 2) + seq!['-'];
        for i in 0..n2
            invariant
                n2 == dy@.len(),
                dy@ == crate::numtext::spec_padded(self.day as nat, 2),
                head == crate::numtext::spec_padded(self.year as nat, 4) + seq!['-']
                    + crate::numtext::spec_padded(self.month as nat, 2) + seq!['-'],
                v@ == head + dy@.subrange(0, i as int),
        {
            v.push(dy[i]);
            proof {
                assert((head + dy@.subrange(0, i as int)).push(dy@[i as int]) =~= head
                    + dy@.subrange(0, i + 1));
            }
        }
        proof {
            assert(dy@.subrange(0, n2 as int) =~= dy@);
            assert(head + dy@ =~= self.spec_ymd());
        }
        crate::strkit::string_of(v)
    }

    /// Zero-padded year, month and day, for day-partitioned paths.
    pub fn part_strings(&self) -> (r: (String, String, String))
        ensures
            r.0@ == crate::numtext::spec_padded(self.year as nat, 4),
            r.1@ == crate::numtext::spec_padded(self.month as nat, 2),
            r.2@ == crate::numtext::spec_padded(self.day as nat, 2),
    {
        (
            crate::strkit::string_of(crate::numtext::padded_u64_chars(self.year as u64, 4)),
            crate::strkit::string_of(crate::numtext::padded_u64_chars(self.month as u64, 2)),
            crate::strkit::string_of(crate::numtext::padded_u64_chars(self.day as u64, 2)),
        )
    }
}

/// The dedup key of an event time in milliseconds: the containing second,
/// rounded toward zero as `i64` division does.
pub open spec fn spec_dedup_key(ms: int) -> int {
    if ms >= 0 {
        ms / 1000
    } else {
        -((-ms) / 1000)
    }
}

/// Milliseconds to whole seconds, rounding toward zero.
pub fn ms_to_second(ms: i64) -> (r: i64)
    ensures
        r == spec_dedup_key(ms as int),
        -9_223_372_036_854_775 <= r <= 9_223_372_036_854_775,
{
    if ms >= 0 {
        let q = (ms as u64) / 1000;
        proof {
            vstd::arithmetic::div_mod::lemma_div_is_ordered(
                ms as int,
                0x7fff_ffff_ffff_ffff,
                1000,
            );
        }
        q as i64
    } else {
        let mag: u64 = (-(ms as i128)) as u64;
        let q = mag / 1000;
        proof {
            vstd::arithmetic::div_mod::lemma_div_is_ordered(
                mag as int,
                0xffff_ffff_ffff_ffff,
                1000,
            );
        }
        -(q as i64)
    }
}

} // verus!
