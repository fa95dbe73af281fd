//! A moment, in the zone this machine stands in.

use vstd::prelude::*;

use crate::text::push_dec;

verus! {

/// A moment as a calendar and a clock on this machine show it.
#[derive(Clone, Debug)]
pub struct LocalTime {
    pub year: i16,
    pub month: i8,
    pub day: i8,
    pub hour: i8,
    pub minute: i8,
    pub second: i8,
    /// The same as `2026-09-08 12:15:54 MDT`, with the zone named.
    pub stamp: String,
}

/// Days from the first of January 1970 to a date of the Gregorian calendar.
pub open spec fn days_to(year: int, month: int, day: int) -> int {
    // Counted in years that start in March, so that a leap day comes last.
    let y = if month <= 2 {
        year - 1
    } else {
        year
    };
    let m = if month <= 2 {
        month + 9
    } else {
        month - 3
    };
    y * 365 + y / 4 - y / 100 + y / 400 + (153 * m + 2) / 5 + (day - 1) - 719_468
}

/// The seconds that can be shown as a date.
pub open spec fn representable(second: int) -> bool {
    -377_705_023_201 <= second <= 253_402_207_200
}

impl LocalTime {
    /// The seconds that a clock which keeps this time in its own zone would
    /// count since 1970.
    pub open spec fn wall_seconds(&self) -> int {
        days_to(self.year as int, self.month as int, self.day as int) * 86_400 + self.hour * 3_600
            + self.minute * 60 + self.second
    }

    /// Whether the fields are within their bounds.
    pub open spec fn in_bounds(&self) -> bool {
        &&& 1 <= self.month <= 12
        &&& 1 <= self.day <= 31
        &&& 0 <= self.hour <= 23
        &&& 0 <= self.minute <= 59
        &&& 0 <= self.second <= 59
    }

    /// Whether this is how a moment shows in a zone so many seconds ahead.
    pub open spec fn shows(&self, epoch: int, ahead: int) -> bool {
        -93_599 <= ahead <= 93_599 && self.wall_seconds() == epoch + ahead
    }

    /// The stamp, when the zone is called so.
    pub open spec fn stamp_in(&self, zone: Seq<char>) -> Seq<char> {
        crate::text::dec_padded(self.year as nat, 4) + "-"@ + crate::text::dec_padded(
            self.month as nat,
            2,
        ) + "-"@ + crate::text::dec_padded(self.day as nat, 2) + " "@ + crate::text::dec_padded(
            self.hour as nat,
            2,
        ) + ":"@ + crate::text::dec_padded(self.minute as nat, 2) + ":"@ + crate::text::dec_padded(
            self.second as nat,
            2,
        ) + " "@ + zone
    }

    /// Whether this is how a moment shows in some zone. The stamp says the same
    /// as the fields, from the year nought on.
    pub open spec fn is_at(&self, epoch: int) -> bool {
        &&& self.in_bounds()
        &&& exists|ahead: int| #[trigger] self.shows(epoch, ahead)
        &&& epoch >= 0 ==> self.year >= 0
        &&& self.year >= 0 ==> exists|zone: Seq<char>| self.stamp@ == #[trigger] self.stamp_in(zone)
    }
}

/// Calls `jiff::Timestamp::from_second`, takes the moment to the zone that
/// `jiff::tz::TimeZone::system` finds, and reads the date and time off it, both
/// field by field and through `Zoned::strftime`.
///
/// A second that lies outside what jiff represents gives nothing, and any
/// other gives a date. Which zone the machine is in is not known beforehand:
/// what is claimed is that the date is the moment's in a zone less than
/// twenty-six hours from UTC. Of the text it is claimed that it writes the
/// fields, padded, and then some name of the zone; in years before the year
/// nought nothing is claimed of it.
#[verifier::external_body]
fn local_time(epoch: i64) -> (r: Option<LocalTime>)
    ensures
        match r {
            Some(t) => representable(epoch as int) && t.is_at(epoch as int),
            None => !representable(epoch as int),
        },
{
    let at = jiff::Timestamp::from_second(epoch).ok()?;
    let z = at.to_zoned(jiff::tz::TimeZone::system());
    Some(
        LocalTime {
            year: z.year(),
            month: z.month(),
            day: z.day(),
            hour: z.hour(),
            minute: z.minute(),
            second: z.second(),
            stamp: z.strftime("%Y-%m-%d %H:%M:%S %Z").to_string(),
        },
    )
}

/// A moment on this machine's calendar, when it has a date.
pub fn local(epoch: i64) -> (r: Option<LocalTime>)
    ensures
        match r {
            Some(t) => representable(epoch as int) && t.is_at(epoch as int),
            None => !representable(epoch as int),
        },
{
    local_time(epoch)
}

/// The stamp of a moment, or its number where it has no date.
pub open spec fn stamp_text(at: u64, t: Option<LocalTime>) -> Seq<char> {
    match t {
        Some(t) => t.stamp@,
        None => crate::text::dec(at as nat) + " (not a representable date)"@,
    }
}

/// Whether a text is a stamp of a moment on some machine: the moment's date in
/// some zone, and the bare number exactly where it has no date.
pub open spec fn is_stamp(at: u64, s: Seq<char>) -> bool {
    if representable(at as int) {
        exists|t: LocalTime| #[trigger] t.is_at(at as int) && s == t.stamp@
    } else {
        s == crate::text::dec(at as nat) + " (not a representable date)"@
    }
}

/// The stamp of a moment, when it shows so on this machine.
pub fn stamp_of(at: u64, t: &Option<LocalTime>) -> (r: String)
    ensures
        r@ == stamp_text(at, *t),
{
    match t {
        Some(t) => t.stamp.clone(),
        None => {
            let mut out = String::new();
            push_dec(&mut out, at);
            out.append(" (not a representable date)");
            assert(out@ =~= stamp_text(at, None));
            out
        },
    }
}

/// One epoch as `2026-09-08 12:15:54 MDT` in the machine's own zone.
pub fn local_stamp(at: u64) -> (r: String)
    ensures
        is_stamp(at, r@),
{
    let t: Option<LocalTime> = if at <= i64::MAX as u64 {
        local(at as i64)
    } else {
        None
    };
    stamp_of(at, &t)
}

/// A moment with a date is shown by its stamp as it is, and one without by its
/// number, and a word that it has none. It has none exactly when it lies beyond
/// the last second of the year 9999 in every zone.
pub proof fn law_a_moment_without_a_date_is_its_number(at: u64, t: LocalTime, s: Seq<char>)
    ensures
        stamp_text(at, Some(t)) == t.stamp@,
        stamp_text(at, None) == crate::text::dec(at as nat) + " (not a representable date)"@,
        at > 253_402_207_200 ==> (is_stamp(at, s) <==> s == crate::text::dec(at as nat)
            + " (not a representable date)"@),
        at <= 253_402_207_200 ==> (is_stamp(at, s) <==> exists|u: LocalTime| #[trigger]
            u.is_at(at as int) && s == u.stamp@),
{
}

/// A stamp writes the fields from the year to the second, padded, and then the
/// name of the zone.
pub proof fn law_a_stamp_writes_its_fields(t: LocalTime, zone: Seq<char>)
    ensures
        t.stamp_in(zone) == crate::text::dec_padded(t.year as nat, 4) + "-"@
            + crate::text::dec_padded(t.month as nat, 2) + "-"@ + crate::text::dec_padded(
            t.day as nat,
            2,
        ) + " "@ + crate::text::dec_padded(t.hour as nat, 2) + ":"@ + crate::text::dec_padded(
            t.minute as nat,
            2,
        ) + ":"@ + crate::text::dec_padded(t.second as nat, 2) + " "@ + zone,
{
}

/// A moment shows the days of its date and the seconds of its time of day, at
/// most a day and two hours off in any zone, with every field in its range.
pub proof fn law_a_date_and_a_time_make_the_moment(t: LocalTime, epoch: int)
    requires
        t.is_at(epoch),
    ensures
        1 <= t.month <= 12 && 1 <= t.day <= 31 && 0 <= t.hour < 24 && 0 <= t.minute < 60 && 0
            <= t.second < 60,
        -93_599 <= days_to(t.year as int, t.month as int, t.day as int) * 86_400 + t.hour * 3_600
            + t.minute * 60 + t.second - epoch <= 93_599,
{
}

/// The calendar starts in 1970 and goes day by day: the next day of a month is
/// one later, the first of a month comes as many days after the first of the
/// one before as that has, and a year has 365 or 366.
pub proof fn law_the_calendar_goes_day_by_day(year: int, month: int, day: int)
    requires
        1 <= month <= 12,
    ensures
        days_to(1970, 1, 1) == 0,
        days_to(year, month, day + 1) == days_to(year, month, day) + 1,
        month == 12 ==> days_to(year + 1, 1, 1) == days_to(year, 12, 1) + 31,
        month == 1 || month == 3 || month == 5 || month == 7 || month == 8 || month == 10
            ==> days_to(year, month + 1, 1) == days_to(year, month, 1) + 31,
        month == 4 || month == 6 || month == 9 || month == 11 ==> days_to(year, month + 1, 1)
            == days_to(year, month, 1) + 30,
        month == 2 ==> days_to(year, 3, 1) == days_to(year, 2, 1) + (if year % 4 == 0 && (year
            % 100 != 0 || year % 400 == 0) {
            29int
        } else {
            28int
        }),
{
    if month == 2 {
        let y = year - 1;
        assert(year / 4 - y / 4 == (if year % 4 == 0 {
            1int
        } else {
            0int
        }));
        assert(year / 100 - y / 100 == (if year % 100 == 0 {
            1int
        } else {
            0int
        }));
        assert(year / 400 - y / 400 == (if year % 400 == 0 {
            1int
        } else {
            0int
        }));
        assert(year % 100 == 0 ==> year % 4 == 0);
        assert(year % 400 == 0 ==> year % 100 == 0);
    }
}

} // verus!
