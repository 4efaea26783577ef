//! Everything that depends on one concrete year: the Easter computus,
//! the anchor dates derived from it, the weekday-search primitives, and
//! (further down) the resolution engine that turns a year-independent
//! calendar into dated holydays.

use crate::calendar::{
    holyday_le_fn, Calendar, CalendarError, DateCal, Holyday, HolydayClass, HolydaySort,
    MainAttribute, Province, SeasonColour, TransferType,
};
use crate::order::seq_sort_by;
use crate::date::{
    date_with, day_number, day_of_week, days_in_month_exec, lemma_date_injective,
    lemma_date_with, lemma_day_number_in_range, lemma_days_before_year_monotone,
    lemma_days_before_year_nonneg, valid_ymd, Date, Weekday, MAX_DAY_NUMBER, MIN_DAY_NUMBER,
};
use vstd::arithmetic::div_mod::{
    lemma_div_is_ordered, lemma_fundamental_div_mod, lemma_fundamental_div_mod_converse,
    lemma_mod_add_multiples_vanish, lemma_mod_bound,
};
use vstd::prelude::*;

verus! {

/// March offset of Easter Sunday for a Gregorian year: Easter falls on
/// March `easter_offset(y)`, counting March 1 as offset 1, so offsets
/// above 31 run into April. This is the Clavius computus in its
/// integer-arithmetic form.
pub open spec fn easter_offset(y: int) -> int {
    let c = y / 100;
    let d = (3 * c - 5) / 4;
    let e = (8 * c + 13) / 25;
    let f = y % 19;
    let q0 = (227 - 11 * f + d - e) % 30;
    let q = if q0 == 29 || (q0 == 28 && f >= 11) {
        q0 - 1
    } else {
        q0
    };
    let w = (y + y / 4 - d + q) % 7;
    q + 28 - w
}

/// Day number of Easter Sunday of year `y`.
pub open spec fn easter_day_number(y: int) -> int {
    day_number(y, 3, 1) + easter_offset(y) - 1
}

/// Day number of Advent Sunday whose Christmas falls in year `y`: the
/// Sunday on or before the first Thursday on or after 1 December.
pub open spec fn advent_day_number(y: int) -> int {
    let dec1 = day_number(y, 12, 1);
    let thu = dec1 + (4 - day_of_week(dec1)) % 7;
    thu - day_of_week(thu) % 7
}

/// The Easter offset always lies between March 22 and April 25
/// (offsets 22 through 56).
pub proof fn lemma_easter_offset_bounds(y: int)
    requires
        1583 <= y <= 9999,
    ensures
        22 <= easter_offset(y) <= 56,
{
    let c = y / 100;
    lemma_div_is_ordered(1583, y, 100);
    lemma_div_is_ordered(y, 9999, 100);
    assert(15 <= c <= 99);
    let d = (3 * c - 5) / 4;
    lemma_div_is_ordered(40, 3 * c - 5, 4);
    lemma_div_is_ordered(3 * c - 5, 292, 4);
    assert(10 <= d <= 73);
    let e = (8 * c + 13) / 25;
    lemma_div_is_ordered(133, 8 * c + 13, 25);
    lemma_div_is_ordered(8 * c + 13, 805, 25);
    assert(5 <= e <= 32);
    let f = y % 19;
    lemma_mod_bound(y, 19);
    let q0 = (227 - 11 * f + d - e) % 30;
    lemma_mod_bound(227 - 11 * f + d - e, 30);
    let q = if q0 == 29 || (q0 == 28 && f >= 11) {
        q0 - 1
    } else {
        q0
    };
    assert(0 <= q <= 28);
    let w = (y + y / 4 - d + q) % 7;
    lemma_mod_bound(y + y / 4 - d + q, 7);
}

/// Easter Sunday of any supported year lies between March 22 and
/// April 25 inclusive.
pub proof fn lemma_easter_in_bounds(y: int)
    requires
        1583 <= y <= 9999,
    ensures
        day_number(y, 3, 22) <= easter_day_number(y) <= day_number(y, 4, 25),
{
    lemma_easter_offset_bounds(y);
    reveal_with_fuel(crate::date::days_before_month, 14);
}

/// For a weekday `w` there is exactly one day among `dn .. dn + 7` that
/// falls on it, at forward offset `(w - day_of_week(dn)) % 7`.
pub proof fn lemma_weekday_forward(dn: int, w: int)
    requires
        0 <= w < 7,
    ensures
        0 <= (w - day_of_week(dn)) % 7 < 7,
        day_of_week(dn + (w - day_of_week(dn)) % 7) == w,
        ((w - day_of_week(dn)) % 7 == 0) <==> (day_of_week(dn) == w),
{
    let a = day_of_week(dn);
    lemma_fundamental_div_mod(dn, 7);
    lemma_mod_bound(dn, 7);
    if w >= a {
        lemma_fundamental_div_mod_converse(w - a, 7, 0, w - a);
        lemma_fundamental_div_mod_converse(dn + (w - a), 7, dn / 7, w);
    } else {
        lemma_fundamental_div_mod_converse(w - a, 7, -1, w - a + 7);
        lemma_fundamental_div_mod_converse(dn + (w - a + 7), 7, dn / 7 + 1, w);
    }
}

/// For a weekday `w` there is exactly one day among `dn - 6 .. dn + 1`
/// that falls on it, at backward offset `(day_of_week(dn) - w) % 7`.
pub proof fn lemma_weekday_backward(dn: int, w: int)
    requires
        0 <= w < 7,
    ensures
        0 <= (day_of_week(dn) - w) % 7 < 7,
        day_of_week(dn - (day_of_week(dn) - w) % 7) == w,
        ((day_of_week(dn) - w) % 7 == 0) <==> (day_of_week(dn) == w),
{
    let a = day_of_week(dn);
    lemma_fundamental_div_mod(dn, 7);
    lemma_mod_bound(dn, 7);
    if a >= w {
        lemma_fundamental_div_mod_converse(a - w, 7, 0, a - w);
        lemma_fundamental_div_mod_converse(dn - (a - w), 7, dn / 7, w);
    } else {
        lemma_fundamental_div_mod_converse(a - w, 7, -1, a - w + 7);
        lemma_fundamental_div_mod_converse(dn - (a - w + 7), 7, dn / 7 - 1, w);
    }
}

/// Data for one specific year: the anchor dates on which the moveable
/// holydays depend, and which bound the restricted seasons.
#[derive(Debug, PartialEq, Eq, Structural, Clone, Copy)]
pub struct Year {
    /// year AD/CE for the calendar
    pub ad: i32,
    /// date of Easter Sunday
    pub easter: Date,
    /// date of the previous Advent Sunday (in the previous calendar year)
    pub advent_previous: Date,
    /// date of the next Advent Sunday (in this calendar year)
    pub advent_next: Date,
    /// date of Ash Wednesday
    pub ash_wednesday: Date,
    /// date of Palm Sunday
    pub palm_sunday: Date,
    /// date of the Second Sunday of Easter
    pub easter_sunday_2: Date,
    /// date of Pentecost
    pub pentecost: Date,
}

impl Year {
    /// The anchors lie in the supported range and stand in their
    /// fixed offsets from Easter, with room for the engine's moves.
    pub open spec fn wf(self) -> bool {
        &&& 1583 <= self.ad <= 9998
        &&& self.ash_wednesday@ == self.easter@ - 46
        &&& self.palm_sunday@ == self.easter@ - 7
        &&& self.easter_sunday_2@ == self.easter@ + 7
        &&& self.pentecost@ == self.easter@ + 49
        &&& self.easter_sunday_2@ + 2 <= MAX_DAY_NUMBER
        &&& self.easter.wf()
        &&& self.advent_previous.wf()
        &&& self.advent_next.wf()
        &&& self.ash_wednesday.wf()
        &&& self.palm_sunday.wf()
        &&& self.easter_sunday_2.wf()
        &&& self.pentecost.wf()
    }

    /// The anchors are the computed ones of year `ad`: Easter from the
    /// computus, the Advent Sundays from the weekday search.
    pub open spec fn anchored(self) -> bool {
        &&& self.easter@ == easter_day_number(self.ad as int)
        &&& self.advent_previous@ == advent_day_number(self.ad - 1)
        &&& self.advent_next@ == advent_day_number(self.ad as int)
    }

    /// Calculate the date of Easter Day, as a number of days counted
    /// from March 0 (so 32 means April 1).
    pub fn computus(year: i32) -> (r: i32)
        requires
            1583 <= year <= 9999,
        ensures
            r as int == easter_offset(year as int),
            22 <= r <= 56,
    {
        proof {
            lemma_easter_offset_bounds(year as int);
            lemma_div_is_ordered(1583, year as int, 100);
            lemma_div_is_ordered(year as int, 9999, 100);
        }
        let y: u32 = year as u32;
        let c: u32 = y / 100;
        proof {
            lemma_div_is_ordered(40, 3 * c as int - 5, 4);
            lemma_div_is_ordered(3 * c as int - 5, 292, 4);
            lemma_div_is_ordered(133, 8 * c as int + 13, 25);
            lemma_div_is_ordered(8 * c as int + 13, 805, 25);
        }
        let d: u32 = (3 * c - 5) / 4;
        let e: u32 = (8 * c + 13) / 25;
        let f: u32 = y % 19;
        let mut q: u32 = (227 + d - 11 * f - e) % 30;
        if q == 29 || (q == 28 && f >= 11) {
            q = q - 1;
        }
        proof {
            lemma_div_is_ordered(1583, year as int, 4);
        }
        let w: u32 = (y + y / 4 + q - d) % 7;
        (q + 28 - w) as i32
    }

    /// A year with its calculated anchor dates.
    #[verifier::rlimit(100)]
    pub fn new(year: i32) -> (r: Year)
        requires
            1583 <= year <= 9998,
        ensures
            r.wf(),
            r.anchored(),
            r.ad == year,
    {
        proof {
            lemma_easter_in_bounds(year as int);
            lemma_day_number_in_range(year as int, 3, 22);
            lemma_day_number_in_range(year as int, 4, 25);
            lemma_day_number_in_range(year as int, 12, 31);
            assert(day_number(year as int, 4, 25) + 9 <= day_number(year as int, 12, 31)) by {
                reveal_with_fuel(crate::date::days_before_month, 14);
            }
            lemma_day_number_in_range(year as int - 1, 12, 7);
            lemma_day_number_in_range(year as int - 1, 12, 1);
            lemma_day_number_in_range(year as int, 12, 7);
            lemma_day_number_in_range(year as int, 12, 1);
            lemma_days_before_year_nonneg(year as int - 1);
            lemma_days_before_year_monotone(1, year as int - 1);
            reveal_with_fuel(crate::date::days_before_month, 14);
        }
        let easter = Date::from_ymd(year, 3, 1).add_days(Year::computus(year) as i64 - 1);
        let advent_previous = Year::previous_inclusive(
            Year::next_inclusive(Date::from_ymd(year - 1, 12, 1), Weekday::Thursday),
            Weekday::Sunday,
        );
        let advent_next = Year::previous_inclusive(
            Year::next_inclusive(Date::from_ymd(year, 12, 1), Weekday::Thursday),
            Weekday::Sunday,
        );
        Year {
            ad: year,
            easter,
            advent_previous,
            advent_next,
            ash_wednesday: easter.add_days(-46),
            palm_sunday: easter.add_days(-7),
            easter_sunday_2: easter.add_days(7),
            pentecost: easter.add_days(49),
        }
    }

    /// The next day falling on the given weekday, not counting the
    /// original date itself.
    pub fn next_exclusive(orig_date: Date, weekday: Weekday) -> (r: Date)
        requires
            orig_date.wf(),
            orig_date@ + 7 <= MAX_DAY_NUMBER,
        ensures
            r.wf(),
            day_of_week(r@) == weekday.index(),
            orig_date@ + 1 <= r@ <= orig_date@ + 7,
            r@ == orig_date@ + ({
                let o = (weekday.index() - day_of_week(orig_date@)) % 7;
                if o == 0 {
                    7int
                } else {
                    o
                }
            }),
    {
        proof {
            lemma_weekday_forward(orig_date@, weekday.index());
            lemma_weekday_forward(orig_date@ + 7, weekday.index());
            lemma_mod_add_multiples_vanish(orig_date@, 7);
        }
        let od: u8 = orig_date.weekday().num_days_from_sunday();
        let rq: u8 = weekday.num_days_from_sunday();
        let mut offset: u8 = (rq + 7 - od) % 7;
        proof {
            lemma_mod_add_multiples_vanish(rq as int - od as int, 7);
        }
        if offset == 0 {
            offset = 7;
        }
        orig_date.add_days(offset as i64)
    }

    /// The next day falling on the given weekday, counting the original
    /// date itself.
    pub fn next_inclusive(orig_date: Date, weekday: Weekday) -> (r: Date)
        requires
            orig_date.wf(),
            orig_date@ + 6 <= MAX_DAY_NUMBER,
        ensures
            r.wf(),
            day_of_week(r@) == weekday.index(),
            orig_date@ <= r@ <= orig_date@ + 6,
            r@ == orig_date@ + (weekday.index() - day_of_week(orig_date@)) % 7,
            r@ == orig_date@ <==> day_of_week(orig_date@) == weekday.index(),
    {
        proof {
            lemma_weekday_forward(orig_date@, weekday.index());
        }
        let od: u8 = orig_date.weekday().num_days_from_sunday();
        let rq: u8 = weekday.num_days_from_sunday();
        let offset: u8 = (rq + 7 - od) % 7;
        proof {
            lemma_mod_add_multiples_vanish(rq as int - od as int, 7);
        }
        orig_date.add_days(offset as i64)
    }

    /// The most recent day falling on the given weekday, not counting
    /// the original date itself.
    pub fn previous_exclusive(orig_date: Date, weekday: Weekday) -> (r: Date)
        requires
            orig_date.wf(),
            orig_date@ - 7 >= MIN_DAY_NUMBER,
        ensures
            r.wf(),
            day_of_week(r@) == weekday.index(),
            orig_date@ - 7 <= r@ <= orig_date@ - 1,
            r@ == orig_date@ - ({
                let o = (day_of_week(orig_date@) - weekday.index()) % 7;
                if o == 0 {
                    7int
                } else {
                    o
                }
            }),
    {
        proof {
            lemma_weekday_backward(orig_date@, weekday.index());
            lemma_weekday_backward(orig_date@ - 7, weekday.index());
            lemma_mod_add_multiples_vanish(orig_date@ - 7, 7);
        }
        let od: u8 = orig_date.weekday().num_days_from_sunday();
        let rq: u8 = weekday.num_days_from_sunday();
        let mut offset: u8 = (od + 7 - rq) % 7;
        proof {
            lemma_mod_add_multiples_vanish(od as int - rq as int, 7);
        }
        if offset == 0 {
            offset = 7;
        }
        orig_date.add_days(-(offset as i64))
    }

    /// The most recent day falling on the given weekday, counting the
    /// original date itself.
    pub fn previous_inclusive(orig_date: Date, weekday: Weekday) -> (r: Date)
        requires
            orig_date.wf(),
            orig_date@ - 6 >= MIN_DAY_NUMBER,
        ensures
            r.wf(),
            day_of_week(r@) == weekday.index(),
            orig_date@ - 6 <= r@ <= orig_date@,
            r@ == orig_date@ - (day_of_week(orig_date@) - weekday.index()) % 7,
            r@ == orig_date@ <==> day_of_week(orig_date@) == weekday.index(),
    {
        proof {
            lemma_weekday_backward(orig_date@, weekday.index());
        }
        let od: u8 = orig_date.weekday().num_days_from_sunday();
        let rq: u8 = weekday.num_days_from_sunday();
        let offset: u8 = (od + 7 - rq) % 7;
        proof {
            lemma_mod_add_multiples_vanish(od as int - rq as int, 7);
        }
        orig_date.add_days(-(offset as i64))
    }
}

/// The anchor dates of year `ad`, as a value: what `Year::new`
/// computes.
#[verifier::opaque]
pub open spec fn year_anchors(ad: int) -> Year {
    Year {
        ad: ad as i32,
        easter: date_with(easter_day_number(ad)),
        advent_previous: date_with(advent_day_number(ad - 1)),
        advent_next: date_with(advent_day_number(ad)),
        ash_wednesday: date_with(easter_day_number(ad) - 46),
        palm_sunday: date_with(easter_day_number(ad) - 7),
        easter_sunday_2: date_with(easter_day_number(ad) + 7),
        pentecost: date_with(easter_day_number(ad) + 49),
    }
}

/// A well-formed year value is exactly `year_anchors` of its year
/// number.
pub proof fn lemma_year_unique(y: Year)
    requires
        y.wf(),
        y.anchored(),
    ensures
        y == year_anchors(y.ad as int),
{
    reveal(year_anchors);
    let a = year_anchors(y.ad as int);
    lemma_date_with(y.easter@);
    lemma_date_with(y.advent_previous@);
    lemma_date_with(y.advent_next@);
    lemma_date_with(y.ash_wednesday@);
    lemma_date_with(y.palm_sunday@);
    lemma_date_with(y.easter_sunday_2@);
    lemma_date_with(y.pentecost@);
    lemma_date_injective(y.easter, a.easter);
    lemma_date_injective(y.advent_previous, a.advent_previous);
    lemma_date_injective(y.advent_next, a.advent_next);
    lemma_date_injective(y.ash_wednesday, a.ash_wednesday);
    lemma_date_injective(y.palm_sunday, a.palm_sunday);
    lemma_date_injective(y.easter_sunday_2, a.easter_sunday_2);
    lemma_date_injective(y.pentecost, a.pentecost);
}

/// Day number that a date expression resolves to against the anchors
/// of one year.
pub open spec fn resolve_spec(dc: DateCal, y: Year) -> int
    decreases dc,
{
    match dc {
        DateCal::Easter => y.easter@,
        DateCal::Advent => y.advent_previous@,
        DateCal::AdventNext => y.advent_next@,
        DateCal::Fixed { month, day } => day_number(y.ad as int, month as int, day as int),
        DateCal::After { date, rel } => resolve_spec(*date, y) + rel as int,
        DateCal::Next { date, day_of_week: dow } => {
            let b = resolve_spec(*date, y);
            b + (dow.wd.index() - day_of_week(b)) % 7
        },
    }
}

/// Whether a date expression resolves to a real date of the supported
/// range, every intermediate date included.
pub open spec fn resolve_ok(dc: DateCal, y: Year) -> bool
    decreases dc,
{
    match dc {
        DateCal::Easter => true,
        DateCal::Advent => true,
        DateCal::AdventNext => true,
        DateCal::Fixed { month, day } => valid_ymd(y.ad as int, month as int, day as int),
        DateCal::After { date, rel } => resolve_ok(*date, y) && MIN_DAY_NUMBER
            <= resolve_spec(*date, y) + rel as int <= MAX_DAY_NUMBER,
        DateCal::Next { date, day_of_week: dow } => resolve_ok(*date, y) && resolve_spec(
            *date,
            y,
        ) + 6 <= MAX_DAY_NUMBER,
    }
}

impl Year {
    /// Resolve a date expression to a concrete date of this year.
    /// An expression that leaves the supported range, or a fixed date
    /// that does not exist, is unresolvable.
    pub fn date_cal_to_date(&self, date_cal: &DateCal) -> (r: Result<Date, CalendarError>)
        requires
            self.wf(),
        ensures
            resolve_ok(*date_cal, *self) ==> (r matches Ok(d) && d@ == resolve_spec(
                *date_cal,
                *self,
            ) && d.wf()),
            !resolve_ok(*date_cal, *self) ==> r == Result::<Date, CalendarError>::Err(
                CalendarError::Unresolvable,
            ),
        decreases *date_cal,
    {
        match date_cal {
            DateCal::Easter => Ok(self.easter),
            DateCal::Advent => Ok(self.advent_previous),
            DateCal::AdventNext => Ok(self.advent_next),
            DateCal::Fixed { month, day } => {
                if 1 <= *month && *month <= 12 && 1 <= *day && *day <= days_in_month_exec(
                    self.ad,
                    *month,
                ) {
                    proof {
                        lemma_day_number_in_range(self.ad as int, *month as int, *day as int);
                    }
                    Ok(Date::from_ymd(self.ad, *month, *day))
                } else {
                    Err(CalendarError::Unresolvable)
                }
            },
            DateCal::After { date, rel } => {
                match self.date_cal_to_date(&**date) {
                    Ok(b) => {
                        let dn = b.day_number() + *rel as i64;
                        if MIN_DAY_NUMBER <= dn && dn <= MAX_DAY_NUMBER {
                            Ok(Date::from_day_number(dn))
                        } else {
                            Err(CalendarError::Unresolvable)
                        }
                    },
                    Err(e) => Err(e),
                }
            },
            DateCal::Next { date, day_of_week: dow } => {
                match self.date_cal_to_date(&**date) {
                    Ok(b) => {
                        if b.day_number() <= MAX_DAY_NUMBER - 6 {
                            Ok(Year::next_inclusive(b, dow.wd))
                        } else {
                            Err(CalendarError::Unresolvable)
                        }
                    },
                    Err(e) => Err(e),
                }
            },
        }
    }

    /// The seasonal colour of a date of this year.
    #[verifier::rlimit(100)]
    pub fn season_colour(&self, date: Date) -> (r: SeasonColour)
        requires
            self.wf(),
            date.wf(),
        ensures
            r == season_colour_spec(*self, date@),
    {
        proof {
            lemma_day_number_in_range(self.ad as int, 12, 25);
            lemma_day_number_in_range(self.ad as int, 2, 2);
            lemma_day_number_in_range(self.ad as int, 11, 1);
        }
        let christmas = Date::from_ymd(self.ad, 12, 25).day_number();
        let presentation = Date::from_ymd(self.ad, 2, 2).day_number();
        let all_saints = Date::from_ymd(self.ad, 11, 1).day_number();
        let dn = date.day_number();
        if dn >= christmas || dn <= presentation || (dn >= self.easter.day_number() && dn
            < self.pentecost.day_number()) || dn == all_saints {
            SeasonColour::White
        } else if (dn >= self.palm_sunday.day_number() && dn < self.easter.day_number()) || dn
            == self.pentecost.day_number() {
            SeasonColour::Red
        } else if (dn >= self.advent_next.day_number() && dn < christmas) || (dn
            >= self.ash_wednesday.day_number() && dn < self.palm_sunday.day_number()) {
            SeasonColour::Purple
        } else {
            SeasonColour::Green
        }
    }
}

/// The seasonal colour of a day: white for the festal spans, red for
/// Holy Week and Pentecost, purple for Advent and Lent, green
/// otherwise.
pub open spec fn season_colour_spec(y: Year, dn: int) -> SeasonColour {
    if dn >= day_number(y.ad as int, 12, 25) || dn <= day_number(y.ad as int, 2, 2) || (dn
        >= y.easter@ && dn < y.pentecost@) || dn == day_number(y.ad as int, 11, 1) {
        SeasonColour::White
    } else if (dn >= y.palm_sunday@ && dn < y.easter@) || dn == y.pentecost@ {
        SeasonColour::Red
    } else if (dn >= y.advent_next@ && dn < day_number(y.ad as int, 12, 25)) || (dn
        >= y.ash_wednesday@ && dn < y.palm_sunday@) {
        SeasonColour::Purple
    } else {
        SeasonColour::Green
    }
}

/// Whether a year holyday will be kept or dropped.
#[derive(Debug, PartialEq, Eq, Structural, Clone, Copy)]
pub enum DropStatus {
    Keep,
    Drop(DropReason),
}

/// Reason for dropping a year holyday.
#[derive(Debug, PartialEq, Eq, Structural, Clone, Copy)]
pub enum DropReason {
    Easter,
    Clash,
    Sunday,
    Cutoff,
    Other,
}

/// A holy day placed in the calendar of one specific year: the record
/// it stands for, and its resolved (possibly transferred) date.
#[derive(Debug, PartialEq, Eq, Clone, Copy)]
pub struct YearHolyday<'a> {
    /// the holy day
    pub holyday: &'a Holyday,
    /// its date in this year
    pub date: Date,
}

/// The holy day records behind a sequence of year holydays.
pub open spec fn holydays_of<'a>(s: Seq<YearHolyday<'a>>) -> Seq<Holyday> {
    s.map_values(|yh: YearHolyday<'a>| *yh.holyday)
}

/// The highest class rank present on a day; the rank of
/// `NotAFestival` when the day is empty.
pub open spec fn clash_rank(s: Seq<Holyday>) -> int
    decreases s.len(),
{
    if s.len() == 0 {
        HolydayClass::NotAFestival.rank()
    } else {
        let r = clash_rank(s.drop_last());
        if s.last().class.rank() > r {
            s.last().class.rank()
        } else {
            r
        }
    }
}

/// Whether a day already holds a holy day of a class above `c`.
pub open spec fn clash_higher(s: Seq<Holyday>, c: HolydayClass) -> bool {
    s.len() > 0 && clash_rank(s) > c.rank()
}

/// The date falls on a Sunday.
pub open spec fn is_sunday(dn: int) -> bool {
    day_of_week(dn) == 0
}

/// The date lies in Advent: from Advent Sunday up to, not including,
/// Christmas Day.
pub open spec fn in_advent(y: Year, dn: int) -> bool {
    y.advent_next@ <= dn < day_number(y.ad as int, 12, 25)
}

/// The date lies between Ash Wednesday and Pentecost inclusive.
pub open spec fn in_lent_or_eastertide(y: Year, dn: int) -> bool {
    y.ash_wednesday@ <= dn <= y.pentecost@
}

/// The date lies in the wider Easter span: from Palm Sunday through
/// the Second Sunday of Easter.
pub open spec fn in_easter_octave(y: Year, dn: int) -> bool {
    y.palm_sunday@ <= dn <= y.easter_sunday_2@
}

/// Whether the rule table can move this holy day forward by one
/// day: only festivals and Corpus Christi under the normal rule, and
/// the Annunciation rule, ever take the one-day shift.
pub open spec fn may_move_one_day(t: TransferType, c: HolydayClass) -> bool {
    match t {
        TransferType::Normal => c == HolydayClass::Festival || c == HolydayClass::CorpusChristi,
        TransferType::Annunciation => true,
        _ => false,
    }
}

/// Whether the transfer rule's own date expression (the cutoff of a
/// `Before` transfer) resolves for this year.
pub open spec fn transfer_cutoff_ok(t: TransferType, y: Year) -> bool {
    match t {
        TransferType::Before(cut) => resolve_ok(cut, y),
        _ => true,
    }
}

/// Whether the transfer/clash rule keeps a holy day on its day or
/// drops it, and for which reason: the rule table of the tradition.
pub open spec fn rule_status(
    t: TransferType,
    c: HolydayClass,
    y: Year,
    dn: int,
    ch: bool,
) -> DropStatus {
    match t {
        TransferType::Normal => match c {
            HolydayClass::Commemoration => if in_easter_octave(y, dn) {
                DropStatus::Drop(DropReason::Easter)
            } else {
                DropStatus::Keep
            },
            HolydayClass::LesserFestival => if in_easter_octave(y, dn) {
                DropStatus::Drop(DropReason::Easter)
            } else if ch {
                DropStatus::Drop(DropReason::Clash)
            } else if is_sunday(dn) {
                DropStatus::Drop(DropReason::Sunday)
            } else {
                DropStatus::Keep
            },
            _ => DropStatus::Keep,
        },
        TransferType::Before(cut) => if dn >= resolve_spec(cut, y) {
            DropStatus::Drop(DropReason::Cutoff)
        } else {
            DropStatus::Keep
        },
        _ => DropStatus::Keep,
    }
}

/// The day a kept holy day ends on: its own day, the next day for the
/// one-day moves, or the day after the Second Sunday of Easter (one
/// further when the named day is itself restricted) for the Joseph,
/// George and Mark rules.
pub open spec fn rule_date(t: TransferType, c: HolydayClass, y: Year, dn: int, ch: bool) -> int {
    match t {
        TransferType::Normal => match c {
            HolydayClass::Festival | HolydayClass::CorpusChristi => if (is_sunday(dn)
                && (in_advent(y, dn) || in_lent_or_eastertide(y, dn))) || ch {
                dn + 1
            } else {
                dn
            },
            _ => dn,
        },
        TransferType::Annunciation => if is_sunday(dn) {
            dn + 1
        } else {
            dn
        },
        TransferType::Joseph => if in_easter_octave(y, dn) {
            if in_easter_octave(y, day_number(y.ad as int, 3, 25)) {
                y.easter_sunday_2@ + 2
            } else {
                y.easter_sunday_2@ + 1
            }
        } else {
            dn
        },
        TransferType::George => if in_easter_octave(y, dn) {
            y.easter_sunday_2@ + 1
        } else {
            dn
        },
        TransferType::Mark => if in_easter_octave(y, dn) {
            if in_easter_octave(y, dn - 2) {
                y.easter_sunday_2@ + 2
            } else {
                y.easter_sunday_2@ + 1
            }
        } else {
            dn
        },
        _ => dn,
    }
}

/// Two days after the Second Sunday of Easter still lies in the
/// supported range.
pub proof fn lemma_octave_shift_in_range(y: Year)
    requires
        y.wf(),
    ensures
        MIN_DAY_NUMBER <= y.easter_sunday_2@ + 2 <= MAX_DAY_NUMBER,
{
}

/// Whether the list of attributes includes martyrdom.
fn has_martyr(v: &Vec<MainAttribute>) -> (r: bool)
    ensures
        r == v@.contains(MainAttribute::Martyr),
{
    let n = v.len();
    let mut i: usize = 0;
    while i < n
        invariant
            i <= n,
            n == v@.len(),
            forall|k: int| 0 <= k < i ==> v@[k] != MainAttribute::Martyr,
        decreases n - i,
    {
        match v[i] {
            MainAttribute::Martyr => {
                return true;
            },
        }
    }
    proof {
        if v@.contains(MainAttribute::Martyr) {
            let k = choose|k: int| 0 <= k < v@.len() && v@[k] == MainAttribute::Martyr;
        }
    }
    false
}

/// The display colour of a holy day on its day, from the CSS3 colour
/// names: red or white for festivals and lesser festivals by
/// martyrdom, the seasonal colour otherwise.
pub open spec fn colour_spec(h: Holyday, dn: int, y: Year) -> Seq<char> {
    match h.class {
        HolydayClass::Festival | HolydayClass::LesserFestival => if h.main@.contains(
            MainAttribute::Martyr,
        ) {
            "red"@
        } else {
            "white"@
        },
        _ => season_colour_spec(y, dn).colour_a_spec(),
    }
}

impl<'a> YearHolyday<'a> {
    /// Place a holy day into a year by resolving its date expression.
    pub fn from_holyday(holyday: &'a Holyday, year: &Year) -> (r: Result<
        YearHolyday<'a>,
        CalendarError,
    >)
        requires
            year.wf(),
        ensures
            resolve_ok(holyday.date_cal, *year) ==> (r matches Ok(ye) && ye.holyday == holyday
                && ye.date@ == resolve_spec(holyday.date_cal, *year) && ye.date.wf()),
            !resolve_ok(holyday.date_cal, *year) ==> r == Result::<
                YearHolyday<'a>,
                CalendarError,
            >::Err(CalendarError::Unresolvable),
    {
        match year.date_cal_to_date(&holyday.date_cal) {
            Ok(d) => Ok(YearHolyday { holyday, date: d }),
            Err(e) => Err(e),
        }
    }

    /// Move the holy day by the given number of days.
    pub fn change_date_by(&mut self, days: i64)
        requires
            old(self).date.wf(),
            MIN_DAY_NUMBER <= old(self).date@ + days <= MAX_DAY_NUMBER,
        ensures
            final(self).holyday == old(self).holyday,
            final(self).date@ == old(self).date@ + days,
            final(self).date.wf(),
    {
        self.date = self.date.add_days(days);
    }

    /// Move the holy day to the given date.
    pub fn change_date_to(&mut self, d: Date)
        ensures
            final(self).holyday == old(self).holyday,
            final(self).date == d,
    {
        self.date = d;
    }

    /// The display colour of this holy day.
    pub fn colour(&self, year: &Year) -> (r: String)
        requires
            year.wf(),
            self.date.wf(),
        ensures
            r@ == colour_spec(*self.holyday, self.date@, *year),
    {
        match self.holyday.class {
            HolydayClass::Festival | HolydayClass::LesserFestival => {
                if has_martyr(&self.holyday.main) {
                    "red".to_owned()
                } else {
                    "white".to_owned()
                }
            },
            _ => year.season_colour(self.date).colour_a(),
        }
    }
}

/// Whether a day already holds a holy day of a class above `c`, as an
/// executable decision over the day's list.
fn clash_higher_exec(day_holydays: &[YearHolyday<'_>], c: HolydayClass) -> (r: bool)
    ensures
        r == clash_higher(holydays_of(day_holydays@), c),
{
    let n = day_holydays.len();
    if n == 0 {
        proof {
            assert(holydays_of(day_holydays@).len() == 0);
        }
        return false;
    }
    let mut level: u8 = HolydayClass::NotAFestival.rank_exec();
    let mut i: usize = 0;
    while i < n
        invariant
            i <= n,
            n == day_holydays@.len(),
            level as int == clash_rank(holydays_of(day_holydays@.subrange(0, i as int))),
        decreases n - i,
    {
        let ghost pre = holydays_of(day_holydays@.subrange(0, i as int));
        let cr = day_holydays[i].holyday.class.rank_exec();
        if cr > level {
            level = cr;
        }
        proof {
            let cur = holydays_of(day_holydays@.subrange(0, i + 1));
            assert(cur.drop_last() =~= pre);
            assert(cur.last() == *day_holydays@[i as int].holyday);
        }
        i = i + 1;
    }
    proof {
        assert(day_holydays@.subrange(0, n as int) =~= day_holydays@);
    }
    level > c.rank_exec()
}

/// A calendar resolved for one specific year: the kept holy days,
/// grouped by date.
#[derive(Debug, PartialEq, Eq)]
pub struct YearCalendar<'a> {
    /// the province whose calendar was resolved
    pub province: Province,
    /// the anchor dates of the year
    pub year: Year,
    /// the kept holy days, grouped by date, dates ascending
    pub holydays_by_date: Vec<(Date, Vec<YearHolyday<'a>>)>,
}

impl<'a> YearCalendar<'a> {
    /// Decide whether a holy day stays on its resolved date, moves, or
    /// is dropped, from the transfer rule table, given the holy days
    /// already placed on that date. Moving does not re-check the
    /// target date for clashes.
    pub fn fix_holyday_date_is_ok(
        day_holydays: &[YearHolyday<'a>],
        ye: &mut YearHolyday<'a>,
        year: &Year,
    ) -> (r: DropStatus)
        requires
            year.wf(),
            old(ye).date.wf(),
            may_move_one_day(old(ye).holyday.transfer, old(ye).holyday.class) ==> old(
                ye,
            ).date@ + 1 <= MAX_DAY_NUMBER,
            !(old(ye).holyday.transfer == TransferType::Normal && old(ye).holyday.class
                == HolydayClass::NotAFestival),
            transfer_cutoff_ok(old(ye).holyday.transfer, *year),
        ensures
            final(ye).holyday == old(ye).holyday,
            final(ye).date.wf(),
            r == rule_status(
                old(ye).holyday.transfer,
                old(ye).holyday.class,
                *year,
                old(ye).date@,
                clash_higher(holydays_of(day_holydays@), old(ye).holyday.class),
            ),
            final(ye).date@ == rule_date(
                old(ye).holyday.transfer,
                old(ye).holyday.class,
                *year,
                old(ye).date@,
                clash_higher(holydays_of(day_holydays@), old(ye).holyday.class),
            ),
            (old(ye).holyday.transfer == TransferType::Normal && old(ye).holyday.class
                == HolydayClass::Principal) ==> (r == DropStatus::Keep && *final(ye) == *old(
                ye,
            )),
    {
        proof {
            lemma_day_number_in_range(year.ad as int, 12, 25);
            lemma_day_number_in_range(year.ad as int, 3, 25);
            lemma_octave_shift_in_range(*year);
        }
        let dn = ye.date.day_number();
        let is_sunday_now = ye.date.weekday().num_days_from_sunday() == 0;
        let christmas = Date::from_ymd(year.ad, 12, 25).day_number();
        let in_advent_now = dn >= year.advent_next.day_number() && dn < christmas;
        let in_lent_now = dn >= year.ash_wednesday.day_number() && dn
            <= year.pentecost.day_number();
        let in_easter_now = dn >= year.palm_sunday.day_number() && dn
            <= year.easter_sunday_2.day_number();
        let ch = clash_higher_exec(day_holydays, ye.holyday.class);
        match &ye.holyday.transfer {
            TransferType::Normal => match ye.holyday.class {
                HolydayClass::Commemoration => {
                    if in_easter_now {
                        DropStatus::Drop(DropReason::Easter)
                    } else {
                        DropStatus::Keep
                    }
                },
                HolydayClass::LesserFestival => {
                    if in_easter_now {
                        DropStatus::Drop(DropReason::Easter)
                    } else if ch {
                        DropStatus::Drop(DropReason::Clash)
                    } else if is_sunday_now {
                        DropStatus::Drop(DropReason::Sunday)
                    } else {
                        DropStatus::Keep
                    }
                },
                HolydayClass::Festival | HolydayClass::CorpusChristi => {
                    if (is_sunday_now && (in_advent_now || in_lent_now)) || ch {
                        ye.change_date_by(1);
                    }
                    DropStatus::Keep
                },
                HolydayClass::NotAFestival => {
                    proof {
                        assert(false);
                    }
                    DropStatus::Keep
                },
                _ => DropStatus::Keep,
            },
            TransferType::Annunciation => {
                if is_sunday_now {
                    ye.change_date_by(1);
                }
                DropStatus::Keep
            },
            TransferType::Joseph => {
                if in_easter_now {
                    let abvm = Date::from_ymd(year.ad, 3, 25).day_number();
                    let days: i64 = if abvm >= year.palm_sunday.day_number() && abvm
                        <= year.easter_sunday_2.day_number() {
                        2
                    } else {
                        1
                    };
                    ye.change_date_to(year.easter_sunday_2.add_days(days));
                }
                DropStatus::Keep
            },
            TransferType::George => {
                if in_easter_now {
                    ye.change_date_to(year.easter_sunday_2.add_days(1));
                }
                DropStatus::Keep
            },
            TransferType::Mark => {
                if in_easter_now {
                    let sgd = dn - 2;
                    let days: i64 = if sgd >= year.palm_sunday.day_number() && sgd
                        <= year.easter_sunday_2.day_number() {
                        2
                    } else {
                        1
                    };
                    ye.change_date_to(year.easter_sunday_2.add_days(days));
                }
                DropStatus::Keep
            },
            TransferType::Before(cutoff) => {
                match year.date_cal_to_date(cutoff) {
                    Ok(cd) => {
                        if dn >= cd.day_number() {
                            DropStatus::Drop(DropReason::Cutoff)
                        } else {
                            DropStatus::Keep
                        }
                    },
                    Err(_) => {
                        proof {
                            assert(false);
                        }
                        DropStatus::Keep
                    },
                }
            },
            TransferType::DoNotTransfer => DropStatus::Keep,
        }
    }
}

/// The date-grouped view of the buckets: a map from day number to the
/// holy days kept on that day, in placement order.
pub open spec fn bmap<'a>(s: Seq<(Date, Vec<YearHolyday<'a>>)>) -> Map<int, Seq<Holyday>>
    decreases s.len(),
{
    if s.len() == 0 {
        Map::empty()
    } else {
        bmap(s.drop_last()).insert(s.last().0@, holydays_of(s.last().1@))
    }
}

/// No two buckets name the same day.
pub open spec fn bucket_keys_distinct<'a>(s: Seq<(Date, Vec<YearHolyday<'a>>)>) -> bool {
    forall|i: int, j: int|
        0 <= i < j < s.len() ==> (#[trigger] s[i]).0@ != (#[trigger] s[j]).0@
}

/// Each bucket of a distinct-keyed sequence appears in its map.
proof fn lemma_bmap_get<'a>(s: Seq<(Date, Vec<YearHolyday<'a>>)>, i: int)
    requires
        bucket_keys_distinct(s),
        0 <= i < s.len(),
    ensures
        bmap(s).dom().contains(s[i].0@),
        bmap(s)[s[i].0@] == holydays_of(s[i].1@),
    decreases s.len(),
{
    if i < s.len() - 1 {
        assert(bucket_keys_distinct(s.drop_last()));
        assert(s.drop_last()[i] == s[i]);
        lemma_bmap_get(s.drop_last(), i);
        assert(s[i].0@ != s.last().0@);
    }
}

/// A day named by no bucket is absent from the map.
proof fn lemma_bmap_absent<'a>(s: Seq<(Date, Vec<YearHolyday<'a>>)>, dn: int)
    requires
        forall|k: int| 0 <= k < s.len() ==> (#[trigger] s[k]).0@ != dn,
    ensures
        !bmap(s).dom().contains(dn),
    decreases s.len(),
{
    if s.len() > 0 {
        assert(forall|k: int|
            0 <= k < s.drop_last().len() ==> (#[trigger] s.drop_last()[k]).0@ != dn);
        lemma_bmap_absent(s.drop_last(), dn);
        assert(s.last().0@ != dn);
    }
}

/// Replacing one bucket's list updates its day in the map.
proof fn lemma_bmap_update<'a>(
    s: Seq<(Date, Vec<YearHolyday<'a>>)>,
    i: int,
    v: Vec<YearHolyday<'a>>,
)
    requires
        bucket_keys_distinct(s),
        0 <= i < s.len(),
    ensures
        bmap(s.update(i, (s[i].0, v))) == bmap(s).insert(s[i].0@, holydays_of(v@)),
    decreases s.len(),
{
    let s2 = s.update(i, (s[i].0, v));
    if i == s.len() - 1 {
        assert(s2.drop_last() =~= s.drop_last());
        assert(s2.last() == (s[i].0, v));
        assert(bmap(s2) =~= bmap(s).insert(s[i].0@, holydays_of(v@)));
    } else {
        assert(bucket_keys_distinct(s.drop_last()));
        assert(s.drop_last()[i] == s[i]);
        lemma_bmap_update(s.drop_last(), i, v);
        assert(s2.drop_last() =~= s.drop_last().update(i, (s[i].0, v)));
        assert(s2.last() == s.last());
        assert(s[i].0@ != s.last().0@);
        assert(bmap(s2) =~= bmap(s).insert(s[i].0@, holydays_of(v@)));
    }
}

/// Inserting a bucket for a fresh day adds that day to the map.
proof fn lemma_bmap_insert<'a>(
    s: Seq<(Date, Vec<YearHolyday<'a>>)>,
    p: int,
    d: Date,
    v: Vec<YearHolyday<'a>>,
)
    requires
        0 <= p <= s.len(),
        forall|k: int| 0 <= k < s.len() ==> (#[trigger] s[k]).0@ != d@,
    ensures
        bmap(s.insert(p, (d, v))) == bmap(s).insert(d@, holydays_of(v@)),
    decreases s.len(),
{
    let s2 = s.insert(p, (d, v));
    if p == s.len() {
        assert(s2.drop_last() =~= s);
        assert(s2.last() == (d, v));
    } else {
        assert(forall|k: int|
            0 <= k < s.drop_last().len() ==> (#[trigger] s.drop_last()[k]).0@ != d@);
        lemma_bmap_insert(s.drop_last(), p, d, v);
        assert(s2.drop_last() =~= s.drop_last().insert(p, (d, v)));
        assert(s2.last() == s.last());
        assert(s.last().0@ != d@);
        assert(bmap(s2) =~= bmap(s).insert(d@, holydays_of(v@)));
    }
}

/// The holy days already placed on a day, the empty list for an
/// untouched day.
pub open spec fn day_list(m: Map<int, Seq<Holyday>>, dn: int) -> Seq<Holyday> {
    if m.dom().contains(dn) {
        m[dn]
    } else {
        Seq::empty()
    }
}

/// Whether the engine can process a holy day at all: its date
/// resolves with room for a one-day move, its class may reach the
/// engine, and a `Before` cutoff resolves.
#[verifier::opaque]
pub open spec fn engine_ok(h: Holyday, y: Year) -> bool {
    &&& resolve_ok(h.date_cal, y)
    &&& resolve_spec(h.date_cal, y) + 1 <= MAX_DAY_NUMBER
    &&& !(h.transfer == TransferType::Normal && h.class == HolydayClass::NotAFestival)
    &&& transfer_cutoff_ok(h.transfer, y)
}

/// The error reported for a holy day the engine cannot process,
/// checked in the order the engine checks.
#[verifier::opaque]
pub open spec fn engine_err(h: Holyday, y: Year) -> CalendarError {
    if !(resolve_ok(h.date_cal, y) && resolve_spec(h.date_cal, y) + 1 <= MAX_DAY_NUMBER) {
        CalendarError::Unresolvable
    } else if h.transfer == TransferType::Normal && h.class == HolydayClass::NotAFestival {
        CalendarError::InvalidClass
    } else {
        CalendarError::Unresolvable
    }
}

/// One holy day passed through the engine: resolve its date, decide
/// by the rule table against the day's current holders, and append it
/// at its final date when kept. A moved holy day is placed directly,
/// without a second clash check at the target date.
#[verifier::opaque]
pub open spec fn engine_step(m: Map<int, Seq<Holyday>>, h: Holyday, y: Year) -> Map<
    int,
    Seq<Holyday>,
> {
    let dn = resolve_spec(h.date_cal, y);
    let ch = clash_higher(day_list(m, dn), h.class);
    let st = rule_status(h.transfer, h.class, y, dn, ch);
    let nd = rule_date(h.transfer, h.class, y, dn, ch);
    if st == DropStatus::Keep {
        m.insert(nd, day_list(m, nd).push(h))
    } else {
        m
    }
}

/// A whole calendar passed through the engine in order, stopping at
/// the first holy day it cannot process.
#[verifier::opaque]
pub open spec fn engine_fold(m: Map<int, Seq<Holyday>>, hs: Seq<Holyday>, y: Year) -> Result<
    Map<int, Seq<Holyday>>,
    CalendarError,
>
    decreases hs.len(),
{
    if hs.len() == 0 {
        Ok(m)
    } else if !engine_ok(hs[0], y) {
        Err(engine_err(hs[0], y))
    } else {
        engine_fold(engine_step(m, hs[0], y), hs.drop_first(), y)
    }
}

/// One unfolding of the engine: a holy day the engine can process
/// steps the map and the fold continues.
proof fn lemma_fold_step(m: Map<int, Seq<Holyday>>, hs: Seq<Holyday>, y: Year)
    requires
        hs.len() > 0,
        engine_ok(hs[0], y),
    ensures
        engine_fold(m, hs, y) == engine_fold(engine_step(m, hs[0], y), hs.drop_first(), y),
{
    reveal(engine_fold);
}

/// One unfolding of the engine: a holy day the engine cannot process
/// stops the fold with its error.
proof fn lemma_fold_err(m: Map<int, Seq<Holyday>>, hs: Seq<Holyday>, y: Year)
    requires
        hs.len() > 0,
        !engine_ok(hs[0], y),
    ensures
        engine_fold(m, hs, y) == Result::<Map<int, Seq<Holyday>>, CalendarError>::Err(
            engine_err(hs[0], y),
        ),
{
    reveal(engine_fold);
}

impl<'a> YearCalendar<'a> {
    /// The buckets are dated ascending within the supported range,
    /// every held holy day is dated at its bucket's day, and the year
    /// anchors are coherent.
    pub open spec fn wf(self) -> bool {
        &&& self.year.wf()
        &&& forall|i: int, j: int|
            0 <= i < j < self.holydays_by_date@.len() ==> (#[trigger] self.holydays_by_date@[
                i
            ]).0@ < (#[trigger] self.holydays_by_date@[j]).0@
        &&& forall|i: int|
            0 <= i < self.holydays_by_date@.len() ==> (#[trigger] self.holydays_by_date@[
                i
            ]).0.wf()
        &&& forall|i: int, k: int|
            0 <= i < self.holydays_by_date@.len() && 0 <= k < self.holydays_by_date@[i].1@.len()
                ==> (#[trigger] self.holydays_by_date@[i].1@[k]).date == self.holydays_by_date@[
                i
            ].0
    }

    /// The date-grouped result: day number to kept holy days.
    pub open spec fn resolved(self) -> Map<int, Seq<Holyday>> {
        bmap(self.holydays_by_date@)
    }

    /// Index of the bucket of the given date, if one exists.
    fn bucket_index(&self, d: Date) -> (r: Option<usize>)
        ensures
            match r {
                Some(i) => (i as int) < self.holydays_by_date@.len()
                    && self.holydays_by_date@[i as int].0 == d,
                None => forall|k: int|
                    0 <= k < self.holydays_by_date@.len() ==> (#[trigger] self.holydays_by_date@[
                        k
                    ]).0@ != d@,
            },
    {
        let n = self.holydays_by_date.len();
        let mut i: usize = 0;
        while i < n
            invariant
                i <= n,
                n == self.holydays_by_date@.len(),
                forall|k: int|
                    0 <= k < i ==> (#[trigger] self.holydays_by_date@[k]).0@ != d@,
            decreases n - i,
        {
            if self.holydays_by_date[i].0.day_number() == d.day_number() {
                proof {
                    lemma_date_injective(self.holydays_by_date@[i as int].0, d);
                }
                return Some(i);
            }
            i = i + 1;
        }
        None
    }

    /// Append a holy day to the bucket of its date, creating the
    /// bucket in date order if the date is new.
    fn place(&mut self, ye: YearHolyday<'a>)
        requires
            old(self).wf(),
            ye.date.wf(),
        ensures
            final(self).wf(),
            final(self).year == old(self).year,
            final(self).province == old(self).province,
            final(self).resolved() == old(self).resolved().insert(
                ye.date@,
                day_list(old(self).resolved(), ye.date@).push(*ye.holyday),
            ),
    {
        let ghost pre = self.holydays_by_date@;
        let n = self.holydays_by_date.len();
        let mut i: usize = 0;
        while i < n && self.holydays_by_date[i].0.day_number() < ye.date.day_number()
            invariant
                i <= n,
                n == self.holydays_by_date@.len(),
                self.holydays_by_date@ == pre,
                forall|k: int|
                    0 <= k < i ==> (#[trigger] self.holydays_by_date@[k]).0@ < ye.date@,
            decreases n - i,
        {
            i = i + 1;
        }
        proof {
            assert(bucket_keys_distinct(pre));
        }
        if i < n && self.holydays_by_date[i].0.day_number() == ye.date.day_number() {
            proof {
                lemma_date_injective(pre[i as int].0, ye.date);
                lemma_bmap_get(pre, i as int);
            }
            let mut b = self.holydays_by_date.remove(i);
            b.1.push(ye);
            let ghost bv = b.1@;
            self.holydays_by_date.insert(i, b);
            proof {
                assert(self.holydays_by_date@ =~= pre.update(i as int, (pre[i as int].0, b.1)));
                lemma_bmap_update(pre, i as int, b.1);
                assert(holydays_of(bv) =~= holydays_of(pre[i as int].1@).push(*ye.holyday));
                assert(self.resolved() == old(self).resolved().insert(
                    ye.date@,
                    day_list(old(self).resolved(), ye.date@).push(*ye.holyday),
                ));
            }
        } else {
            proof {
                assert(forall|k: int| 0 <= k < n ==> (#[trigger] pre[k]).0@ != ye.date@) by {
                    assert forall|k: int| 0 <= k < n implies (#[trigger] pre[k]).0@ != ye.date@
                    by {
                        if k >= i {
                            assert(pre[i as int].0@ <= pre[k].0@);
                        }
                    }
                }
                lemma_bmap_absent(pre, ye.date@);
            }
            let mut b: Vec<YearHolyday<'a>> = Vec::new();
            b.push(ye);
            let ghost bv = b@;
            proof {
                lemma_bmap_insert(pre, i as int, ye.date, b);
                assert(holydays_of(bv) =~= Seq::<Holyday>::empty().push(*ye.holyday));
            }
            self.holydays_by_date.insert(i, (ye.date, b));
            proof {
                assert(day_list(old(self).resolved(), ye.date@) =~= Seq::<Holyday>::empty());
            }
        }
    }

    /// Pass one holy day through the engine: resolve, decide, and
    /// place it when kept.
    fn process_one(&mut self, h: &'a Holyday) -> (r: Result<(), CalendarError>)
        requires
            old(self).wf(),
        ensures
            final(self).wf(),
            final(self).year == old(self).year,
            final(self).province == old(self).province,
            engine_ok(*h, old(self).year) ==> (r == Result::<(), CalendarError>::Ok(())
                && final(self).resolved() == engine_step(
                old(self).resolved(),
                *h,
                old(self).year,
            )),
            !engine_ok(*h, old(self).year) ==> (r == Result::<(), CalendarError>::Err(
                engine_err(*h, old(self).year),
            ) && *final(self) == *old(self)),
    {
        proof {
            reveal(engine_ok);
            reveal(engine_err);
            reveal(engine_step);
        }
        let ghost y_g = self.year;
        let ghost m0 = self.resolved();
        let year_local = self.year;
        match YearHolyday::from_holyday(h, &year_local) {
            Err(e) => {
                proof {
                    assert(!engine_ok(*h, y_g));
                }
                Err(e)
            },
            Ok(mut ye) => {
                if ye.date.day_number() >= MAX_DAY_NUMBER {
                    proof {
                        assert(!engine_ok(*h, y_g));
                    }
                    return Err(CalendarError::Unresolvable);
                }
                let fatal = match (&h.transfer, h.class) {
                    (TransferType::Normal, HolydayClass::NotAFestival) => true,
                    _ => false,
                };
                if fatal {
                    proof {
                        assert(!engine_ok(*h, y_g));
                    }
                    return Err(CalendarError::InvalidClass);
                }
                let cut_ok = match &h.transfer {
                    TransferType::Before(cut) => match year_local.date_cal_to_date(cut) {
                        Ok(_) => true,
                        Err(_) => false,
                    },
                    _ => true,
                };
                if !cut_ok {
                    proof {
                        assert(!engine_ok(*h, y_g));
                        assert(engine_err(*h, y_g) == CalendarError::Unresolvable);
                    }
                    return Err(CalendarError::Unresolvable);
                }
                proof {
                    assert(engine_ok(*h, y_g));
                }
                let ghost dn = ye.date@;
                let empty_day: Vec<YearHolyday<'a>> = Vec::new();
                let st = match self.bucket_index(ye.date) {
                    Some(bi) => {
                        proof {
                            assert(bucket_keys_distinct(self.holydays_by_date@));
                            lemma_bmap_get(self.holydays_by_date@, bi as int);
                            assert(day_list(m0, dn) == holydays_of(
                                self.holydays_by_date@[bi as int].1@,
                            ));
                        }
                        YearCalendar::fix_holyday_date_is_ok(
                            self_bucket_slice(&self.holydays_by_date, bi),
                            &mut ye,
                            &year_local,
                        )
                    },
                    None => {
                        proof {
                            lemma_bmap_absent(self.holydays_by_date@, dn);
                            assert(day_list(m0, dn) =~= holydays_of(empty_day@));
                        }
                        YearCalendar::fix_holyday_date_is_ok(
                            empty_day.as_slice(),
                            &mut ye,
                            &year_local,
                        )
                    },
                };
                let keep = match st {
                    DropStatus::Keep => true,
                    DropStatus::Drop(_) => false,
                };
                if keep {
                    proof {
                        assert(engine_step(m0, *h, y_g) == m0.insert(
                            ye.date@,
                            day_list(m0, ye.date@).push(*h),
                        ));
                    }
                    self.place(ye);
                    proof {
                        assert(self.resolved() == engine_step(m0, *h, y_g));
                    }
                } else {
                    proof {
                        assert(engine_step(m0, *h, y_g) == m0);
                    }
                }
                Ok(())
            },
        }
    }

    /// Resolve a whole calendar for one year: every holy day in the
    /// calendar's normal order is dated, passed through the transfer
    /// and clash rules, and the kept ones are grouped by date.
    pub fn from_calendar(calendar: &'a Calendar, year: i32) -> (r: Result<
        YearCalendar<'a>,
        CalendarError,
    >)
        requires
            1583 <= year <= 9998,
        ensures
            ({
                let y = year_anchors(year as int);
                let sorted = seq_sort_by(calendar@, holyday_le_fn(HolydaySort::Normal));
                match r {
                    Ok(yc) => {
                        &&& yc.wf()
                        &&& yc.year == y
                        &&& yc.province == calendar.province
                        &&& engine_fold(Map::empty(), sorted, y) == Result::<
                            Map<int, Seq<Holyday>>,
                            CalendarError,
                        >::Ok(yc.resolved())
                    },
                    Err(e) => engine_fold(Map::empty(), sorted, y) == Result::<
                        Map<int, Seq<Holyday>>,
                        CalendarError,
                    >::Err(e),
                }
            }),
    {
        let y = Year::new(year);
        proof {
            lemma_year_unique(y);
        }
        let holydays = calendar.get_holydays();
        let ghost sorted = seq_sort_by(calendar@, holyday_le_fn(HolydaySort::Normal));
        let mut yc = YearCalendar {
            province: calendar.province,
            year: y,
            holydays_by_date: Vec::new(),
        };
        let n = holydays.len();
        let mut i: usize = 0;
        proof {
            assert(sorted.skip(0) =~= sorted);
            assert(bmap(yc.holydays_by_date@) =~= Map::<int, Seq<Holyday>>::empty());
            assert(engine_fold(Map::empty(), sorted, y) == engine_fold(
                yc.resolved(),
                sorted.skip(0),
                y,
            ));
        }
        while i < n
            invariant
                i <= n,
                n == holydays@.len(),
                n == sorted.len(),
                y == year_anchors(year as int),
                sorted == seq_sort_by(calendar@, holyday_le_fn(HolydaySort::Normal)),
                holydays@.map_values(|hh: &Holyday| *hh) == sorted,
                yc.wf(),
                yc.year == y,
                yc.province == calendar.province,
                engine_fold(Map::empty(), sorted, y) == engine_fold(
                    yc.resolved(),
                    sorted.skip(i as int),
                    y,
                ),
            decreases n - i,
        {
            let h: &Holyday = holydays[i];
            proof {
                assert(holydays@.map_values(|hh: &Holyday| *hh)[i as int] == sorted[i as int]);
                assert(*h == sorted[i as int]);
                assert(sorted.skip(i as int)[0] == sorted[i as int]);
                assert(sorted.skip(i as int).drop_first() =~= sorted.skip(i as int + 1));
            }
            let ghost m0 = yc.resolved();
            match yc.process_one(h) {
                Ok(_) => {
                    proof {
                        lemma_fold_step(m0, sorted.skip(i as int), y);
                    }
                },
                Err(e) => {
                    proof {
                        lemma_fold_err(m0, sorted.skip(i as int), y);
                    }
                    return Err(e);
                },
            }
            i = i + 1;
        }
        proof {
            assert(sorted.skip(n as int) =~= Seq::<Holyday>::empty());
            assert(engine_fold(yc.resolved(), sorted.skip(n as int), y) == Result::<
                Map<int, Seq<Holyday>>,
                CalendarError,
            >::Ok(yc.resolved())) by {
                reveal(engine_fold);
            }
        }
        Ok(yc)
    }
}

/// The list of holy days already placed on one day, as a slice.
fn self_bucket_slice<'b, 'a>(
    buckets: &'b Vec<(Date, Vec<YearHolyday<'a>>)>,
    i: usize,
) -> (r: &'b [YearHolyday<'a>])
    requires
        (i as int) < buckets@.len(),
    ensures
        r@ == buckets@[i as int].1@,
{
    buckets[i].1.as_slice()
}

/// Law: Easter of a well-formed, anchored year always falls between
/// 22 March and 25 April of that year, inclusive.
pub proof fn lemma_easter_always_in_spring(y: Year)
    requires
        y.wf(),
        y.anchored(),
    ensures
        day_number(y.ad as int, 3, 22) <= y.easter@ <= day_number(y.ad as int, 4, 25),
{
    lemma_easter_in_bounds(y.ad as int);
}

/// Law: a holy day of Principal class under the normal rule is kept
/// on its own day, never moved and never dropped, whatever else is
/// already placed on that day.
pub proof fn lemma_principal_never_moved(y: Year, dn: int, clash: bool)
    ensures
        rule_status(TransferType::Normal, HolydayClass::Principal, y, dn, clash)
            == DropStatus::Keep,
        rule_date(TransferType::Normal, HolydayClass::Principal, y, dn, clash) == dn,
{
}

/// Law: the engine itself never drops or moves a Principal-class
/// holy day under the normal rule: its step appends the holy day to
/// the bucket of its own resolved date, whatever is already there.
pub proof fn lemma_engine_keeps_principal(m: Map<int, Seq<Holyday>>, h: Holyday, y: Year)
    requires
        h.transfer == TransferType::Normal,
        h.class == HolydayClass::Principal,
    ensures
        ({
            let dn = resolve_spec(h.date_cal, y);
            engine_step(m, h, y) == m.insert(dn, day_list(m, dn).push(h))
        }),
{
    reveal(engine_step);
}

/// Law: resolving the same date expression against the same year
/// anchors twice yields identical dates; resolution is a pure
/// function of its two arguments.
pub proof fn lemma_resolution_idempotent(dc: DateCal, y: Year, r1: Date, r2: Date)
    requires
        r1@ == resolve_spec(dc, y),
        r2@ == resolve_spec(dc, y),
    ensures
        r1 == r2,
{
    lemma_date_injective(r1, r2);
}

} // verus!
