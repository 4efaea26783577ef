//! Tests of the per-year machinery: the computus, the anchor dates,
//! the weekday searches, the date resolver and the transfer rules.

use anglican_calendar::calendar::{
    Calendar, DateCal, Holyday, HolydayClass, MainAttribute, OrderableDayOfWeek, SeasonColour,
    TransferType,
};
use anglican_calendar::date::{Date, Weekday};
use anglican_calendar::year_calendar::{DropReason, DropStatus, Year, YearCalendar, YearHolyday};

fn test_year(year_ad: i32, tests: &Vec<(DateCal, TransferType, Date)>) {
    let day_holydays: Vec<YearHolyday> = vec![];
    let year = Year::new(year_ad);
    for (dc, t, ed) in tests {
        let holyday = Holyday {
            title: "test".to_string(),
            description: "test descr".to_string(),
            class: HolydayClass::Principal,
            tag: "test tag".to_string(),
            date_cal: dc.clone(),
            transfer: t.clone(),
            ..Holyday::default()
        };
        let mut ye = YearHolyday::from_holyday(&holyday, &year).unwrap();
        let er = YearCalendar::fix_holyday_date_is_ok(&day_holydays, &mut ye, &year);
        assert_eq!(DropStatus::Keep, er);
        assert_eq!(
            *ed,
            ye.date,
            "wrong date, actual week day {:?}",
            ye.date.weekday()
        );
    }
}

#[test]
fn test_transfers() {
    let day_holydays: Vec<YearHolyday> = vec![];
    let year = Year::new(2019);
    let holyday = Holyday::default();
    let mut ye = YearHolyday::from_holyday(&holyday, &year).unwrap();
    let ye_exp = ye.clone();
    let er = YearCalendar::fix_holyday_date_is_ok(&day_holydays, &mut ye, &year);
    assert_eq!(DropStatus::Keep, er);
    assert_eq!(ye_exp, ye, "bad holyday {:?}", ye);
}

#[test]
fn test_easter() {
    let day_holydays: Vec<YearHolyday> = vec![];
    let year = Year::new(2019);
    let holyday = Holyday {
        title: "EASTER DAY".to_string(),
        description: "EASTER DAY, the first Sunday after the Paschal full moon".to_string(),
        class: HolydayClass::Principal,
        tag: "easter day".to_string(),
        date_cal: DateCal::Easter,
        transfer: TransferType::Normal,
        ..Holyday::default()
    };
    let mut ye = YearHolyday::from_holyday(&holyday, &year).unwrap();
    let er = YearCalendar::fix_holyday_date_is_ok(&day_holydays, &mut ye, &year);
    assert_eq!(DropStatus::Keep, er);
    assert_eq!(Date::from_ymd(2019, 4, 21), ye.date);
}

#[test]
fn test_dates_2019() {
    let year = 2019;
    let tests: Vec<(DateCal, TransferType, Date)> = vec![
        (
            DateCal::After {
                date: Box::new(DateCal::Easter),
                rel: -46,
            },
            TransferType::Normal,
            Date::from_ymd(year, 3, 6),
        ),
        (
            DateCal::Easter,
            TransferType::Normal,
            Date::from_ymd(year, 4, 21),
        ),
        (
            DateCal::After {
                date: Box::new(DateCal::Easter),
                rel: 39,
            },
            TransferType::Normal,
            Date::from_ymd(year, 5, 30),
        ),
        (
            DateCal::After {
                date: Box::new(DateCal::Easter),
                rel: 49,
            },
            TransferType::Normal,
            Date::from_ymd(year, 6, 9),
        ),
        (
            DateCal::Fixed { month: 12, day: 25 },
            TransferType::Normal,
            Date::from_ymd(year, 12, 25),
        ),
        (
            DateCal::Fixed { month: 4, day: 23 },
            TransferType::George,
            Date::from_ymd(year, 4, 29),
        ),
        (
            DateCal::Fixed { month: 4, day: 25 },
            TransferType::Mark,
            Date::from_ymd(year, 4, 30),
        ),
    ];
    test_year(year, &tests);
}

#[test]
fn test_dates_2020() {
    let year = 2020;
    let tests: Vec<(DateCal, TransferType, Date)> = vec![
        (
            DateCal::After {
                date: Box::new(DateCal::Easter),
                rel: -46,
            },
            TransferType::Normal,
            Date::from_ymd(year, 2, 26),
        ),
        (
            DateCal::Easter,
            TransferType::Normal,
            Date::from_ymd(year, 4, 12),
        ),
        (
            DateCal::After {
                date: Box::new(DateCal::Easter),
                rel: 39,
            },
            TransferType::Normal,
            Date::from_ymd(year, 5, 21),
        ),
        (
            DateCal::After {
                date: Box::new(DateCal::Easter),
                rel: 49,
            },
            TransferType::Normal,
            Date::from_ymd(year, 5, 31),
        ),
        (
            DateCal::Fixed { month: 12, day: 25 },
            TransferType::Normal,
            Date::from_ymd(year, 12, 25),
        ),
        (
            DateCal::Fixed { month: 4, day: 23 },
            TransferType::George,
            Date::from_ymd(year, 4, 23),
        ),
        (
            DateCal::Fixed { month: 4, day: 25 },
            TransferType::Mark,
            Date::from_ymd(year, 4, 25),
        ),
    ];
    test_year(year, &tests);
}

#[test]
fn golden_anchor_dates() {
    let y2019 = Year::new(2019);
    assert_eq!(Date::from_ymd(2019, 4, 21), y2019.easter);
    assert_eq!(Date::from_ymd(2018, 12, 2), y2019.advent_previous);
    assert_eq!(Date::from_ymd(2019, 12, 1), y2019.advent_next);
    assert_eq!(Date::from_ymd(2019, 3, 6), y2019.ash_wednesday);
    assert_eq!(Date::from_ymd(2019, 4, 14), y2019.palm_sunday);
    assert_eq!(Date::from_ymd(2019, 4, 28), y2019.easter_sunday_2);
    assert_eq!(Date::from_ymd(2019, 6, 9), y2019.pentecost);

    let y2020 = Year::new(2020);
    assert_eq!(Date::from_ymd(2020, 4, 12), y2020.easter);
    assert_eq!(Date::from_ymd(2019, 12, 1), y2020.advent_previous);
    assert_eq!(Date::from_ymd(2020, 11, 29), y2020.advent_next);
    assert_eq!(Date::from_ymd(2020, 2, 26), y2020.ash_wednesday);
    assert_eq!(Date::from_ymd(2020, 4, 5), y2020.palm_sunday);
    assert_eq!(Date::from_ymd(2020, 4, 19), y2020.easter_sunday_2);
    assert_eq!(Date::from_ymd(2020, 5, 31), y2020.pentecost);
}

#[test]
fn computus_exact_values() {
    // Easter 2019 is April 21: offset 31 + 21 from March 0.
    assert_eq!(52, Year::computus(2019));
    // Easter 2020 is April 12: offset 31 + 12.
    assert_eq!(43, Year::computus(2020));
    // Easter 1818 fell on the earliest possible day, March 22.
    assert_eq!(22, Year::computus(1818));
    // Easter 1943 fell on the latest possible day, April 25.
    assert_eq!(56, Year::computus(1943));
}

#[test]
fn easter_always_in_spring() {
    for year in [1583, 1600, 1818, 1943, 2000, 2019, 2038, 2100, 9998] {
        let y = Year::new(year);
        let lo = Date::from_ymd(year, 3, 22);
        let hi = Date::from_ymd(year, 4, 25);
        assert!(lo.day_number() <= y.easter.day_number());
        assert!(y.easter.day_number() <= hi.day_number());
    }
}

#[test]
fn weekday_search_next_exclusive() {
    let base = Date::from_ymd(2019, 6, 15);
    for (wd, d) in [
        (Weekday::Sunday, 16),
        (Weekday::Saturday, 22),
        (Weekday::Monday, 17),
    ] {
        let act = Year::next_exclusive(base, wd);
        let exp = Date::from_ymd(2019, 6, d);
        assert_eq!(exp, act, "exp {:?} act {:?}", exp, act);
        let offset = act.day_number() - base.day_number();
        assert!(1 <= offset && offset <= 7);
    }
}

#[test]
fn weekday_search_next_inclusive() {
    let base = Date::from_ymd(2019, 6, 15);
    for (wd, d) in [
        (Weekday::Sunday, 16),
        (Weekday::Saturday, 15),
        (Weekday::Monday, 17),
    ] {
        let act = Year::next_inclusive(base, wd);
        let exp = Date::from_ymd(2019, 6, d);
        assert_eq!(exp, act, "exp {:?} act {:?}", exp, act);
        let offset = act.day_number() - base.day_number();
        assert!(offset <= 6);
        // the offset is zero exactly when the base day already fits
        assert_eq!(offset == 0, base.weekday() == wd);
    }
}

#[test]
fn weekday_search_previous_exclusive() {
    let base = Date::from_ymd(2019, 6, 15);
    for (wd, d) in [
        (Weekday::Sunday, 9),
        (Weekday::Saturday, 8),
        (Weekday::Monday, 10),
    ] {
        let act = Year::previous_exclusive(base, wd);
        let exp = Date::from_ymd(2019, 6, d);
        assert_eq!(exp, act, "exp {:?} act {:?}", exp, act);
        let offset = act.day_number() - base.day_number();
        assert!(-7 <= offset && offset <= -1);
    }
}

#[test]
fn weekday_search_previous_inclusive() {
    let base = Date::from_ymd(2019, 6, 15);
    for (wd, d) in [
        (Weekday::Sunday, 9),
        (Weekday::Saturday, 15),
        (Weekday::Monday, 10),
    ] {
        let act = Year::previous_inclusive(base, wd);
        let exp = Date::from_ymd(2019, 6, d);
        assert_eq!(exp, act, "exp {:?} act {:?}", exp, act);
        let offset = act.day_number() - base.day_number();
        assert!(-6 <= offset && offset <= 0);
        assert_eq!(offset == 0, base.weekday() == wd);
    }
}

#[test]
fn resolver_matches_anchors() {
    let year = Year::new(2019);
    let ash = year
        .date_cal_to_date(&DateCal::After {
            date: Box::new(DateCal::Easter),
            rel: -46,
        })
        .unwrap();
    assert_eq!(year.ash_wednesday, ash);
    assert_eq!(Date::from_ymd(2019, 3, 6), ash);
    let pentecost = year
        .date_cal_to_date(&DateCal::After {
            date: Box::new(DateCal::Easter),
            rel: 49,
        })
        .unwrap();
    assert_eq!(year.pentecost, pentecost);
}

#[test]
fn resolver_next_weekday() {
    let year = Year::new(2019);
    // The first Sunday on or after 6 January 2019, which is itself a
    // Sunday.
    let dc = DateCal::Next {
        date: Box::new(DateCal::Fixed { month: 1, day: 6 }),
        day_of_week: OrderableDayOfWeek {
            wd: Weekday::Sunday,
        },
    };
    assert_eq!(
        Date::from_ymd(2019, 1, 6),
        year.date_cal_to_date(&dc).unwrap()
    );
    // The first Monday strictly within the week after 6 January.
    let dc2 = DateCal::Next {
        date: Box::new(DateCal::Fixed { month: 1, day: 6 }),
        day_of_week: OrderableDayOfWeek {
            wd: Weekday::Monday,
        },
    };
    assert_eq!(
        Date::from_ymd(2019, 1, 7),
        year.date_cal_to_date(&dc2).unwrap()
    );
}

#[test]
fn resolver_rejects_bad_fixed_date() {
    let year = Year::new(2019);
    let r = year.date_cal_to_date(&DateCal::Fixed { month: 2, day: 30 });
    assert!(r.is_err());
}

#[test]
fn resolution_is_idempotent() {
    let year = Year::new(2019);
    let dc = DateCal::After {
        date: Box::new(DateCal::AdventNext),
        rel: 3,
    };
    let first = year.date_cal_to_date(&dc).unwrap();
    let second = year.date_cal_to_date(&dc).unwrap();
    assert_eq!(first, second);
}

#[test]
fn principal_survives_any_clash() {
    // Even with a Principal-class holyday already on the date, a
    // Principal under the normal rule is kept, unmoved.
    let year = Year::new(2019);
    let other = Holyday {
        title: "already here".to_string(),
        class: HolydayClass::Principal,
        tag: "other".to_string(),
        date_cal: DateCal::Easter,
        ..Holyday::default()
    };
    let placed = YearHolyday::from_holyday(&other, &year).unwrap();
    let day_holydays = vec![placed];
    let principal = Holyday {
        title: "newcomer".to_string(),
        class: HolydayClass::Principal,
        tag: "newcomer".to_string(),
        date_cal: DateCal::Easter,
        transfer: TransferType::Normal,
        ..Holyday::default()
    };
    let mut ye = YearHolyday::from_holyday(&principal, &year).unwrap();
    let er = YearCalendar::fix_holyday_date_is_ok(&day_holydays, &mut ye, &year);
    assert_eq!(DropStatus::Keep, er);
    assert_eq!(Date::from_ymd(2019, 4, 21), ye.date);
}

#[test]
fn lesser_festival_dropped_in_easter_octave() {
    let year = Year::new(2019);
    let day_holydays: Vec<YearHolyday> = vec![];
    let lesser = Holyday {
        title: "lesser".to_string(),
        class: HolydayClass::LesserFestival,
        tag: "lesser".to_string(),
        // 16 April 2019 lies in Holy Week.
        date_cal: DateCal::Fixed { month: 4, day: 16 },
        transfer: TransferType::Normal,
        ..Holyday::default()
    };
    let mut ye = YearHolyday::from_holyday(&lesser, &year).unwrap();
    let er = YearCalendar::fix_holyday_date_is_ok(&day_holydays, &mut ye, &year);
    assert_eq!(DropStatus::Drop(DropReason::Easter), er);
}

#[test]
fn lesser_festival_dropped_on_clash() {
    let year = Year::new(2019);
    let festival = Holyday {
        title: "bigger".to_string(),
        class: HolydayClass::Festival,
        tag: "bigger".to_string(),
        date_cal: DateCal::Fixed { month: 7, day: 3 },
        ..Holyday::default()
    };
    let placed = YearHolyday::from_holyday(&festival, &year).unwrap();
    let day_holydays = vec![placed];
    let lesser = Holyday {
        title: "lesser".to_string(),
        class: HolydayClass::LesserFestival,
        tag: "lesser".to_string(),
        date_cal: DateCal::Fixed { month: 7, day: 3 },
        transfer: TransferType::Normal,
        ..Holyday::default()
    };
    let mut ye = YearHolyday::from_holyday(&lesser, &year).unwrap();
    let er = YearCalendar::fix_holyday_date_is_ok(&day_holydays, &mut ye, &year);
    assert_eq!(DropStatus::Drop(DropReason::Clash), er);
}

#[test]
fn lesser_festival_dropped_on_sunday() {
    let year = Year::new(2019);
    let day_holydays: Vec<YearHolyday> = vec![];
    let lesser = Holyday {
        title: "lesser".to_string(),
        class: HolydayClass::LesserFestival,
        tag: "lesser".to_string(),
        // 7 July 2019 is a Sunday outside the restricted seasons.
        date_cal: DateCal::Fixed { month: 7, day: 7 },
        transfer: TransferType::Normal,
        ..Holyday::default()
    };
    let mut ye = YearHolyday::from_holyday(&lesser, &year).unwrap();
    let er = YearCalendar::fix_holyday_date_is_ok(&day_holydays, &mut ye, &year);
    assert_eq!(DropStatus::Drop(DropReason::Sunday), er);
}

#[test]
fn festival_moves_off_lent_sunday() {
    let year = Year::new(2019);
    let day_holydays: Vec<YearHolyday> = vec![];
    let festival = Holyday {
        title: "festival".to_string(),
        class: HolydayClass::Festival,
        tag: "festival".to_string(),
        // 24 March 2019 is a Sunday in Lent.
        date_cal: DateCal::Fixed { month: 3, day: 24 },
        transfer: TransferType::Normal,
        ..Holyday::default()
    };
    let mut ye = YearHolyday::from_holyday(&festival, &year).unwrap();
    let er = YearCalendar::fix_holyday_date_is_ok(&day_holydays, &mut ye, &year);
    assert_eq!(DropStatus::Keep, er);
    assert_eq!(Date::from_ymd(2019, 3, 25), ye.date);
}

#[test]
fn annunciation_moves_off_sunday() {
    // In 2035, 25 March falls on a Sunday.
    let year = Year::new(2035);
    let day_holydays: Vec<YearHolyday> = vec![];
    let ann = Holyday {
        title: "annunciation".to_string(),
        class: HolydayClass::Principal,
        tag: "annunciation".to_string(),
        date_cal: DateCal::Fixed { month: 3, day: 25 },
        transfer: TransferType::Annunciation,
        ..Holyday::default()
    };
    let mut ye = YearHolyday::from_holyday(&ann, &year).unwrap();
    assert_eq!(Weekday::Sunday, ye.date.weekday());
    let er = YearCalendar::fix_holyday_date_is_ok(&day_holydays, &mut ye, &year);
    assert_eq!(DropStatus::Keep, er);
    assert_eq!(Date::from_ymd(2035, 3, 26), ye.date);
}

#[test]
fn joseph_leaves_easter_octave() {
    // In 2008, 19 March fell in Holy Week, and 25 March fell in Easter
    // week, so Joseph moves two days past the Second Sunday of Easter.
    let year = Year::new(2008);
    let day_holydays: Vec<YearHolyday> = vec![];
    let joseph = Holyday {
        title: "joseph".to_string(),
        class: HolydayClass::Festival,
        tag: "joseph".to_string(),
        date_cal: DateCal::Fixed { month: 3, day: 19 },
        transfer: TransferType::Joseph,
        ..Holyday::default()
    };
    let mut ye = YearHolyday::from_holyday(&joseph, &year).unwrap();
    let er = YearCalendar::fix_holyday_date_is_ok(&day_holydays, &mut ye, &year);
    assert_eq!(DropStatus::Keep, er);
    assert_eq!(Date::from_ymd(2008, 4, 1), ye.date);
}

#[test]
fn before_cutoff_drops_late_date() {
    let year = Year::new(2019);
    let day_holydays: Vec<YearHolyday> = vec![];
    let late = Holyday {
        title: "late".to_string(),
        class: HolydayClass::Festival,
        tag: "late".to_string(),
        // On or after the cutoff: dropped.
        date_cal: DateCal::Easter,
        transfer: TransferType::Before(DateCal::Easter),
        ..Holyday::default()
    };
    let mut ye = YearHolyday::from_holyday(&late, &year).unwrap();
    let er = YearCalendar::fix_holyday_date_is_ok(&day_holydays, &mut ye, &year);
    assert_eq!(DropStatus::Drop(DropReason::Cutoff), er);

    let early = Holyday {
        title: "early".to_string(),
        class: HolydayClass::Festival,
        tag: "early".to_string(),
        date_cal: DateCal::After {
            date: Box::new(DateCal::Easter),
            rel: -1,
        },
        transfer: TransferType::Before(DateCal::Easter),
        ..Holyday::default()
    };
    let mut ye2 = YearHolyday::from_holyday(&early, &year).unwrap();
    let er2 = YearCalendar::fix_holyday_date_is_ok(&day_holydays, &mut ye2, &year);
    assert_eq!(DropStatus::Keep, er2);
}

#[test]
fn engine_groups_and_drops() {
    let mut cal = Calendar::new();
    cal.add(Holyday {
        title: "EASTER DAY".to_string(),
        class: HolydayClass::Principal,
        tag: "easter day".to_string(),
        date_cal: DateCal::Easter,
        transfer: TransferType::Normal,
        ..Holyday::default()
    });
    // A lesser festival on Easter day itself: dropped by the octave
    // rule.
    cal.add(Holyday {
        title: "unlucky".to_string(),
        class: HolydayClass::LesserFestival,
        tag: "unlucky".to_string(),
        date_cal: DateCal::Easter,
        transfer: TransferType::Normal,
        ..Holyday::default()
    });
    // A commemoration in high summer: kept.
    cal.add(Holyday {
        title: "summer".to_string(),
        class: HolydayClass::Commemoration,
        tag: "summer".to_string(),
        date_cal: DateCal::Fixed { month: 8, day: 6 },
        transfer: TransferType::Normal,
        ..Holyday::default()
    });
    let yc = YearCalendar::from_calendar(&cal, 2019).unwrap();
    assert_eq!(2019, yc.year.ad);
    assert_eq!(2, yc.holydays_by_date.len());
    // Buckets come out in date order.
    assert_eq!(Date::from_ymd(2019, 4, 21), yc.holydays_by_date[0].0);
    assert_eq!(1, yc.holydays_by_date[0].1.len());
    assert_eq!("EASTER DAY", yc.holydays_by_date[0].1[0].holyday.title);
    assert_eq!(Date::from_ymd(2019, 8, 6), yc.holydays_by_date[1].0);
    assert_eq!("summer", yc.holydays_by_date[1].1[0].holyday.title);
}

#[test]
fn engine_rejects_not_a_festival() {
    let mut cal = Calendar::new();
    cal.add(Holyday {
        title: "broken".to_string(),
        class: HolydayClass::NotAFestival,
        tag: "broken".to_string(),
        date_cal: DateCal::Fixed { month: 5, day: 1 },
        transfer: TransferType::Normal,
        ..Holyday::default()
    });
    let r = YearCalendar::from_calendar(&cal, 2019);
    assert!(r.is_err());
}

#[test]
fn engine_rejects_unresolvable_date() {
    let mut cal = Calendar::new();
    cal.add(Holyday {
        title: "nonexistent".to_string(),
        class: HolydayClass::Festival,
        tag: "nonexistent".to_string(),
        date_cal: DateCal::Fixed { month: 2, day: 31 },
        transfer: TransferType::Normal,
        ..Holyday::default()
    });
    let r = YearCalendar::from_calendar(&cal, 2019);
    assert!(r.is_err());
}

#[test]
fn colours_follow_class_and_season() {
    let year = Year::new(2019);
    let martyr = Holyday {
        title: "martyr".to_string(),
        class: HolydayClass::Festival,
        tag: "martyr".to_string(),
        main: vec![MainAttribute::Martyr],
        date_cal: DateCal::Fixed { month: 8, day: 6 },
        ..Holyday::default()
    };
    let ye = YearHolyday::from_holyday(&martyr, &year).unwrap();
    assert_eq!("red", ye.colour(&year));
    let plain = Holyday {
        title: "plain".to_string(),
        class: HolydayClass::Festival,
        tag: "plain".to_string(),
        date_cal: DateCal::Fixed { month: 8, day: 6 },
        ..Holyday::default()
    };
    let ye2 = YearHolyday::from_holyday(&plain, &year).unwrap();
    assert_eq!("white", ye2.colour(&year));
    // A commemoration takes the seasonal colour: green in high summer.
    let comm = Holyday {
        title: "ordinary".to_string(),
        class: HolydayClass::Commemoration,
        tag: "ordinary".to_string(),
        date_cal: DateCal::Fixed { month: 8, day: 6 },
        ..Holyday::default()
    };
    let ye3 = YearHolyday::from_holyday(&comm, &year).unwrap();
    assert_eq!("green", ye3.colour(&year));
}

#[test]
fn season_colours_by_date() {
    let year = Year::new(2019);
    assert_eq!(
        SeasonColour::White,
        year.season_colour(Date::from_ymd(2019, 12, 25))
    );
    assert_eq!(
        SeasonColour::White,
        year.season_colour(Date::from_ymd(2019, 4, 21))
    );
    // Good Friday 2019.
    assert_eq!(
        SeasonColour::Red,
        year.season_colour(Date::from_ymd(2019, 4, 19))
    );
    // Ash Wednesday 2019.
    assert_eq!(
        SeasonColour::Purple,
        year.season_colour(Date::from_ymd(2019, 3, 6))
    );
    // High summer.
    assert_eq!(
        SeasonColour::Green,
        year.season_colour(Date::from_ymd(2019, 8, 6))
    );
}

#[test]
fn date_roundtrips_through_day_numbers() {
    for (y, m, d) in [
        (1i32, 1u8, 1u8),
        (1583, 10, 15),
        (2000, 2, 29),
        (2019, 4, 21),
        (2019, 12, 31),
        (2020, 2, 29),
        (9999, 12, 31),
    ] {
        let date = Date::from_ymd(y, m, d);
        assert_eq!((y, m, d), date.to_ymd());
    }
    // Day 1 is 1 January of year 1, a Monday.
    assert_eq!(1, Date::from_ymd(1, 1, 1).day_number());
    assert_eq!(Weekday::Monday, Date::from_ymd(1, 1, 1).weekday());
}
