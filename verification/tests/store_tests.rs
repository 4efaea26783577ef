//! Tests of the year-independent store: adding, looking up, deleting
//! and editing holy days, the three sort orders, the province list,
//! references and the tag remapping table.

use anglican_calendar::calendar::{
    Calendar, CalendarError, DateCal, EdMods, Holyday, HolydayClass, HolydayField, HolydayMod,
    ProvHolydaysByDate, ProvHolydaysByTag, Province, ProvinceList, Reference, TransferType,
    WebSite,
};
use anglican_calendar::tagfix::tag_fixes;

fn named(tag: &str, class: HolydayClass, month: u8, day: u8) -> Holyday {
    Holyday {
        title: tag.to_uppercase(),
        description: format!("the holy day tagged {}", tag),
        class,
        tag: tag.to_string(),
        date_cal: DateCal::Fixed { month, day },
        transfer: TransferType::Normal,
        ..Holyday::default()
    }
}

#[test]
fn add_and_get_by_tag() {
    let mut cal = Calendar::new();
    cal.add(named("alpha", HolydayClass::Festival, 3, 1));
    cal.add(named("beta", HolydayClass::Commemoration, 5, 9));
    let h = cal.get_by_tag("alpha").unwrap();
    assert_eq!("ALPHA", h.title);
    assert_eq!(
        Err(CalendarError::NotFound),
        cal.get_by_tag("gamma").map(|h| h.tag.clone())
    );
}

#[test]
fn add_overwrites_by_tag() {
    let mut cal = Calendar::new();
    cal.add(named("alpha", HolydayClass::Festival, 3, 1));
    let mut replacement = named("alpha", HolydayClass::Principal, 3, 1);
    replacement.title = "REPLACED".to_string();
    cal.add(replacement);
    assert_eq!(1, cal.holydays.len());
    let h = cal.get_by_tag("alpha").unwrap();
    assert_eq!("REPLACED", h.title);
    assert_eq!(HolydayClass::Principal, h.class);
}

#[test]
fn delete_by_tag_removes_and_ignores_absent() {
    let mut cal = Calendar::new();
    cal.add(named("alpha", HolydayClass::Festival, 3, 1));
    cal.add(named("beta", HolydayClass::Commemoration, 5, 9));
    cal.delete_by_tag("alpha");
    assert_eq!(1, cal.holydays.len());
    assert!(cal.get_by_tag("alpha").is_err());
    // deleting an absent tag changes nothing
    cal.delete_by_tag("alpha");
    assert_eq!(1, cal.holydays.len());
    assert!(cal.get_by_tag("beta").is_ok());
}

#[test]
fn sort_normal_puts_principal_first() {
    let mut cal = Calendar::new();
    cal.add(named("commem", HolydayClass::Commemoration, 1, 2));
    cal.add(named("principal", HolydayClass::Principal, 12, 25));
    cal.add(named("festival", HolydayClass::Festival, 6, 24));
    cal.sort();
    let tags: Vec<String> = cal.holydays.iter().map(|h| h.tag.clone()).collect();
    assert_eq!(vec!["principal", "festival", "commem"], tags);
}

#[test]
fn sort_by_tag_is_lexicographic() {
    let mut cal = Calendar::new();
    cal.add(named("delta", HolydayClass::Festival, 1, 2));
    cal.add(named("alpha", HolydayClass::Festival, 3, 4));
    cal.add(named("charlie", HolydayClass::Festival, 5, 6));
    cal.sort_by_tag();
    let tags: Vec<String> = cal.holydays.iter().map(|h| h.tag.clone()).collect();
    assert_eq!(vec!["alpha", "charlie", "delta"], tags);
}

#[test]
fn sort_by_date_cal_orders_variants_then_fields() {
    let mut cal = Calendar::new();
    cal.add(named("late_fixed", HolydayClass::Festival, 12, 25));
    cal.add(named("early_fixed", HolydayClass::Festival, 1, 6));
    let mut easter = named("easter", HolydayClass::Festival, 1, 1);
    easter.date_cal = DateCal::Easter;
    cal.add(easter);
    let mut relative = named("relative", HolydayClass::Festival, 1, 1);
    relative.date_cal = DateCal::After {
        date: Box::new(DateCal::Easter),
        rel: -46,
    };
    cal.add(relative);
    cal.sort_by_date_cal();
    let tags: Vec<String> = cal.holydays.iter().map(|h| h.tag.clone()).collect();
    assert_eq!(vec!["easter", "relative", "early_fixed", "late_fixed"], tags);
}

#[test]
fn get_holydays_is_sorted_and_complete() {
    let mut cal = Calendar::new();
    cal.add(named("commem", HolydayClass::Commemoration, 1, 2));
    cal.add(named("principal", HolydayClass::Principal, 12, 25));
    let sorted = cal.get_holydays();
    assert_eq!(2, sorted.len());
    assert_eq!("principal", sorted[0].tag);
    assert_eq!("commem", sorted[1].tag);
}

#[test]
fn modify_merges_only_present_fields() {
    let mut h = named("alpha", HolydayClass::Festival, 3, 1);
    let m = HolydayMod {
        title: Some("NEW TITLE".to_string()),
        class: Some(HolydayClass::Principal),
        tag: "alpha".to_string(),
        ..HolydayMod::default()
    };
    h.modify(&m);
    assert_eq!("NEW TITLE", h.title);
    assert_eq!(HolydayClass::Principal, h.class);
    // untouched fields stay
    assert_eq!(DateCal::Fixed { month: 3, day: 1 }, h.date_cal);
    assert_eq!("the holy day tagged alpha", h.description);
    // a present description replaces the old one
    let m2 = HolydayMod {
        description: Some("told anew".to_string()),
        tag: "alpha".to_string(),
        ..HolydayMod::default()
    };
    h.modify(&m2);
    assert_eq!("told anew", h.description);
    assert_eq!("NEW TITLE", h.title);
}

#[test]
fn to_holyday_reports_first_missing_field() {
    let m = HolydayMod {
        tag: "incomplete".to_string(),
        ..HolydayMod::default()
    };
    assert_eq!(
        Err(CalendarError::MissingField(HolydayField::Title)),
        m.to_holyday()
    );
    let m2 = HolydayMod {
        title: Some("named".to_string()),
        tag: "incomplete".to_string(),
        ..HolydayMod::default()
    };
    assert_eq!(
        Err(CalendarError::MissingField(HolydayField::Main)),
        m2.to_holyday()
    );
}

#[test]
fn to_holyday_fills_defaults() {
    let m = HolydayMod {
        title: Some("named".to_string()),
        main: Some(vec![]),
        other: Some(vec![]),
        refs: Some(vec![]),
        class: Some(HolydayClass::Festival),
        has_eve: Some(false),
        date_cal: Some(DateCal::Easter),
        transfer: Some(TransferType::DoNotTransfer),
        tag: "named".to_string(),
        ..HolydayMod::default()
    };
    let h = m.to_holyday().unwrap();
    assert_eq!("named", h.title);
    // the description defaults to the title, the death date to blank
    assert_eq!("named", h.description);
    assert_eq!("", h.death);
    assert_eq!(TransferType::DoNotTransfer, h.transfer);
}

#[test]
fn apply_edits_deletes_merges_and_creates() {
    let mut cal = Calendar::new();
    cal.add(named("alpha", HolydayClass::Festival, 3, 1));
    cal.add(named("beta", HolydayClass::Commemoration, 5, 9));
    let edits = EdMods {
        holydays: vec![
            // delete alpha
            HolydayMod {
                tag: "alpha".to_string(),
                delete: true,
                ..HolydayMod::default()
            },
            // retitle and redescribe beta
            HolydayMod {
                tag: "beta".to_string(),
                title: Some("BETA RENAMED".to_string()),
                description: Some("beta, renamed".to_string()),
                ..HolydayMod::default()
            },
            // create gamma from whole cloth
            HolydayMod {
                title: Some("GAMMA".to_string()),
                main: Some(vec![]),
                other: Some(vec![]),
                refs: Some(vec![]),
                class: Some(HolydayClass::Commemoration),
                has_eve: Some(false),
                date_cal: Some(DateCal::Fixed { month: 9, day: 1 }),
                transfer: Some(TransferType::Normal),
                tag: "gamma".to_string(),
                ..HolydayMod::default()
            },
        ],
    };
    assert_eq!(Ok(()), cal.apply(&edits));
    assert!(cal.get_by_tag("alpha").is_err());
    assert_eq!("BETA RENAMED", cal.get_by_tag("beta").unwrap().title);
    assert_eq!("beta, renamed", cal.get_by_tag("beta").unwrap().description);
    assert_eq!("GAMMA", cal.get_by_tag("gamma").unwrap().title);
}

#[test]
fn apply_stops_at_first_incomplete_creation() {
    let mut cal = Calendar::new();
    let edits = EdMods {
        holydays: vec![HolydayMod {
            tag: "ghost".to_string(),
            title: Some("GHOST".to_string()),
            ..HolydayMod::default()
        }],
    };
    assert_eq!(
        Err(CalendarError::MissingField(HolydayField::Main)),
        cal.apply(&edits)
    );
    assert_eq!(0, cal.holydays.len());
}

#[test]
fn edmods_roundtrip_from_calendar() {
    let mut cal = Calendar::new();
    cal.add(named("alpha", HolydayClass::Festival, 3, 1));
    let mods = EdMods::from_calendar(&cal);
    assert_eq!(1, mods.holydays.len());
    let m = &mods.holydays[0];
    assert_eq!("alpha", m.tag);
    assert_eq!(Some("ALPHA".to_string()), m.title);
    assert_eq!(Some(HolydayClass::Festival), m.class);
    assert!(!m.delete);
    // a blank death date is carried as absent
    assert_eq!(None, m.death);
}

#[test]
fn reference_url_concatenates() {
    let r = Reference {
        website: WebSite::Wikipedia,
        article: "List_of_Anglican_Church_calendars".to_string(),
        description: "list of calendars".to_string(),
    };
    assert_eq!(
        "en.wikipedia.org/wiki/List_of_Anglican_Church_calendars",
        r.url()
    );
    let r2 = Reference::new(WebSite::Wikipedia, "Easter".to_string());
    assert_eq!("Easter", r2.description);
    assert_eq!("en.wikipedia.org/wiki/Easter", r2.url());
}

#[test]
fn province_list_is_complete() {
    let prov_list = ProvinceList::make();
    assert_eq!(8, prov_list.all().len());
    for prov_data in prov_list.all() {
        assert_eq!(
            prov_data.province,
            prov_list.get(prov_data.province).province
        );
    }
    assert_eq!("cofe", prov_list.get(Province::ChurchOfEngland).abbrev);
    assert_eq!("hkskh", prov_list.get(Province::HongKong).abbrev);
    assert_eq!("all", prov_list.get(Province::All).abbrev);
}

#[test]
fn tag_fixes_holds_known_remappings() {
    let tf = tag_fixes();
    assert_eq!(77, tf.len());
    assert!(tf
        .iter()
        .any(|(a, b)| a == "christmas" && b == "christmas day"));
    assert!(tf
        .iter()
        .any(|(a, b)| a == "óscar romero" && b == "oscar romero"));
    assert!(tf
        .iter()
        .any(|(a, b)| a == "mark" && b == "mark the evangelist"));
}

#[test]
fn group_by_date_cal() {
    let mut cal = Calendar::new();
    cal.province = Province::HongKong;
    cal.add(named("alpha", HolydayClass::Festival, 3, 1));
    cal.add(named("beta", HolydayClass::Commemoration, 3, 1));
    cal.add(named("gamma", HolydayClass::Commemoration, 5, 9));
    let mut groups = ProvHolydaysByDate::default();
    groups.load_calendar(&cal);
    assert_eq!(2, groups.dates().len());
    let march = groups
        .by_date(&DateCal::Fixed { month: 3, day: 1 })
        .unwrap();
    assert_eq!(2, march.len());
    assert_eq!("alpha", march[0].holyday.tag);
    assert_eq!("beta", march[1].holyday.tag);
    assert_eq!(Province::HongKong, march[0].province);
    let may = groups
        .by_date(&DateCal::Fixed { month: 5, day: 9 })
        .unwrap();
    assert_eq!(1, may.len());
    assert!(groups
        .by_date(&DateCal::Fixed { month: 1, day: 1 })
        .is_none());
}

#[test]
fn group_by_tag() {
    let mut cal = Calendar::new();
    cal.add(named("alpha", HolydayClass::Festival, 3, 1));
    cal.add(named("beta", HolydayClass::Commemoration, 5, 9));
    let mut groups = ProvHolydaysByTag::default();
    groups.load_calendar(&cal);
    assert_eq!(2, groups.tags().len());
    let alpha = groups.by_tag("alpha").unwrap();
    assert_eq!(1, alpha.len());
    assert_eq!("ALPHA", alpha[0].holyday.title);
    assert!(groups.by_tag("gamma").is_none());
}

#[test]
fn province_abbreviations_round_trip() {
    let prov_list = ProvinceList::make();
    for prov_data in prov_list.all() {
        assert_eq!(
            Some(prov_data.province),
            Province::from_abbrev(&prov_data.abbrev)
        );
    }
    // the short country forms parse too
    assert_eq!(
        Some(Province::ChurchOfEngland),
        Province::from_abbrev("en")
    );
    assert_eq!(Some(Province::ECUSA), Province::from_abbrev("tec"));
    assert_eq!(Some(Province::Canada), Province::from_abbrev("ca"));
    assert_eq!(None, Province::from_abbrev("nowhere"));
    assert_eq!(None, Province::from_abbrev(""));
}
