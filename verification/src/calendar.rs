//! The year-independent data for a calendar: holyday records with
//! their classes, date expressions and transfer rules, and the
//! tag-indexed store that owns them.

use crate::date::Weekday;
use crate::order::{
    lemma_seq_ins_at, lemma_seq_sort_by_map, lemma_str_cmp_eq, seq_ins, seq_sort_by, str_cmp,
    str_cmp_exec,
};
use vstd::prelude::*;

verus! {

/// The level of a holy day, in ascending order of precedence. The
/// order is load-bearing: it decides precedence in clashes and is the
/// primary sort key of a calendar (descending, so `Principal` first).
#[derive(Debug, PartialEq, Eq, Structural, Clone, Copy)]
pub enum HolydayClass {
    NotAFestival,
    Unclassified,
    Commemoration,
    LesserFestival,
    Festival,
    Sunday,
    CorpusChristi,
    Principal,
}

impl HolydayClass {
    /// Rank of the class in the ascending precedence order.
    pub open spec fn rank(self) -> int {
        match self {
            HolydayClass::NotAFestival => 0,
            HolydayClass::Unclassified => 1,
            HolydayClass::Commemoration => 2,
            HolydayClass::LesserFestival => 3,
            HolydayClass::Festival => 4,
            HolydayClass::Sunday => 5,
            HolydayClass::CorpusChristi => 6,
            HolydayClass::Principal => 7,
        }
    }

    /// Rank of the class as an executable value.
    pub fn rank_exec(self) -> (r: u8)
        ensures
            r as int == self.rank(),
    {
        match self {
            HolydayClass::NotAFestival => 0,
            HolydayClass::Unclassified => 1,
            HolydayClass::Commemoration => 2,
            HolydayClass::LesserFestival => 3,
            HolydayClass::Festival => 4,
            HolydayClass::Sunday => 5,
            HolydayClass::CorpusChristi => 6,
            HolydayClass::Principal => 7,
        }
    }
}

/// A day of the week wrapped so that it carries an order (by days from
/// Sunday) and can be part of a sortable date expression.
#[derive(Debug, PartialEq, Eq, Structural, Clone, Copy)]
pub struct OrderableDayOfWeek {
    /// the underlying day of the week
    pub wd: Weekday,
}

/// An instruction to calculate a date, independent of any year:
/// for example 25 December, or two days before Easter Sunday.
#[derive(Debug, PartialEq, Eq)]
pub enum DateCal {
    /// Easter Sunday
    Easter,
    /// Advent at the start of this Church year, so in the previous
    /// calendar year
    Advent,
    /// Advent at the start of the next Church year, so in this
    /// calendar year
    AdventNext,
    /// relative to another date; for dates before the base date `rel`
    /// is negative
    After { date: Box<DateCal>, rel: i16 },
    /// the first given day of the week on or after the base date
    Next { date: Box<DateCal>, day_of_week: OrderableDayOfWeek },
    /// a date given by month and day of this calendar year
    Fixed { month: u8, day: u8 },
}

impl Clone for DateCal {
    fn clone(&self) -> (r: Self)
        ensures
            r == self,
        decreases self,
    {
        match self {
            DateCal::Easter => DateCal::Easter,
            DateCal::Advent => DateCal::Advent,
            DateCal::AdventNext => DateCal::AdventNext,
            DateCal::After { date, rel } => DateCal::After {
                date: Box::new((**date).clone()),
                rel: *rel,
            },
            DateCal::Next { date, day_of_week } => DateCal::Next {
                date: Box::new((**date).clone()),
                day_of_week: *day_of_week,
            },
            DateCal::Fixed { month, day } => DateCal::Fixed { month: *month, day: *day },
        }
    }
}

/// Whether and how a holy day moves to another date, or is dropped,
/// when it falls on a restricted day.
#[derive(Debug, PartialEq, Eq)]
pub enum TransferType {
    /// follow the usual rules for the holy day's class
    Normal,
    /// special rule for the Annunciation
    Annunciation,
    /// special rule for Joseph
    Joseph,
    /// special rule for George
    George,
    /// special rule for Mark
    Mark,
    /// must fall strictly before the given date, otherwise dropped
    Before(DateCal),
    /// never transferred
    DoNotTransfer,
}

impl Clone for TransferType {
    fn clone(&self) -> (r: Self)
        ensures
            r == self,
    {
        match self {
            TransferType::Normal => TransferType::Normal,
            TransferType::Annunciation => TransferType::Annunciation,
            TransferType::Joseph => TransferType::Joseph,
            TransferType::George => TransferType::George,
            TransferType::Mark => TransferType::Mark,
            TransferType::Before(dc) => TransferType::Before(dc.clone()),
            TransferType::DoNotTransfer => TransferType::DoNotTransfer,
        }
    }
}

/// A principal attribute of a holy day.
#[derive(Debug, PartialEq, Eq, Structural, Copy)]
pub enum MainAttribute {
    Martyr,
}

impl Clone for MainAttribute {
    fn clone(&self) -> (r: Self)
        ensures
            r == self,
    {
        MainAttribute::Martyr
    }
}

/// A web site holding reference pages for holy days.
#[derive(Debug, PartialEq, Eq, Structural, Copy)]
pub enum WebSite {
    Wikipedia,
}

impl Clone for WebSite {
    fn clone(&self) -> (r: Self)
        ensures
            r == self,
    {
        WebSite::Wikipedia
    }
}

impl WebSite {
    /// View of the URL prefix of this web site.
    pub open spec fn prefix_spec(self) -> Seq<char> {
        match self {
            WebSite::Wikipedia => "en.wikipedia.org/wiki/"@,
        }
    }

    /// The prefix of a URL on this web site.
    pub fn prefix(self) -> (r: String)
        ensures
            r@ == self.prefix_spec(),
    {
        match self {
            WebSite::Wikipedia => "en.wikipedia.org/wiki/".to_owned(),
        }
    }
}

/// A web page relevant to a holy day.
#[derive(Debug, PartialEq, Eq)]
pub struct Reference {
    /// the web site
    pub website: WebSite,
    /// the article within the web site
    pub article: String,
    /// additional description text
    pub description: String,
}

impl Clone for Reference {
    fn clone(&self) -> (r: Self)
        ensures
            r == self,
    {
        Reference {
            website: self.website,
            article: self.article.clone(),
            description: self.description.clone(),
        }
    }
}

impl Reference {
    /// A reference whose description is the article name itself.
    pub fn new(website: WebSite, article: String) -> (r: Reference)
        ensures
            r.website == website,
            r.article == article,
            r.description == article,
    {
        Reference { website, article: article.clone(), description: article }
    }

    /// The URL of the reference: the site prefix followed by the
    /// article name.
    pub fn url(&self) -> (r: String)
        ensures
            r@ == self.website.prefix_spec() + self.article@,
    {
        self.website.prefix().concat(self.article.as_str())
    }
}

/// Season of the Church year.
#[derive(Debug, PartialEq, Eq, Structural, Clone, Copy)]
pub enum Season {
    Advent,
    Christmas,
    Epiphany,
    Lent,
    Easter,
    Ordinary,
}

/// The display colour for a day or a holy day.
#[derive(Debug, PartialEq, Eq, Structural, Clone, Copy)]
pub enum SeasonColour {
    White,
    Red,
    Purple,
    Green,
}

impl SeasonColour {
    /// View of the foreground colour name used for reports.
    pub open spec fn colour_a_spec(self) -> Seq<char> {
        match self {
            SeasonColour::White => "white"@,
            SeasonColour::Red => "red"@,
            SeasonColour::Purple => "purple"@,
            SeasonColour::Green => "green"@,
        }
    }

    /// Colour name of the season, as used in HTML.
    pub fn colour_a(&self) -> (r: String)
        ensures
            r@ == self.colour_a_spec(),
    {
        match self {
            SeasonColour::White => "white".to_owned(),
            SeasonColour::Red => "red".to_owned(),
            SeasonColour::Purple => "purple".to_owned(),
            SeasonColour::Green => "green".to_owned(),
        }
    }

    /// View of the contrasting colour used for text on `colour_a`.
    pub open spec fn colour_b_spec(self) -> Seq<char> {
        match self {
            SeasonColour::White => "black"@,
            _ => "white"@,
        }
    }

    /// Contrasting colour for text shown over `colour_a`, as used in
    /// HTML.
    pub fn colour_b(&self) -> (r: String)
        ensures
            r@ == self.colour_b_spec(),
    {
        match self {
            SeasonColour::White => "black".to_owned(),
            _ => "white".to_owned(),
        }
    }
}

/// A field of a holy day record that an edit must supply when it
/// creates a new record.
#[derive(Debug, PartialEq, Eq, Structural, Clone, Copy)]
pub enum HolydayField {
    Title,
    Main,
    Other,
    Refs,
    Class,
    HasEve,
    DateCal,
    Transfer,
}

/// An error of the calendar core. Each variant names the condition it
/// reports.
#[derive(Debug, PartialEq, Eq, Structural, Clone, Copy)]
pub enum CalendarError {
    /// a tag lookup missed
    NotFound,
    /// an edit tried to create a new holy day without the named field
    MissingField(HolydayField),
    /// a holy day that is not a festival reached the resolution engine
    InvalidClass,
    /// a date expression has no date in the supported range
    Unresolvable,
}

/// A holy day of a calendar, identified by its tag.
#[derive(Debug, PartialEq, Eq)]
pub struct Holyday {
    /// the name of the holy day
    pub title: String,
    /// description of the holy day
    pub description: String,
    /// main attributes of the commemorated, currently only martyrdom
    pub main: Vec<MainAttribute>,
    /// other free-text attributes of the commemorated
    pub other: Vec<String>,
    /// death date of the commemorated, as free text
    pub death: String,
    /// references on the internet to the holy day
    pub refs: Vec<Reference>,
    /// the level of the holy day
    pub class: HolydayClass,
    /// a short stable tag identifying the holy day across edits
    pub tag: String,
    /// the holy day has an eve that is not a holy day of its own
    pub has_eve: bool,
    /// how the date is calculated
    pub date_cal: DateCal,
    /// whether and how the holy day may move
    pub transfer: TransferType,
}

/// Value equality of holy days up to container identity: every field
/// agrees, with the vector fields compared by their contents.
pub open spec fn holyday_eqv(a: Holyday, b: Holyday) -> bool {
    &&& a.title == b.title
    &&& a.description == b.description
    &&& a.main@ == b.main@
    &&& a.other@ == b.other@
    &&& a.death == b.death
    &&& a.refs@ == b.refs@
    &&& a.class == b.class
    &&& a.tag == b.tag
    &&& a.has_eve == b.has_eve
    &&& a.date_cal == b.date_cal
    &&& a.transfer == b.transfer
}

impl Clone for Holyday {
    fn clone(&self) -> (r: Self)
        ensures
            holyday_eqv(*self, r),
    {
        Holyday {
            title: self.title.clone(),
            description: self.description.clone(),
            main: copy_attrs(&self.main),
            other: clone_strings(&self.other),
            death: self.death.clone(),
            refs: clone_refs(&self.refs),
            class: self.class,
            tag: self.tag.clone(),
            has_eve: self.has_eve,
            date_cal: self.date_cal.clone(),
            transfer: self.transfer.clone(),
        }
    }
}

impl Default for Holyday {
    /// An empty commemoration on 1 January with the normal transfer
    /// rule.
    fn default() -> (r: Self)
        ensures
            r.title@ == Seq::<char>::empty(),
            r.description@ == Seq::<char>::empty(),
            r.main@ == Seq::<MainAttribute>::empty(),
            r.other@ == Seq::<String>::empty(),
            r.death@ == Seq::<char>::empty(),
            r.refs@ == Seq::<Reference>::empty(),
            r.class == HolydayClass::Commemoration,
            r.tag@ == Seq::<char>::empty(),
            r.has_eve == false,
            r.date_cal == (DateCal::Fixed { month: 1, day: 1 }),
            r.transfer == TransferType::Normal,
    {
        Holyday {
            title: String::new(),
            description: String::new(),
            main: Vec::new(),
            other: Vec::new(),
            death: String::new(),
            refs: Vec::new(),
            class: HolydayClass::Commemoration,
            tag: String::new(),
            has_eve: false,
            date_cal: DateCal::Fixed { month: 1, day: 1 },
            transfer: TransferType::Normal,
        }
    }
}

/// Copy a vector of plain attribute values.
fn copy_attrs(v: &Vec<MainAttribute>) -> (r: Vec<MainAttribute>)
    ensures
        r@ == v@,
{
    let mut r: Vec<MainAttribute> = Vec::new();
    let mut i: usize = 0;
    while i < v.len()
        invariant
            i <= v.len(),
            r@ =~= v@.subrange(0, i as int),
        decreases v.len() - i,
    {
        r.push(v[i]);
        i = i + 1;
    }
    proof {
        assert(r@ =~= v@);
    }
    r
}

/// Clone a vector of strings, keeping the contents.
fn clone_strings(v: &Vec<String>) -> (r: Vec<String>)
    ensures
        r@ == v@,
{
    let mut r: Vec<String> = Vec::new();
    let mut i: usize = 0;
    while i < v.len()
        invariant
            i <= v.len(),
            r@ =~= v@.subrange(0, i as int),
        decreases v.len() - i,
    {
        r.push(v[i].clone());
        i = i + 1;
    }
    proof {
        assert(r@ =~= v@);
    }
    r
}

/// A change to one holy day, or a whole new holy day, identified by
/// its tag. A field left at `None` leaves the existing value alone.
#[derive(Debug, PartialEq, Eq)]
pub struct HolydayMod {
    /// the name of the holy day
    pub title: Option<String>,
    /// description of the holy day
    pub description: Option<String>,
    /// main attributes of the commemorated
    pub main: Option<Vec<MainAttribute>>,
    /// other free-text attributes of the commemorated
    pub other: Option<Vec<String>>,
    /// death date of the commemorated
    pub death: Option<String>,
    /// references on the internet to the holy day
    pub refs: Option<Vec<Reference>>,
    /// the level of the holy day
    pub class: Option<HolydayClass>,
    /// the tag of the holy day the change applies to
    pub tag: String,
    /// the holy day has an eve
    pub has_eve: Option<bool>,
    /// how the date is calculated
    pub date_cal: Option<DateCal>,
    /// whether and how the holy day may move
    pub transfer: Option<TransferType>,
    /// whether to delete the holy day
    pub delete: bool,
}

impl Default for HolydayMod {
    /// A change that changes nothing: every field absent.
    fn default() -> (r: Self)
        ensures
            r.title is None,
            r.description is None,
            r.main is None,
            r.other is None,
            r.death is None,
            r.refs is None,
            r.class is None,
            r.tag@ == Seq::<char>::empty(),
            r.has_eve is None,
            r.date_cal is None,
            r.transfer is None,
            r.delete == false,
    {
        HolydayMod {
            title: None,
            description: None,
            main: None,
            other: None,
            death: None,
            refs: None,
            class: None,
            tag: String::new(),
            has_eve: None,
            date_cal: None,
            transfer: None,
            delete: false,
        }
    }
}

/// The first field that an edit creating a new holy day fails to
/// supply, if any. `description` and `death` have defaults and are
/// never required.
pub open spec fn first_missing_field(m: HolydayMod) -> Option<HolydayField> {
    if m.title is None {
        Some(HolydayField::Title)
    } else if m.main is None {
        Some(HolydayField::Main)
    } else if m.other is None {
        Some(HolydayField::Other)
    } else if m.refs is None {
        Some(HolydayField::Refs)
    } else if m.class is None {
        Some(HolydayField::Class)
    } else if m.has_eve is None {
        Some(HolydayField::HasEve)
    } else if m.date_cal is None {
        Some(HolydayField::DateCal)
    } else if m.transfer is None {
        Some(HolydayField::Transfer)
    } else {
        None
    }
}

/// The holy day that an edit with every required field builds: each
/// field is taken from the edit, the description defaulting to the
/// title and the death date to the empty string.
pub open spec fn made_holyday(m: HolydayMod, h: Holyday) -> bool {
    &&& h.title == m.title->0
    &&& h.description == if m.description is Some {
        m.description->0
    } else {
        m.title->0
    }
    &&& h.main@ == m.main->0@
    &&& h.other@ == m.other->0@
    &&& if m.death is Some {
        h.death == m.death->0
    } else {
        h.death@ == Seq::<char>::empty()
    }
    &&& h.refs@ == m.refs->0@
    &&& h.class == m.class->0
    &&& h.tag == m.tag
    &&& h.has_eve == m.has_eve->0
    &&& h.date_cal == m.date_cal->0
    &&& h.transfer == m.transfer->0
}

/// The merge of an edit into an existing holy day: each present field
/// replaces the old value, each absent field leaves it alone. The tag
/// is never changed.
pub open spec fn merged_holyday(old_h: Holyday, m: HolydayMod, h: Holyday) -> bool {
    &&& h.title == if m.title is Some {
        m.title->0
    } else {
        old_h.title
    }
    &&& h.description == if m.description is Some {
        m.description->0
    } else {
        old_h.description
    }
    &&& h.main@ == if m.main is Some {
        m.main->0@
    } else {
        old_h.main@
    }
    &&& h.other@ == if m.other is Some {
        m.other->0@
    } else {
        old_h.other@
    }
    &&& h.death == if m.death is Some {
        m.death->0
    } else {
        old_h.death
    }
    &&& h.refs@ == if m.refs is Some {
        m.refs->0@
    } else {
        old_h.refs@
    }
    &&& h.class == if m.class is Some {
        m.class->0
    } else {
        old_h.class
    }
    &&& h.tag == old_h.tag
    &&& h.has_eve == if m.has_eve is Some {
        m.has_eve->0
    } else {
        old_h.has_eve
    }
    &&& h.date_cal == if m.date_cal is Some {
        m.date_cal->0
    } else {
        old_h.date_cal
    }
    &&& h.transfer == if m.transfer is Some {
        m.transfer->0
    } else {
        old_h.transfer
    }
}

/// The edit that rebuilds a holy day record for record: every field
/// present, except that a blank title, description or death date is
/// left absent.
pub open spec fn mod_of_holyday(e: Holyday, r: HolydayMod) -> bool {
    &&& e.title@.len() == 0 ==> r.title is None
    &&& e.title@.len() > 0 ==> (r.title matches Some(t) && t@ == e.title@)
    &&& e.description@.len() == 0 ==> r.description is None
    &&& e.description@.len() > 0 ==> (r.description matches Some(t) && t@ == e.description@)
    &&& r.main matches Some(v) && v@ == e.main@
    &&& r.other matches Some(v) && v@ == e.other@
    &&& e.death@.len() == 0 ==> r.death is None
    &&& e.death@.len() > 0 ==> (r.death matches Some(t) && t@ == e.death@)
    &&& r.refs matches Some(v) && v@ == e.refs@
    &&& r.class == Some(e.class)
    &&& r.tag == e.tag
    &&& r.has_eve == Some(e.has_eve)
    &&& r.date_cal matches Some(d) && d == e.date_cal
    &&& r.transfer matches Some(t) && t == e.transfer
    &&& r.delete == false
}

impl HolydayMod {
    /// Build a whole holy day from this edit. Every field without a
    /// default must be present; the first absent one is reported.
    pub fn to_holyday(&self) -> (r: Result<Holyday, CalendarError>)
        ensures
            match first_missing_field(*self) {
                Some(f) => r == Result::<Holyday, CalendarError>::Err(
                    CalendarError::MissingField(f),
                ),
                None => r matches Ok(h) && made_holyday(*self, h),
            },
    {
        let title = match &self.title {
            Some(t) => t.clone(),
            None => {
                return Err(CalendarError::MissingField(HolydayField::Title));
            },
        };
        let main = match &self.main {
            Some(m) => copy_attrs(m),
            None => {
                return Err(CalendarError::MissingField(HolydayField::Main));
            },
        };
        let other = match &self.other {
            Some(o) => clone_strings(o),
            None => {
                return Err(CalendarError::MissingField(HolydayField::Other));
            },
        };
        let refs = match &self.refs {
            Some(rr) => clone_refs(rr),
            None => {
                return Err(CalendarError::MissingField(HolydayField::Refs));
            },
        };
        let class = match &self.class {
            Some(c) => *c,
            None => {
                return Err(CalendarError::MissingField(HolydayField::Class));
            },
        };
        let has_eve = match &self.has_eve {
            Some(e) => *e,
            None => {
                return Err(CalendarError::MissingField(HolydayField::HasEve));
            },
        };
        let date_cal = match &self.date_cal {
            Some(c) => c.clone(),
            None => {
                return Err(CalendarError::MissingField(HolydayField::DateCal));
            },
        };
        let transfer = match &self.transfer {
            Some(t) => t.clone(),
            None => {
                return Err(CalendarError::MissingField(HolydayField::Transfer));
            },
        };
        let description = match &self.description {
            Some(d) => d.clone(),
            None => title.clone(),
        };
        let death = match &self.death {
            Some(d) => d.clone(),
            None => String::new(),
        };
        Ok(
            Holyday {
                title,
                description,
                main,
                other,
                death,
                refs,
                class,
                tag: self.tag.clone(),
                has_eve,
                date_cal,
                transfer,
            },
        )
    }

    /// An edit that rebuilds the given holy day: every field present,
    /// except that a blank title, description or death date is left
    /// absent.
    pub fn from_holyday(e: &Holyday) -> (r: HolydayMod)
        ensures
            mod_of_holyday(*e, r),
    {
        HolydayMod {
            title: some_unless_blank(e.title.as_str()),
            description: some_unless_blank(e.description.as_str()),
            main: Some(copy_attrs(&e.main)),
            other: Some(clone_strings(&e.other)),
            death: some_unless_blank(e.death.as_str()),
            refs: Some(clone_refs(&e.refs)),
            class: Some(e.class),
            tag: e.tag.clone(),
            has_eve: Some(e.has_eve),
            date_cal: Some(e.date_cal.clone()),
            transfer: Some(e.transfer.clone()),
            delete: false,
        }
    }
}

impl Holyday {
    /// Merge an edit into this holy day: each present field replaces
    /// the old value.
    pub fn modify(&mut self, m: &HolydayMod)
        ensures
            merged_holyday(*old(self), *m, *final(self)),
    {
        if let Some(t) = &m.title {
            self.title = t.clone();
        }
        if let Some(d) = &m.description {
            self.description = d.clone();
        }
        if let Some(mn) = &m.main {
            self.main = copy_attrs(mn);
        }
        if let Some(o) = &m.other {
            self.other = clone_strings(o);
        }
        if let Some(d) = &m.death {
            self.death = d.clone();
        }
        if let Some(rr) = &m.refs {
            self.refs = clone_refs(rr);
        }
        if let Some(c) = &m.class {
            self.class = *c;
        }
        if let Some(e) = &m.has_eve {
            self.has_eve = *e;
        }
        if let Some(c) = &m.date_cal {
            self.date_cal = c.clone();
        }
        if let Some(t) = &m.transfer {
            self.transfer = t.clone();
        }
    }
}

/// The given text as an owned string, unless it is blank.
fn some_unless_blank(s: &str) -> (r: Option<String>)
    ensures
        s@.len() == 0 ==> r is None,
        s@.len() > 0 ==> (r matches Some(o) && o@ == s@),
{
    if s.is_empty() {
        None
    } else {
        Some(s.to_owned())
    }
}

/// Clone a vector of references, keeping the contents.
fn clone_refs(v: &Vec<Reference>) -> (r: Vec<Reference>)
    ensures
        r@ == v@,
{
    let mut r: Vec<Reference> = Vec::new();
    let mut i: usize = 0;
    while i < v.len()
        invariant
            i <= v.len(),
            r@ =~= v@.subrange(0, i as int),
        decreases v.len() - i,
    {
        r.push(v[i].clone());
        i = i + 1;
    }
    proof {
        assert(r@ =~= v@);
    }
    r
}

/// Position of a date expression's variant in the structural order of
/// the type.
pub open spec fn date_cal_rank(d: DateCal) -> int {
    match d {
        DateCal::Easter => 0,
        DateCal::Advent => 1,
        DateCal::AdventNext => 2,
        DateCal::After { .. } => 3,
        DateCal::Next { .. } => 4,
        DateCal::Fixed { .. } => 5,
    }
}

/// Three-way structural comparison of date expressions: first by
/// variant, then by the variant's fields, base date first.
pub open spec fn date_cal_cmp(a: DateCal, b: DateCal) -> int
    decreases a,
{
    if date_cal_rank(a) != date_cal_rank(b) {
        if date_cal_rank(a) < date_cal_rank(b) {
            -1
        } else {
            1
        }
    } else {
        match (a, b) {
            (
                DateCal::After { date: d1, rel: r1 },
                DateCal::After { date: d2, rel: r2 },
            ) => {
                let c = date_cal_cmp(*d1, *d2);
                if c != 0 {
                    c
                } else if r1 < r2 {
                    -1
                } else if r1 == r2 {
                    0
                } else {
                    1
                }
            },
            (
                DateCal::Next { date: d1, day_of_week: w1 },
                DateCal::Next { date: d2, day_of_week: w2 },
            ) => {
                let c = date_cal_cmp(*d1, *d2);
                if c != 0 {
                    c
                } else if w1.wd.index() < w2.wd.index() {
                    -1
                } else if w1.wd.index() == w2.wd.index() {
                    0
                } else {
                    1
                }
            },
            (
                DateCal::Fixed { month: m1, day: d1 },
                DateCal::Fixed { month: m2, day: d2 },
            ) => {
                if m1 < m2 {
                    -1
                } else if m1 > m2 {
                    1
                } else if d1 < d2 {
                    -1
                } else if d1 > d2 {
                    1
                } else {
                    0
                }
            },
            _ => 0,
        }
    }
}

/// Variant position of a date expression as an executable value.
fn date_cal_rank_exec(d: &DateCal) -> (r: u8)
    ensures
        r as int == date_cal_rank(*d),
{
    match d {
        DateCal::Easter => 0,
        DateCal::Advent => 1,
        DateCal::AdventNext => 2,
        DateCal::After { .. } => 3,
        DateCal::Next { .. } => 4,
        DateCal::Fixed { .. } => 5,
    }
}

/// Compare two date expressions in their structural order.
pub fn date_cal_cmp_exec(a: &DateCal, b: &DateCal) -> (r: i8)
    ensures
        r as int == date_cal_cmp(*a, *b),
    decreases *a,
{
    let ra = date_cal_rank_exec(a);
    let rb = date_cal_rank_exec(b);
    if ra != rb {
        if ra < rb {
            -1
        } else {
            1
        }
    } else {
        match (a, b) {
            (
                DateCal::After { date: d1, rel: r1 },
                DateCal::After { date: d2, rel: r2 },
            ) => {
                let c = date_cal_cmp_exec(&**d1, &**d2);
                if c != 0 {
                    c
                } else if *r1 < *r2 {
                    -1
                } else if *r1 == *r2 {
                    0
                } else {
                    1
                }
            },
            (
                DateCal::Next { date: d1, day_of_week: w1 },
                DateCal::Next { date: d2, day_of_week: w2 },
            ) => {
                let c = date_cal_cmp_exec(&**d1, &**d2);
                let i1 = w1.wd.num_days_from_sunday();
                let i2 = w2.wd.num_days_from_sunday();
                if c != 0 {
                    c
                } else if i1 < i2 {
                    -1
                } else if i1 == i2 {
                    0
                } else {
                    1
                }
            },
            (
                DateCal::Fixed { month: m1, day: d1 },
                DateCal::Fixed { month: m2, day: d2 },
            ) => {
                if *m1 < *m2 {
                    -1
                } else if *m1 > *m2 {
                    1
                } else if *d1 < *d2 {
                    -1
                } else if *d1 > *d2 {
                    1
                } else {
                    0
                }
            },
            _ => 0,
        }
    }
}

/// An ordering of holy days within a calendar file. None of these
/// orders is chronological, because moveable dates are not resolved
/// before sorting.
#[derive(Debug, PartialEq, Eq, Structural, Clone, Copy)]
pub enum HolydaySort {
    /// do not sort
    NoSort,
    /// order by class, highest first, then by date expression
    Normal,
    /// order by date expression
    DateCal,
    /// order by tag
    Tag,
}

impl Default for HolydaySort {
    fn default() -> (r: Self)
        ensures
            r == HolydaySort::NoSort,
    {
        HolydaySort::NoSort
    }
}

/// The "at or before" relation of each calendar order. Under
/// `NoSort` every pair is in order, so a stable sort changes nothing.
pub open spec fn holyday_le(order: HolydaySort, a: Holyday, b: Holyday) -> bool {
    match order {
        HolydaySort::NoSort => true,
        HolydaySort::Normal => if a.class == b.class {
            date_cal_cmp(a.date_cal, b.date_cal) <= 0
        } else {
            a.class.rank() > b.class.rank()
        },
        HolydaySort::DateCal => date_cal_cmp(a.date_cal, b.date_cal) <= 0,
        HolydaySort::Tag => str_cmp(a.tag@, b.tag@) <= 0,
    }
}

/// The order `holyday_le` as a function value, for use with the
/// sequence sorting functions.
pub open spec fn holyday_le_fn(order: HolydaySort) -> spec_fn(Holyday, Holyday) -> bool {
    |a: Holyday, b: Holyday| holyday_le(order, a, b)
}

/// The order `holyday_le` on borrowed holy days, for sorting
/// sequences of references.
pub open spec fn holyday_ref_le_fn<'a>(order: HolydaySort) -> spec_fn(
    &'a Holyday,
    &'a Holyday,
) -> bool {
    |a: &'a Holyday, b: &'a Holyday| holyday_le(order, *a, *b)
}

/// Decide whether `a` sorts at or before `b` under the given order.
pub fn holyday_le_exec(order: HolydaySort, a: &Holyday, b: &Holyday) -> (r: bool)
    ensures
        r == holyday_le(order, *a, *b),
{
    match order {
        HolydaySort::NoSort => true,
        HolydaySort::Normal => {
            if a.class == b.class {
                date_cal_cmp_exec(&a.date_cal, &b.date_cal) <= 0
            } else {
                a.class.rank_exec() > b.class.rank_exec()
            }
        },
        HolydaySort::DateCal => date_cal_cmp_exec(&a.date_cal, &b.date_cal) <= 0,
        HolydaySort::Tag => str_cmp_exec(a.tag.as_str(), b.tag.as_str()) <= 0,
    }
}

/// Sort a vector of holy days in place, stably, under the given
/// order.
fn sort_holydays(v: &mut Vec<Holyday>, order: HolydaySort)
    ensures
        final(v)@ == seq_sort_by(old(v)@, holyday_le_fn(order)),
{
    let ghost le = holyday_le_fn(order);
    let ghost orig = old(v)@;
    if v.len() <= 1 {
        proof {
            crate::order::lemma_seq_sort_by_short(orig, le);
        }
        return ;
    }
    let mut i: usize = 1;
    proof {
        crate::order::lemma_seq_sort_by_short(orig.subrange(0, 1), le);
        assert(v@.subrange(0, 1) =~= orig.subrange(0, 1));
        assert(v@.subrange(1, orig.len() as int) =~= orig.subrange(1, orig.len() as int));
    }
    while i < v.len()
        invariant
            1 <= i <= orig.len(),
            v@.len() == orig.len(),
            le == holyday_le_fn(order),
            v@.subrange(0, i as int) == seq_sort_by(orig.subrange(0, i as int), le),
            v@.subrange(i as int, orig.len() as int) == orig.subrange(
                i as int,
                orig.len() as int,
            ),
        decreases orig.len() - i,
    {
        let ghost pre = v@;
        proof {
            assert(pre[i as int] == pre.subrange(i as int, orig.len() as int)[0]);
            assert(pre[i as int] == orig[i as int]);
        }
        let x = v.remove(i);
        proof {
            assert(v@.subrange(0, i as int) =~= pre.subrange(0, i as int));
            assert(v@.subrange(i as int, v@.len() as int) =~= pre.subrange(
                i + 1,
                pre.len() as int,
            ));
        }
        let mut pos: usize = i;
        while pos > 0 && !holyday_le_exec(order, &v[pos - 1], &x)
            invariant
                pos <= i,
                i < orig.len(),
                v@.len() == orig.len() - 1,
                le == holyday_le_fn(order),
                forall|k: int| pos <= k < i ==> !le(#[trigger] v@[k], x),
            decreases pos,
    {
            pos = pos - 1;
        }
        proof {
            lemma_seq_ins_at(v@.subrange(0, i as int), x, pos as int, le);
        }
        v.insert(pos, x);
        proof {
            let sorted_prefix = pre.subrange(0, i as int);
            assert(v@.subrange(0, i + 1) =~= seq_ins(sorted_prefix, x, le));
            assert(orig.subrange(0, i + 1).drop_last() =~= orig.subrange(0, i as int));
            assert(orig.subrange(0, i + 1).last() == orig[i as int]);
            assert(v@.subrange(0, i + 1) == seq_sort_by(orig.subrange(0, i + 1), le));
            assert forall|k: int| i + 1 <= k < orig.len() implies v@[k] == orig[k] by {
                assert(v@[k] == pre.remove(i as int)[k - 1]);
                assert(pre.remove(i as int)[k - 1] == pre[k]);
                assert(pre[k] == pre.subrange(i as int, orig.len() as int)[k - i]);
                assert(orig[k] == orig.subrange(i as int, orig.len() as int)[k - i]);
            }
            assert(v@.subrange(i + 1, orig.len() as int) =~= orig.subrange(
                i + 1,
                orig.len() as int,
            ));
        }
        i = i + 1;
    }
    proof {
        assert(v@ =~= v@.subrange(0, orig.len() as int));
        assert(orig.subrange(0, orig.len() as int) =~= orig);
    }
}

/// Sort a vector of borrowed holy days in place, stably, under the
/// given order.
fn sort_holyday_refs<'a>(v: &mut Vec<&'a Holyday>, order: HolydaySort)
    ensures
        final(v)@ == seq_sort_by(old(v)@, holyday_ref_le_fn::<'a>(order)),
{
    let ghost le = holyday_ref_le_fn::<'a>(order);
    let ghost orig = old(v)@;
    if v.len() <= 1 {
        proof {
            crate::order::lemma_seq_sort_by_short(orig, le);
        }
        return ;
    }
    let mut i: usize = 1;
    proof {
        crate::order::lemma_seq_sort_by_short(orig.subrange(0, 1), le);
        assert(v@.subrange(0, 1) =~= orig.subrange(0, 1));
        assert(v@.subrange(1, orig.len() as int) =~= orig.subrange(1, orig.len() as int));
    }
    while i < v.len()
        invariant
            1 <= i <= orig.len(),
            v@.len() == orig.len(),
            le == holyday_ref_le_fn::<'a>(order),
            v@.subrange(0, i as int) == seq_sort_by(orig.subrange(0, i as int), le),
            v@.subrange(i as int, orig.len() as int) == orig.subrange(
                i as int,
                orig.len() as int,
            ),
        decreases orig.len() - i,
    {
        let ghost pre = v@;
        proof {
            assert(pre[i as int] == pre.subrange(i as int, orig.len() as int)[0]);
            assert(pre[i as int] == orig[i as int]);
        }
        let x = v.remove(i);
        proof {
            assert(v@.subrange(0, i as int) =~= pre.subrange(0, i as int));
            assert(v@.subrange(i as int, v@.len() as int) =~= pre.subrange(
                i + 1,
                pre.len() as int,
            ));
        }
        let mut pos: usize = i;
        while pos > 0 && !holyday_le_exec(order, v[pos - 1], x)
            invariant
                pos <= i,
                i < orig.len(),
                v@.len() == orig.len() - 1,
                le == holyday_ref_le_fn::<'a>(order),
                forall|k: int| pos <= k < i ==> !le(#[trigger] v@[k], x),
            decreases pos,
        {
            pos = pos - 1;
        }
        proof {
            lemma_seq_ins_at(v@.subrange(0, i as int), x, pos as int, le);
        }
        v.insert(pos, x);
        proof {
            let sorted_prefix = pre.subrange(0, i as int);
            assert(v@.subrange(0, i + 1) =~= seq_ins(sorted_prefix, x, le));
            assert(orig.subrange(0, i + 1).drop_last() =~= orig.subrange(0, i as int));
            assert(orig.subrange(0, i + 1).last() == orig[i as int]);
            assert(v@.subrange(0, i + 1) == seq_sort_by(orig.subrange(0, i + 1), le));
            assert forall|k: int| i + 1 <= k < orig.len() implies v@[k] == orig[k] by {
                assert(v@[k] == pre.remove(i as int)[k - 1]);
                assert(pre.remove(i as int)[k - 1] == pre[k]);
                assert(pre[k] == pre.subrange(i as int, orig.len() as int)[k - i]);
                assert(orig[k] == orig.subrange(i as int, orig.len() as int)[k - i]);
            }
            assert(v@.subrange(i + 1, orig.len() as int) =~= orig.subrange(
                i + 1,
                orig.len() as int,
            ));
        }
        i = i + 1;
    }
    proof {
        assert(v@ =~= v@.subrange(0, orig.len() as int));
        assert(orig.subrange(0, orig.len() as int) =~= orig);
    }
}

/// First index in a sequence of holy days bearing the given tag, or
/// -1 when the tag is absent.
pub open spec fn find_tag(s: Seq<Holyday>, tag: Seq<char>) -> int
    decreases s.len(),
{
    if s.len() == 0 {
        -1
    } else if s[0].tag@ == tag {
        0
    } else {
        let r = find_tag(s.drop_first(), tag);
        if r == -1 {
            -1
        } else {
            r + 1
        }
    }
}

/// `find_tag` names the first position bearing the tag, and -1 only
/// when no position bears it.
pub proof fn lemma_find_tag(s: Seq<Holyday>, tag: Seq<char>)
    ensures
        find_tag(s, tag) == -1 ==> forall|k: int|
            0 <= k < s.len() ==> (#[trigger] s[k]).tag@ != tag,
        find_tag(s, tag) != -1 ==> {
            &&& 0 <= find_tag(s, tag) < s.len()
            &&& s[find_tag(s, tag)].tag@ == tag
            &&& forall|k: int| 0 <= k < find_tag(s, tag) ==> (#[trigger] s[k]).tag@ != tag
        },
    decreases s.len(),
{
    if s.len() > 0 && s[0].tag@ != tag {
        lemma_find_tag(s.drop_first(), tag);
        assert(forall|k: int|
            1 <= k < s.len() ==> (#[trigger] s[k]) == s.drop_first()[k - 1]);
    }
}

/// No two holy days of the sequence share a tag.
pub open spec fn tags_unique(s: Seq<Holyday>) -> bool {
    forall|i: int, j: int|
        0 <= i < j < s.len() ==> (#[trigger] s[i]).tag@ != (#[trigger] s[j]).tag@
}

/// Some holy day of the sequence bears the given tag.
pub open spec fn tag_present(s: Seq<Holyday>, tag: Seq<char>) -> bool {
    exists|k: int| 0 <= k < s.len() && (#[trigger] s[k]).tag@ == tag
}

/// Stable insertion neither invents nor loses tags, and keeps them
/// unique when the inserted tag is new.
proof fn lemma_seq_ins_tags(s: Seq<Holyday>, x: Holyday, le: spec_fn(Holyday, Holyday) -> bool)
    ensures
        forall|t: Seq<char>|
            #[trigger] tag_present(seq_ins(s, x, le), t) <==> (tag_present(s, t) || t
                == x.tag@),
        tags_unique(s) && !tag_present(s, x.tag@) ==> tags_unique(seq_ins(s, x, le)),
    decreases s.len(),
{
    if s.len() == 0 {
        assert forall|t: Seq<char>|
            #[trigger] tag_present(seq_ins(s, x, le), t) <==> (tag_present(s, t) || t
                == x.tag@) by {
            assert(seq_ins(s, x, le)[0] == x);
            if tag_present(s, t) {
                let k = choose|k: int| 0 <= k < s.len() && (#[trigger] s[k]).tag@ == t;
            }
        }
    } else if le(s.last(), x) {
        assert forall|t: Seq<char>|
            #[trigger] tag_present(seq_ins(s, x, le), t) <==> (tag_present(s, t) || t
                == x.tag@) by {
            let p = s.push(x);
            if tag_present(p, t) {
                let k = choose|k: int| 0 <= k < p.len() && (#[trigger] p[k]).tag@ == t;
                if k < s.len() {
                    assert(s[k].tag@ == t);
                }
            }
            if tag_present(s, t) {
                let k = choose|k: int| 0 <= k < s.len() && (#[trigger] s[k]).tag@ == t;
                assert(p[k].tag@ == t);
            }
            if t == x.tag@ {
                assert(p[s.len() as int].tag@ == t);
            }
        }
        if tags_unique(s) && !tag_present(s, x.tag@) {
            let p = s.push(x);
            assert forall|i: int, j: int| 0 <= i < j < p.len() implies (#[trigger] p[i]).tag@
                != (#[trigger] p[j]).tag@ by {
                if j < s.len() {
                } else {
                    assert(p[j] == x);
                    assert(p[i] == s[i]);
                }
            }
        }
    } else {
        lemma_seq_ins_tags(s.drop_last(), x, le);
        let inner = seq_ins(s.drop_last(), x, le);
        let whole = inner.push(s.last());
        assert(seq_ins(s, x, le) == whole);
        assert forall|t: Seq<char>|
            #[trigger] tag_present(whole, t) <==> (tag_present(s, t) || t == x.tag@) by {
            if tag_present(whole, t) {
                let k = choose|k: int| 0 <= k < whole.len() && (#[trigger] whole[k]).tag@ == t;
                if k < inner.len() {
                    assert(tag_present(inner, t));
                    if tag_present(s.drop_last(), t) {
                        let m = choose|m: int|
                            0 <= m < s.drop_last().len() && (#[trigger] s.drop_last()[m]).tag@
                                == t;
                        assert(s[m].tag@ == t);
                    }
                } else {
                    assert(whole[k] == s.last());
                    assert(s[s.len() - 1].tag@ == t);
                }
            }
            if tag_present(s, t) {
                let k = choose|k: int| 0 <= k < s.len() && (#[trigger] s[k]).tag@ == t;
                if k < s.len() - 1 {
                    assert(s.drop_last()[k].tag@ == t);
                    assert(tag_present(s.drop_last(), t));
                    assert(tag_present(inner, t));
                    let m = choose|m: int|
                        0 <= m < inner.len() && (#[trigger] inner[m]).tag@ == t;
                    assert(whole[m].tag@ == t);
                } else {
                    assert(whole[whole.len() - 1].tag@ == t);
                }
            }
            if t == x.tag@ {
                assert(tag_present(inner, t));
                let m = choose|m: int| 0 <= m < inner.len() && (#[trigger] inner[m]).tag@ == t;
                assert(whole[m].tag@ == t);
            }
        }
        if tags_unique(s) && !tag_present(s, x.tag@) {
            assert forall|i: int, j: int| 0 <= i < j < s.drop_last().len() implies (
            #[trigger] s.drop_last()[i]).tag@ != (#[trigger] s.drop_last()[j]).tag@ by {
                assert(s.drop_last()[i] == s[i]);
                assert(s.drop_last()[j] == s[j]);
            }
            assert(!tag_present(s.drop_last(), x.tag@)) by {
                if tag_present(s.drop_last(), x.tag@) {
                    let m = choose|m: int|
                        0 <= m < s.drop_last().len() && (#[trigger] s.drop_last()[m]).tag@
                            == x.tag@;
                    assert(s[m].tag@ == x.tag@);
                }
            }
            assert(tags_unique(inner));
            assert forall|i: int, j: int| 0 <= i < j < whole.len() implies (
            #[trigger] whole[i]).tag@ != (#[trigger] whole[j]).tag@ by {
                if j == whole.len() - 1 {
                    assert(whole[j] == s.last());
                    assert(whole[i] == inner[i]);
                    assert(!tag_present(inner, s.last().tag@)) by {
                        if tag_present(s.drop_last(), s.last().tag@) {
                            let m = choose|m: int|
                                0 <= m < s.drop_last().len() && (#[trigger] s.drop_last()[
                                    m
                                ]).tag@ == s.last().tag@;
                            assert(s[m].tag@ == s[s.len() - 1].tag@);
                        }
                        if s.last().tag@ == x.tag@ {
                            assert(s[s.len() - 1].tag@ == x.tag@);
                        }
                    }
                }
            }
        }
    }
}

/// A stable sort keeps the tags of a calendar unique.
proof fn lemma_seq_sort_by_tags(s: Seq<Holyday>, le: spec_fn(Holyday, Holyday) -> bool)
    ensures
        forall|t: Seq<char>|
            #[trigger] tag_present(seq_sort_by(s, le), t) <==> tag_present(s, t),
        tags_unique(s) ==> tags_unique(seq_sort_by(s, le)),
    decreases s.len(),
{
    if s.len() > 0 {
        let dl = s.drop_last();
        lemma_seq_sort_by_tags(dl, le);
        lemma_seq_ins_tags(seq_sort_by(dl, le), s.last(), le);
        assert forall|t: Seq<char>|
            #[trigger] tag_present(seq_sort_by(s, le), t) <==> tag_present(s, t) by {
            if tag_present(dl, t) {
                let m = choose|m: int| 0 <= m < dl.len() && (#[trigger] dl[m]).tag@ == t;
                assert(s[m].tag@ == t);
            }
            if t == s.last().tag@ {
                assert(s[s.len() - 1].tag@ == t);
            }
            if tag_present(s, t) {
                let m = choose|m: int| 0 <= m < s.len() && (#[trigger] s[m]).tag@ == t;
                if m < s.len() - 1 {
                    assert(dl[m].tag@ == t);
                }
            }
        }
        if tags_unique(s) {
            assert forall|i: int, j: int| 0 <= i < j < dl.len() implies (#[trigger] dl[i]).tag@
                != (#[trigger] dl[j]).tag@ by {
                assert(dl[i] == s[i]);
                assert(dl[j] == s[j]);
            }
            assert(!tag_present(dl, s.last().tag@)) by {
                if tag_present(dl, s.last().tag@) {
                    let m = choose|m: int|
                        0 <= m < dl.len() && (#[trigger] dl[m]).tag@ == s.last().tag@;
                    assert(s[m].tag@ == s[s.len() - 1].tag@);
                }
            }
            assert(!tag_present(seq_sort_by(dl, le), s.last().tag@));
        }
    }
}

/// Whatever has a calendar of its own.
#[derive(Debug, PartialEq, Eq, Structural, Clone, Copy, Hash)]
pub enum Province {
    ChurchOfEngland,
    HongKong,
    ECUSA,
    Australia,
    SouthAfrica,
    Canada,
    BCP,
    Unknown,
    All,
}

/// A calendar holds the holy days of one province, independent of any
/// year. It owns its records; callers refer to them by tag.
#[derive(Debug, PartialEq, Eq)]
pub struct Calendar {
    /// the province owning this calendar
    pub province: Province,
    /// the holy days of the calendar, in storage order
    pub holydays: Vec<Holyday>,
}

impl View for Calendar {
    type V = Seq<Holyday>;

    open spec fn view(&self) -> Seq<Holyday> {
        self.holydays@
    }
}

impl Default for Calendar {
    /// An empty calendar of no particular province.
    fn default() -> (r: Self)
        ensures
            r.province == Province::Unknown,
            r@ == Seq::<Holyday>::empty(),
    {
        Calendar { province: Province::Unknown, holydays: Vec::new() }
    }
}

impl Calendar {
    /// Tags are unique within the calendar.
    pub open spec fn wf(self) -> bool {
        tags_unique(self@)
    }

    /// An empty calendar of no particular province.
    pub fn new() -> (r: Self)
        ensures
            r.province == Province::Unknown,
            r@ == Seq::<Holyday>::empty(),
            r.wf(),
    {
        Calendar { province: Province::Unknown, holydays: Vec::new() }
    }

    /// A calendar of the given province holding the given holy days.
    /// The records must not share tags.
    pub fn from_holydays(province: Province, holydays: Vec<Holyday>) -> (r: Self)
        requires
            tags_unique(holydays@),
        ensures
            r.province == province,
            r@ == holydays@,
            r.wf(),
    {
        Calendar { province, holydays }
    }

    /// Index of the holy day bearing the tag, if any.
    fn find_index(&self, tag: &str) -> (r: Option<usize>)
        ensures
            match r {
                Some(i) => find_tag(self@, tag@) == i as int && (i as int) < self@.len(),
                None => find_tag(self@, tag@) == -1,
            },
    {
        proof {
            lemma_find_tag(self@, tag@);
        }
        let n = self.holydays.len();
        let mut i: usize = 0;
        while i < n
            invariant
                i <= n,
                n == self@.len(),
                forall|k: int| 0 <= k < i ==> (#[trigger] self@[k]).tag@ != tag@,
            decreases n - i,
        {
            let c = str_cmp_exec(self.holydays[i].tag.as_str(), tag);
            proof {
                lemma_str_cmp_eq(self@[i as int].tag@, tag@);
            }
            if c == 0 {
                proof {
                    lemma_find_tag(self@, tag@);
                }
                return Some(i);
            }
            i = i + 1;
        }
        None
    }

    /// Add a holy day: a record with the same tag is overwritten, and
    /// otherwise the record is appended.
    pub fn add(&mut self, holyday: Holyday)
        ensures
            final(self).province == old(self).province,
            ({
                let i = find_tag(old(self)@, holyday.tag@);
                if i == -1 {
                    final(self)@ == old(self)@.push(holyday)
                } else {
                    final(self)@ == old(self)@.update(i, holyday)
                }
            }),
            old(self).wf() ==> final(self).wf(),
    {
        proof {
            lemma_find_tag(self@, holyday.tag@);
        }
        let ghost orig = self@;
        match self.find_index(holyday.tag.as_str()) {
            Some(i) => {
                let ghost tg = holyday.tag@;
                let _ = self.holydays.remove(i);
                self.holydays.insert(i, holyday);
                proof {
                    assert(self@ =~= orig.update(i as int, holyday));
                    if tags_unique(orig) {
                        assert(orig[i as int].tag@ == tg);
                        assert forall|a: int, b: int| 0 <= a < b < self@.len() implies (
                        #[trigger] self@[a]).tag@ != (#[trigger] self@[b]).tag@ by {
                            assert(orig[a].tag@ != orig[b].tag@);
                        }
                    }
                }
            },
            None => {
                self.holydays.push(holyday);
                proof {
                    if tags_unique(orig) {
                        assert forall|a: int, b: int| 0 <= a < b < self@.len() implies (
                        #[trigger] self@[a]).tag@ != (#[trigger] self@[b]).tag@ by {
                            if b == self@.len() - 1 {
                                assert(self@[a] == orig[a]);
                                assert(self@[b] == holyday);
                            } else {
                                assert(self@[a] == orig[a]);
                                assert(self@[b] == orig[b]);
                            }
                        }
                    }
                }
            },
        }
    }

    /// The holy day bearing the tag, or `NotFound`.
    pub fn get_by_tag(&self, tag: &str) -> (r: Result<&Holyday, CalendarError>)
        ensures
            find_tag(self@, tag@) >= 0 ==> (r matches Ok(h) && *h == self@[find_tag(
                self@,
                tag@,
            )]),
            find_tag(self@, tag@) == -1 ==> (r matches Err(e) && e == CalendarError::NotFound),
    {
        match self.find_index(tag) {
            Some(i) => Ok(&self.holydays[i]),
            None => Err(CalendarError::NotFound),
        }
    }

    /// Remove the holy day bearing the tag, swapping the last record
    /// into its place; absent tags are ignored.
    pub fn delete_by_tag(&mut self, tag: &str)
        ensures
            final(self).province == old(self).province,
            ({
                let i = find_tag(old(self)@, tag@);
                if i == -1 {
                    final(self)@ == old(self)@
                } else {
                    final(self)@ == old(self)@.update(i, old(self)@.last()).drop_last()
                }
            }),
            old(self).wf() ==> final(self).wf(),
    {
        let ghost orig = self@;
        match self.find_index(tag) {
            Some(i) => {
                let _ = self.holydays.swap_remove(i);
                proof {
                    if tags_unique(orig) {
                        assert forall|a: int, b: int| 0 <= a < b < self@.len() implies (
                        #[trigger] self@[a]).tag@ != (#[trigger] self@[b]).tag@ by {
                            let n = orig.len();
                            let sa = if a == i { n - 1 } else { a };
                            let sb = if b == i { n - 1 } else { b };
                            assert(self@[a] == orig[sa]);
                            assert(self@[b] == orig[sb]);
                        }
                    }
                }
            },
            None => {},
        }
    }

    /// All holy days of the calendar in its normal order: highest
    /// class first, then by date expression.
    pub fn get_holydays(&self) -> (r: Vec<&Holyday>)
        ensures
            r@.map_values(|h: &Holyday| *h) == seq_sort_by(
                self@,
                holyday_le_fn(HolydaySort::Normal),
            ),
    {
        let mut refs: Vec<&Holyday> = Vec::new();
        let n = self.holydays.len();
        let mut i: usize = 0;
        while i < n
            invariant
                i <= n,
                n == self@.len(),
                refs@.len() == i,
                forall|k: int| 0 <= k < i ==> *(#[trigger] refs@[k]) == self@[k],
            decreases n - i,
        {
            refs.push(&self.holydays[i]);
            i = i + 1;
        }
        let ghost unsorted = refs@;
        sort_holyday_refs(&mut refs, HolydaySort::Normal);
        proof {
            let f = |h: &Holyday| *h;
            let le_t = holyday_ref_le_fn(HolydaySort::Normal);
            let le_u = holyday_le_fn(HolydaySort::Normal);
            lemma_seq_sort_by_map(unsorted, f, le_t, le_u);
            assert(unsorted.map_values(f) =~= self@);
        }
        refs
    }

    /// Sort the calendar into its normal order: highest class first,
    /// then by date expression.
    pub fn sort(&mut self)
        ensures
            final(self).province == old(self).province,
            final(self)@ == seq_sort_by(old(self)@, holyday_le_fn(HolydaySort::Normal)),
            old(self).wf() ==> final(self).wf(),
    {
        proof {
            lemma_seq_sort_by_tags(self@, holyday_le_fn(HolydaySort::Normal));
        }
        sort_holydays(&mut self.holydays, HolydaySort::Normal);
    }

    /// Sort the calendar by the structural order of its date
    /// expressions.
    pub fn sort_by_date_cal(&mut self)
        ensures
            final(self).province == old(self).province,
            final(self)@ == seq_sort_by(old(self)@, holyday_le_fn(HolydaySort::DateCal)),
            old(self).wf() ==> final(self).wf(),
    {
        proof {
            lemma_seq_sort_by_tags(self@, holyday_le_fn(HolydaySort::DateCal));
        }
        sort_holydays(&mut self.holydays, HolydaySort::DateCal);
    }

    /// Sort the calendar by tag.
    pub fn sort_by_tag(&mut self)
        ensures
            final(self).province == old(self).province,
            final(self)@ == seq_sort_by(old(self)@, holyday_le_fn(HolydaySort::Tag)),
            old(self).wf() ==> final(self).wf(),
    {
        proof {
            lemma_seq_sort_by_tags(self@, holyday_le_fn(HolydaySort::Tag));
        }
        sort_holydays(&mut self.holydays, HolydaySort::Tag);
    }
}

/// One edit applied to a sequence of holy days: a matching tag is
/// deleted or merged into; an absent tag builds a brand-new record
/// from the edit, which fails when a required field is missing.
pub open spec fn apply_step(
    s: Seq<Holyday>,
    m: HolydayMod,
    s2: Seq<Holyday>,
    e: Option<CalendarError>,
) -> bool {
    let i = find_tag(s, m.tag@);
    if i >= 0 {
        if m.delete {
            e is None && s2 == s.update(i, s.last()).drop_last()
        } else {
            &&& e is None
            &&& s2.len() == s.len()
            &&& forall|k: int| 0 <= k < s.len() && k != i ==> s2[k] == s[k]
            &&& merged_holyday(s[i], m, s2[i])
        }
    } else {
        match first_missing_field(m) {
            Some(f) => e == Some(CalendarError::MissingField(f)) && s2 == s,
            None => {
                &&& e is None
                &&& s2.len() == s.len() + 1
                &&& s2.drop_last() == s
                &&& made_holyday(m, s2.last())
            },
        }
    }
}

/// A whole list of edits applied in order, stopping at the first
/// failing edit: earlier edits stay applied, the failing one reports
/// its error.
pub open spec fn apply_rel(
    s: Seq<Holyday>,
    ms: Seq<HolydayMod>,
    s2: Seq<Holyday>,
    r: Result<(), CalendarError>,
) -> bool
    decreases ms.len(),
{
    if ms.len() == 0 {
        s2 == s && r == Result::<(), CalendarError>::Ok(())
    } else {
        exists|mid: Seq<Holyday>, e: Option<CalendarError>|
            {
                &&& #[trigger] apply_step(s, ms[0], mid, e)
                &&& match e {
                    Some(er) => s2 == mid && r == Result::<(), CalendarError>::Err(er),
                    None => apply_rel(mid, ms.drop_first(), s2, r),
                }
            }
    }
}

/// A set of edits to a calendar.
#[derive(Debug, PartialEq, Eq)]
pub struct EdMods {
    /// the changes, applied in order
    pub holydays: Vec<HolydayMod>,
}

impl Calendar {
    /// Apply a list of edits to the calendar in order. The first edit
    /// that needs a missing field stops the run; earlier edits stay.
    #[verifier::loop_isolation(false)]
    pub fn apply(&mut self, edits: &EdMods) -> (r: Result<(), CalendarError>)
        ensures
            final(self).province == old(self).province,
            apply_rel(old(self)@, edits.holydays@, final(self)@, r),
            old(self).wf() ==> final(self).wf(),
    {
        let ghost orig = self@;
        let ghost ms = edits.holydays@;
        let ghost was_wf = self.wf();
        let n = edits.holydays.len();
        let mut i: usize = 0;
        proof {
            assert(ms.skip(0) =~= ms);
        }
        while i < n
            invariant
                i <= n,
                n == ms.len(),
                ms == edits.holydays@,
                self.province == old(self).province,
                was_wf == old(self).wf(),
                was_wf ==> self.wf(),
                forall|s2: Seq<Holyday>, rr: Result<(), CalendarError>|
                    #[trigger] apply_rel(self@, ms.skip(i as int), s2, rr) ==> apply_rel(
                        orig,
                        ms,
                        s2,
                        rr,
                    ),
            decreases n - i,
        {
            let ghost cur = self@;
            let ghost m = ms[i as int];
            let em = &edits.holydays[i];
            let ghost step_err: Option<CalendarError> = None;
            proof {
                lemma_find_tag(cur, m.tag@);
            }
            match self.find_index(em.tag.as_str()) {
                Some(j) => {
                    if em.delete {
                        let _ = self.holydays.swap_remove(j);
                        proof {
                            if was_wf {
                                assert forall|a: int, b: int|
                                    0 <= a < b < self@.len() implies (#[trigger] self@[a]).tag@
                                    != (#[trigger] self@[b]).tag@ by {
                                    let nn = cur.len();
                                    let sa = if a == j { nn - 1 } else { a };
                                    let sb = if b == j { nn - 1 } else { b };
                                    assert(self@[a] == cur[sa]);
                                    assert(self@[b] == cur[sb]);
                                }
                            }
                        }
                    } else {
                        let mut h = self.holydays.remove(j);
                        h.modify(em);
                        self.holydays.insert(j, h);
                        proof {
                            assert(forall|k: int|
                                0 <= k < cur.len() && k != j ==> #[trigger] self@[k] == cur[k]);
                            if was_wf {
                                assert forall|a: int, b: int|
                                    0 <= a < b < self@.len() implies (#[trigger] self@[a]).tag@
                                    != (#[trigger] self@[b]).tag@ by {
                                    assert(self@[a].tag@ == cur[a].tag@);
                                    assert(self@[b].tag@ == cur[b].tag@);
                                }
                            }
                        }
                    }
                },
                None => {
                    match em.to_holyday() {
                        Ok(h) => {
                            self.holydays.push(h);
                            proof {
                                assert(self@.drop_last() =~= cur);
                                if was_wf {
                                    assert forall|a: int, b: int|
                                        0 <= a < b < self@.len() implies (
                                    #[trigger] self@[a]).tag@ != (#[trigger] self@[b]).tag@ by {
                                        if b == self@.len() - 1 {
                                            assert(self@[a] == cur[a]);
                                            assert(self@[b].tag@ == m.tag@);
                                        } else {
                                            assert(self@[a] == cur[a]);
                                            assert(self@[b] == cur[b]);
                                        }
                                    }
                                }
                            }
                        },
                        Err(e) => {
                            proof {
                                assert(ms.skip(i as int)[0] == m);
                                assert(apply_step(cur, ms.skip(i as int)[0], self@, Some(e)));
                                assert(apply_rel(
                                    self@,
                                    ms.skip(i as int),
                                    self@,
                                    Result::<(), CalendarError>::Err(e),
                                ));
                                assert(apply_rel(
                                    orig,
                                    ms,
                                    self@,
                                    Result::<(), CalendarError>::Err(e),
                                ));
                            }
                            return Err(e);
                        },
                    }
                },
            }
            proof {
                assert(apply_step(cur, m, self@, None));
                assert(ms.skip(i as int)[0] == m);
                assert(ms.skip(i as int).drop_first() =~= ms.skip(i as int + 1));
                assert forall|s2: Seq<Holyday>, rr: Result<(), CalendarError>|
                    #[trigger] apply_rel(self@, ms.skip(i as int + 1), s2, rr) implies apply_rel(
                    orig,
                    ms,
                    s2,
                    rr,
                ) by {
                    assert(apply_rel(cur, ms.skip(i as int), s2, rr));
                }
            }
            i = i + 1;
        }
        proof {
            assert(ms.skip(n as int) =~= Seq::<HolydayMod>::empty());
            assert(apply_rel(self@, ms.skip(n as int), self@, Result::<(), CalendarError>::Ok(())));
        }
        Ok(())
    }
}

impl EdMods {
    /// The edits that rebuild the given calendar record for record.
    pub fn from_calendar(c: &Calendar) -> (r: EdMods)
        ensures
            r.holydays@.len() == c@.len(),
            forall|i: int|
                0 <= i < c@.len() ==> mod_of_holyday(c@[i], #[trigger] r.holydays@[i]),
    {
        let mut mods: Vec<HolydayMod> = Vec::new();
        let n = c.holydays.len();
        let mut i: usize = 0;
        while i < n
            invariant
                i <= n,
                n == c@.len(),
                mods@.len() == i,
                forall|k: int| 0 <= k < i ==> mod_of_holyday(c@[k], #[trigger] mods@[k]),
            decreases n - i,
        {
            mods.push(HolydayMod::from_holyday(&c.holydays[i]));
            i = i + 1;
        }
        EdMods { holydays: mods }
    }
}

/// Data about a province.
#[derive(Debug, PartialEq, Eq)]
pub struct ProvinceData {
    /// the province
    pub province: Province,
    /// the abbreviation for the province, also used in file names
    pub abbrev: String,
}

impl Clone for ProvinceData {
    fn clone(&self) -> (r: Self)
        ensures
            r == self,
    {
        ProvinceData { province: self.province, abbrev: self.abbrev.clone() }
    }
}

/// The abbreviation of each province that has one.
pub open spec fn abbrev_spec(p: Province) -> Seq<char> {
    match p {
        Province::ChurchOfEngland => "cofe"@,
        Province::HongKong => "hkskh"@,
        Province::ECUSA => "ecusa"@,
        Province::Australia => "aca"@,
        Province::SouthAfrica => "acsa"@,
        Province::Canada => "acc"@,
        Province::BCP => "bcp"@,
        Province::All => "all"@,
        Province::Unknown => ""@,
    }
}

/// The province listed at each position of the province list.
pub open spec fn province_at(i: int) -> Province {
    if i == 0 {
        Province::ChurchOfEngland
    } else if i == 1 {
        Province::HongKong
    } else if i == 2 {
        Province::ECUSA
    } else if i == 3 {
        Province::Australia
    } else if i == 4 {
        Province::SouthAfrica
    } else if i == 5 {
        Province::Canada
    } else if i == 6 {
        Province::BCP
    } else {
        Province::All
    }
}

/// Position of a province in the province list, or -1 for `Unknown`,
/// which has no entry.
pub open spec fn province_index(p: Province) -> int {
    match p {
        Province::ChurchOfEngland => 0,
        Province::HongKong => 1,
        Province::ECUSA => 2,
        Province::Australia => 3,
        Province::SouthAfrica => 4,
        Province::Canada => 5,
        Province::BCP => 6,
        Province::All => 7,
        Province::Unknown => -1,
    }
}

/// The list of all provinces and their data.
pub struct ProvinceList {
    /// the provinces in their listed order
    pub provinces: Vec<ProvinceData>,
}

impl ProvinceList {
    /// Every province but `Unknown` stands at its position with its
    /// abbreviation.
    pub open spec fn wf(self) -> bool {
        &&& self.provinces@.len() == 8
        &&& forall|i: int|
            0 <= i < 8 ==> (#[trigger] self.provinces@[i]).province == province_at(i)
        &&& forall|i: int|
            0 <= i < 8 ==> (#[trigger] self.provinces@[i]).abbrev@ == abbrev_spec(
                province_at(i),
            )
    }

    /// Append one province to the list.
    fn push_province(&mut self, province: Province, abbrev: &str)
        ensures
            final(self).provinces@.len() == old(self).provinces@.len() + 1,
            final(self).provinces@.drop_last() == old(self).provinces@,
            final(self).provinces@.last().province == province,
            final(self).provinces@.last().abbrev@ == abbrev@,
    {
        self.provinces.push(ProvinceData { province, abbrev: abbrev.to_owned() });
        proof {
            assert(self.provinces@.drop_last() =~= old(self).provinces@);
        }
    }

    /// The list of all provinces.
    pub fn make() -> (r: ProvinceList)
        ensures
            r.wf(),
    {
        let mut pl = ProvinceList { provinces: Vec::new() };
        pl.push_province(Province::ChurchOfEngland, "cofe");
        pl.push_province(Province::HongKong, "hkskh");
        pl.push_province(Province::ECUSA, "ecusa");
        pl.push_province(Province::Australia, "aca");
        pl.push_province(Province::SouthAfrica, "acsa");
        pl.push_province(Province::Canada, "acc");
        pl.push_province(Province::BCP, "bcp");
        pl.push_province(Province::All, "all");
        pl
    }

    /// The data of one province.
    pub fn get(&self, province: Province) -> (r: &ProvinceData)
        requires
            self.wf(),
            province != Province::Unknown,
        ensures
            r.province == province,
            r.abbrev@ == abbrev_spec(province),
    {
        let n = self.provinces.len();
        let mut i: usize = 0;
        while i < n
            invariant
                self.wf(),
                province != Province::Unknown,
                i <= n,
                n == 8,
                forall|k: int| 0 <= k < i ==> (#[trigger] self.provinces@[k]).province != province,
            decreases n - i,
        {
            if self.provinces[i].province == province {
                return &self.provinces[i];
            }
            i = i + 1;
        }
        proof {
            assert(self.provinces@[province_index(province)].province == province);
            assert(false);
        }
        &self.provinces[0]
    }

    /// All the provinces and their data.
    pub fn all(&self) -> (r: &Vec<ProvinceData>)
        ensures
            r@ == self.provinces@,
    {
        &self.provinces
    }
}

/// The province a command-line abbreviation names, if any. Each
/// province answers to its file abbreviation and to one or more short
/// country forms.
pub open spec fn province_of_abbrev(s: Seq<char>) -> Option<Province> {
    if s == "cofe"@ || s == "en"@ {
        Some(Province::ChurchOfEngland)
    } else if s == "hkskh"@ || s == "hk"@ {
        Some(Province::HongKong)
    } else if s == "ecusa"@ || s == "tec"@ || s == "usa"@ || s == "us"@ {
        Some(Province::ECUSA)
    } else if s == "aca"@ || s == "au"@ {
        Some(Province::Australia)
    } else if s == "acsa"@ || s == "sa"@ {
        Some(Province::SouthAfrica)
    } else if s == "acc"@ || s == "ca"@ {
        Some(Province::Canada)
    } else if s == "bcp"@ {
        Some(Province::BCP)
    } else if s == "all"@ {
        Some(Province::All)
    } else {
        None
    }
}

impl Province {
    /// Parse a province abbreviation.
    pub fn from_abbrev(s: &str) -> (r: Option<Province>)
        ensures
            r == province_of_abbrev(s@),
    {
        let names: [(&str, Province); 15] = [
            ("cofe", Province::ChurchOfEngland),
            ("en", Province::ChurchOfEngland),
            ("hkskh", Province::HongKong),
            ("hk", Province::HongKong),
            ("ecusa", Province::ECUSA),
            ("tec", Province::ECUSA),
            ("usa", Province::ECUSA),
            ("us", Province::ECUSA),
            ("aca", Province::Australia),
            ("au", Province::Australia),
            ("acsa", Province::SouthAfrica),
            ("sa", Province::SouthAfrica),
            ("acc", Province::Canada),
            ("ca", Province::Canada),
            ("bcp", Province::BCP),
        ];
        let mut i: usize = 0;
        while i < 15
            invariant
                i <= 15,
                names@ =~= seq![
                    ("cofe", Province::ChurchOfEngland),
                    ("en", Province::ChurchOfEngland),
                    ("hkskh", Province::HongKong),
                    ("hk", Province::HongKong),
                    ("ecusa", Province::ECUSA),
                    ("tec", Province::ECUSA),
                    ("usa", Province::ECUSA),
                    ("us", Province::ECUSA),
                    ("aca", Province::Australia),
                    ("au", Province::Australia),
                    ("acsa", Province::SouthAfrica),
                    ("sa", Province::SouthAfrica),
                    ("acc", Province::Canada),
                    ("ca", Province::Canada),
                    ("bcp", Province::BCP),
                ],
                forall|k: int| 0 <= k < i ==> (#[trigger] names@[k]).0@ != s@,
            decreases 15 - i,
        {
            let c = str_cmp_exec(names[i].0, s);
            proof {
                lemma_str_cmp_eq(names@[i as int].0@, s@);
            }
            if c == 0 {
                return Some(names[i].1);
            }
            i = i + 1;
        }
        let c = str_cmp_exec("all", s);
        proof {
            lemma_str_cmp_eq("all"@, s@);
        }
        if c == 0 {
            Some(Province::All)
        } else {
            None
        }
    }
}

/// Law: each province's file abbreviation parses back to the
/// province itself, for every province that has one.
pub proof fn lemma_abbrev_round_trip(p: Province)
    requires
        p != Province::Unknown,
    ensures
        province_of_abbrev(abbrev_spec(p)) == Some(p),
{
    reveal_strlit("cofe");
    reveal_strlit("en");
    reveal_strlit("hkskh");
    reveal_strlit("hk");
    reveal_strlit("ecusa");
    reveal_strlit("tec");
    reveal_strlit("usa");
    reveal_strlit("us");
    reveal_strlit("aca");
    reveal_strlit("au");
    reveal_strlit("acsa");
    reveal_strlit("sa");
    reveal_strlit("acc");
    reveal_strlit("ca");
    reveal_strlit("bcp");
    reveal_strlit("all");
    assert("cofe"@.len() == 4);
    assert("cofe"@[0] == 'c');
    assert("en"@.len() == 2);
    assert("en"@[0] == 'e');
    assert("hkskh"@.len() == 5);
    assert("hkskh"@[0] == 'h');
    assert("hk"@.len() == 2);
    assert("hk"@[0] == 'h');
    assert("ecusa"@.len() == 5);
    assert("ecusa"@[0] == 'e');
    assert("tec"@.len() == 3);
    assert("tec"@[0] == 't');
    assert("usa"@.len() == 3);
    assert("usa"@[0] == 'u');
    assert("us"@.len() == 2);
    assert("us"@[0] == 'u');
    assert("aca"@.len() == 3);
    assert("aca"@[0] == 'a');
    assert("au"@.len() == 2);
    assert("au"@[0] == 'a');
    assert("acsa"@.len() == 4);
    assert("acsa"@[0] == 'a');
    assert("sa"@.len() == 2);
    assert("sa"@[0] == 's');
    assert("acc"@.len() == 3);
    assert("acc"@[0] == 'a');
    assert("ca"@.len() == 2);
    assert("ca"@[0] == 'c');
    assert("bcp"@.len() == 3);
    assert("bcp"@[0] == 'b');
    assert("all"@.len() == 3);
    assert("all"@[0] == 'a');
    assert("aca"@[1] == 'c');
    assert("acc"@[1] == 'c');
    assert("all"@[1] == 'l');
    assert("aca"@[2] == 'a');
    assert("acc"@[2] == 'c');
    assert(province_of_abbrev(abbrev_spec(Province::ChurchOfEngland)) == Some(
        Province::ChurchOfEngland,
    ));
    assert(province_of_abbrev(abbrev_spec(Province::HongKong)) == Some(Province::HongKong));
    assert(province_of_abbrev(abbrev_spec(Province::ECUSA)) == Some(Province::ECUSA));
    assert(province_of_abbrev(abbrev_spec(Province::Australia)) == Some(Province::Australia));
    assert(province_of_abbrev(abbrev_spec(Province::SouthAfrica)) == Some(
        Province::SouthAfrica,
    ));
    assert(province_of_abbrev(abbrev_spec(Province::Canada)) == Some(Province::Canada));
    assert(province_of_abbrev(abbrev_spec(Province::BCP)) == Some(Province::BCP));
    assert(province_of_abbrev(abbrev_spec(Province::All)) == Some(Province::All));
}

/// A holy day of one specific province's calendar.
#[derive(Debug, PartialEq, Eq, Clone, Copy)]
pub struct ProvHolyday<'a> {
    /// the province
    pub province: Province,
    /// the holy day
    pub holyday: &'a Holyday,
}

/// Two date expressions compare as equal exactly when they are the
/// same expression.
pub proof fn lemma_date_cal_cmp_eq(a: DateCal, b: DateCal)
    ensures
        (date_cal_cmp(a, b) == 0) <==> (a == b),
    decreases a,
{
    match (a, b) {
        (DateCal::After { date: d1, rel: r1 }, DateCal::After { date: d2, rel: r2 }) => {
            lemma_date_cal_cmp_eq(*d1, *d2);
        },
        (
            DateCal::Next { date: d1, day_of_week: w1 },
            DateCal::Next { date: d2, day_of_week: w2 },
        ) => {
            lemma_date_cal_cmp_eq(*d1, *d2);
        },
        _ => {},
    }
}

/// The view of a provincial holy day: its province and its record.
pub open spec fn prov_view<'a>(p: ProvHolyday<'a>) -> (Province, Holyday) {
    (p.province, *p.holyday)
}

/// The view of a list of provincial holy days.
pub open spec fn provs_view<'a>(s: Seq<ProvHolyday<'a>>) -> Seq<(Province, Holyday)> {
    s.map_values(|p: ProvHolyday<'a>| prov_view(p))
}

/// First index of a date-expression key among grouped holy days, or
/// -1 when the key is absent.
pub open spec fn find_date_key<'a>(
    s: Seq<(DateCal, Vec<ProvHolyday<'a>>)>,
    key: DateCal,
) -> int
    decreases s.len(),
{
    if s.len() == 0 {
        -1
    } else if s[0].0 == key {
        0
    } else {
        let r = find_date_key(s.drop_first(), key);
        if r == -1 {
            -1
        } else {
            r + 1
        }
    }
}

/// `find_date_key` names the first position bearing the key, and -1
/// only when no position bears it.
pub proof fn lemma_find_date_key<'a>(s: Seq<(DateCal, Vec<ProvHolyday<'a>>)>, key: DateCal)
    ensures
        find_date_key(s, key) == -1 ==> forall|k: int|
            0 <= k < s.len() ==> (#[trigger] s[k]).0 != key,
        find_date_key(s, key) != -1 ==> {
            &&& 0 <= find_date_key(s, key) < s.len()
            &&& s[find_date_key(s, key)].0 == key
            &&& forall|k: int| 0 <= k < find_date_key(s, key) ==> (#[trigger] s[k]).0 != key
        },
    decreases s.len(),
{
    if s.len() > 0 && s[0].0 != key {
        lemma_find_date_key(s.drop_first(), key);
        assert(forall|k: int|
            1 <= k < s.len() ==> (#[trigger] s[k]) == s.drop_first()[k - 1]);
    }
}

/// The holy days of one province's calendar, grouped by their date
/// expression, for reports across provinces.
#[derive(Debug)]
pub struct ProvHolydaysByDate<'a> {
    /// the groups: one entry per date expression seen
    pub phbd: Vec<(DateCal, Vec<ProvHolyday<'a>>)>,
}

impl<'a> Default for ProvHolydaysByDate<'a> {
    /// An empty grouping.
    fn default() -> (r: Self)
        ensures
            r.phbd@ == Seq::<(DateCal, Vec<ProvHolyday<'a>>)>::empty(),
    {
        ProvHolydaysByDate { phbd: Vec::new() }
    }
}

impl<'a> ProvHolydaysByDate<'a> {
    /// No two groups bear the same date expression.
    pub open spec fn wf(self) -> bool {
        forall|i: int, j: int|
            0 <= i < j < self.phbd@.len() ==> (#[trigger] self.phbd@[i]).0 != (
            #[trigger] self.phbd@[j]).0
    }

    /// Load all the holy days of a calendar into the grouping, in the
    /// calendar's normal order. Each holy day joins the group of its
    /// date expression, after anything already there.
    #[verifier::loop_isolation(false)]
    #[verifier::rlimit(100)]
    pub fn load_calendar(&mut self, cal: &'a Calendar)
        requires
            old(self).wf(),
        ensures
            final(self).wf(),
            ({
                let sorted = seq_sort_by(cal@, holyday_le_fn(HolydaySort::Normal));
                let pre = old(self).phbd@;
                let post = final(self).phbd@;
                &&& forall|i: int|
                    0 <= i < post.len() ==> {
                        let key = (#[trigger] post[i]).0;
                        let before = find_date_key(pre, key);
                        let kept = if before >= 0 {
                            provs_view(pre[before].1@)
                        } else {
                            Seq::empty()
                        };
                        provs_view(post[i].1@) == kept + sorted.filter(
                            |h: Holyday| h.date_cal == key,
                        ).map_values(|h: Holyday| (cal.province, h))
                    }
                &&& forall|key: DateCal|
                    (#[trigger] find_date_key(post, key)) >= 0 <==> (find_date_key(pre, key)
                        >= 0 || exists|j: int|
                        0 <= j < sorted.len() && (#[trigger] sorted[j]).date_cal == key)
            }),
    {
        let ghost pre = self.phbd@;
        let ghost sorted = seq_sort_by(cal@, holyday_le_fn(HolydaySort::Normal));
        let ghost tagp = |h: Holyday| (cal.province, h);
        let holydays = cal.get_holydays();
        let n = holydays.len();
        let mut ix: usize = 0;
        proof {
            assert(sorted.subrange(0, 0) =~= Seq::<Holyday>::empty());
            assert forall|i: int| 0 <= i < self.phbd@.len() implies {
                let key = (#[trigger] self.phbd@[i]).0;
                let before = find_date_key(pre, key);
                let kept = if before >= 0 {
                    provs_view(pre[before].1@)
                } else {
                    Seq::empty()
                };
                provs_view(self.phbd@[i].1@) == kept + sorted.subrange(0, 0).filter(
                    |h: Holyday| h.date_cal == key,
                ).map_values(tagp)
            } by {
                let key = self.phbd@[i].0;
                lemma_find_date_key_first(pre, i);
                reveal(Seq::filter);
                assert(sorted.subrange(0, 0).filter(|h: Holyday| h.date_cal == key)
                    =~= Seq::<Holyday>::empty());
                assert(provs_view(self.phbd@[i].1@) =~= provs_view(pre[i].1@)
                    + sorted.subrange(0, 0).filter(|h: Holyday| h.date_cal == key).map_values(
                    tagp,
                ));
            }
        }
        while ix < n
            invariant
                ix <= n,
                self.wf(),
                forall|i: int|
                    0 <= i < self.phbd@.len() ==> {
                        let key = (#[trigger] self.phbd@[i]).0;
                        let before = find_date_key(pre, key);
                        let kept = if before >= 0 {
                            provs_view(pre[before].1@)
                        } else {
                            Seq::empty()
                        };
                        provs_view(self.phbd@[i].1@) == kept + sorted.subrange(
                            0,
                            ix as int,
                        ).filter(|h: Holyday| h.date_cal == key).map_values(tagp)
                    },
                forall|key: DateCal|
                    (#[trigger] find_date_key(self.phbd@, key)) >= 0 <==> (find_date_key(
                        pre,
                        key,
                    ) >= 0 || exists|j: int|
                        0 <= j < ix && (#[trigger] sorted[j]).date_cal == key),
            decreases n - ix,
        {
            let hd: &Holyday = holydays[ix];
            proof {
                assert(holydays@.map_values(|hh: &Holyday| *hh)[ix as int] == sorted[ix as int]);
                assert(*hd == sorted[ix as int]);
            }
            let ph = ProvHolyday { province: cal.province, holyday: hd };
            let ghost cur = self.phbd@;
            proof {
                lemma_find_date_key(cur, hd.date_cal);
            }
            match self.find_group(&hd.date_cal) {
                Some(gi) => {
                    let mut g = self.phbd.remove(gi);
                    g.1.push(ph);
                    let ghost gv = g.1@;
                    self.phbd.insert(gi, g);
                    proof {
                        assert(self.phbd@ =~= cur.update(gi as int, (cur[gi as int].0, g.1)));
                        assert(provs_view(gv) =~= provs_view(cur[gi as int].1@).push(
                            prov_view(ph),
                        ));
                        assert forall|i: int| 0 <= i < self.phbd@.len() implies {
                            let key = (#[trigger] self.phbd@[i]).0;
                            let before = find_date_key(pre, key);
                            let kept = if before >= 0 {
                                provs_view(pre[before].1@)
                            } else {
                                Seq::empty()
                            };
                            provs_view(self.phbd@[i].1@) == kept + sorted.subrange(
                                0,
                                ix + 1,
                            ).filter(|h: Holyday| h.date_cal == key).map_values(tagp)
                        } by {
                            let key = self.phbd@[i].0;
                            let fp = |h: Holyday| h.date_cal == key;
                            reveal(Seq::filter);
                            assert(sorted.subrange(0, ix + 1).drop_last() =~= sorted.subrange(
                                0,
                                ix as int,
                            ));
                            assert(sorted.subrange(0, ix + 1).last() == sorted[ix as int]);
                            if i == gi {
                                assert(key == hd.date_cal);
                                assert(sorted.subrange(0, ix + 1).filter(fp)
                                    =~= sorted.subrange(0, ix as int).filter(fp).push(*hd));
                                let before = find_date_key(pre, key);
                                let kept = if before >= 0 {
                                    provs_view(pre[before].1@)
                                } else {
                                    Seq::<(Province, Holyday)>::empty()
                                };
                                assert(provs_view(self.phbd@[i].1@) =~= kept + sorted.subrange(
                                    0,
                                    ix + 1,
                                ).filter(fp).map_values(tagp));
                            } else {
                                assert(self.phbd@[i] == cur[i]);
                                assert(key != hd.date_cal);
                                assert(sorted.subrange(0, ix + 1).filter(fp) =~= sorted.subrange(
                                    0,
                                    ix as int,
                                ).filter(fp));
                            }
                        }
                        assert forall|key: DateCal|
                            (#[trigger] find_date_key(self.phbd@, key)) >= 0 <==> (find_date_key(
                                pre,
                                key,
                            ) >= 0 || exists|j: int|
                                0 <= j < ix + 1 && (#[trigger] sorted[j]).date_cal
                                    == key) by {
                            lemma_find_date_key_update(cur, gi as int, g.1, key);
                            if key == hd.date_cal {
                                assert(sorted[ix as int].date_cal == key);
                            }
                            if find_date_key(cur, key) >= 0 || (exists|j: int|
                                0 <= j < ix && (#[trigger] sorted[j]).date_cal == key) {
                            }
                        }
                    }
                },
                None => {
                    let mut g: Vec<ProvHolyday<'a>> = Vec::new();
                    g.push(ph);
                    let ghost gv = g@;
                    let entry = (hd.date_cal.clone(), g);
                    let ghost ev = entry;
                    self.phbd.push(entry);
                    proof {
                        assert(self.phbd@ =~= cur.push(ev));
                        assert(provs_view(gv) =~= Seq::<(Province, Holyday)>::empty().push(
                            prov_view(ph),
                        ));
                        assert forall|i: int| 0 <= i < self.phbd@.len() implies {
                            let key = (#[trigger] self.phbd@[i]).0;
                            let before = find_date_key(pre, key);
                            let kept = if before >= 0 {
                                provs_view(pre[before].1@)
                            } else {
                                Seq::empty()
                            };
                            provs_view(self.phbd@[i].1@) == kept + sorted.subrange(
                                0,
                                ix + 1,
                            ).filter(|h: Holyday| h.date_cal == key).map_values(tagp)
                        } by {
                            let key = self.phbd@[i].0;
                            let fp = |h: Holyday| h.date_cal == key;
                            reveal(Seq::filter);
                            assert(sorted.subrange(0, ix + 1).drop_last() =~= sorted.subrange(
                                0,
                                ix as int,
                            ));
                            assert(sorted.subrange(0, ix + 1).last() == sorted[ix as int]);
                            if i == self.phbd@.len() - 1 {
                                assert(key == hd.date_cal);
                                assert(find_date_key(pre, key) == -1) by {
                                    lemma_find_date_key(pre, key);
                                    if find_date_key(pre, key) >= 0 {
                                        assert(find_date_key(cur, key) >= 0);
                                    }
                                }
                                assert(sorted.subrange(0, ix as int).filter(fp)
                                    =~= Seq::<Holyday>::empty()) by {
                                    if sorted.subrange(0, ix as int).filter(fp).len() > 0 {
                                        lemma_filter_nonempty_exists(
                                            sorted.subrange(0, ix as int),
                                            fp,
                                        );
                                        let j = choose|j: int|
                                            0 <= j < ix && fp(
                                                #[trigger] sorted.subrange(0, ix as int)[j],
                                            );
                                        assert(sorted[j].date_cal == key);
                                        assert(find_date_key(cur, key) >= 0);
                                    }
                                }
                                assert(sorted.subrange(0, ix + 1).filter(fp)
                                    =~= Seq::<Holyday>::empty().push(*hd));
                                assert(provs_view(self.phbd@[i].1@) =~= Seq::<
                                    (Province, Holyday),
                                >::empty() + sorted.subrange(0, ix + 1).filter(fp).map_values(
                                    tagp,
                                ));
                            } else {
                                assert(self.phbd@[i] == cur[i]);
                                assert(key != hd.date_cal);
                                assert(sorted.subrange(0, ix + 1).filter(fp) =~= sorted.subrange(
                                    0,
                                    ix as int,
                                ).filter(fp));
                            }
                        }
                        assert forall|key: DateCal|
                            (#[trigger] find_date_key(self.phbd@, key)) >= 0 <==> (find_date_key(
                                pre,
                                key,
                            ) >= 0 || exists|j: int|
                                0 <= j < ix + 1 && (#[trigger] sorted[j]).date_cal
                                    == key) by {
                            lemma_find_date_key_push(cur, ev, key);
                            if key == hd.date_cal {
                                assert(sorted[ix as int].date_cal == key);
                            }
                            if find_date_key(cur, key) >= 0 || (exists|j: int|
                                0 <= j < ix && (#[trigger] sorted[j]).date_cal == key) {
                            }
                        }
                        assert forall|i: int, j: int|
                            0 <= i < j < self.phbd@.len() implies (#[trigger] self.phbd@[
                            i]).0 != (#[trigger] self.phbd@[j]).0 by {
                            if j == self.phbd@.len() - 1 {
                                assert(self.phbd@[i] == cur[i]);
                                lemma_find_date_key(cur, self.phbd@[j].0);
                            } else {
                                assert(self.phbd@[i] == cur[i]);
                                assert(self.phbd@[j] == cur[j]);
                            }
                        }
                    }
                },
            }
            ix = ix + 1;
        }
        proof {
            assert(sorted.subrange(0, n as int) =~= sorted);
        }
    }

    /// Index of the group of the given date expression, if present.
    fn find_group(&self, key: &DateCal) -> (r: Option<usize>)
        ensures
            match r {
                Some(i) => find_date_key(self.phbd@, *key) == i as int && (i as int)
                    < self.phbd@.len(),
                None => find_date_key(self.phbd@, *key) == -1,
            },
    {
        proof {
            lemma_find_date_key(self.phbd@, *key);
        }
        let n = self.phbd.len();
        let mut i: usize = 0;
        while i < n
            invariant
                i <= n,
                n == self.phbd@.len(),
                forall|k: int| 0 <= k < i ==> (#[trigger] self.phbd@[k]).0 != *key,
            decreases n - i,
        {
            let c = date_cal_cmp_exec(&self.phbd[i].0, key);
            proof {
                lemma_date_cal_cmp_eq(self.phbd@[i as int].0, *key);
            }
            if c == 0 {
                proof {
                    lemma_find_date_key(self.phbd@, *key);
                }
                return Some(i);
            }
            i = i + 1;
        }
        None
    }

    /// All the date expressions with holy days.
    pub fn dates(&self) -> (r: Vec<&DateCal>)
        ensures
            r@.len() == self.phbd@.len(),
            forall|i: int| 0 <= i < r@.len() ==> *(#[trigger] r@[i]) == self.phbd@[i].0,
    {
        let mut keys: Vec<&DateCal> = Vec::new();
        let n = self.phbd.len();
        let mut i: usize = 0;
        while i < n
            invariant
                i <= n,
                n == self.phbd@.len(),
                keys@.len() == i,
                forall|k: int| 0 <= k < i ==> *(#[trigger] keys@[k]) == self.phbd@[k].0,
            decreases n - i,
        {
            keys.push(&self.phbd[i].0);
            i = i + 1;
        }
        keys
    }

    /// The holy days grouped under a date expression.
    pub fn by_date(&self, date: &DateCal) -> (r: Option<&Vec<ProvHolyday<'a>>>)
        ensures
            find_date_key(self.phbd@, *date) >= 0 ==> (r matches Some(v) && v@
                == self.phbd@[find_date_key(self.phbd@, *date)].1@),
            find_date_key(self.phbd@, *date) == -1 ==> r is None,
    {
        match self.find_group(date) {
            Some(i) => Some(&self.phbd[i].1),
            None => None,
        }
    }
}

/// In a grouping with distinct keys, each key is found at its own
/// position.
proof fn lemma_find_date_key_first<'a>(s: Seq<(DateCal, Vec<ProvHolyday<'a>>)>, i: int)
    requires
        0 <= i < s.len(),
        forall|a: int, b: int| 0 <= a < b < s.len() ==> (#[trigger] s[a]).0 != (#[trigger] s[b]).0,
    ensures
        find_date_key(s, s[i].0) == i,
    decreases s.len(),
{
    if i > 0 {
        assert(s[0].0 != s[i].0);
        assert(forall|a: int, b: int|
            0 <= a < b < s.drop_first().len() ==> (#[trigger] s.drop_first()[a]).0 != (
            #[trigger] s.drop_first()[b]).0);
        lemma_find_date_key_first(s.drop_first(), i - 1);
    }
}

/// A nonempty filtered sequence has a witness in the original.
proof fn lemma_filter_nonempty_exists<A>(s: Seq<A>, pred: spec_fn(A) -> bool)
    requires
        s.filter(pred).len() > 0,
    ensures
        exists|j: int| 0 <= j < s.len() && pred(#[trigger] s[j]),
    decreases s.len(),
{
    reveal(Seq::filter);
    if s.len() > 0 {
        if pred(s.last()) {
            assert(s[s.len() - 1] == s.last());
        } else {
            lemma_filter_nonempty_exists(s.drop_last(), pred);
            let j = choose|j: int| 0 <= j < s.drop_last().len() && pred(#[trigger] s.drop_last()[j]);
            assert(s[j] == s.drop_last()[j]);
        }
    }
}

/// Replacing a group's list leaves every key lookup unchanged.
proof fn lemma_find_date_key_update<'a>(
    s: Seq<(DateCal, Vec<ProvHolyday<'a>>)>,
    i: int,
    v: Vec<ProvHolyday<'a>>,
    key: DateCal,
)
    requires
        0 <= i < s.len(),
    ensures
        find_date_key(s.update(i, (s[i].0, v)), key) == find_date_key(s, key),
    decreases s.len(),
{
    let s2 = s.update(i, (s[i].0, v));
    if s.len() > 0 {
        if i == 0 {
            assert(s2.drop_first() =~= s.drop_first());
        } else {
            assert(s2[0] == s[0]);
            assert(s2.drop_first() =~= s.drop_first().update(i - 1, (s.drop_first()[i - 1].0, v)));
            lemma_find_date_key_update(s.drop_first(), i - 1, v, key);
        }
    }
}

/// Appending a group shifts a missed lookup to the new entry and
/// leaves found ones alone.
proof fn lemma_find_date_key_push<'a>(
    s: Seq<(DateCal, Vec<ProvHolyday<'a>>)>,
    entry: (DateCal, Vec<ProvHolyday<'a>>),
    key: DateCal,
)
    ensures
        find_date_key(s.push(entry), key) == (if find_date_key(s, key) >= 0 {
            find_date_key(s, key)
        } else if entry.0 == key {
            s.len() as int
        } else {
            -1int
        }),
    decreases s.len(),
{
    let s2 = s.push(entry);
    if s.len() == 0 {
        assert(s2[0] == entry);
        assert(s2.drop_first() =~= Seq::<(DateCal, Vec<ProvHolyday<'a>>)>::empty());
        if entry.0 != key {
            assert(find_date_key(s2.drop_first(), key) == -1);
            assert(find_date_key(s2, key) == -1);
        }
    } else {
        assert(s2[0] == s[0]);
        assert(s2.drop_first() =~= s.drop_first().push(entry));
        lemma_find_date_key_push(s.drop_first(), entry, key);
        if s[0].0 != key {
            assert(find_date_key(s2, key) == (if find_date_key(s2.drop_first(), key) == -1 {
                -1int
            } else {
                find_date_key(s2.drop_first(), key) + 1
            }));
            assert(find_date_key(s, key) == (if find_date_key(s.drop_first(), key) == -1 {
                -1int
            } else {
                find_date_key(s.drop_first(), key) + 1
            }));
        }
    }
}

/// First index of a tag among tag-grouped holy days, or -1 when the
/// tag is absent.
pub open spec fn find_tag_key<'a>(s: Seq<(String, Vec<ProvHolyday<'a>>)>, key: Seq<char>) -> int
    decreases s.len(),
{
    if s.len() == 0 {
        -1
    } else if s[0].0@ == key {
        0
    } else {
        let r = find_tag_key(s.drop_first(), key);
        if r == -1 {
            -1
        } else {
            r + 1
        }
    }
}

/// `find_tag_key` names the first position bearing the tag, and -1
/// only when no position bears it.
pub proof fn lemma_find_tag_key<'a>(s: Seq<(String, Vec<ProvHolyday<'a>>)>, key: Seq<char>)
    ensures
        find_tag_key(s, key) == -1 ==> forall|k: int|
            0 <= k < s.len() ==> (#[trigger] s[k]).0@ != key,
        find_tag_key(s, key) != -1 ==> {
            &&& 0 <= find_tag_key(s, key) < s.len()
            &&& s[find_tag_key(s, key)].0@ == key
            &&& forall|k: int| 0 <= k < find_tag_key(s, key) ==> (#[trigger] s[k]).0@ != key
        },
    decreases s.len(),
{
    if s.len() > 0 && s[0].0@ != key {
        lemma_find_tag_key(s.drop_first(), key);
        assert(forall|k: int|
            1 <= k < s.len() ==> (#[trigger] s[k]) == s.drop_first()[k - 1]);
    }
}

/// In a grouping with distinct tags, each tag is found at its own
/// position.
proof fn lemma_find_tag_key_first<'a>(s: Seq<(String, Vec<ProvHolyday<'a>>)>, i: int)
    requires
        0 <= i < s.len(),
        forall|a: int, b: int|
            0 <= a < b < s.len() ==> (#[trigger] s[a]).0@ != (#[trigger] s[b]).0@,
    ensures
        find_tag_key(s, s[i].0@) == i,
    decreases s.len(),
{
    if i > 0 {
        assert(s[0].0@ != s[i].0@);
        assert(forall|a: int, b: int|
            0 <= a < b < s.drop_first().len() ==> (#[trigger] s.drop_first()[a]).0@ != (
            #[trigger] s.drop_first()[b]).0@);
        lemma_find_tag_key_first(s.drop_first(), i - 1);
    }
}

/// Replacing a group's list leaves every tag lookup unchanged.
proof fn lemma_find_tag_key_update<'a>(
    s: Seq<(String, Vec<ProvHolyday<'a>>)>,
    i: int,
    v: Vec<ProvHolyday<'a>>,
    key: Seq<char>,
)
    requires
        0 <= i < s.len(),
    ensures
        find_tag_key(s.update(i, (s[i].0, v)), key) == find_tag_key(s, key),
    decreases s.len(),
{
    let s2 = s.update(i, (s[i].0, v));
    if s.len() > 0 {
        if i == 0 {
            assert(s2.drop_first() =~= s.drop_first());
        } else {
            assert(s2[0] == s[0]);
            assert(s2.drop_first() =~= s.drop_first().update(i - 1, (s.drop_first()[i - 1].0, v)));
            lemma_find_tag_key_update(s.drop_first(), i - 1, v, key);
        }
    }
}

/// Appending a group shifts a missed lookup to the new entry and
/// leaves found ones alone.
proof fn lemma_find_tag_key_push<'a>(
    s: Seq<(String, Vec<ProvHolyday<'a>>)>,
    entry: (String, Vec<ProvHolyday<'a>>),
    key: Seq<char>,
)
    ensures
        find_tag_key(s.push(entry), key) == (if find_tag_key(s, key) >= 0 {
            find_tag_key(s, key)
        } else if entry.0@ == key {
            s.len() as int
        } else {
            -1int
        }),
    decreases s.len(),
{
    let s2 = s.push(entry);
    if s.len() == 0 {
        assert(s2[0] == entry);
        assert(s2.drop_first() =~= Seq::<(String, Vec<ProvHolyday<'a>>)>::empty());
        if entry.0@ != key {
            assert(find_tag_key(s2.drop_first(), key) == -1);
            assert(find_tag_key(s2, key) == -1);
        }
    } else {
        assert(s2[0] == s[0]);
        assert(s2.drop_first() =~= s.drop_first().push(entry));
        lemma_find_tag_key_push(s.drop_first(), entry, key);
        if s[0].0@ != key {
            assert(find_tag_key(s2, key) == (if find_tag_key(s2.drop_first(), key) == -1 {
                -1int
            } else {
                find_tag_key(s2.drop_first(), key) + 1
            }));
            assert(find_tag_key(s, key) == (if find_tag_key(s.drop_first(), key) == -1 {
                -1int
            } else {
                find_tag_key(s.drop_first(), key) + 1
            }));
        }
    }
}

/// The holy days of one province's calendar, grouped by tag, for
/// reports across provinces.
#[derive(Debug)]
pub struct ProvHolydaysByTag<'a> {
    /// the groups: one entry per tag seen
    pub phbt: Vec<(String, Vec<ProvHolyday<'a>>)>,
}

impl<'a> Default for ProvHolydaysByTag<'a> {
    /// An empty grouping.
    fn default() -> (r: Self)
        ensures
            r.phbt@ == Seq::<(String, Vec<ProvHolyday<'a>>)>::empty(),
    {
        ProvHolydaysByTag { phbt: Vec::new() }
    }
}

impl<'a> ProvHolydaysByTag<'a> {
    /// No two groups bear the same tag.
    pub open spec fn wf(self) -> bool {
        forall|i: int, j: int|
            0 <= i < j < self.phbt@.len() ==> (#[trigger] self.phbt@[i]).0@ != (
            #[trigger] self.phbt@[j]).0@
    }

    /// Load all the holy days of a calendar into the grouping, in the
    /// calendar's normal order. Each holy day joins the group of its
    /// tag, after anything already there.
    #[verifier::loop_isolation(false)]
    #[verifier::rlimit(100)]
    pub fn load_calendar(&mut self, cal: &'a Calendar)
        requires
            old(self).wf(),
        ensures
            final(self).wf(),
            ({
                let sorted = seq_sort_by(cal@, holyday_le_fn(HolydaySort::Normal));
                let pre = old(self).phbt@;
                let post = final(self).phbt@;
                &&& forall|i: int|
                    0 <= i < post.len() ==> {
                        let key = (#[trigger] post[i]).0@;
                        let before = find_tag_key(pre, key);
                        let kept = if before >= 0 {
                            provs_view(pre[before].1@)
                        } else {
                            Seq::empty()
                        };
                        provs_view(post[i].1@) == kept + sorted.filter(
                            |h: Holyday| h.tag@ == key,
                        ).map_values(|h: Holyday| (cal.province, h))
                    }
                &&& forall|key: Seq<char>|
                    (#[trigger] find_tag_key(post, key)) >= 0 <==> (find_tag_key(pre, key)
                        >= 0 || exists|j: int|
                        0 <= j < sorted.len() && (#[trigger] sorted[j]).tag@ == key)
            }),
    {
        let ghost pre = self.phbt@;
        let ghost sorted = seq_sort_by(cal@, holyday_le_fn(HolydaySort::Normal));
        let ghost tagp = |h: Holyday| (cal.province, h);
        let holydays = cal.get_holydays();
        let n = holydays.len();
        let mut ix: usize = 0;
        proof {
            assert(sorted.subrange(0, 0) =~= Seq::<Holyday>::empty());
            assert forall|i: int| 0 <= i < self.phbt@.len() implies {
                let key = (#[trigger] self.phbt@[i]).0@;
                let before = find_tag_key(pre, key);
                let kept = if before >= 0 {
                    provs_view(pre[before].1@)
                } else {
                    Seq::empty()
                };
                provs_view(self.phbt@[i].1@) == kept + sorted.subrange(0, 0).filter(
                    |h: Holyday| h.tag@ == key,
                ).map_values(tagp)
            } by {
                let key = self.phbt@[i].0@;
                lemma_find_tag_key_first(pre, i);
                reveal(Seq::filter);
                assert(sorted.subrange(0, 0).filter(|h: Holyday| h.tag@ == key)
                    =~= Seq::<Holyday>::empty());
                assert(provs_view(self.phbt@[i].1@) =~= provs_view(pre[i].1@)
                    + sorted.subrange(0, 0).filter(|h: Holyday| h.tag@ == key).map_values(
                    tagp,
                ));
            }
        }
        while ix < n
            invariant
                ix <= n,
                self.wf(),
                forall|i: int|
                    0 <= i < self.phbt@.len() ==> {
                        let key = (#[trigger] self.phbt@[i]).0@;
                        let before = find_tag_key(pre, key);
                        let kept = if before >= 0 {
                            provs_view(pre[before].1@)
                        } else {
                            Seq::empty()
                        };
                        provs_view(self.phbt@[i].1@) == kept + sorted.subrange(
                            0,
                            ix as int,
                        ).filter(|h: Holyday| h.tag@ == key).map_values(tagp)
                    },
                forall|key: Seq<char>|
                    (#[trigger] find_tag_key(self.phbt@, key)) >= 0 <==> (find_tag_key(
                        pre,
                        key,
                    ) >= 0 || exists|j: int|
                        0 <= j < ix && (#[trigger] sorted[j]).tag@ == key),
            decreases n - ix,
        {
            let hd: &Holyday = holydays[ix];
            proof {
                assert(holydays@.map_values(|hh: &Holyday| *hh)[ix as int] == sorted[ix as int]);
                assert(*hd == sorted[ix as int]);
            }
            let ph = ProvHolyday { province: cal.province, holyday: hd };
            let ghost cur = self.phbt@;
            proof {
                lemma_find_tag_key(cur, hd.tag@);
            }
            match self.find_group(hd.tag.as_str()) {
                Some(gi) => {
                    let mut g = self.phbt.remove(gi);
                    g.1.push(ph);
                    let ghost gv = g.1@;
                    self.phbt.insert(gi, g);
                    proof {
                        assert(self.phbt@ =~= cur.update(gi as int, (cur[gi as int].0, g.1)));
                        assert(provs_view(gv) =~= provs_view(cur[gi as int].1@).push(
                            prov_view(ph),
                        ));
                        assert forall|i: int| 0 <= i < self.phbt@.len() implies {
                            let key = (#[trigger] self.phbt@[i]).0@;
                            let before = find_tag_key(pre, key);
                            let kept = if before >= 0 {
                                provs_view(pre[before].1@)
                            } else {
                                Seq::empty()
                            };
                            provs_view(self.phbt@[i].1@) == kept + sorted.subrange(
                                0,
                                ix + 1,
                            ).filter(|h: Holyday| h.tag@ == key).map_values(tagp)
                        } by {
                            let key = self.phbt@[i].0@;
                            let fp = |h: Holyday| h.tag@ == key;
                            reveal(Seq::filter);
                            assert(sorted.subrange(0, ix + 1).drop_last() =~= sorted.subrange(
                                0,
                                ix as int,
                            ));
                            assert(sorted.subrange(0, ix + 1).last() == sorted[ix as int]);
                            if i == gi {
                                assert(key == hd.tag@);
                                assert(sorted.subrange(0, ix + 1).filter(fp)
                                    =~= sorted.subrange(0, ix as int).filter(fp).push(*hd));
                                let before = find_tag_key(pre, key);
                                let kept = if before >= 0 {
                                    provs_view(pre[before].1@)
                                } else {
                                    Seq::<(Province, Holyday)>::empty()
                                };
                                assert(provs_view(self.phbt@[i].1@) =~= kept + sorted.subrange(
                                    0,
                                    ix + 1,
                                ).filter(fp).map_values(tagp));
                            } else {
                                assert(self.phbt@[i] == cur[i]);
                                assert(key != hd.tag@);
                                assert(sorted.subrange(0, ix + 1).filter(fp) =~= sorted.subrange(
                                    0,
                                    ix as int,
                                ).filter(fp));
                            }
                        }
                        assert forall|key: Seq<char>|
                            (#[trigger] find_tag_key(self.phbt@, key)) >= 0 <==> (find_tag_key(
                                pre,
                                key,
                            ) >= 0 || exists|j: int|
                                0 <= j < ix + 1 && (#[trigger] sorted[j]).tag@ == key) by {
                            lemma_find_tag_key_update(cur, gi as int, g.1, key);
                            if key == hd.tag@ {
                                assert(sorted[ix as int].tag@ == key);
                            }
                            if find_tag_key(cur, key) >= 0 || (exists|j: int|
                                0 <= j < ix && (#[trigger] sorted[j]).tag@ == key) {
                            }
                        }
                    }
                },
                None => {
                    let mut g: Vec<ProvHolyday<'a>> = Vec::new();
                    g.push(ph);
                    let ghost gv = g@;
                    let entry = (hd.tag.clone(), g);
                    let ghost ev = entry;
                    self.phbt.push(entry);
                    proof {
                        assert(self.phbt@ =~= cur.push(ev));
                        assert(provs_view(gv) =~= Seq::<(Province, Holyday)>::empty().push(
                            prov_view(ph),
                        ));
                        assert forall|i: int| 0 <= i < self.phbt@.len() implies {
                            let key = (#[trigger] self.phbt@[i]).0@;
                            let before = find_tag_key(pre, key);
                            let kept = if before >= 0 {
                                provs_view(pre[before].1@)
                            } else {
                                Seq::empty()
                            };
                            provs_view(self.phbt@[i].1@) == kept + sorted.subrange(
                                0,
                                ix + 1,
                            ).filter(|h: Holyday| h.tag@ == key).map_values(tagp)
                        } by {
                            let key = self.phbt@[i].0@;
                            let fp = |h: Holyday| h.tag@ == key;
                            reveal(Seq::filter);
                            assert(sorted.subrange(0, ix + 1).drop_last() =~= sorted.subrange(
                                0,
                                ix as int,
                            ));
                            assert(sorted.subrange(0, ix + 1).last() == sorted[ix as int]);
                            if i == self.phbt@.len() - 1 {
                                assert(key == hd.tag@);
                                assert(find_tag_key(pre, key) == -1) by {
                                    lemma_find_tag_key(pre, key);
                                    if find_tag_key(pre, key) >= 0 {
                                        assert(find_tag_key(cur, key) >= 0);
                                    }
                                }
                                assert(sorted.subrange(0, ix as int).filter(fp)
                                    =~= Seq::<Holyday>::empty()) by {
                                    if sorted.subrange(0, ix as int).filter(fp).len() > 0 {
                                        lemma_filter_nonempty_exists(
                                            sorted.subrange(0, ix as int),
                                            fp,
                                        );
                                        let j = choose|j: int|
                                            0 <= j < ix && fp(
                                                #[trigger] sorted.subrange(0, ix as int)[j],
                                            );
                                        assert(sorted[j].tag@ == key);
                                        assert(find_tag_key(cur, key) >= 0);
                                    }
                                }
                                assert(sorted.subrange(0, ix + 1).filter(fp)
                                    =~= Seq::<Holyday>::empty().push(*hd));
                                assert(provs_view(self.phbt@[i].1@) =~= Seq::<
                                    (Province, Holyday),
                                >::empty() + sorted.subrange(0, ix + 1).filter(fp).map_values(
                                    tagp,
                                ));
                            } else {
                                assert(self.phbt@[i] == cur[i]);
                                assert(key != hd.tag@);
                                assert(sorted.subrange(0, ix + 1).filter(fp) =~= sorted.subrange(
                                    0,
                                    ix as int,
                                ).filter(fp));
                            }
                        }
                        assert forall|key: Seq<char>|
                            (#[trigger] find_tag_key(self.phbt@, key)) >= 0 <==> (find_tag_key(
                                pre,
                                key,
                            ) >= 0 || exists|j: int|
                                0 <= j < ix + 1 && (#[trigger] sorted[j]).tag@ == key) by {
                            lemma_find_tag_key_push(cur, ev, key);
                            if key == hd.tag@ {
                                assert(sorted[ix as int].tag@ == key);
                            }
                            if find_tag_key(cur, key) >= 0 || (exists|j: int|
                                0 <= j < ix && (#[trigger] sorted[j]).tag@ == key) {
                            }
                        }
                        assert forall|i: int, j: int|
                            0 <= i < j < self.phbt@.len() implies (#[trigger] self.phbt@[
                        i]).0@ != (#[trigger] self.phbt@[j]).0@ by {
                            if j == self.phbt@.len() - 1 {
                                assert(self.phbt@[i] == cur[i]);
                                lemma_find_tag_key(cur, self.phbt@[j].0@);
                            } else {
                                assert(self.phbt@[i] == cur[i]);
                                assert(self.phbt@[j] == cur[j]);
                            }
                        }
                    }
                },
            }
            ix = ix + 1;
        }
        proof {
            assert(sorted.subrange(0, n as int) =~= sorted);
        }
    }

    /// Index of the group of the given tag, if present.
    fn find_group(&self, key: &str) -> (r: Option<usize>)
        ensures
            match r {
                Some(i) => find_tag_key(self.phbt@, key@) == i as int && (i as int)
                    < self.phbt@.len(),
                None => find_tag_key(self.phbt@, key@) == -1,
            },
    {
        proof {
            lemma_find_tag_key(self.phbt@, key@);
        }
        let n = self.phbt.len();
        let mut i: usize = 0;
        while i < n
            invariant
                i <= n,
                n == self.phbt@.len(),
                forall|k: int| 0 <= k < i ==> (#[trigger] self.phbt@[k]).0@ != key@,
            decreases n - i,
        {
            let c = str_cmp_exec(self.phbt[i].0.as_str(), key);
            proof {
                lemma_str_cmp_eq(self.phbt@[i as int].0@, key@);
            }
            if c == 0 {
                proof {
                    lemma_find_tag_key(self.phbt@, key@);
                }
                return Some(i);
            }
            i = i + 1;
        }
        None
    }

    /// All the tags with holy days.
    pub fn tags(&self) -> (r: Vec<&String>)
        ensures
            r@.len() == self.phbt@.len(),
            forall|i: int| 0 <= i < r@.len() ==> *(#[trigger] r@[i]) == self.phbt@[i].0,
    {
        let mut keys: Vec<&String> = Vec::new();
        let n = self.phbt.len();
        let mut i: usize = 0;
        while i < n
            invariant
                i <= n,
                n == self.phbt@.len(),
                keys@.len() == i,
                forall|k: int| 0 <= k < i ==> *(#[trigger] keys@[k]) == self.phbt@[k].0,
            decreases n - i,
        {
            keys.push(&self.phbt[i].0);
            i = i + 1;
        }
        keys
    }

    /// The holy days grouped under a tag.
    pub fn by_tag(&self, tag: &str) -> (r: Option<&Vec<ProvHolyday<'a>>>)
        ensures
            find_tag_key(self.phbt@, tag@) >= 0 ==> (r matches Some(v) && v@
                == self.phbt@[find_tag_key(self.phbt@, tag@)].1@),
            find_tag_key(self.phbt@, tag@) == -1 ==> r is None,
    {
        match self.find_group(tag) {
            Some(i) => Some(&self.phbt[i].1),
            None => None,
        }
    }
}

} // verus!
