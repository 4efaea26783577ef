/*! Core of a liturgical-calendar engine: year-independent holyday
descriptions are resolved to concrete dates for one year, applying the
transfer and clash rules of the tradition.

The crate is organised leaves-first:

* [`date`] — a plain Gregorian date type and its day-number arithmetic;
* [`order`] — string comparison and a stable insertion sort on
  sequences, with its exact specification;
* [`calendar`] — the year-independent data model: holydays, their
  classes, date expressions, transfer rules, and the tag-indexed store;
* [`year_calendar`] — the per-year anchors (Easter computus), the date
  resolver, and the clash/transfer resolution engine;
* [`tagfix`] — a remapping table for holyday tags used by several
  sources under different names.

Serialization, command-line handling and report rendering are left to
callers; the types here hold plain values only. */

pub mod calendar;
pub mod date;
pub mod order;
pub mod tagfix;
pub mod year_calendar;
