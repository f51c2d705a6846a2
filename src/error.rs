//! Why a record could not be read.

use vstd::prelude::*;

verus! {

/// A slot of the record grammar.
#[derive(Debug, Clone, Copy, PartialEq, Eq, Structural)]
pub enum Field {
    Day,
    Month,
    Year,
    LastName,
    Nickname,
    Birthday,
    SaintDay,
    WeddingDay,
    Begin,
    Date,
    Body,
}

#[derive(Debug, Clone, Copy, PartialEq, Eq, Structural)]
pub enum Error {
    /// Too few delimiters: the slot is missing.
    Missing(Field),
    /// One delimiter too many.
    Extra(char),
    /// The slot holds no number of the expected kind.
    Invalid(Field),
    NoDateFormat,
    NameRequired,
    BeginAfterEnd,
    NoHolidayFormat,
    UnknownKind,
}

/// The short reason given for an error.
pub open spec fn reason_of(e: Error) -> Seq<char> {
    match e {
        Error::Missing(f) => match f {
            Field::Day => "missing 'day' slot"@,
            Field::Month => "missing 'month' slot"@,
            Field::Year => "missing 'year' slot"@,
            Field::LastName => "missing 'last_name' slot"@,
            Field::Nickname => "missing 'nickname' slot"@,
            Field::Birthday => "missing 'birthday' slot"@,
            Field::SaintDay => "missing 'saint_day' slot"@,
            Field::WeddingDay => "missing 'wedding_day' slot"@,
            Field::Begin => "missing 'begin' slot"@,
            Field::Date => "missing 'date' slot"@,
            Field::Body => "missing 'event' slot"@,
        },
        Error::Extra(c) => if c == ',' {
            "extra ',' found"@
        } else if c == ';' {
            "extra ';' found"@
        } else {
            "extra '=' found"@
        },
        Error::Invalid(f) => match f {
            Field::Day => "failed to parse day"@,
            Field::Month => "failed to parse month"@,
            Field::Year => "failed to parse year"@,
            _ => "failed to parse number"@,
        },
        Error::NoDateFormat => "no Date format matched"@,
        Error::NameRequired => "at least first_name or nickname must be provided"@,
        Error::BeginAfterEnd => "begin is after end"@,
        Error::NoHolidayFormat => "no Holiday format matched"@,
        Error::UnknownKind => "no EventKind matched"@,
    }
}

impl Error {
    /// A short description of what went wrong.
    pub fn reason(&self) -> (r: &'static str)
        ensures
            r@ == reason_of(*self),
    {
        match self {
            Error::Missing(f) => match f {
                Field::Day => "missing 'day' slot",
                Field::Month => "missing 'month' slot",
                Field::Year => "missing 'year' slot",
                Field::LastName => "missing 'last_name' slot",
                Field::Nickname => "missing 'nickname' slot",
                Field::Birthday => "missing 'birthday' slot",
                Field::SaintDay => "missing 'saint_day' slot",
                Field::WeddingDay => "missing 'wedding_day' slot",
                Field::Begin => "missing 'begin' slot",
                Field::Date => "missing 'date' slot",
                Field::Body => "missing 'event' slot",
            },
            Error::Extra(c) => if *c == ',' {
                "extra ',' found"
            } else if *c == ';' {
                "extra ';' found"
            } else {
                "extra '=' found"
            },
            Error::Invalid(f) => match f {
                Field::Day => "failed to parse day",
                Field::Month => "failed to parse month",
                Field::Year => "failed to parse year",
                _ => "failed to parse number",
            },
            Error::NoDateFormat => "no Date format matched",
            Error::NameRequired => "at least first_name or nickname must be provided",
            Error::BeginAfterEnd => "begin is after end",
            Error::NoHolidayFormat => "no Holiday format matched",
            Error::UnknownKind => "no EventKind matched",
        }
    }
}

} // verus!
