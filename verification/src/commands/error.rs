//! The errors that the commands report besides those of the schema.
use crate::models::schema::SchemaError;
use crate::text::{decimal, push_numeral};
use vstd::prelude::*;
use vstd::string::*;

verus! {

/// Why a command refused its arguments.
#[derive(Debug)]
pub enum CommandError {
    /// A lookup in the schema failed.
    Schema(SchemaError),
    /// `--show` was given with JSON output.
    ShowNeedsText,
    /// An output format other than `json` or `text`.
    UnknownFormat(String),
    /// A language other than `ko` or `en`.
    UnknownLanguage(String),
    /// `resume` found no mask to pick.
    NoMasks,
    /// `resume` found several masks and no default: the names, joined.
    AmbiguousMask(String),
    /// A bit index that the schema does not define.
    IndexNotDefined(u8),
    /// The number of values differs from the number of bits: (expected, got).
    ValueCount(usize, usize),
    /// A value that is not a boolean word.
    InvalidValue(String),
    /// The current time, which stamps an update, could not be read.
    ClockUnavailable,
}

impl CommandError {
    /// The text that describes the error.
    pub open spec fn text(self) -> Seq<char> {
        match self {
            CommandError::Schema(e) => e.text(),
            CommandError::ShowNeedsText => "--show can only be used with --format text"@,
            CommandError::UnknownFormat(f) => "unknown format '"@ + f@ + "': use json or text"@,
            CommandError::UnknownLanguage(l) => "unknown language '"@ + l@ + "': use ko or en"@,
            CommandError::NoMasks => "resume requires a mask, but the schema defines no masks"@,
            CommandError::AmbiguousMask(names) =>
                "resume requires --mask because the schema has multiple masks and no default_mask; available masks: "@
                + names@,
            CommandError::IndexNotDefined(i) => "bit index "@ + decimal(i as nat)
                + " not defined in schema"@,
            CommandError::ValueCount(expected, got) => "expected "@ + decimal(expected as nat)
                + " values, got "@ + decimal(got as nat),
            CommandError::InvalidValue(v) => "invalid value '"@ + v@
                + "': use true/false or 1/0"@,
            CommandError::ClockUnavailable => "system time before Unix epoch"@,
        }
    }

    /// The text that describes the error.
    pub fn message(&self) -> (r: String)
        ensures
            r@ == self.text(),
    {
        match self {
            CommandError::Schema(e) => e.message(),
            CommandError::ShowNeedsText => "--show can only be used with --format text".to_owned(),
            CommandError::UnknownFormat(f) => {
                let mut s = "unknown format '".to_owned();
                s.append(f.as_str());
                s.append("': use json or text");
                s
            },
            CommandError::UnknownLanguage(l) => {
                let mut s = "unknown language '".to_owned();
                s.append(l.as_str());
                s.append("': use ko or en");
                s
            },
            CommandError::NoMasks => "resume requires a mask, but the schema defines no masks".to_owned(),
            CommandError::AmbiguousMask(names) => {
                let mut s =
                    "resume requires --mask because the schema has multiple masks and no default_mask; available masks: ".to_owned();
                s.append(names.as_str());
                s
            },
            CommandError::IndexNotDefined(i) => {
                let mut s = "bit index ".to_owned();
                push_numeral(&mut s, *i as u64, 10);
                s.append(" not defined in schema");
                s
            },
            CommandError::ValueCount(expected, got) => {
                let mut s = "expected ".to_owned();
                push_numeral(&mut s, *expected as u64, 10);
                s.append(" values, got ");
                push_numeral(&mut s, *got as u64, 10);
                s
            },
            CommandError::InvalidValue(v) => {
                let mut s = "invalid value '".to_owned();
                s.append(v.as_str());
                s.append("': use true/false or 1/0");
                s
            },
            CommandError::ClockUnavailable => "system time before Unix epoch".to_owned(),
        }
    }
}

} // verus!
