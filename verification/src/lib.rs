//! A terminology engine for Read v2 clinical codes: hierarchical code values,
//! code sets, a thesaurus of code descriptions, a small text-matching DSL for
//! building auditable term sets, and subtype classification over coded events.

pub mod idset;
pub mod ltcs;
pub mod range;
pub mod read2;
pub mod records;
pub mod subtypes;

pub use range::{Range, RangeSet, RangeSetCounts, RangeSetCountsWithMissing};
pub use idset::IdSet;
pub use ltcs::{date_y, Rule};
pub use read2::{CodeRubric, ParseError, ReadCode};
pub use subtypes::{CodeSubtypeMap, LymphomaSubtype, NonHodgkinSubtype};
pub use records::{biggest_gap, date_of_extract, CodeRubricCount, CodeRubricCounts, clone_event, clone_opt_string, clone_string, max_gap, Day, Event, Events, Imd, Patient, PatientId, Patients, Sex, DAY_1900_01_01, DAY_OF_EXTRACT};
