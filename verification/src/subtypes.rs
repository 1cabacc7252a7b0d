//! Lymphoma subtype classification from coded events.
//!
//! A small closed taxonomy: unspecified lymphoma at the root, with Hodgkin
//! and non-Hodgkin below it, and the non-Hodgkin subtypes below an
//! unspecified non-Hodgkin node. A curated map assigns each (code, free
//! text) pair its most appropriate subtype. Classification allocates each
//! subject to every subtype their codes support, then removes them from the
//! unspecified buckets when a more specific diagnosis is present, so nobody
//! is counted twice within a branch.

use vstd::prelude::*;

use crate::idset::IdSet;
use crate::read2::{CodeRubric, ReadCode};
use crate::records::{Event, Events, PatientId};

verus! {

/// Subtypes of non-Hodgkin lymphoma observed in data.
#[derive(Debug, Clone, Copy, PartialEq, Eq, Structural)]
pub enum NonHodgkinSubtype {
    Unspecified,
    Small,
    Splenic,
    Lymphoplasmacytic,
    ExtraMarginal,
    Follicular,
    Mantle,
    DLBCL,
    Mediastinal,
    Burkitt,
    Nasal,
    SubcutaneousT,
    Peripheral,
    Angioimmunoblastic,
    AlkPos,
    AlkNeg,
}

/// The closed lymphoma taxonomy: unspecified lymphoma, Hodgkin lymphoma, or
/// a non-Hodgkin subtype.
#[derive(Debug, Clone, Copy, PartialEq, Eq, Structural)]
pub enum LymphomaSubtype {
    Unspecified,
    Hodgkin,
    NonHodgkin(NonHodgkinSubtype),
}

/// The position of a non-Hodgkin subtype in the fixed subtype order.
pub open spec fn spec_nh_rank(s: NonHodgkinSubtype) -> int {
    match s {
        NonHodgkinSubtype::Unspecified => 0,
        NonHodgkinSubtype::Small => 1,
        NonHodgkinSubtype::Splenic => 2,
        NonHodgkinSubtype::Lymphoplasmacytic => 3,
        NonHodgkinSubtype::ExtraMarginal => 4,
        NonHodgkinSubtype::Follicular => 5,
        NonHodgkinSubtype::Mantle => 6,
        NonHodgkinSubtype::DLBCL => 7,
        NonHodgkinSubtype::Mediastinal => 8,
        NonHodgkinSubtype::Burkitt => 9,
        NonHodgkinSubtype::Nasal => 10,
        NonHodgkinSubtype::SubcutaneousT => 11,
        NonHodgkinSubtype::Peripheral => 12,
        NonHodgkinSubtype::Angioimmunoblastic => 13,
        NonHodgkinSubtype::AlkPos => 14,
        NonHodgkinSubtype::AlkNeg => 15,
    }
}

/// The position of a subtype in the fixed subtype order: unspecified
/// lymphoma first, then Hodgkin, then the non-Hodgkin subtypes.
pub open spec fn spec_rank(s: LymphomaSubtype) -> int {
    match s {
        LymphomaSubtype::Unspecified => 0,
        LymphomaSubtype::Hodgkin => 1,
        LymphomaSubtype::NonHodgkin(nh) => 2 + spec_nh_rank(nh),
    }
}

/// The number of subtypes in the closed taxonomy.
pub const SUBTYPE_COUNT: usize = 18;

/// The subtype at a given position of the fixed order.
pub open spec fn spec_subtype_of_rank(rk: int) -> LymphomaSubtype {
    if rk == 0 {
        LymphomaSubtype::Unspecified
    } else if rk == 1 {
        LymphomaSubtype::Hodgkin
    } else if rk == 2 {
        LymphomaSubtype::NonHodgkin(NonHodgkinSubtype::Unspecified)
    } else if rk == 3 {
        LymphomaSubtype::NonHodgkin(NonHodgkinSubtype::Small)
    } else if rk == 4 {
        LymphomaSubtype::NonHodgkin(NonHodgkinSubtype::Splenic)
    } else if rk == 5 {
        LymphomaSubtype::NonHodgkin(NonHodgkinSubtype::Lymphoplasmacytic)
    } else if rk == 6 {
        LymphomaSubtype::NonHodgkin(NonHodgkinSubtype::ExtraMarginal)
    } else if rk == 7 {
        LymphomaSubtype::NonHodgkin(NonHodgkinSubtype::Follicular)
    } else if rk == 8 {
        LymphomaSubtype::NonHodgkin(NonHodgkinSubtype::Mantle)
    } else if rk == 9 {
        LymphomaSubtype::NonHodgkin(NonHodgkinSubtype::DLBCL)
    } else if rk == 10 {
        LymphomaSubtype::NonHodgkin(NonHodgkinSubtype::Mediastinal)
    } else if rk == 11 {
        LymphomaSubtype::NonHodgkin(NonHodgkinSubtype::Burkitt)
    } else if rk == 12 {
        LymphomaSubtype::NonHodgkin(NonHodgkinSubtype::Nasal)
    } else if rk == 13 {
        LymphomaSubtype::NonHodgkin(NonHodgkinSubtype::SubcutaneousT)
    } else if rk == 14 {
        LymphomaSubtype::NonHodgkin(NonHodgkinSubtype::Peripheral)
    } else if rk == 15 {
        LymphomaSubtype::NonHodgkin(NonHodgkinSubtype::Angioimmunoblastic)
    } else if rk == 16 {
        LymphomaSubtype::NonHodgkin(NonHodgkinSubtype::AlkPos)
    } else {
        LymphomaSubtype::NonHodgkin(NonHodgkinSubtype::AlkNeg)
    }
}

/// Rank and subtype-of-rank are inverse to each other.
pub proof fn lemma_rank_inverse(st: LymphomaSubtype)
    ensures
        0 <= spec_rank(st) < 18,
        spec_subtype_of_rank(spec_rank(st)) == st,
{
}

impl LymphomaSubtype {
    /// Is `other` a (strictly) more general classification than `self`?
    /// Everything but itself is a subtype of unspecified lymphoma; every
    /// named non-Hodgkin subtype is a subtype of unspecified non-Hodgkin;
    /// nothing else is related.
    pub open spec fn spec_is_subtype_of(self, other: LymphomaSubtype) -> bool {
        match (self, other) {
            (LymphomaSubtype::Unspecified, LymphomaSubtype::Unspecified) => false,
            (_, LymphomaSubtype::Unspecified) => true,
            (
                LymphomaSubtype::NonHodgkin(x),
                LymphomaSubtype::NonHodgkin(NonHodgkinSubtype::Unspecified),
            ) => !(x is Unspecified),
            _ => false,
        }
    }

    /// Whether `self` is a more specific diagnosis than `other`.
    pub fn is_subtype_of(&self, other: &LymphomaSubtype) -> (r: bool)
        ensures
            r == self.spec_is_subtype_of(*other),
    {
        match (self, other) {
            (LymphomaSubtype::Unspecified, LymphomaSubtype::Unspecified) => false,
            (_, LymphomaSubtype::Unspecified) => true,
            (
                LymphomaSubtype::NonHodgkin(x),
                LymphomaSubtype::NonHodgkin(NonHodgkinSubtype::Unspecified),
            ) => !matches!(x, NonHodgkinSubtype::Unspecified),
            _ => false,
        }
    }

    /// The position of this subtype in the fixed order.
    pub fn rank(&self) -> (r: usize)
        ensures
            r == spec_rank(*self),
    {
        match self {
            LymphomaSubtype::Unspecified => 0,
            LymphomaSubtype::Hodgkin => 1,
            LymphomaSubtype::NonHodgkin(nh) => match nh {
                NonHodgkinSubtype::Unspecified => 2,
                NonHodgkinSubtype::Small => 3,
                NonHodgkinSubtype::Splenic => 4,
                NonHodgkinSubtype::Lymphoplasmacytic => 5,
                NonHodgkinSubtype::ExtraMarginal => 6,
                NonHodgkinSubtype::Follicular => 7,
                NonHodgkinSubtype::Mantle => 8,
                NonHodgkinSubtype::DLBCL => 9,
                NonHodgkinSubtype::Mediastinal => 10,
                NonHodgkinSubtype::Burkitt => 11,
                NonHodgkinSubtype::Nasal => 12,
                NonHodgkinSubtype::SubcutaneousT => 13,
                NonHodgkinSubtype::Peripheral => 14,
                NonHodgkinSubtype::Angioimmunoblastic => 15,
                NonHodgkinSubtype::AlkPos => 16,
                NonHodgkinSubtype::AlkNeg => 17,
            },
        }
    }
}

/// The subtype at a given position of the fixed order.
pub fn subtype_of_rank(rk: usize) -> (r: LymphomaSubtype)
    requires
        rk < 18,
    ensures
        r == spec_subtype_of_rank(rk as int),
{
    if rk == 0 {
        LymphomaSubtype::Unspecified
    } else if rk == 1 {
        LymphomaSubtype::Hodgkin
    } else if rk == 2 {
        LymphomaSubtype::NonHodgkin(NonHodgkinSubtype::Unspecified)
    } else if rk == 3 {
        LymphomaSubtype::NonHodgkin(NonHodgkinSubtype::Small)
    } else if rk == 4 {
        LymphomaSubtype::NonHodgkin(NonHodgkinSubtype::Splenic)
    } else if rk == 5 {
        LymphomaSubtype::NonHodgkin(NonHodgkinSubtype::Lymphoplasmacytic)
    } else if rk == 6 {
        LymphomaSubtype::NonHodgkin(NonHodgkinSubtype::ExtraMarginal)
    } else if rk == 7 {
        LymphomaSubtype::NonHodgkin(NonHodgkinSubtype::Follicular)
    } else if rk == 8 {
        LymphomaSubtype::NonHodgkin(NonHodgkinSubtype::Mantle)
    } else if rk == 9 {
        LymphomaSubtype::NonHodgkin(NonHodgkinSubtype::DLBCL)
    } else if rk == 10 {
        LymphomaSubtype::NonHodgkin(NonHodgkinSubtype::Mediastinal)
    } else if rk == 11 {
        LymphomaSubtype::NonHodgkin(NonHodgkinSubtype::Burkitt)
    } else if rk == 12 {
        LymphomaSubtype::NonHodgkin(NonHodgkinSubtype::Nasal)
    } else if rk == 13 {
        LymphomaSubtype::NonHodgkin(NonHodgkinSubtype::SubcutaneousT)
    } else if rk == 14 {
        LymphomaSubtype::NonHodgkin(NonHodgkinSubtype::Peripheral)
    } else if rk == 15 {
        LymphomaSubtype::NonHodgkin(NonHodgkinSubtype::Angioimmunoblastic)
    } else if rk == 16 {
        LymphomaSubtype::NonHodgkin(NonHodgkinSubtype::AlkPos)
    } else {
        LymphomaSubtype::NonHodgkin(NonHodgkinSubtype::AlkNeg)
    }
}

/// Whether two strings hold the same characters.
pub fn str_eq(a: &str, b: &str) -> (r: bool)
    ensures
        r == (a@ == b@),
{
    let n = a.unicode_len();
    let m = b.unicode_len();
    if n != m {
        return false;
    }
    let mut i: usize = 0;
    while i < n
        invariant
            0 <= i <= n,
            n == a@.len(),
            n == b@.len(),
            forall|j: int| 0 <= j < i ==> a@[j] == b@[j],
        decreases n - i,
    {
        if a.get_char(i) != b.get_char(i) {
            proof {
                assert(a@[i as int] != b@[i as int]);
            }
            return false;
        }
        i += 1;
    }
    proof {
        assert(a@ =~= b@);
    }
    true
}

/// The non-Hodgkin subtype named by a short code word.
pub open spec fn spec_nh_from_code(s: Seq<char>) -> Option<NonHodgkinSubtype> {
    if s == "nonhodgkin"@ {
        Some(NonHodgkinSubtype::Unspecified)
    } else if s == "small"@ {
        Some(NonHodgkinSubtype::Small)
    } else if s == "splenic"@ {
        Some(NonHodgkinSubtype::Splenic)
    } else if s == "lymphoplasmacytic"@ {
        Some(NonHodgkinSubtype::Lymphoplasmacytic)
    } else if s == "extra_marginal"@ {
        Some(NonHodgkinSubtype::ExtraMarginal)
    } else if s == "follicular"@ {
        Some(NonHodgkinSubtype::Follicular)
    } else if s == "mantle"@ {
        Some(NonHodgkinSubtype::Mantle)
    } else if s == "dlbcl"@ {
        Some(NonHodgkinSubtype::DLBCL)
    } else if s == "mediastinal"@ {
        Some(NonHodgkinSubtype::Mediastinal)
    } else if s == "burkitt"@ {
        Some(NonHodgkinSubtype::Burkitt)
    } else if s == "nasal"@ {
        Some(NonHodgkinSubtype::Nasal)
    } else if s == "subcutaneous_t"@ {
        Some(NonHodgkinSubtype::SubcutaneousT)
    } else if s == "peripheral"@ {
        Some(NonHodgkinSubtype::Peripheral)
    } else if s == "angioimmunoblastic"@ {
        Some(NonHodgkinSubtype::Angioimmunoblastic)
    } else if s == "alk_pos"@ {
        Some(NonHodgkinSubtype::AlkPos)
    } else if s == "alk_neg"@ {
        Some(NonHodgkinSubtype::AlkNeg)
    } else {
        None
    }
}

/// The subtype named by a short code word: `lymphoma`, `hodgkin`, or a
/// non-Hodgkin code word.
pub open spec fn spec_subtype_from_code(s: Seq<char>) -> Option<LymphomaSubtype> {
    if s == "lymphoma"@ {
        Some(LymphomaSubtype::Unspecified)
    } else if s == "hodgkin"@ {
        Some(LymphomaSubtype::Hodgkin)
    } else {
        match spec_nh_from_code(s) {
            Some(x) => Some(LymphomaSubtype::NonHodgkin(x)),
            None => None,
        }
    }
}

impl NonHodgkinSubtype {
    /// Parse a non-Hodgkin subtype from its short code word.
    pub fn from_str(input: &str) -> (r: Result<NonHodgkinSubtype, crate::read2::ParseError>)
        ensures
            match spec_nh_from_code(input@) {
                Some(v) => r == Ok::<NonHodgkinSubtype, crate::read2::ParseError>(v),
                None => r == Err::<NonHodgkinSubtype, crate::read2::ParseError>(
                    crate::read2::ParseError::InvalidFormat),
            },
    {
        if str_eq(input, "nonhodgkin") {
            Ok(NonHodgkinSubtype::Unspecified)
        } else if str_eq(input, "small") {
            Ok(NonHodgkinSubtype::Small)
        } else if str_eq(input, "splenic") {
            Ok(NonHodgkinSubtype::Splenic)
        } else if str_eq(input, "lymphoplasmacytic") {
            Ok(NonHodgkinSubtype::Lymphoplasmacytic)
        } else if str_eq(input, "extra_marginal") {
            Ok(NonHodgkinSubtype::ExtraMarginal)
        } else if str_eq(input, "follicular") {
            Ok(NonHodgkinSubtype::Follicular)
        } else if str_eq(input, "mantle") {
            Ok(NonHodgkinSubtype::Mantle)
        } else if str_eq(input, "dlbcl") {
            Ok(NonHodgkinSubtype::DLBCL)
        } else if str_eq(input, "mediastinal") {
            Ok(NonHodgkinSubtype::Mediastinal)
        } else if str_eq(input, "burkitt") {
            Ok(NonHodgkinSubtype::Burkitt)
        } else if str_eq(input, "nasal") {
            Ok(NonHodgkinSubtype::Nasal)
        } else if str_eq(input, "subcutaneous_t") {
            Ok(NonHodgkinSubtype::SubcutaneousT)
        } else if str_eq(input, "peripheral") {
            Ok(NonHodgkinSubtype::Peripheral)
        } else if str_eq(input, "angioimmunoblastic") {
            Ok(NonHodgkinSubtype::Angioimmunoblastic)
        } else if str_eq(input, "alk_pos") {
            Ok(NonHodgkinSubtype::AlkPos)
        } else if str_eq(input, "alk_neg") {
            Ok(NonHodgkinSubtype::AlkNeg)
        } else {
            Err(crate::read2::ParseError::InvalidFormat)
        }
    }

    /// The short code word for this subtype.
    pub fn code(&self) -> (r: &'static str) {
        match self {
            NonHodgkinSubtype::Unspecified => "unspecified",
            NonHodgkinSubtype::Small => "small",
            NonHodgkinSubtype::Splenic => "splenic",
            NonHodgkinSubtype::Lymphoplasmacytic => "lymphoplasmacytic",
            NonHodgkinSubtype::ExtraMarginal => "extra_marginal",
            NonHodgkinSubtype::Follicular => "follicular",
            NonHodgkinSubtype::Mantle => "mantle",
            NonHodgkinSubtype::DLBCL => "dlbcl",
            NonHodgkinSubtype::Mediastinal => "mediastinal",
            NonHodgkinSubtype::Burkitt => "burkitt",
            NonHodgkinSubtype::Nasal => "nasal",
            NonHodgkinSubtype::SubcutaneousT => "subcutaneous_t",
            NonHodgkinSubtype::Peripheral => "peripheral",
            NonHodgkinSubtype::Angioimmunoblastic => "angioimmunoblastic",
            NonHodgkinSubtype::AlkPos => "alk_pos",
            NonHodgkinSubtype::AlkNeg => "alk_neg",
        }
    }

    /// A human-readable label for the subtype. The text for the named
    /// subtypes follows the 2016 WHO classification of non-Hodgkin
    /// lymphomas.
    pub fn label(&self) -> (r: &'static str) {
        match self {
            NonHodgkinSubtype::Unspecified => "non-Hodgkin lymphoma (unspecified)",
            NonHodgkinSubtype::Small => "Small lymphocytic lymphoma/chronic lymphocytic leukaemia",
            NonHodgkinSubtype::Splenic => "Splenic marginal zone lymphoma",
            NonHodgkinSubtype::Lymphoplasmacytic => "Lymphoplasmacytic lymphoma",
            NonHodgkinSubtype::ExtraMarginal => "Extranodal marginal zone lymphoma of mucosa-associated lymphoid",
            NonHodgkinSubtype::Follicular => "Follicular lymphoma",
            NonHodgkinSubtype::Mantle => "Mantle cell lymphoma",
            NonHodgkinSubtype::DLBCL => "Diffuse large B-cell lymphoma (DLBCL)",
            NonHodgkinSubtype::Mediastinal => "Primary mediastinal (thymic) large B-cell lymphoma",
            NonHodgkinSubtype::Burkitt => "Burkitt lymphoma",
            NonHodgkinSubtype::Nasal => "Extranodal NK/T-cell lymphoma, nasal type",
            NonHodgkinSubtype::SubcutaneousT => "Subcutaneous T-cell lymphoma",
            NonHodgkinSubtype::Peripheral => "Peripheral T-cell lymphoma",
            NonHodgkinSubtype::Angioimmunoblastic => "Angioimmunoblastic T-cell lymphoma",
            NonHodgkinSubtype::AlkPos => "Anaplastic large-cell lymphoma, ALK positive",
            NonHodgkinSubtype::AlkNeg => "Anaplastic large-cell lymphoma, ALK negative",
        }
    }
}

impl LymphomaSubtype {
    /// Parse a subtype from its short code word.
    pub fn from_str(input: &str) -> (r: Result<LymphomaSubtype, crate::read2::ParseError>)
        ensures
            match spec_subtype_from_code(input@) {
                Some(v) => r == Ok::<LymphomaSubtype, crate::read2::ParseError>(v),
                None => r == Err::<LymphomaSubtype, crate::read2::ParseError>(
                    crate::read2::ParseError::InvalidFormat),
            },
    {
        if str_eq(input, "lymphoma") {
            Ok(LymphomaSubtype::Unspecified)
        } else if str_eq(input, "hodgkin") {
            Ok(LymphomaSubtype::Hodgkin)
        } else {
            match NonHodgkinSubtype::from_str(input) {
                Ok(x) => Ok(LymphomaSubtype::NonHodgkin(x)),
                Err(e) => Err(e),
            }
        }
    }

    /// The short code word for this subtype.
    pub fn code(&self) -> (r: &'static str) {
        match self {
            LymphomaSubtype::Unspecified => "lymphoma",
            LymphomaSubtype::Hodgkin => "hodgkin",
            LymphomaSubtype::NonHodgkin(subtype) => subtype.code(),
        }
    }

    /// A human-readable label for the subtype.
    pub fn label(&self) -> (r: &'static str) {
        match self {
            LymphomaSubtype::Unspecified => "Lymphoma (unspecified)",
            LymphomaSubtype::Hodgkin => "Hodgkin lymphoma",
            LymphomaSubtype::NonHodgkin(subtype) => subtype.label(),
        }
    }
}

/// A named non-Hodgkin subtype (anything non-Hodgkin but the unspecified
/// node).
pub open spec fn spec_is_specific_nh(st: LymphomaSubtype) -> bool {
    match st {
        LymphomaSubtype::NonHodgkin(x) => !(x is Unspecified),
        _ => false,
    }
}

/// One curated map entry: a code/free-text pair and its assigned subtype.
pub type SubtypeEntry = (CodeRubric, LymphomaSubtype);

/// The subtype assigned to a code/free-text pair, by first matching entry.
pub open spec fn spec_lookup(entries: Seq<SubtypeEntry>, code: ReadCode, rubric: Seq<char>)
    -> Option<LymphomaSubtype>
    decreases entries.len(),
{
    if entries.len() == 0 {
        None
    } else if entries.first().0.code == code && entries.first().0.rubric@ == rubric {
        Some(entries.first().1)
    } else {
        spec_lookup(entries.drop_first(), code, rubric)
    }
}

/// The subjects having at least one event whose code/free-text pair the map
/// assigns to this subtype.
pub open spec fn spec_raw_ids(map: Seq<SubtypeEntry>, events: Seq<Event>, st: LymphomaSubtype)
    -> Set<PatientId> {
    Set::new(|id: PatientId| exists|k: int| 0 <= k < events.len()
        && (#[trigger] events[k]).patient_id == id && spec_lookup(
        map, events[k].read_code, events[k].rubric@) == Some(st))
}

/// Whether any subject at all has an event mapped to this subtype.
pub open spec fn spec_has_raw(map: Seq<SubtypeEntry>, events: Seq<Event>, st: LymphomaSubtype)
    -> bool {
    exists|id: PatientId| #[trigger] spec_raw_ids(map, events, st).contains(id)
}

/// The subjects with an event mapped to some named non-Hodgkin subtype.
pub open spec fn spec_nh_specific_ids(map: Seq<SubtypeEntry>, events: Seq<Event>)
    -> Set<PatientId> {
    Set::new(|id: PatientId| exists|st: LymphomaSubtype| spec_is_specific_nh(st)
        && #[trigger] spec_raw_ids(map, events, st).contains(id))
}

/// The subjects with an event mapped to anything but unspecified lymphoma.
pub open spec fn spec_nonunspec_ids(map: Seq<SubtypeEntry>, events: Seq<Event>)
    -> Set<PatientId> {
    Set::new(|id: PatientId| exists|st: LymphomaSubtype| st != LymphomaSubtype::Unspecified
        && #[trigger] spec_raw_ids(map, events, st).contains(id))
}

/// The subjects with at least one mapped event at all.
pub open spec fn spec_all_mapped_ids(map: Seq<SubtypeEntry>, events: Seq<Event>)
    -> Set<PatientId> {
    Set::new(|id: PatientId| exists|k: int| 0 <= k < events.len()
        && (#[trigger] events[k]).patient_id == id && spec_lookup(
        map, events[k].read_code, events[k].rubric@) is Some)
}

/// The final per-subtype subject set: subjects leave the unspecified
/// non-Hodgkin bucket when a named non-Hodgkin subtype also covers them, and
/// leave the unspecified lymphoma bucket when anything else covers them.
pub open spec fn spec_bucket(map: Seq<SubtypeEntry>, events: Seq<Event>, st: LymphomaSubtype)
    -> Set<PatientId> {
    if st == LymphomaSubtype::Unspecified {
        spec_raw_ids(map, events, st).difference(spec_nonunspec_ids(map, events))
    } else if st == LymphomaSubtype::NonHodgkin(NonHodgkinSubtype::Unspecified) {
        spec_raw_ids(map, events, st).difference(spec_nh_specific_ids(map, events))
    } else {
        spec_raw_ids(map, events, st)
    }
}

/// The manually curated mapping from (code, free text) pairs to subtypes.
#[derive(Debug)]
pub struct CodeSubtypeMap {
    entries: Vec<SubtypeEntry>,
}

impl View for CodeSubtypeMap {
    type V = Seq<SubtypeEntry>;

    closed spec fn view(&self) -> Seq<SubtypeEntry> {
        self.entries@
    }
}

impl CodeSubtypeMap {
    /// An empty map.
    pub fn new() -> (r: CodeSubtypeMap)
        ensures
            r@ =~= Seq::<SubtypeEntry>::empty(),
    {
        CodeSubtypeMap { entries: Vec::new() }
    }

    /// Add one curated entry. A later entry never shadows an earlier one for
    /// the same pair: lookups take the first match.
    pub fn push(&mut self, code_rubric: CodeRubric, subtype: LymphomaSubtype)
        ensures
            final(self)@ == old(self)@.push((code_rubric, subtype)),
    {
        self.entries.push((code_rubric, subtype));
    }

    pub fn len(&self) -> (r: usize)
        ensures
            r == self@.len(),
    {
        self.entries.len()
    }

    /// The curated entries, in order.
    pub fn iter(&self) -> (r: &Vec<SubtypeEntry>)
        ensures
            r@ == self@,
    {
        &self.entries
    }

    /// The subtype assigned to a code/free-text pair.
    pub fn get(&self, code_rubric: &CodeRubric) -> (r: Option<LymphomaSubtype>)
        ensures
            r == spec_lookup(self@, code_rubric.code, code_rubric.rubric@),
    {
        self.lookup(code_rubric.code, &code_rubric.rubric)
    }

    /// The subtype assigned to a code and its free text.
    pub fn lookup(&self, code: ReadCode, rubric: &String) -> (r: Option<LymphomaSubtype>)
        ensures
            r == spec_lookup(self@, code, rubric@),
    {
        let n = self.entries.len();
        let mut i: usize = 0;
        proof {
            assert(self@.subrange(0, n as int) =~= self@);
        }
        while i < n
            invariant
                0 <= i <= n,
                n == self@.len(),
                spec_lookup(self@, code, rubric@) == spec_lookup(
                    self@.subrange(i as int, n as int), code, rubric@),
            decreases n - i,
        {
            proof {
                let suffix = self@.subrange(i as int, n as int);
                assert(suffix.first() == self@[i as int]);
                assert(suffix.drop_first() =~= self@.subrange(i + 1, n as int));
            }
            let e = &self.entries[i];
            if e.0.code == code && e.0.rubric == *rubric {
                return Some(e.1);
            }
            i += 1;
        }
        proof {
            assert(self@.subrange(n as int, n as int) =~= Seq::<SubtypeEntry>::empty());
        }
        None
    }
}

impl CodeSubtypeMap {
    /// Classify the subjects of the events by lymphoma subtype. Every
    /// subject lands in the bucket of each subtype their mapped events
    /// support; subjects with a named non-Hodgkin subtype then leave the
    /// unspecified non-Hodgkin bucket, and subjects with any specific
    /// diagnosis leave the unspecified lymphoma bucket. The two unspecified
    /// buckets are always present (possibly empty); any other bucket is
    /// present exactly when some subject supports it.
    pub fn classify(&self, events: &Events) -> (r: Vec<(LymphomaSubtype, IdSet)>)
        ensures
            // buckets come in ascending subtype order, keys unique
            forall|i: int, j: int| 0 <= i < j < r@.len() ==> spec_rank((#[trigger] r@[i]).0)
                < spec_rank((#[trigger] r@[j]).0),
            // each bucket holds exactly the subjects of its subtype, after
            // the two exclusion passes
            forall|i: int| 0 <= i < r@.len() ==> (#[trigger] r@[i]).1.wf()
                && r@[i].1.to_set() =~= spec_bucket(self@, events@, r@[i].0),
            // which subtypes appear
            forall|st: LymphomaSubtype| (exists|i: int| 0 <= i < r@.len()
                && (#[trigger] r@[i]).0 == st) <==> (st == LymphomaSubtype::Unspecified
                || st == LymphomaSubtype::NonHodgkin(NonHodgkinSubtype::Unspecified)
                || #[trigger] spec_has_raw(self@, events@, st)),
            // every counted subject has at least one mapped event
            forall|i: int| 0 <= i < r@.len() ==> (#[trigger] r@[i]).1.to_set().subset_of(
                spec_all_mapped_ids(self@, events@)),
            // nobody stays in the unspecified lymphoma bucket while also
            // appearing in any other bucket
            forall|i: int, j: int| 0 <= i < r@.len() && 0 <= j < r@.len() && i != j
                && (#[trigger] r@[i]).0 == LymphomaSubtype::Unspecified
                ==> r@[i].1.to_set().disjoint((#[trigger] r@[j]).1.to_set()),
    {
        let evs = events.iter();
        let n = evs.len();
        // raw per-subtype buckets, indexed by rank
        let mut buckets: Vec<IdSet> = Vec::new();
        while buckets.len() < 18
            invariant
                buckets@.len() <= 18,
                forall|rk: int| 0 <= rk < buckets@.len() ==> (#[trigger] buckets@[rk]).wf()
                    && buckets@[rk].to_set() =~= Set::<PatientId>::empty(),
            decreases 18 - buckets@.len(),
        {
            buckets.push(IdSet::new());
        }
        proof {
            assert(events@.take(0) =~= Seq::<Event>::empty());
            assert forall|rk: int| 0 <= rk < 18 implies (#[trigger] buckets@[rk]).to_set() =~=
                spec_raw_ids(self@, events@.take(0), spec_subtype_of_rank(rk)) by {
                assert forall|id: PatientId| !spec_raw_ids(self@, events@.take(0),
                    spec_subtype_of_rank(rk)).contains(id) by {
                    if spec_raw_ids(self@, events@.take(0), spec_subtype_of_rank(rk)).contains(
                        id) {
                        let k = choose|k: int| 0 <= k < events@.take(0).len()
                            && (#[trigger] events@.take(0)[k]).patient_id == id;
                    }
                }
            }
        }
        let mut k: usize = 0;
        while k < n
            invariant
                0 <= k <= n,
                n == events@.len(),
                evs@ == events@,
                buckets@.len() == 18,
                forall|rk: int| 0 <= rk < 18 ==> (#[trigger] buckets@[rk]).wf()
                    && buckets@[rk].to_set() =~= spec_raw_ids(self@, events@.take(
                    k as int), spec_subtype_of_rank(rk)),
            decreases n - k,
        {
            let e = &evs[k];
            proof {
                assert(evs@[k as int] == events@[k as int]);
            }
            let looked = self.lookup(e.read_code, &e.rubric);
            proof {
                lemma_raw_step(self@, events@, k as int, looked);
            }
            match looked {
                Some(st) => {
                    let rk = st.rank();
                    proof {
                        lemma_rank_inverse(st);
                    }
                    let ghost buckets0 = buckets@;
                    let mut b = buckets.remove(rk);
                    b.insert(e.patient_id);
                    buckets.insert(rk, b);
                    proof {
                        assert forall|q: int| 0 <= q < 18 implies #[trigger] buckets@[q] == (
                            if q == rk as int {
                            b
                        } else {
                            buckets0[q]
                        }) by {}
                        assert forall|q: int| 0 <= q < 18 implies (#[trigger] buckets@[q]).wf()
                            && buckets@[q].to_set() =~= spec_raw_ids(self@, events@.take(
                            k + 1), spec_subtype_of_rank(q)) by {
                            if q == rk as int {
                                assert(buckets@[q].to_set() =~= buckets0[q].to_set().insert(
                                    events@[k as int].patient_id));
                            }
                        }
                    }
                },
                None => {
                },
            }
            k += 1;
        }
        proof {
            assert(events@.take(n as int) =~= events@);
        }
        // exclusion sets: named non-Hodgkin subjects, and all specific
        // subjects
        let mut nh_specific = IdSet::new();
        let mut rk: usize = 3;
        while rk < 18
            invariant
                3 <= rk <= 18,
                buckets@.len() == 18,
                forall|q: int| 0 <= q < 18 ==> (#[trigger] buckets@[q]).wf()
                    && buckets@[q].to_set() =~= spec_raw_ids(self@, events@,
                    spec_subtype_of_rank(q)),
                nh_specific.wf(),
                nh_specific.to_set() =~= Set::new(|id: PatientId| exists|q: int| 3 <= q < rk
                    && #[trigger] spec_raw_ids(self@, events@, spec_subtype_of_rank(q)).contains(
                    id)),
            decreases 18 - rk,
        {
            let ghost acc0 = nh_specific.to_set();
            nh_specific = nh_specific.union(&buckets[rk]);
            proof {
                assert forall|id: PatientId| nh_specific.to_set().contains(id) implies exists|
                    q: int| 3 <= q < rk + 1 && #[trigger] spec_raw_ids(self@, events@,
                    spec_subtype_of_rank(q)).contains(id) by {
                    if acc0.contains(id) {
                        let q = choose|q: int| 3 <= q < rk && #[trigger] spec_raw_ids(
                            self@, events@, spec_subtype_of_rank(q)).contains(id);
                        assert(3 <= q < rk + 1 && spec_raw_ids(self@, events@,
                            spec_subtype_of_rank(q)).contains(id));
                    } else {
                        assert(spec_raw_ids(self@, events@, spec_subtype_of_rank(
                            rk as int)).contains(id));
                    }
                }
                assert forall|id: PatientId| (exists|q: int| 3 <= q < rk + 1
                    && #[trigger] spec_raw_ids(self@, events@, spec_subtype_of_rank(q)).contains(
                    id)) implies nh_specific.to_set().contains(id) by {
                    let q = choose|q: int| 3 <= q < rk + 1 && #[trigger] spec_raw_ids(
                        self@, events@, spec_subtype_of_rank(q)).contains(id);
                    if q < rk {
                        assert(acc0.contains(id));
                    } else {
                        assert(buckets@[rk as int].to_set().contains(id));
                    }
                }
                assert(nh_specific.to_set() =~= Set::new(|id: PatientId| exists|q: int|
                    3 <= q < rk + 1 && #[trigger] spec_raw_ids(self@, events@,
                    spec_subtype_of_rank(q)).contains(id)));
            }
            rk += 1;
        }
        proof {
            lemma_rank_union(self@, events@, nh_specific.to_set(), 3);
        }
        let mut others = nh_specific.union(&buckets[1]);
        others = others.union(&buckets[2]);
        proof {
            assert(others.to_set() =~= spec_nonunspec_ids(self@, events@)) by {
                assert forall|id: PatientId| others.to_set().contains(id) implies
                    spec_nonunspec_ids(self@, events@).contains(id) by {
                    if nh_specific.to_set().contains(id) {
                        let st = choose|st: LymphomaSubtype| spec_is_specific_nh(st)
                            && #[trigger] spec_raw_ids(self@, events@, st).contains(id);
                        assert(st != LymphomaSubtype::Unspecified);
                    } else if buckets@[1].to_set().contains(id) {
                        assert(spec_raw_ids(self@, events@, LymphomaSubtype::Hodgkin).contains(
                            id));
                    } else {
                        assert(spec_raw_ids(self@, events@, LymphomaSubtype::NonHodgkin(
                            NonHodgkinSubtype::Unspecified)).contains(id));
                    }
                }
                assert forall|id: PatientId| spec_nonunspec_ids(self@, events@).contains(id)
                    implies others.to_set().contains(id) by {
                    let st = choose|st: LymphomaSubtype| st != LymphomaSubtype::Unspecified
                        && #[trigger] spec_raw_ids(self@, events@, st).contains(id);
                    lemma_rank_inverse(st);
                    if st == LymphomaSubtype::Hodgkin {
                        assert(buckets@[1].to_set().contains(id));
                    } else if st == LymphomaSubtype::NonHodgkin(NonHodgkinSubtype::Unspecified) {
                        assert(buckets@[2].to_set().contains(id));
                    } else {
                        assert(spec_is_specific_nh(st));
                        assert(nh_specific.to_set().contains(id));
                    }
                }
            }
        }
        // the exclusion passes
        let b2 = buckets[2].difference(&nh_specific);
        let b0 = buckets[0].difference(&others);
        let ghost old_buckets = buckets@;
        let mut bx = buckets.remove(2);
        buckets.insert(2, b2);
        bx = buckets.remove(0);
        buckets.insert(0, b0);
        proof {
            assert forall|q: int| 0 <= q < 18 implies (#[trigger] buckets@[q]).wf()
                && buckets@[q].to_set() =~= spec_bucket(self@, events@, spec_subtype_of_rank(q))
                by {
                if q == 0 {
                    assert(buckets@[0] == b0);
                } else if q == 2 {
                    assert(buckets@[2] == b2);
                } else {
                    assert(buckets@[q] == old_buckets[q]);
                    assert(spec_subtype_of_rank(q) != LymphomaSubtype::Unspecified);
                    assert(spec_subtype_of_rank(q) != LymphomaSubtype::NonHodgkin(
                        NonHodgkinSubtype::Unspecified));
                }
            }
        }
        // assemble the output, in rank order
        let mut out: Vec<(LymphomaSubtype, IdSet)> = Vec::new();
        let mut q: usize = 0;
        while q < 18
            invariant
                0 <= q <= 18,
                buckets@.len() == 18,
                forall|p: int| 0 <= p < 18 ==> (#[trigger] buckets@[p]).wf()
                    && buckets@[p].to_set() =~= spec_bucket(self@, events@,
                    spec_subtype_of_rank(p)),
                forall|i: int| 0 <= i < out@.len() ==> 0 <= spec_rank((#[trigger] out@[i]).0)
                    < q,
                forall|i: int, j: int| 0 <= i < j < out@.len() ==> spec_rank(
                    (#[trigger] out@[i]).0) < spec_rank((#[trigger] out@[j]).0),
                forall|i: int| 0 <= i < out@.len() ==> (#[trigger] out@[i]).1.wf()
                    && out@[i].1.to_set() =~= spec_bucket(self@, events@, out@[i].0),
                forall|p: int| 0 <= p < q && (p == 0 || p == 2 || spec_has_raw(
                    self@, events@, #[trigger] spec_subtype_of_rank(p)))
                    ==> exists|i: int| 0 <= i < out@.len() && (#[trigger] out@[i]).0
                    == spec_subtype_of_rank(p),
                forall|i: int| 0 <= i < out@.len() ==> ((#[trigger] out@[i]).0
                    == spec_subtype_of_rank(0) || out@[i].0 == spec_subtype_of_rank(2)
                    || spec_has_raw(self@, events@, out@[i].0)),
            decreases 18 - q,
        {
            let st = subtype_of_rank(q);
            let keep = q == 0 || q == 2 || !buckets[q].is_empty();
            if keep {
                let ghost out0 = out@;
                out.push((st, buckets[q].clone_set()));
                proof {
                    if !(q == 0 || q == 2) {
                        // a nonempty raw bucket names some subject
                        assert(buckets@[q as int].to_set() =~= spec_bucket(self@, events@, st));
                        assert(spec_bucket(self@, events@, st) == spec_raw_ids(
                            self@, events@, st));
                        assert(buckets@[q as int]@.len() > 0);
                        let id0 = buckets@[q as int]@[0];
                        assert(buckets@[q as int].to_set().contains(id0));
                        assert(spec_raw_ids(self@, events@, st).contains(id0));
                        assert(spec_has_raw(self@, events@, st));
                    }
                    assert forall|p: int| 0 <= p < q + 1 && (p == 0 || p == 2 || spec_has_raw(
                        self@, events@, #[trigger] spec_subtype_of_rank(p))) implies exists|
                        i: int| 0 <= i < out@.len()
                        && (#[trigger] out@[i]).0 == spec_subtype_of_rank(p) by {
                        if p < q {
                            let i = choose|i: int| 0 <= i < out0.len() && (#[trigger] out0[
                                i]).0 == spec_subtype_of_rank(p);
                            assert(out@[i].0 == spec_subtype_of_rank(p));
                        } else {
                            assert(out@[out@.len() - 1].0 == spec_subtype_of_rank(p));
                        }
                    }
                }
            } else {
                proof {
                    // an empty specific bucket means no subject supports it
                    assert(buckets@[q as int].to_set() =~= spec_bucket(self@, events@, st));
                    assert(spec_bucket(self@, events@, st) == spec_raw_ids(self@, events@, st));
                    assert forall|id: PatientId| !spec_raw_ids(self@, events@, st).contains(id)
                        by {
                        if spec_raw_ids(self@, events@, st).contains(id) {
                            assert(buckets@[q as int].to_set().contains(id));
                        }
                    }
                    assert(!spec_has_raw(self@, events@, st));
                }
            }
            q += 1;
        }
        proof {
            assert forall|st: LymphomaSubtype| ((exists|i: int| 0 <= i < out@.len()
                && (#[trigger] out@[i]).0 == st) <==> (st == LymphomaSubtype::Unspecified
                || st == LymphomaSubtype::NonHodgkin(NonHodgkinSubtype::Unspecified)
                || #[trigger] spec_has_raw(self@, events@, st))) by {
                lemma_rank_inverse(st);
                let p = spec_rank(st);
                if st == LymphomaSubtype::Unspecified || st == LymphomaSubtype::NonHodgkin(
                    NonHodgkinSubtype::Unspecified) || spec_has_raw(self@, events@, st) {
                    assert(p == 0 || p == 2 || spec_has_raw(self@, events@,
                        spec_subtype_of_rank(p)));
                    let i = choose|i: int| 0 <= i < out@.len() && (#[trigger] out@[i]).0
                        == spec_subtype_of_rank(p);
                    assert(out@[i].0 == st);
                }
                if exists|i: int| 0 <= i < out@.len() && (#[trigger] out@[i]).0 == st {
                    let i = choose|i: int| 0 <= i < out@.len() && (#[trigger] out@[i]).0 == st;
                    assert(out@[i].0 == spec_subtype_of_rank(0) || out@[i].0
                        == spec_subtype_of_rank(2) || spec_has_raw(self@, events@, out@[i].0));
                }
            }
            // P8: buckets only count mapped subjects, and the unspecified
            // lymphoma bucket is disjoint from every other bucket
            assert forall|i: int| 0 <= i < out@.len() implies (#[trigger] out@[
                i]).1.to_set().subset_of(spec_all_mapped_ids(self@, events@)) by {
                assert forall|id: PatientId| out@[i].1.to_set().contains(id) implies
                    spec_all_mapped_ids(self@, events@).contains(id) by {
                    assert(spec_bucket(self@, events@, out@[i].0).contains(id));
                    assert(spec_raw_ids(self@, events@, out@[i].0).contains(id));
                    let k0 = choose|k0: int| 0 <= k0 < events@.len() && (#[trigger] events@[
                        k0]).patient_id == id && spec_lookup(self@, events@[k0].read_code,
                        events@[k0].rubric@) == Some(out@[i].0);
                }
            }
            assert forall|i: int, j: int| 0 <= i < out@.len() && 0 <= j < out@.len() && i != j
                && (#[trigger] out@[i]).0 == LymphomaSubtype::Unspecified implies
                out@[i].1.to_set().disjoint((#[trigger] out@[j]).1.to_set()) by {
                assert forall|id: PatientId| !(out@[i].1.to_set().contains(id)
                    && out@[j].1.to_set().contains(id)) by {
                    if out@[i].1.to_set().contains(id) && out@[j].1.to_set().contains(id) {
                        assert(out@[j].0 != LymphomaSubtype::Unspecified) by {
                            if i < j {
                                assert(spec_rank(out@[i].0) < spec_rank(out@[j].0));
                            } else {
                                assert(spec_rank(out@[j].0) < spec_rank(out@[i].0));
                            }
                        }
                        assert(spec_bucket(self@, events@, out@[j].0).contains(id));
                        assert(spec_raw_ids(self@, events@, out@[j].0).contains(id));
                        assert(spec_nonunspec_ids(self@, events@).contains(id));
                        assert(spec_bucket(self@, events@, LymphomaSubtype::Unspecified
                            ).contains(id));
                        assert(false);
                    }
                }
            }
        }
        out
    }

    /// For every pair of distinct subtypes (taken in the fixed order, so no
    /// pair appears twice), the subjects counted in both buckets; pairs with
    /// nobody in common are omitted.
    pub fn find_multiple(&self, map: &Vec<(LymphomaSubtype, IdSet)>) -> (r: Vec<
        ((LymphomaSubtype, LymphomaSubtype), IdSet)>)
        requires
            forall|i: int, j: int| 0 <= i < j < map@.len() ==> spec_rank((#[trigger] map@[i]).0)
                < spec_rank((#[trigger] map@[j]).0),
            forall|i: int| 0 <= i < map@.len() ==> (#[trigger] map@[i]).1.wf(),
        ensures
            // each reported pair is distinct and consistently ordered, and
            // holds exactly the subjects in both buckets
            forall|k: int| 0 <= k < r@.len() ==> spec_rank((#[trigger] r@[k]).0.0) < spec_rank(
                r@[k].0.1),
            forall|k: int| 0 <= k < r@.len() ==> (#[trigger] r@[k]).1.wf()
                && spec_pair_entry_ok(r@[k], map@),
            forall|k: int| 0 <= k < r@.len() ==> !((#[trigger] r@[k]).1.to_set() =~= Set::<
                PatientId>::empty()),
            // every overlapping pair is reported
            forall|i: int, j: int| 0 <= i < j < map@.len() && !((#[trigger] map@[
                i]).1.to_set().intersect((#[trigger] map@[j]).1.to_set()) =~= Set::<
                PatientId>::empty()) ==> exists|k: int| 0 <= k < r@.len() && (#[trigger] r@[
                k]).0 == (map@[i].0, map@[j].0),
    {
        let n = map.len();
        let mut out: Vec<((LymphomaSubtype, LymphomaSubtype), IdSet)> = Vec::new();
        let mut i: usize = 0;
        while i < n
            invariant
                0 <= i <= n,
                n == map@.len(),
                forall|a: int, b: int| 0 <= a < b < map@.len() ==> spec_rank(
                    (#[trigger] map@[a]).0) < spec_rank((#[trigger] map@[b]).0),
                forall|a: int| 0 <= a < map@.len() ==> (#[trigger] map@[a]).1.wf(),
                forall|k: int| 0 <= k < out@.len() ==> spec_rank((#[trigger] out@[k]).0.0)
                    < spec_rank(out@[k].0.1),
                forall|k: int| 0 <= k < out@.len() ==> (#[trigger] out@[k]).1.wf()
                    && spec_pair_entry_ok(out@[k], map@),
                forall|k: int| 0 <= k < out@.len() ==> !((#[trigger] out@[k]).1.to_set() =~=
                    Set::<PatientId>::empty()),
                forall|a: int, b: int| 0 <= a < b < map@.len() && a < i && !((#[trigger] map@[
                    a]).1.to_set().intersect((#[trigger] map@[b]).1.to_set()) =~= Set::<
                    PatientId>::empty()) ==> exists|k: int| 0 <= k < out@.len()
                    && (#[trigger] out@[k]).0 == (map@[a].0, map@[b].0),
            decreases n - i,
        {
            let mut j: usize = i + 1;
            while j < n
                invariant
                    0 <= i < j <= n || (i + 1 == j && j <= n),
                    i < n,
                    n == map@.len(),
                    forall|a: int, b: int| 0 <= a < b < map@.len() ==> spec_rank(
                        (#[trigger] map@[a]).0) < spec_rank((#[trigger] map@[b]).0),
                    forall|a: int| 0 <= a < map@.len() ==> (#[trigger] map@[a]).1.wf(),
                    forall|k: int| 0 <= k < out@.len() ==> spec_rank((#[trigger] out@[k]).0.0)
                        < spec_rank(out@[k].0.1),
                    forall|k: int| 0 <= k < out@.len() ==> (#[trigger] out@[k]).1.wf()
                        && spec_pair_entry_ok(out@[k], map@),
                    forall|k: int| 0 <= k < out@.len() ==> !((#[trigger] out@[k]).1.to_set()
                        =~= Set::<PatientId>::empty()),
                    forall|a: int, b: int| 0 <= a < b < map@.len() && (a < i || (a == i
                        && b < j)) && !((#[trigger] map@[a]).1.to_set().intersect(
                        (#[trigger] map@[b]).1.to_set()) =~= Set::<PatientId>::empty())
                        ==> exists|k: int| 0 <= k < out@.len() && (#[trigger] out@[k]).0 == (
                        map@[a].0, map@[b].0),
                decreases n - j,
            {
                let inter = map[i].1.intersect(&map[j].1);
                if !inter.is_empty() {
                    let ghost out0 = out@;
                    out.push(((map[i].0, map[j].0), inter));
                    proof {
                        let newk: int = out@.len() - 1;
                        assert(out@[newk].0.0 == map@[i as int].0);
                        assert(out@[newk].0.1 == map@[j as int].0);
                        assert(out@[newk].1.to_set() == map@[i as int].1.to_set().intersect(
                            map@[j as int].1.to_set()));
                        assert forall|k: int| 0 <= k < out@.len() implies
                            ((#[trigger] out@[k]).1.wf() && spec_pair_entry_ok(
                            out@[k], map@)) by {
                            if k < newk {
                                assert(out@[k] == out0[k]);
                            } else {
                                let ia: int = i as int;
                                let ja: int = j as int;
                                assert(0 <= ia && ia < ja && ja < map@.len() && map@[ia].0
                                    == out@[k].0.0 && map@[ja].0 == out@[k].0.1
                                    && out@[k].1.to_set() == map@[ia].1.to_set().intersect(
                                    map@[ja].1.to_set()));
                                assert(spec_pair_entry_ok(out@[k], map@));
                            }
                        }
                        assert forall|a: int, b: int| 0 <= a < b < map@.len() && (a < i || (a
                            == i && b < j + 1)) && !((#[trigger] map@[a]).1.to_set().intersect(
                            (#[trigger] map@[b]).1.to_set()) =~= Set::<PatientId>::empty())
                            implies exists|k: int| 0 <= k < out@.len() && (#[trigger] out@[
                            k]).0 == (map@[a].0, map@[b].0) by {
                            if a == i && b == j {
                                assert(out@[newk].0 == (map@[a].0, map@[b].0));
                            } else {
                                let k = choose|k: int| 0 <= k < out0.len() && (#[trigger] out0[
                                    k]).0 == (map@[a].0, map@[b].0);
                                assert(out@[k].0 == (map@[a].0, map@[b].0));
                            }
                        }
                    }
                }
                j += 1;
            }
            i += 1;
        }
        out
    }
}

/// A reported pair is the intersection of two buckets of the input, taken
/// in order.
pub open spec fn spec_pair_entry_ok(e: ((LymphomaSubtype, LymphomaSubtype), IdSet),
    map: Seq<(LymphomaSubtype, IdSet)>) -> bool {
    exists|a: int, b: int| 0 <= a < b < map.len() && (#[trigger] map[a]).0 == e.0.0
        && (#[trigger] map[b]).0 == e.0.1 && e.1.to_set() == map[a].1.to_set().intersect(
        map[b].1.to_set())
}

/// One more event extends each raw bucket by the event's subject when the
/// event maps to that bucket's subtype, and leaves every other bucket as it
/// was.
proof fn lemma_raw_step(map: Seq<SubtypeEntry>, events: Seq<Event>, k: int,
    looked: Option<LymphomaSubtype>)
    requires
        0 <= k < events.len(),
        looked == spec_lookup(map, events[k].read_code, events[k].rubric@),
    ensures
        forall|st: LymphomaSubtype| #[trigger] spec_raw_ids(map, events.take(k + 1), st) =~= (
            if looked == Some(st) {
            spec_raw_ids(map, events.take(k), st).insert(events[k].patient_id)
        } else {
            spec_raw_ids(map, events.take(k), st)
        }),
{
    assert forall|st: LymphomaSubtype| #[trigger] spec_raw_ids(map, events.take(k + 1), st) =~= (
        if looked == Some(st) {
        spec_raw_ids(map, events.take(k), st).insert(events[k].patient_id)
    } else {
        spec_raw_ids(map, events.take(k), st)
    }) by {
        let pre = events.take(k);
        let cur = events.take(k + 1);
        assert forall|id: PatientId| spec_raw_ids(map, cur, st).contains(id) implies (if looked
            == Some(st) {
            spec_raw_ids(map, pre, st).insert(events[k].patient_id)
        } else {
            spec_raw_ids(map, pre, st)
        }).contains(id) by {
            let m = choose|m: int| 0 <= m < cur.len() && (#[trigger] cur[m]).patient_id == id
                && spec_lookup(map, cur[m].read_code, cur[m].rubric@) == Some(st);
            if m < k {
                assert(pre[m] == cur[m]);
                assert(spec_raw_ids(map, pre, st).contains(id));
            } else {
                assert(cur[m] == events[k]);
            }
        }
        assert forall|id: PatientId| (if looked == Some(st) {
            spec_raw_ids(map, pre, st).insert(events[k].patient_id)
        } else {
            spec_raw_ids(map, pre, st)
        }).contains(id) implies spec_raw_ids(map, cur, st).contains(id) by {
            if spec_raw_ids(map, pre, st).contains(id) {
                let m = choose|m: int| 0 <= m < pre.len() && (#[trigger] pre[m]).patient_id
                    == id && spec_lookup(map, pre[m].read_code, pre[m].rubric@) == Some(st);
                assert(cur[m] == pre[m]);
                assert(0 <= m < cur.len() && cur[m].patient_id == id && spec_lookup(
                    map, cur[m].read_code, cur[m].rubric@) == Some(st));
            } else {
                assert(looked == Some(st) && id == events[k].patient_id);
                assert(cur[k] == events[k]);
                assert(0 <= k < cur.len() && cur[k].patient_id == id && spec_lookup(
                    map, cur[k].read_code, cur[k].rubric@) == Some(st));
            }
        }
    }
}

/// The union of the raw buckets of ranks `lo..18` is the set of subjects
/// with a subtype of rank at least `lo`; for `lo == 3` these are exactly
/// the named non-Hodgkin subjects.
proof fn lemma_rank_union(map: Seq<SubtypeEntry>, events: Seq<Event>, acc: Set<PatientId>,
    lo: int)
    requires
        lo == 3,
        acc =~= Set::new(|id: PatientId| exists|q: int| lo <= q < 18
            && #[trigger] spec_raw_ids(map, events, spec_subtype_of_rank(q)).contains(id)),
    ensures
        acc =~= spec_nh_specific_ids(map, events),
{
    assert forall|id: PatientId| acc.contains(id) implies spec_nh_specific_ids(
        map, events).contains(id) by {
        let q = choose|q: int| lo <= q < 18 && #[trigger] spec_raw_ids(map, events,
            spec_subtype_of_rank(q)).contains(id);
        assert(spec_is_specific_nh(spec_subtype_of_rank(q)));
    }
    assert forall|id: PatientId| spec_nh_specific_ids(map, events).contains(id) implies
        acc.contains(id) by {
        let st = choose|st: LymphomaSubtype| spec_is_specific_nh(st) && #[trigger] spec_raw_ids(
            map, events, st).contains(id);
        lemma_rank_inverse(st);
        assert(3 <= spec_rank(st) < 18);
        assert(spec_raw_ids(map, events, spec_subtype_of_rank(spec_rank(st))).contains(id));
    }
}

} // verus!
