use eadapt_needs_analysis::read2::{CodeSet, ReadCode};
use eadapt_needs_analysis::subtypes::{
    CodeSubtypeMap, LymphomaSubtype, NonHodgkinSubtype,
};
use eadapt_needs_analysis::{
    biggest_gap, date_y, Event, Events, Patient, Patients, Range, RangeSet, Rule, Sex,
    DAY_1900_01_01,
};

fn code(s: &str) -> ReadCode {
    ReadCode::from_str(s).unwrap()
}

fn event(patient_id: u64, date: u64, code_text: &str, rubric: &str) -> Event {
    Event {
        patient_id,
        date,
        read_code: code(code_text),
        rubric: rubric.to_string(),
        code_value: None,
        code_units: None,
        source: "gp".to_string(),
    }
}

fn day(y: i32, m: u32, d: u32) -> u64 {
    u64::try_from(chrono::Datelike::num_days_from_ce(
        &chrono::NaiveDate::from_ymd_opt(y, m, d).unwrap(),
    ))
    .unwrap()
}

fn patient(id: u64, year_of_birth: u16) -> Patient {
    Patient {
        patient_id: id,
        year_of_birth,
        sex: Sex::Female,
        ethnicity: None,
        imd: eadapt_needs_analysis::Imd::Missing,
        lymphoma_diagnosis_date: None,
        lymphoma_diagnosis_subtype: None,
    }
}

#[test]
fn day_constant_matches_calendar() {
    assert_eq!(day(1900, 1, 1), DAY_1900_01_01);
    assert_eq!(day(2021, 11, 17), eadapt_needs_analysis::date_of_extract());
}

#[test]
fn subtype_specificity() {
    let unspec = LymphomaSubtype::Unspecified;
    let hodgkin = LymphomaSubtype::Hodgkin;
    let nh_unspec = LymphomaSubtype::NonHodgkin(NonHodgkinSubtype::Unspecified);
    let dlbcl = LymphomaSubtype::NonHodgkin(NonHodgkinSubtype::DLBCL);
    let follicular = LymphomaSubtype::NonHodgkin(NonHodgkinSubtype::Follicular);
    assert!(!unspec.is_subtype_of(&unspec));
    assert!(hodgkin.is_subtype_of(&unspec));
    assert!(dlbcl.is_subtype_of(&unspec));
    assert!(dlbcl.is_subtype_of(&nh_unspec));
    assert!(!nh_unspec.is_subtype_of(&nh_unspec));
    assert!(!hodgkin.is_subtype_of(&nh_unspec));
    assert!(!unspec.is_subtype_of(&hodgkin));
    assert!(!dlbcl.is_subtype_of(&follicular));
}

#[test]
fn subtype_names() {
    assert_eq!(LymphomaSubtype::Unspecified.code(), "lymphoma");
    assert_eq!(LymphomaSubtype::Hodgkin.label(), "Hodgkin lymphoma");
    assert_eq!(
        LymphomaSubtype::NonHodgkin(NonHodgkinSubtype::DLBCL).code(),
        "dlbcl"
    );
    assert_eq!(
        LymphomaSubtype::from_str("hodgkin").unwrap(),
        LymphomaSubtype::Hodgkin
    );
    assert_eq!(
        LymphomaSubtype::from_str("follicular").unwrap(),
        LymphomaSubtype::NonHodgkin(NonHodgkinSubtype::Follicular)
    );
    assert!(LymphomaSubtype::from_str("no such subtype").is_err());
}

fn sample_map() -> CodeSubtypeMap {
    let mut map = CodeSubtypeMap::new();
    map.push(
        event(0, 0, "H1...", "hodgkin rubric").code_rubric(),
        LymphomaSubtype::Hodgkin,
    );
    map.push(
        event(0, 0, "N1...", "nonhodgkin rubric").code_rubric(),
        LymphomaSubtype::NonHodgkin(NonHodgkinSubtype::Unspecified),
    );
    map.push(
        event(0, 0, "D1...", "dlbcl rubric").code_rubric(),
        LymphomaSubtype::NonHodgkin(NonHodgkinSubtype::DLBCL),
    );
    map.push(
        event(0, 0, "L1...", "lymphoma rubric").code_rubric(),
        LymphomaSubtype::Unspecified,
    );
    map
}

#[test]
fn classify_prefers_specific_subtypes() {
    let map = sample_map();
    // subject 1: plain lymphoma only; subject 2: lymphoma and Hodgkin;
    // subject 3: unspecified non-Hodgkin and DLBCL; subject 4: Hodgkin and
    // DLBCL (a genuine dual diagnosis)
    let events = Events::from_vec(vec![
        event(1, 10, "L1...", "lymphoma rubric"),
        event(2, 10, "L1...", "lymphoma rubric"),
        event(2, 11, "H1...", "hodgkin rubric"),
        event(3, 10, "N1...", "nonhodgkin rubric"),
        event(3, 11, "D1...", "dlbcl rubric"),
        event(4, 10, "H1...", "hodgkin rubric"),
        event(4, 11, "D1...", "dlbcl rubric"),
    ]);
    let buckets = map.classify(&events);
    let get = |st: LymphomaSubtype| -> Vec<u64> {
        buckets
            .iter()
            .find(|(s, _)| *s == st)
            .map(|(_, ids)| ids.iter().clone())
            .unwrap()
            .clone()
    };
    // the unspecified buckets are always present
    assert_eq!(get(LymphomaSubtype::Unspecified), vec![1]);
    assert_eq!(
        get(LymphomaSubtype::NonHodgkin(NonHodgkinSubtype::Unspecified)),
        Vec::<u64>::new()
    );
    assert_eq!(get(LymphomaSubtype::Hodgkin), vec![2, 4]);
    assert_eq!(
        get(LymphomaSubtype::NonHodgkin(NonHodgkinSubtype::DLBCL)),
        vec![3, 4]
    );
    // nobody in the unspecified bucket appears anywhere else
    for (st, ids) in buckets.iter() {
        if *st != LymphomaSubtype::Unspecified {
            assert!(!ids.contains(1));
        }
    }
}

#[test]
fn find_multiple_reports_overlaps_once() {
    let map = sample_map();
    let events = Events::from_vec(vec![
        event(4, 10, "H1...", "hodgkin rubric"),
        event(4, 11, "D1...", "dlbcl rubric"),
        event(5, 10, "H1...", "hodgkin rubric"),
    ]);
    let buckets = map.classify(&events);
    let pairs = map.find_multiple(&buckets);
    assert_eq!(pairs.len(), 1);
    let ((a, b), ids) = &pairs[0];
    assert_eq!(*a, LymphomaSubtype::Hodgkin);
    assert_eq!(*b, LymphomaSubtype::NonHodgkin(NonHodgkinSubtype::DLBCL));
    assert!(*a != *b);
    assert_eq!(ids.iter().clone(), vec![4]);
}

#[test]
fn calc_lymphoma_keeps_earliest_date_and_most_specific_subtype() {
    let map = sample_map();
    let events = Events::from_vec(vec![
        event(1, 200, "L1...", "lymphoma rubric"),
        event(1, 100, "D1...", "dlbcl rubric"),
        event(1, 300, "N1...", "nonhodgkin rubric"),
    ]);
    let mut patients = Patients::from_vec(vec![patient(1, 1960)]);
    patients.calc_lymphoma_data(&events, &map);
    let p = patients.find_by_id(1).unwrap();
    // the date is the earliest mapped event date, even though a more
    // specific code came later
    assert_eq!(p.lymphoma_diagnosis_date, Some(100));
    assert_eq!(
        p.lymphoma_diagnosis_subtype,
        Some(LymphomaSubtype::NonHodgkin(NonHodgkinSubtype::DLBCL))
    );
}

#[test]
fn calc_lymphoma_ties_keep_first_seen() {
    let mut map = CodeSubtypeMap::new();
    map.push(
        event(0, 0, "H1...", "hodgkin rubric").code_rubric(),
        LymphomaSubtype::Hodgkin,
    );
    map.push(
        event(0, 0, "D1...", "dlbcl rubric").code_rubric(),
        LymphomaSubtype::NonHodgkin(NonHodgkinSubtype::DLBCL),
    );
    // Hodgkin and DLBCL are incomparable: the first one seen is kept
    let events = Events::from_vec(vec![
        event(1, 100, "H1...", "hodgkin rubric"),
        event(1, 200, "D1...", "dlbcl rubric"),
    ]);
    let mut patients = Patients::from_vec(vec![patient(1, 1960)]);
    patients.calc_lymphoma_data(&events, &map);
    assert_eq!(
        patients.find_by_id(1).unwrap().lymphoma_diagnosis_subtype,
        Some(LymphomaSubtype::Hodgkin)
    );
}

#[test]
fn earliest_event_skips_placeholder_dates() {
    let events = Events::from_vec(vec![
        event(1, DAY_1900_01_01, "L1...", "placeholder"),
        event(1, 500, "L1...", "real"),
        event(1, 400, "L1...", "real"),
        event(2, DAY_1900_01_01, "L1...", "placeholder"),
    ]);
    assert_eq!(events.earliest_event_for_patient(1), Some(400));
    assert_eq!(events.earliest_event_for_patient(2), None);
    assert_eq!(events.earliest_event_for_patient(3), None);
}

#[test]
fn earliest_code_keeps_latest_matching_date() {
    // the scan keeps advancing to later matching dates; the contract states
    // this, and this test pins it down
    let mut cs = CodeSet::new();
    cs.insert(code("L1..."));
    let matcher = cs.into_matcher();
    let events = Events::from_vec(vec![
        event(1, 300, "L1...", "match"),
        event(1, 100, "L1...", "match"),
        event(1, 200, "L1...", "match"),
        event(2, 50, "X9...", "no match"),
    ]);
    let dates = matcher.earliest_code(&events);
    assert_eq!(dates.len(), 1);
    assert_eq!(dates[0], (1, 300));
}

#[test]
fn filter_by_codeset_keeps_matching_events() {
    let mut cs = CodeSet::new();
    cs.insert(code("L1..."));
    let events = Events::from_vec(vec![
        event(1, 100, "L1...", "keep"),
        event(2, 110, "X9...", "drop"),
        event(3, 120, "L1...", "keep"),
    ]);
    let kept = events.filter_by_codeset(&cs);
    assert_eq!(kept.len(), 2);
    assert_eq!(kept.iter()[0].patient_id, 1);
    assert_eq!(kept.iter()[1].patient_id, 3);
}

#[test]
fn biggest_gap_between_observed_dates() {
    let events = vec![
        event(1, 120, "L1...", "a"),
        event(1, 180, "L1...", "b"),
        event(1, 500, "L1...", "outside the window"),
    ];
    assert_eq!(biggest_gap(100, 200, &events), 60);
    // with no usable dates the whole window is the gap
    assert_eq!(biggest_gap(100, 200, &Vec::<Event>::new()), 100);
}

#[test]
fn range_buckets_count_values() {
    let ranges = RangeSet::new(vec![
        Range::new(0, Some(18)),
        Range::new(18, Some(65)),
        Range::new(65, None),
    ]);
    let counts = ranges.bucket_values(&vec![5, 17, 18, 40, 64, 65, 90]);
    let pairs = counts.iter();
    assert_eq!(pairs[0].1, 2);
    assert_eq!(pairs[1].1, 3);
    assert_eq!(pairs[2].1, 2);
    let ranges2 = RangeSet::new(vec![Range::new(0, Some(50))]);
    let with_missing = ranges2.bucket_values_with_missing(&vec![
        Some(10),
        None,
        Some(60),
        None,
    ]);
    let pairs2 = with_missing.iter();
    assert_eq!(pairs2[0].1, 1);
    assert!(pairs2[1].0.is_none());
    assert_eq!(pairs2[1].1, 2);
}

#[test]
fn count_sexes_counts_both() {
    let mut p1 = patient(1, 1960);
    p1.sex = Sex::Male;
    let patients = Patients::from_vec(vec![p1, patient(2, 1970), patient(3, 1980)]);
    assert_eq!(patients.count_sexes(), (1, 2));
}

#[test]
fn rules_evaluate_over_event_records() {
    let mut bp = CodeSet::new();
    bp.insert(code("246.."));
    let mut meds = CodeSet::new();
    meds.insert(code("d1..."));
    let events = Events::from_vec(vec![
        event(1, 100, "246..", "bp reading"),
        event(1, 900, "d1...", "prescription"),
        event(1, 950, "d1...", "prescription"),
    ]);
    let date = 1000;
    let window_start = 800;
    assert!(Rule::Presence(bp.clone()).test(&events, date, window_start));
    // the old reading is outside the window
    assert!(!Rule::PresenceWithin(bp.clone()).test(&events, date, window_start));
    assert!(Rule::CountAtLeastWithin(meds.clone(), 2).test(&events, date, window_start));
    assert!(!Rule::CountAtLeastWithin(meds.clone(), 3).test(&events, date, window_start));
    let both = Rule::Both(
        Box::new(Rule::Presence(bp.clone())),
        Box::new(Rule::PresenceWithin(meds.clone())),
    );
    assert!(both.test(&events, date, window_start));
    let either = Rule::Either(
        Box::new(Rule::PresenceWithin(bp.clone())),
        Box::new(Rule::PresenceWithin(meds)),
    );
    assert!(either.test(&events, date, window_start));
    let negated = Rule::Negated(Box::new(Rule::PresenceWithin(bp)));
    assert!(negated.test(&events, date, window_start));
}

#[test]
fn date_arithmetic_moves_years() {
    let d = day(2015, 3, 1);
    assert_eq!(date_y(d, -1), Some(day(2014, 3, 1)));
    assert_eq!(date_y(d, 5), Some(day(2020, 3, 1)));
    // February 29 has no counterpart in a common year
    assert_eq!(date_y(day(2020, 2, 29), 1), None);
}

#[test]
fn code_rubric_counts_group_pairs() {
    let mut th = eadapt_needs_analysis::read2::Thesaurus::new();
    th.insert(code("L1..."), vec!["lymphoma".to_string()]);
    let events = Events::from_vec(vec![
        event(1, 100, "L1...", "lymphoma nos"),
        event(2, 110, "L1...", "lymphoma nos"),
        event(1, 120, "L1...", "other wording"),
        event(3, 130, "X9...", "unknown code"),
    ]);
    let counts = eadapt_needs_analysis::CodeRubricCounts::from_events(&events, &th);
    assert_eq!(counts.len(), 3);
    let entries = counts.iter();
    // pairs appear once, in first-seen order, with their patients
    assert_eq!(entries[0].code_rubric.rubric, "lymphoma nos");
    assert_eq!(entries[0].patient_ids.iter().clone(), vec![1, 2]);
    assert_eq!(entries[0].description, vec!["lymphoma".to_string()]);
    assert_eq!(entries[1].patient_ids.iter().clone(), vec![1]);
    // a code the thesaurus does not know gets no description
    assert!(entries[2].description.is_empty());
    let all = counts.all_patient_ids();
    assert_eq!(all.iter().clone(), vec![1, 2, 3]);
    let found = counts.find_by_code(code("L1..."));
    assert_eq!(found, vec![0, 1]);
}

#[test]
fn imd_and_age_distributions() {
    let mut p1 = patient(1, 1960);
    p1.imd = eadapt_needs_analysis::Imd::_3;
    let mut p2 = patient(2, 2000);
    p2.imd = eadapt_needs_analysis::Imd::_3;
    let patients = Patients::from_vec(vec![p1, p2, patient(3, 1940)]);
    let counts = patients.count_imd();
    assert_eq!(counts[3], 2);
    assert_eq!(counts[0], 1);
    let ranges = RangeSet::new(vec![Range::new(0, Some(50)), Range::new(50, None)]);
    let ages = patients.bucket_ages(ranges, 2021);
    assert_eq!(ages.counts[0], 1);
    assert_eq!(ages.counts[1], 2);
}
