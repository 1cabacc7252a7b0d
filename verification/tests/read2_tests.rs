use eadapt_needs_analysis::read2::{
    CodeSet, FilterSet, ParseError, ReadCode, Term, TermFilter, TermSet, Thesaurus,
};

fn code(s: &str) -> ReadCode {
    ReadCode::from_str(s).unwrap()
}

fn pattern_strings(fs: &FilterSet) -> Vec<Vec<String>> {
    fs.filters()
        .iter()
        .map(|f| {
            f.patterns()
                .iter()
                .map(|p| p.iter().collect::<String>())
                .collect()
        })
        .collect()
}

#[test]
fn term_set() {
    let input = "lymphoma/";
    let filter = TermFilter::new()
        .push(Term::new().push_literal("lymphoma"))
        .codegen();
    assert!(filter.is_match(input))
}

#[test]
fn multi() {
    let input = "secondary and unspecified";
    let filter = FilterSet::new(&vec![String::from(input)]).unwrap();
    assert!(filter.is_match(input));
}

#[test]
fn parse_roundtrip_five_chars() {
    for s in ["A12..", "2X...", "2XFAD", "H33z.", "ab9.."] {
        let c = ReadCode::from_str(s).unwrap();
        assert_eq!(c.to_string(), s);
    }
}

#[test]
fn parse_synonym_suffix_discarded() {
    let c = ReadCode::from_str("A12..00").unwrap();
    assert_eq!(c.to_string(), "A12..");
}

#[test]
fn parse_rejects_bad_input() {
    assert_eq!(ReadCode::from_str("A12"), Err(ParseError::InvalidFormat));
    assert_eq!(ReadCode::from_str("A12..x"), Err(ParseError::InvalidFormat));
    assert_eq!(ReadCode::from_str("A1 .."), Err(ParseError::InvalidFormat));
    assert_eq!(ReadCode::from_str("A12..0x"), Err(ParseError::InvalidFormat));
    assert_eq!(ReadCode::from_str("A12..000"), Err(ParseError::InvalidFormat));
}

#[test]
fn child_parent_symmetry() {
    let parent = code("2X...");
    let child = code("2X3..");
    let other = code("3X...");
    assert!(child.is_child_of(parent));
    assert!(parent.is_parent_of(child));
    assert_eq!(child.is_child_of(parent), parent.is_parent_of(child));
    assert!(!child.is_child_of(child));
    assert!(!other.is_child_of(parent));
    assert!(code("2XFAD").is_child_of(parent));
}

#[test]
fn order_wildcard_sorts_first() {
    let parent = code("2X...");
    let child = code("2X3..");
    let late = code("2XFAD");
    // a parent sorts immediately before its descendants
    assert!(parent.lt(&child));
    assert!(parent.lt(&late));
    assert!(child.lt(&late));
    // exactly one of <, ==, > holds
    assert!(!child.lt(&parent));
    assert!(!parent.lt(&parent));
    assert!(parent == parent);
    assert!(!(parent == child));
}

#[test]
fn codeset_insert_contains_remove() {
    let mut cs = CodeSet::new();
    cs.insert(code("2X3.."));
    cs.insert(code("2X..."));
    cs.insert(code("2X3.."));
    assert_eq!(cs.len(), 2);
    assert!(cs.contains(code("2X...")));
    assert!(cs.contains(code("2X3..")));
    assert!(!cs.contains(code("2XFAD")));
    // exact membership only: children are not automatically included
    assert!(!cs.contains(code("2X4..")));
    cs.remove(code("2X..."));
    assert_eq!(cs.len(), 1);
    assert!(!cs.contains(code("2X...")));
    // the set iterates in the custom order
    let mut cs2 = CodeSet::new();
    cs2.insert(code("2XFAD"));
    cs2.insert(code("2X..."));
    cs2.insert(code("2X3.."));
    let order: Vec<String> = cs2.iter().iter().map(|c| c.to_string()).collect();
    assert_eq!(order, vec!["2X...", "2X3..", "2XFAD"]);
}

#[test]
fn codeset_save_load_roundtrip() {
    let mut cs = CodeSet::new();
    cs.insert(code("2XFAD"));
    cs.insert(code("A12.."));
    cs.insert(code("2X..."));
    let bytes = cs.save_bytes();
    assert_eq!(String::from_utf8(bytes.clone()).unwrap(), "2X...\n2XFAD\nA12..\n");
    let loaded = CodeSet::load_bytes(&bytes).unwrap();
    assert_eq!(loaded.len(), 3);
    assert!(loaded.contains(code("2X...")));
    assert!(loaded.contains(code("2XFAD")));
    assert!(loaded.contains(code("A12..")));
}

#[test]
fn codeset_load_accepts_synonyms_and_rejects_junk() {
    let loaded = CodeSet::load_bytes(&b"2X...07\nA12..\n".to_vec()).unwrap();
    assert!(loaded.contains(code("2X...")));
    assert!(loaded.contains(code("A12..")));
    assert_eq!(
        CodeSet::load_bytes(&b"2X...\nnot a code\n".to_vec()).err(),
        Some(ParseError::InvalidFormat)
    );
}

#[test]
fn matcher_agrees_with_set() {
    let mut cs = CodeSet::new();
    cs.insert(code("2X..."));
    cs.insert(code("A12.."));
    let matcher = cs.into_matcher();
    assert!(matcher.contains(code("2X...")));
    assert!(matcher.contains(code("A12..")));
    assert!(!matcher.contains(code("2X3..")));
    assert!(!matcher.contains(code("B12..")));
    let back = matcher.into_inner();
    assert_eq!(back.len(), 2);
}

#[test]
fn thesaurus_get_and_descendants() {
    let mut th = Thesaurus::new();
    th.insert(code("2X..."), vec!["Haematological disorder".to_string()]);
    th.insert(code("2X3.."), vec!["Some disorder".to_string()]);
    th.insert(code("2XFAD"), vec!["Another disorder".to_string()]);
    th.insert(code("3A..."), vec!["Unrelated".to_string()]);
    assert_eq!(
        th.get(code("2X3..")).unwrap(),
        &vec!["Some disorder".to_string()]
    );
    assert!(th.get(code("9Z...")).is_none());
    let descendants = th.iter_descendants(code("2X..."));
    let names: Vec<String> = descendants.iter().map(|e| e.0.to_string()).collect();
    // the parent itself is not included; unrelated codes are not included
    assert_eq!(names, vec!["2X3..", "2XFAD"]);
}

#[test]
fn filter_codegen_regex_texts() {
    let fs = FilterSet::new(&vec![
        "lymphoma".to_string(),
        "*oma".to_string(),
        "lymph*".to_string(),
        "f*o".to_string(),
        "\"hodgkin lymphoma\"".to_string(),
    ])
    .unwrap();
    let pats = pattern_strings(&fs);
    assert_eq!(pats[0], vec!["\\blymphoma\\b".to_string()]);
    assert_eq!(pats[1], vec!["oma\\b".to_string()]);
    assert_eq!(pats[2], vec!["\\blymph".to_string()]);
    assert_eq!(pats[3], vec!["\\bf\\S*o\\b".to_string()]);
    assert_eq!(pats[4], vec!["\\bhodgkin lymphoma\\b".to_string()]);
}

#[test]
fn filter_parse_errors() {
    assert_eq!(
        TermFilter::parse("\"unterminated").err().unwrap(),
        ParseError::UnterminatedQuote
    );
    assert_eq!(TermFilter::parse("a \"\" b").err().unwrap(), ParseError::EmptyQuote);
    assert_eq!(TermFilter::parse("").err().unwrap(), ParseError::EmptyFilter);
    assert_eq!(TermFilter::parse("   ").err().unwrap(), ParseError::EmptyFilter);
}

#[test]
fn whole_word_matching() {
    let fs = FilterSet::new(&vec!["lymphoma".to_string()]).unwrap();
    // case-insensitive whole word
    assert!(fs.is_match("Hodgkin Lymphoma"));
    assert!(fs.is_match("lymphoma/"));
    // no trailing wildcard: a longer word must not match
    assert!(!fs.is_match("lymphomas"));
    assert!(!fs.is_match("Lymphomatoid papulosis"));
    // with the wildcard the partial word matches
    let fs2 = FilterSet::new(&vec!["lymphoma*".to_string()]).unwrap();
    assert!(fs2.is_match("lymphomas"));
    assert!(fs2.is_match("Lymphomatoid papulosis"));
}

#[test]
fn all_words_any_order() {
    let fs = FilterSet::new(&vec!["secondary and unspecified".to_string()]).unwrap();
    assert!(fs.is_match("secondary and unspecified"));
    assert!(fs.is_match("unspecified and secondary tumour"));
    assert!(!fs.is_match("secondary tumour"));
}

#[test]
fn termset_match_includes_and_excludes() {
    let ts = TermSet::new(
        None,
        None,
        vec!["lymphoma".to_string(), "hodgkin".to_string()],
        vec!["papulosis".to_string()],
        None,
    )
    .unwrap();
    assert!(ts.is_match("Hodgkin lymphoma"));
    assert!(ts.is_match("follicular lymphoma"));
    assert!(!ts.is_match("lymphomatoid papulosis"));
    // exclusion wins even when an include matches
    assert!(!ts.is_match("lymphoma papulosis"));
    // multiple descriptions: any include and no exclude
    assert!(ts.is_match_multi(&vec![
        "something else".to_string(),
        "hodgkin disease".to_string()
    ]));
    assert!(!ts.is_match_multi(&vec![
        "hodgkin disease".to_string(),
        "some papulosis".to_string()
    ]));
    assert!(!ts.is_match_multi(&vec!["something else".to_string()]));
}

#[test]
fn termset_rejects_bad_terms() {
    let r = TermSet::new(None, None, vec!["\"open".to_string()], vec![], None);
    assert_eq!(r.err().unwrap(), ParseError::UnterminatedQuote);
    let mut ts = TermSet::new(None, None, vec!["fine".to_string()], vec![], None).unwrap();
    assert_eq!(ts.add_include("\"open".to_string()), Err(ParseError::UnterminatedQuote));
    // the failed edit left the set unchanged
    assert_eq!(ts.include_terms(), &vec!["fine".to_string()]);
}

#[test]
fn termset_add_remove_include_restores_behaviour() {
    let samples = [
        "Hodgkin lymphoma",
        "lymphomatoid papulosis",
        "secondary and unspecified",
        "nothing here",
    ];
    let mut ts = TermSet::new(None, None, vec!["lymphoma".to_string()], vec![], None).unwrap();
    let before: Vec<bool> = samples.iter().map(|s| ts.is_match(s)).collect();
    ts.add_include("papulosis".to_string()).unwrap();
    ts.remove_include("papulosis".to_string());
    let after: Vec<bool> = samples.iter().map(|s| ts.is_match(s)).collect();
    assert_eq!(before, after);
    assert_eq!(ts.include_terms(), &vec!["lymphoma".to_string()]);
}

#[test]
fn termset_reload_from_terms_matches_same() {
    // loading recompiles the filters from the persisted term strings; a
    // rebuilt set behaves exactly as the original
    let ts = TermSet::new(
        Some("lymphoma".to_string()),
        None,
        vec!["lymphoma".to_string(), "hodgkin*".to_string()],
        vec!["papulosis".to_string()],
        None,
    )
    .unwrap();
    let reloaded = TermSet::from_parts(
        ts.include_terms().clone(),
        ts.exclude_terms().clone(),
        eadapt_needs_analysis::read2::Terminology::Readv2,
        None,
        None,
        ts.version().clone(),
        None,
        ts.created_on(),
        ts.last_updated(),
    )
    .unwrap();
    for s in [
        "Hodgkin lymphoma",
        "hodgkins disease",
        "lymphomatoid papulosis",
        "lymphomas",
        "follicular lymphoma",
    ] {
        assert_eq!(ts.is_match(s), reloaded.is_match(s));
    }
}

#[test]
fn match_thesaurus_selects_matching_codes() {
    let mut th = Thesaurus::new();
    th.insert(code("X1234"), vec!["Hodgkin lymphoma".to_string()]);
    th.insert(code("X1235"), vec!["Hodgkin lymphoma, unspecified".to_string()]);
    th.insert(code("Y1..."), vec!["Something else".to_string()]);
    let ts = TermSet::new(None, None, vec!["hodgkin".to_string()], vec![], None).unwrap();
    let tcs = ts.match_thesaurus(th);
    assert_eq!(tcs.code_set.len(), 2);
    assert!(tcs.contains(code("X1234")));
    assert!(tcs.contains(code("X1235")));
    assert!(!tcs.contains(code("Y1...")));
}

#[test]
fn add_exclude_recomputes_code_set() {
    let mut th = Thesaurus::new();
    th.insert(code("X1234"), vec!["Hodgkin lymphoma".to_string()]);
    th.insert(code("X1235"), vec!["Hodgkin lymphoma, unspecified".to_string()]);
    let ts = TermSet::new(None, None, vec!["hodgkin".to_string()], vec![], None).unwrap();
    let mut tcs = ts.match_thesaurus(th);
    assert_eq!(tcs.code_set.len(), 2);
    tcs.add_exclude("unspecified".to_string()).unwrap();
    assert_eq!(tcs.code_set.len(), 1);
    assert!(tcs.contains(code("X1234")));
    assert!(!tcs.contains(code("X1235")));
}

#[test]
fn unmatched_descendants_worklist() {
    let mut th = Thesaurus::new();
    th.insert(code("2X..."), vec!["lymphoma".to_string()]);
    th.insert(code("2X3.."), vec!["lymphoma follicular".to_string()]);
    th.insert(code("2X4.."), vec!["quite unrelated text".to_string()]);
    let ts = TermSet::new(None, None, vec!["lymphoma".to_string()], vec![], None).unwrap();
    let tcs = ts.match_thesaurus(th);
    // 2X... and 2X3.. match; 2X4.. is a descendant nobody considered
    assert!(tcs.contains(code("2X...")));
    assert!(tcs.contains(code("2X3..")));
    let work = tcs.descendants_not_included_or_excluded();
    assert_eq!(work.len(), 1);
    assert!(work.contains(code("2X4..")));
}

#[test]
fn check_reports_staleness() {
    let mut th = Thesaurus::new();
    th.insert(code("X1234"), vec!["Hodgkin lymphoma".to_string()]);
    th.insert(code("X1235"), vec!["another text".to_string()]);
    let ts = TermSet::new(None, None, vec!["hodgkin".to_string()], vec![], None).unwrap();
    // a hand-assembled, stale code set: holds a non-matching code and an
    // unknown code, and misses the matching one
    let mut stale = CodeSet::new();
    stale.insert(code("X1235"));
    stale.insert(code("Zzzzz"));
    let tcs = eadapt_needs_analysis::read2::TermCodeSet::new(stale, ts, th);
    let report = tcs.check();
    assert!(report.extra.contains(code("X1235")));
    assert!(report.missing.contains(code("X1234")));
    assert!(report.missing_codes.contains(code("Zzzzz")));
    assert_eq!(report.extra.len(), 1);
    assert_eq!(report.missing.len(), 1);
    assert_eq!(report.missing_codes.len(), 1);
}
