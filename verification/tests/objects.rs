use flboot::measures::{checked_unit_measures, unit_functions, unit_measures, Measures};
use flboot::objdiff::{
    other_side, DiffRow, DiffSide, ObjectScores, ObjectSide, Percent, SectionInfo, SectionKind, Segment, SegmentColor,
    SegmentText, SymbolInfo, SymbolKind, SymbolScore, UnitDiff,
};
use flboot::progress::{chunk_size, render_progress, report_names, report_progress, skipped_message, FnProgress, UnitProgress};

fn percent(pct: f32) -> Percent {
    Percent { bits: pct.to_bits(), text: format!("{pct:.2}") }
}

fn symbol(name: &str, kind: SymbolKind, section: Option<usize>, address: u64, size: u64) -> SymbolInfo {
    SymbolInfo { name: name.to_string(), kind, section, address, size, hidden: false, ignored: false }
}

fn score(pct: Option<f32>, target_symbol: Option<usize>, text: &str) -> SymbolScore {
    let segments =
        vec![Segment { text: SegmentText::Basic(text.to_string()), color: SegmentColor::Normal, pad_to: 0 }];
    SymbolScore {
        match_percent: pct.map(percent),
        target_symbol,
        rows: Ok(vec![DiffRow { segments, changed: true, branch_to: None }]),
    }
}

fn unit(target: Option<(ObjectSide, ObjectScores)>, base: Option<(ObjectSide, ObjectScores)>) -> UnitDiff {
    let (target, target_scores) = match target {
        Some((o, s)) => (Some(o), Some(s)),
        None => (None, None),
    };
    let (base, base_scores) = match base {
        Some((o, s)) => (Some(o), Some(s)),
        None => (None, None),
    };
    UnitDiff { target, base, target_scores, base_scores }
}

fn target_side() -> (ObjectSide, ObjectScores) {
    let symbols = vec![
        symbol("_f@4", SymbolKind::Function, Some(0), 16, 8),
        symbol("data", SymbolKind::Object, Some(1), 0, 4),
        symbol("?g@@YAXXZ", SymbolKind::Function, Some(0), 24, 4),
    ];
    let sections = vec![
        SectionInfo { kind: SectionKind::Code, address: 16, size: 12 },
        SectionInfo { kind: SectionKind::Data, address: 0, size: 4 },
    ];
    let scores = ObjectScores {
        symbols: vec![score(Some(100.0), Some(1), "t0"), score(None, None, "t1"), score(Some(50.0), None, "t2")],
        sections: vec![None, Some(100f32.to_bits())],
    };
    (ObjectSide { symbols, sections }, scores)
}

fn base_side() -> (ObjectSide, ObjectScores) {
    let symbols = vec![
        symbol("@other@4", SymbolKind::Function, Some(0), 0, 2),
        symbol("@f@4", SymbolKind::Function, Some(0), 2, 9),
    ];
    let sections = vec![SectionInfo { kind: SectionKind::Code, address: 0, size: 11 }];
    let scores = ObjectScores {
        symbols: vec![score(None, None, "b0"), score(Some(75.0), Some(0), "b1")],
        sections: vec![None],
    };
    (ObjectSide { symbols, sections }, scores)
}

#[test]
fn functions_are_paired_by_the_engines_matching() {
    let views = unit(Some(target_side()), Some(base_side())).function_views(None).unwrap();
    assert_eq!(views.len(), 2);
    assert_eq!(views[0].name, "_f@4");
    assert_eq!(views[0].size, 8);
    let target = views[0].target.as_ref().unwrap();
    assert_eq!(target.match_percent.as_ref().unwrap().text, "100.00");
    assert_eq!(target.rows[0].text, "t0");
    assert!(target.rows[0].changed);
    let base = views[0].base.as_ref().unwrap();
    assert_eq!(base.match_percent.as_ref().unwrap().text, "75.00");
    assert_eq!(base.rows[0].text, "b1");
    assert_eq!(views[1].name, "?g@@YAXXZ");
    assert!(views[1].base.is_none());
}

#[test]
fn a_requested_symbol_is_found_by_its_key() {
    let unit = unit(Some(target_side()), Some(base_side()));
    let views = unit.function_views(Some("@f@4")).unwrap();
    assert_eq!(views.len(), 1);
    assert_eq!(views[0].name, "_f@4");
    assert!(unit.function_views(Some("nope")).unwrap().is_empty());
}

#[test]
fn the_base_drives_where_there_is_no_target() {
    let views = unit(None, Some(base_side())).function_views(None).unwrap();
    assert_eq!(views.len(), 2);
    assert!(views.iter().all(|v| v.target.is_none() && v.base.is_some()));
    assert!(unit(None, None).function_views(None).unwrap().is_empty());
}

#[test]
fn a_missing_score_is_reported() {
    let (object, mut scores) = target_side();
    scores.symbols.truncate(2);
    let e = unit(Some((object, scores)), None).function_views(None).err().unwrap();
    assert_eq!(e.message(), "diff has no entry for symbol ?g@@YAXXZ");
}

#[test]
fn a_missing_match_is_reported() {
    let (object, mut scores) = target_side();
    scores.symbols[0].target_symbol = Some(7);
    let e = unit(Some((object, scores)), Some(base_side())).function_views(None).err().unwrap();
    assert_eq!(e.message(), "diff has no entry for matched symbol 7");
}

#[test]
fn a_row_that_cannot_be_displayed_fails_only_where_it_is_shown() {
    let (object, mut scores) = target_side();
    scores.symbols[2].rows = Err("cannot decode".to_string());
    let unit = unit(Some((object, scores)), None);
    assert_eq!(unit.function_views(Some("f")).unwrap().len(), 1);
    assert_eq!(unit.function_views(None).err().unwrap().message(), "cannot decode");
}

#[test]
fn a_side_needs_an_object_and_its_scores() {
    let mut unit = unit(Some(target_side()), Some(base_side()));
    assert!(unit.side(DiffSide::Target).is_some());
    unit.base_scores = None;
    assert!(unit.side(other_side(DiffSide::Target)).is_none());
    assert!(other_side(DiffSide::Base) == DiffSide::Target);
}

#[test]
fn a_units_measures_count_what_matches() {
    let unit = unit(Some(target_side()), Some(base_side()));
    let (m, functions) = unit_measures(&unit);
    assert_eq!((m.total_code, m.matched_code), (12, 8));
    assert_eq!((m.total_data, m.matched_data), (4, 4));
    assert_eq!((m.total_functions, m.matched_functions, m.total_units), (2, 1, 1));
    assert_eq!(functions.len(), 2);
    assert_eq!((functions[0].name.as_str(), functions[0].size, functions[0].address), ("_f@4", 8, Some(0)));
    assert_eq!(functions[0].match_percent, 100f32.to_bits());
    assert_eq!((functions[1].name.as_str(), functions[1].address), ("?g@@YAXXZ", Some(8)));
}

#[test]
fn hidden_ignored_empty_and_section_symbols_do_not_count() {
    let (mut object, mut scores) = target_side();
    for _ in 0..4 {
        object.symbols.push(symbol("x", SymbolKind::Function, Some(0), 0, 1));
        scores.symbols.push(score(Some(100.0), None, "x"));
    }
    object.symbols[3].hidden = true;
    object.symbols[4].ignored = true;
    object.symbols[5].size = 0;
    object.symbols[6].kind = SymbolKind::Section;
    object.symbols.push(symbol("nowhere", SymbolKind::Function, None, 0, 1));
    object.symbols.push(symbol("unscored", SymbolKind::Function, Some(0), 0, 1));
    scores.symbols.push(score(Some(100.0), None, "x"));
    let (m, _) = unit_measures(&unit(Some((object, scores)), None));
    assert_eq!((m.total_functions, m.total_code), (2, 12));
}

#[test]
fn an_unknown_section_is_skipped_and_bss_is_data() {
    let (mut object, mut scores) = target_side();
    object.sections[0].kind = SectionKind::Unknown;
    object.sections.push(SectionInfo { kind: SectionKind::Bss, address: 0, size: 32 });
    scores.sections.push(Some(99f32.to_bits()));
    object.sections.push(SectionInfo { kind: SectionKind::Data, address: 0, size: 64 });
    let (m, functions) = unit_measures(&unit(Some((object, scores)), None));
    assert!(functions.is_empty());
    assert_eq!((m.total_data, m.matched_data), (36, 4));
}

#[test]
fn functions_are_listed_by_address_and_size() {
    let sections = vec![SectionInfo { kind: SectionKind::Code, address: 100, size: 0 }];
    let entries = [("late", 140, 4), ("before", 90, 1), ("big", 120, 9), ("small", 120, 2), ("twin", 120, 2)];
    let symbols: Vec<SymbolInfo> =
        entries.iter().map(|(n, a, s)| symbol(n, SymbolKind::Function, Some(0), *a, *s)).collect();
    let scores = ObjectScores {
        symbols: entries.iter().map(|(n, _, _)| score(None, None, n)).collect(),
        sections: vec![None],
    };
    let unit = unit(Some((ObjectSide { symbols, sections }, scores)), None);
    let (_, functions) = unit_measures(&unit);
    let names: Vec<&str> = functions.iter().map(|f| f.name.as_str()).collect();
    assert_eq!(names, vec!["small", "twin", "big", "late", "before"]);
    assert_eq!(functions[4].address, None);
    assert!(functions.iter().all(|f| f.match_percent == 0));
    let raw: Vec<String> = unit_functions(&unit).into_iter().map(|f| f.name).collect();
    assert_eq!(raw, vec!["late", "before", "big", "small", "twin"]);
}

#[test]
fn sums_that_do_not_fit_are_told() {
    let (mut object, scores) = target_side();
    object.symbols[0].size = u64::MAX;
    assert!(checked_unit_measures(&unit(Some((object, scores)), None)).is_none());
    let (mut object, mut scores) = target_side();
    object.sections[1].size = u64::MAX;
    object.sections.push(SectionInfo { kind: SectionKind::Data, address: 0, size: 1 });
    scores.sections.push(None);
    assert!(checked_unit_measures(&unit(Some((object, scores)), None)).is_none());
}

fn measures(code: u64, matched: u64, functions: u32, matched_functions: u32) -> Measures {
    Measures {
        total_code: code,
        matched_code: matched,
        total_data: 1,
        matched_data: 0,
        total_functions: functions,
        matched_functions,
        total_units: 1,
    }
}

#[test]
fn totals_sum_bytes_and_counts() {
    let small = measures(10, 10, 1, 1);
    let big = measures(990, 0, 99, 0);
    let total = Measures::total(&vec![small, big]);
    assert_eq!(total.total_code, 1000);
    assert_eq!(total.total_units, 2);
    assert_eq!(total.total_functions, 100);
    assert_eq!(total.matched_functions, 1);
    assert_eq!((total.matched_code, total.total_data, total.matched_data), (10, 2, 0));
    assert!(Measures::checked_total(&vec![measures(u64::MAX, 0, 0, 0), measures(1, 0, 0, 0)]).is_none());
    assert_eq!(Measures::total(&vec![]).total_units, 0);
}

fn progress_units() -> Vec<UnitProgress> {
    let (m, functions) = unit_measures(&unit(Some(target_side()), Some(base_side())));
    let functions = functions
        .into_iter()
        .map(|item| FnProgress { percent: format!("{:>6.1}", f32::from_bits(item.match_percent)), item })
        .collect();
    let pct = 66.66f32;
    let done = Percent { bits: pct.to_bits(), text: format!("{pct:>6.2}") };
    let none = Percent { bits: 0, text: format!("{:>6.2}", 0f32) };
    vec![
        UnitProgress { name: "src/a.dll".to_string(), measures: m, percent: done, functions },
        UnitProgress {
            name: "src/b.dll".to_string(),
            measures: measures(7, 0, 3, 0),
            percent: none,
            functions: vec![],
        },
    ]
}

#[test]
fn a_summary_leaves_out_units_without_a_match() {
    let pct = 42.1f32;
    let total = Percent { bits: pct.to_bits(), text: format!("{pct:.4}") };
    let out = render_progress(&measures(19, 8, 5, 1), &total, &progress_units(), &vec![], false);
    assert_eq!(
        out,
        "OVERALL: 1/5 functions, code 42.1000%\n  src/a.dll              1/2     code  66.66%\n"
    );
}

#[test]
fn a_named_unit_is_expanded_even_without_a_match() {
    let total = Percent { bits: 100f32.to_bits(), text: "100.0000".to_string() };
    let wanted = report_names(&vec!["a.dll".to_string(), "b.dll".to_string()]);
    assert_eq!(wanted, vec!["src/a.dll", "src/b.dll"]);
    let out = render_progress(&measures(0, 0, 0, 0), &total, &progress_units(), &wanted, false);
    let expected = "OVERALL: 0/0 functions, code 100.0000%\n\
                    \x20 src/a.dll              1/2     code  66.66%\n\
                    \x20     OK   100.0%     8  _f@4\n\
                    \x20           50.0%     4  ?g@@YAXXZ\n\
                    \x20 src/b.dll              0/3     code   0.00%\n";
    assert_eq!(out, expected);
    let colored = render_progress(&measures(0, 0, 0, 0), &total, &progress_units(), &wanted, true);
    assert!(colored.contains("\x1b[32mOK \x1b[0m \x1b[32m 100.0\x1b[0m%"), "{colored:?}");
    assert!(colored.contains("\x1b[31m  50.0\x1b[0m%"), "{colored:?}");
    let plain: String = colored
        .split('\x1b')
        .enumerate()
        .map(|(i, s)| if i == 0 { s.to_string() } else { s[s.find('m').unwrap() + 1..].to_string() })
        .collect();
    assert_eq!(plain, expected);
}

#[test]
fn a_report_totals_its_units() {
    let percent_of = |total: &Measures| {
        assert_eq!((total.matched_code, total.total_code), (8, 19));
        let pct = total.matched_code as f32 / total.total_code as f32 * 100.0;
        Percent { bits: pct.to_bits(), text: format!("{pct:.4}") }
    };
    let out = report_progress(&progress_units(), percent_of, &vec![], false).unwrap();
    assert_eq!(
        out,
        "OVERALL: 1/5 functions, code 42.1053%\n  src/a.dll              1/2     code  66.66%\n"
    );
    let mut units = progress_units();
    units[0].measures.total_code = u64::MAX;
    assert!(report_progress(&units, |_: &Measures| unreachable!(), &vec![], false).is_none());
}

#[test]
fn a_skipped_unit_is_named() {
    assert_eq!(skipped_message("src/x"), "skipping unit without target: src/x");
}

#[test]
fn chunks_cover_all_units_evenly() {
    assert_eq!(chunk_size(28, 8), 4);
    assert_eq!(chunk_size(3, 8), 1);
    assert_eq!(chunk_size(9, 4), 3);
    assert_eq!(chunk_size(0, 4), 0);
    assert_eq!(chunk_size(5, 1), 5);
}
