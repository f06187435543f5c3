use josaa_orcr::{
    valid_rounds, Dataset, DatasetOptions, Entry, EntryIterator, Filters, InstituteKind, LoadError,
    Options, RankRange, Sort, StrMap,
};

fn entry(institute: &str, quota: &str, seat_type: &str, gender: &str, or: u32, cr: u32) -> Entry {
    Entry {
        institute: institute.to_string(),
        branch: "Computer Science".to_string(),
        quota: quota.to_string(),
        seat_type: seat_type.to_string(),
        gender: gender.to_string(),
        or,
        cr,
    }
}

fn kind(kind: &str, institutes: &[&str]) -> InstituteKind {
    InstituteKind {
        kind: kind.to_string(),
        institutes: institutes.iter().map(|s| s.to_string()).collect(),
    }
}

fn sample_entries() -> Vec<Entry> {
    vec![
        entry("IIT Bombay", "AI", "OPEN", "Neutral", 1, 60),
        entry("IIT Delhi", "AI", "OBC", "Female", 150, 300),
        entry("NIT Trichy", "HS", "OPEN", "Neutral", 120, 180),
        entry("NIT Trichy", "OS", "SC", "Female", 900, 1500),
        entry("IIIT Hyderabad", "AI", "OPEN", "Neutral", 200, 450),
    ]
}

fn sample_kinds() -> Vec<InstituteKind> {
    vec![
        kind("IIT", &["IIT Bombay", "IIT Delhi"]),
        kind("NIT", &["NIT Trichy"]),
        kind("IIIT", &["IIIT Hyderabad"]),
    ]
}

fn options(year: u16, round: u8) -> Options {
    Options {
        year: Some(year),
        round: Some(round),
    }
}

fn loaded(entries: Vec<Entry>) -> Dataset {
    let mut d = Dataset::new();
    assert_eq!(d.load(&options(2023, 2), entries, sample_kinds()), Ok(()));
    d
}

fn closing_ranks(d: &Dataset) -> Vec<u32> {
    d.view().iter().map(|e| e.cr).collect()
}

#[test]
fn derive_includes_every_value_and_matches_every_entry() {
    let entries = sample_entries();
    let f = Filters::derive(&entries, &sample_kinds());
    for e in &entries {
        assert_eq!(f.quota.get(&e.quota), Some(&true));
        assert_eq!(f.seat_type.get(&e.seat_type), Some(&true));
        assert_eq!(f.gender.get(&e.gender), Some(&true));
        assert!(f.institutes.is_included(&e.institute));
        assert!(f.matches(e));
    }
    assert_eq!(f.quota.len(), 3);
    assert_eq!(f.seat_type.len(), 3);
    assert_eq!(f.gender.len(), 2);
    assert_eq!(f.institute_kinds.len(), 3);
    assert_eq!(f.institutes.len(), 4);
}

#[test]
fn derive_keeps_first_appearance_order() {
    let f = Filters::derive(&sample_entries(), &sample_kinds());
    let quotas: Vec<String> = (0..f.quota.len()).map(|i| f.quota.key_at(i).clone()).collect();
    assert_eq!(quotas, vec!["AI", "HS", "OS"]);
}

#[test]
fn derive_rank_bounds_from_zero_to_max() {
    let f = Filters::derive(&sample_entries(), &sample_kinds());
    assert_eq!(f.or_bounds.start, 0);
    assert_eq!(f.or_bounds.end, 900);
    assert_eq!(f.cr_bounds.start, 0);
    assert_eq!(f.cr_bounds.end, 1500);
    assert_eq!((f.or.start, f.or.end), (0, 900));
    assert_eq!((f.cr.start, f.cr.end), (0, 1500));
}

#[test]
fn derive_on_no_entries_gives_empty_bounds() {
    let f = Filters::derive(&Vec::new(), &Vec::new());
    assert!(f.or_bounds.is_empty());
    assert!(f.cr_bounds.is_empty());
    assert_eq!((f.or_bounds.start, f.or_bounds.end), (4, 3));
    assert_eq!(f.quota.len(), 0);
    assert_eq!(f.institutes.len(), 0);
}

#[test]
fn unclassified_institute_is_not_matched() {
    let entries = vec![entry("Unknown College", "AI", "OPEN", "Neutral", 5, 10)];
    let f = Filters::derive(&entries, &sample_kinds());
    assert!(!f.matches(&entries[0]));
}

#[test]
fn institute_listed_twice_takes_first_kind() {
    let kinds = vec![kind("A", &["X"]), kind("B", &["X"])];
    let entries = vec![entry("X", "AI", "OPEN", "Neutral", 5, 10)];
    let mut f = Filters::derive(&entries, &kinds);
    assert_eq!(f.kind_of.get(&"X".to_string()), Some(&"A".to_string()));
    assert!(f.institute_kinds.set(&"B".to_string(), false));
    assert!(f.matches(&entries[0]));
    assert!(f.institute_kinds.set(&"A".to_string(), false));
    assert!(!f.matches(&entries[0]));
}

#[test]
fn disabling_kind_or_institute_hides_it() {
    let entries = sample_entries();
    let mut f = Filters::derive(&entries, &sample_kinds());
    f.institute_kinds.set(&"NIT".to_string(), false);
    let visible: Vec<bool> = entries.iter().map(|e| f.matches(e)).collect();
    assert_eq!(visible, vec![true, true, false, false, true]);

    let mut f = Filters::derive(&entries, &sample_kinds());
    f.institutes.set(&"IIT Delhi".to_string(), false);
    let visible: Vec<bool> = entries.iter().map(|e| f.matches(e)).collect();
    assert_eq!(visible, vec![true, false, true, true, true]);
}

#[test]
fn disabling_one_quota_hides_exactly_its_entries() {
    let mut d = loaded(sample_entries());
    let before: Vec<String> = d.view().iter().map(|e| e.institute.clone()).collect();
    assert_eq!(before.len(), 5);

    let mut f = d.filters().clone();
    assert!(f.quota.set(&"AI".to_string(), false));
    d.set_filters(f);
    let after: Vec<(String, String)> = d
        .view()
        .iter()
        .map(|e| (e.institute.clone(), e.quota.clone()))
        .collect();
    assert_eq!(
        after,
        vec![
            ("NIT Trichy".to_string(), "HS".to_string()),
            ("NIT Trichy".to_string(), "OS".to_string()),
        ]
    );
}

#[test]
fn setting_unknown_value_changes_nothing() {
    let mut f = Filters::derive(&sample_entries(), &sample_kinds());
    assert!(!f.quota.set(&"XX".to_string(), false));
    assert_eq!(f.quota.len(), 3);
    assert_eq!(f.quota.get(&"XX".to_string()), None);
}

#[test]
fn opening_window_narrows_view_in_sort_order() {
    let mut d = loaded(sample_entries());
    let mut f = d.filters().clone();
    f.or = RankRange::new(100, 200);
    d.set_filters(f);
    let view: Vec<(u32, u32)> = d.view().iter().map(|e| (e.or, e.cr)).collect();
    assert_eq!(view, vec![(120, 180), (150, 300), (200, 450)]);
    for (or, _) in &view {
        assert!(*or >= 100 && *or <= 200);
    }

    d.sort(&Sort::OpeningDescending);
    let view: Vec<u32> = d.view().iter().map(|e| e.or).collect();
    assert_eq!(view, vec![200, 150, 120]);
}

#[test]
fn closing_window_narrows_view() {
    let mut d = loaded(sample_entries());
    let mut f = d.filters().clone();
    f.cr = RankRange::new(0, 300);
    d.set_filters(f);
    assert_eq!(closing_ranks(&d), vec![60, 180, 300]);
}

#[test]
fn closing_descending_is_stable() {
    let entries = vec![
        entry("IIT Bombay", "AI", "OPEN", "Neutral", 1, 50),
        entry("IIT Delhi", "AI", "OPEN", "Neutral", 2, 10),
        entry("NIT Trichy", "AI", "OPEN", "Neutral", 3, 50),
        entry("IIIT Hyderabad", "AI", "OPEN", "Neutral", 4, 30),
    ];
    let mut d = loaded(entries);
    d.sort(&Sort::ClosingDescending);
    let view: Vec<(u32, String)> = d.view().iter().map(|e| (e.cr, e.institute.clone())).collect();
    assert_eq!(
        view,
        vec![
            (50, "IIT Bombay".to_string()),
            (50, "NIT Trichy".to_string()),
            (30, "IIIT Hyderabad".to_string()),
            (10, "IIT Delhi".to_string()),
        ]
    );
    assert_eq!(d.visible_indices(), vec![0, 2, 3, 1]);
}

#[test]
fn each_sort_orders_by_its_key() {
    let mut d = loaded(sample_entries());
    assert_eq!(d.get_sort(), Sort::ClosingAscending);
    assert_eq!(closing_ranks(&d), vec![60, 180, 300, 450, 1500]);
    d.sort(&Sort::ClosingDescending);
    assert_eq!(closing_ranks(&d), vec![1500, 450, 300, 180, 60]);
    d.sort(&Sort::OpeningAscending);
    let ors: Vec<u32> = d.view().iter().map(|e| e.or).collect();
    assert_eq!(ors, vec![1, 120, 150, 200, 900]);
    d.sort(&Sort::OpeningDescending);
    let ors: Vec<u32> = d.view().iter().map(|e| e.or).collect();
    assert_eq!(ors, vec![900, 200, 150, 120, 1]);
}

#[test]
fn reload_with_new_choice_resets_filters() {
    let mut d = loaded(sample_entries());
    let mut f = d.filters().clone();
    f.quota.set(&"AI".to_string(), false);
    f.or = RankRange::new(100, 200);
    d.set_filters(f);
    d.sort(&Sort::OpeningDescending);
    assert_eq!(d.view().len(), 1);

    assert_eq!(d.needs_load(&options(2023, 3)), Ok(true));
    assert_eq!(d.load(&options(2023, 3), sample_entries(), sample_kinds()), Ok(()));
    assert_eq!(d.view().len(), 5);
    assert_eq!(d.get_sort(), Sort::ClosingAscending);
    assert_eq!(d.filters().quota.get(&"AI".to_string()), Some(&true));
    assert_eq!((d.filters().or.start, d.filters().or.end), (0, 900));
}

#[test]
fn reload_with_same_choice_changes_nothing() {
    let mut d = loaded(sample_entries());
    d.sort(&Sort::OpeningAscending);
    assert_eq!(d.needs_load(&options(2023, 2)), Ok(false));
    assert_eq!(d.load(&options(2023, 2), Vec::new(), Vec::new()), Ok(()));
    assert_eq!(d.view().len(), 5);
    assert_eq!(d.get_sort(), Sort::OpeningAscending);
}

#[test]
fn invalid_choice_is_refused_before_reading() {
    let mut d = Dataset::new();
    assert!(!d.is_loaded());
    assert_eq!(d.needs_load(&options(2015, 1)), Err(LoadError::InvalidSelection));
    assert_eq!(d.needs_load(&options(2024, 6)), Err(LoadError::InvalidSelection));
    let incomplete = Options {
        year: Some(2020),
        round: None,
    };
    assert_eq!(d.needs_load(&incomplete), Err(LoadError::InvalidSelection));
    assert_eq!(
        d.load(&options(2019, 8), sample_entries(), sample_kinds()),
        Err(LoadError::InvalidSelection)
    );
    assert!(!d.is_loaded());
    assert_eq!(d.view().len(), 0);
    assert_eq!(d.needs_load(&options(2019, 7)), Ok(true));
}

#[test]
fn loading_empty_data_is_legal() {
    let mut d = Dataset::new();
    assert_eq!(d.load(&options(2016, 1), Vec::new(), Vec::new()), Ok(()));
    assert!(d.is_loaded());
    assert_eq!(d.view().len(), 0);
    assert!(d.filters().or_bounds.is_empty());
}

#[test]
fn entry_iterator_yields_matching_in_storage_order() {
    let entries = sample_entries();
    let mut f = Filters::derive(&entries, &sample_kinds());
    f.gender.set(&"Female".to_string(), false);
    let mut it = EntryIterator::new(&f, &entries);
    let mut seen = Vec::new();
    while let Some(e) = it.next() {
        seen.push(e.or);
    }
    assert_eq!(seen, vec![1, 120, 200]);
    assert!(it.next().is_none());
}

#[test]
fn valid_rounds_per_year() {
    assert_eq!(valid_rounds(2016), 1..=6);
    assert_eq!(valid_rounds(2017), 1..=7);
    assert_eq!(valid_rounds(2019), 1..=7);
    assert_eq!(valid_rounds(2020), 1..=6);
    assert_eq!(valid_rounds(2024), 1..=5);
    assert_eq!(Options::get_valid_years(), 2016..=2024);
    assert_eq!(Options::get_valid_rounds(Some(2018)), 1..=7);
    assert!(Options::get_valid_rounds(None).is_empty());
}

#[test]
fn options_paths_and_completeness() {
    let o = options(2020, 3);
    assert!(o.is_complete());
    assert!(o.is_valid());
    assert_eq!(o.into_db_path(), "db/2020/data-2020-3.db");
    let partial = Options {
        year: Some(2020),
        round: None,
    };
    assert!(!partial.is_complete());
    assert!(!Options::default().is_complete());

    let d = DatasetOptions::default().with_year(2024).with_round(5);
    assert_eq!(d.year, Some(2024));
    assert_eq!(d.round, Some(5));
    assert_eq!(d.get_db_path(), "db/2024/data-2024-5.db");
}

#[test]
fn sort_choices_and_labels() {
    let all = Sort::as_vec();
    assert_eq!(
        all,
        vec![
            Sort::OpeningAscending,
            Sort::OpeningDescending,
            Sort::ClosingAscending,
            Sort::ClosingDescending
        ]
    );
    let labels: Vec<String> = all.iter().map(|s| s.to_string()).collect();
    assert_eq!(
        labels,
        vec!["Ascending (OR)", "Descending (OR)", "Ascending (CR)", "Descending (CR)"]
    );
    assert_eq!(Sort::default(), Sort::ClosingAscending);
}

#[test]
fn str_map_add_and_set() {
    let mut m: StrMap<bool> = StrMap::new();
    m.add("a".to_string(), true);
    m.add("b".to_string(), false);
    m.add("a".to_string(), false);
    assert_eq!(m.len(), 2);
    assert_eq!(m.get(&"a".to_string()), Some(&true));
    assert!(m.is_included(&"a".to_string()));
    assert!(!m.is_included(&"b".to_string()));
    m.set_at(1, true);
    assert_eq!(*m.value_at(1), true);
    assert_eq!(m.key_at(1), "b");
}

#[test]
fn editing_filters_in_place_affects_next_view() {
    let mut d = loaded(sample_entries());
    d.get_filters().seat_type.set(&"OPEN".to_string(), false);
    assert_eq!(closing_ranks(&d), vec![300, 1500]);
    d.get_filters().cr = RankRange::new(0, 1000);
    assert_eq!(closing_ranks(&d), vec![300]);
}

#[test]
fn filters_load_replaces_selection() {
    let mut f = Filters::default();
    assert!(f.or.is_empty());
    f.load(&sample_entries(), &sample_kinds());
    assert_eq!((f.or.start, f.or.end), (0, 900));
    assert_eq!(f.quota.len(), 3);
    assert!(sample_entries().iter().all(|e| f.matches(e)));
}
