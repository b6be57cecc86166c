use file_explorer::{
    arrange_entries, compare_text, filter_entries, sort_entries, EntryStat, FileEntry,
    OwlContentPanel, RowAction, SortBy, SortOrder, ViewMode,
};

fn entry(path: &str, is_dir: bool, size: u64, modified: u64) -> FileEntry {
    FileEntry::from_path(path.to_string(), EntryStat { is_dir, size, modified }).unwrap()
}

fn names(entries: &[FileEntry]) -> Vec<String> {
    entries.iter().map(|e| e.name.clone()).collect()
}

fn sample() -> Vec<FileEntry> {
    vec![
        entry("/d/b.txt", false, 100, 30),
        entry("/d/A", true, 4096, 20),
        entry("/d/.hidden", true, 4096, 10),
    ]
}

#[test]
fn scenario_hidden_files_off() {
    let r = arrange_entries(&sample(), false, SortBy::Name, SortOrder::Ascending);
    assert_eq!(names(&r), vec!["A", "b.txt"]);
}

#[test]
fn scenario_hidden_files_on() {
    let r = arrange_entries(&sample(), true, SortBy::Name, SortOrder::Ascending);
    assert_eq!(names(&r), vec![".hidden", "A", "b.txt"]);
}

#[test]
fn filter_hides_dot_files() {
    let r = filter_entries(&sample(), false);
    assert_eq!(names(&r), vec!["b.txt", "A"]);
    assert!(r.iter().all(|e| !e.name.starts_with('.')));
}

#[test]
fn filter_showing_hidden_keeps_everything() {
    let r = filter_entries(&sample(), true);
    assert_eq!(names(&r), vec!["b.txt", "A", ".hidden"]);
}

fn mixed() -> Vec<FileEntry> {
    vec![
        entry("/d/zeta.rs", false, 300, 5),
        entry("/d/Beta", true, 0, 40),
        entry("/d/alpha.txt", false, 100, 50),
        entry("/d/gamma", true, 0, 10),
        entry("/d/Delta.md", false, 200, 20),
    ]
}

#[test]
fn directories_come_first_for_every_setting() {
    for by in [SortBy::Name, SortBy::Size, SortBy::Type, SortBy::Date] {
        for order in [SortOrder::Ascending, SortOrder::Descending] {
            let r = sort_entries(&mixed(), by, order);
            assert_eq!(r.len(), 5);
            assert!(r[0].is_dir && r[1].is_dir);
            assert!(!r[2].is_dir && !r[3].is_dir && !r[4].is_dir);
        }
    }
}

#[test]
fn sort_by_name_ignores_case() {
    let r = sort_entries(&mixed(), SortBy::Name, SortOrder::Ascending);
    assert_eq!(names(&r), vec!["Beta", "gamma", "alpha.txt", "Delta.md", "zeta.rs"]);
}

#[test]
fn flipping_order_reverses_each_group() {
    let asc = sort_entries(&mixed(), SortBy::Name, SortOrder::Ascending);
    let desc = sort_entries(&mixed(), SortBy::Name, SortOrder::Descending);
    assert_eq!(names(&desc), vec!["gamma", "Beta", "zeta.rs", "Delta.md", "alpha.txt"]);
    let mut asc_files = names(&asc[2..]);
    asc_files.reverse();
    assert_eq!(asc_files, names(&desc[2..]));
}

#[test]
fn sort_by_size_date_and_type() {
    let r = sort_entries(&mixed(), SortBy::Size, SortOrder::Ascending);
    assert_eq!(names(&r), vec!["Beta", "gamma", "alpha.txt", "Delta.md", "zeta.rs"]);
    let r = sort_entries(&mixed(), SortBy::Date, SortOrder::Ascending);
    assert_eq!(names(&r), vec!["gamma", "Beta", "zeta.rs", "Delta.md", "alpha.txt"]);
    let r = sort_entries(&mixed(), SortBy::Type, SortOrder::Ascending);
    assert_eq!(names(&r), vec!["Beta", "gamma", "Delta.md", "zeta.rs", "alpha.txt"]);
}

#[test]
fn sort_keeps_equal_entries_in_order() {
    let es = vec![
        entry("/d/b", false, 7, 0),
        entry("/d/a", false, 7, 0),
        entry("/d/c", false, 1, 0),
    ];
    let r = sort_entries(&es, SortBy::Size, SortOrder::Ascending);
    assert_eq!(names(&r), vec!["c", "b", "a"]);
    let r = sort_entries(&es, SortBy::Size, SortOrder::Descending);
    assert_eq!(names(&r), vec!["b", "a", "c"]);
}

#[test]
fn sorting_twice_gives_the_same_result() {
    let once = sort_entries(&mixed(), SortBy::Type, SortOrder::Descending);
    let twice = sort_entries(&once, SortBy::Type, SortOrder::Descending);
    assert_eq!(names(&once), names(&twice));
}

#[test]
fn sort_of_nothing_is_empty() {
    assert!(sort_entries(&vec![], SortBy::Name, SortOrder::Ascending).is_empty());
}

#[test]
fn compare_text_orders_by_code_point() {
    assert_eq!(compare_text("a", "b"), -1);
    assert_eq!(compare_text("b", "a"), 1);
    assert_eq!(compare_text("ab", "ab"), 0);
    assert_eq!(compare_text("ab", "abc"), -1);
    assert_eq!(compare_text("", ""), 0);
    assert_eq!(compare_text(".hidden", "a"), -1);
    assert_eq!(compare_text("B", "a"), -1);
}

#[test]
fn panel_selecting_a_field_twice_flips_the_order() {
    let mut p = OwlContentPanel::new();
    p.load_directory(mixed());
    assert_eq!(p.sort_by(), SortBy::Name);
    assert_eq!(p.sort_order(), SortOrder::Ascending);
    p.set_sort(SortBy::Name);
    assert_eq!(p.sort_order(), SortOrder::Descending);
    assert_eq!(names(p.entries()), vec!["gamma", "Beta", "zeta.rs", "Delta.md", "alpha.txt"]);
    p.set_sort(SortBy::Size);
    assert_eq!(p.sort_by(), SortBy::Size);
    assert_eq!(p.sort_order(), SortOrder::Ascending);
    p.set_order(SortOrder::Descending);
    assert_eq!(names(p.entries()), vec!["gamma", "Beta", "zeta.rs", "Delta.md", "alpha.txt"]);
    p.set_sort_menu(SortBy::Date);
    assert_eq!(p.sort_by(), SortBy::Date);
    assert_eq!(p.sort_order(), SortOrder::Ascending);
}

#[test]
fn panel_toggles_hidden_files_and_keeps_settings_across_loads() {
    let mut p = OwlContentPanel::new();
    p.load_directory(sample());
    assert_eq!(names(p.entries()), vec!["A", "b.txt"]);
    p.set_visible_files();
    assert!(p.show_hidden_files());
    assert_eq!(names(p.entries()), vec![".hidden", "A", "b.txt"]);
    p.set_view_mode(ViewMode::Grid);
    p.load_directory(mixed());
    assert!(p.show_hidden_files());
    assert_eq!(p.view_mode(), ViewMode::Grid);
    assert_eq!(p.entries().len(), 5);
    p.set_visible_files();
    p.load_directory(sample());
    assert_eq!(names(p.entries()), vec!["A", "b.txt"]);
}

#[test]
fn header_labels_mark_the_active_column() {
    let mut p = OwlContentPanel::new();
    assert_eq!(p.header_labels(), vec!["Name ↑", "Size", "Type", "Date"]);
    p.set_sort(SortBy::Date);
    p.set_sort(SortBy::Date);
    assert_eq!(p.header_labels(), vec!["Name", "Size", "Type", "Date ↓"]);
}

#[test]
fn panel_new_field_keeps_the_shown_order_among_ties() {
    let mut p = OwlContentPanel::new();
    p.load_directory(vec![entry("/d/new", false, 1, 200), entry("/d/old", false, 1, 100)]);
    p.set_sort(SortBy::Date);
    assert_eq!(names(p.entries()), vec!["old", "new"]);
    p.set_sort(SortBy::Size);
    assert_eq!(names(p.entries()), vec!["old", "new"]);
    p.set_sort_menu(SortBy::Date);
    p.set_order(SortOrder::Descending);
    assert_eq!(names(p.entries()), vec!["new", "old"]);
    p.set_sort_menu(SortBy::Size);
    assert_eq!(names(p.entries()), vec!["new", "old"]);
}

#[test]
fn panel_activating_a_row() {
    let mut p = OwlContentPanel::new();
    p.load_directory(sample());
    assert!(matches!(p.activate_row(0), RowAction::Navigate(ref path) if path == "/d/A"));
    assert!(matches!(p.activate_row(1), RowAction::Open(ref path) if path == "/d/b.txt"));
    assert!(matches!(p.activate_row(2), RowAction::Nothing));
}
