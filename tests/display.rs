use file_explorer::{secs_to_date, EntryStat, FileEntry, SortOrder, SortBy, ViewMode};

fn file(path: &str, size: u64, modified: u64) -> FileEntry {
    FileEntry::from_path(path.to_string(), EntryStat { is_dir: false, size, modified }).unwrap()
}

fn dir(path: &str) -> FileEntry {
    FileEntry::from_path(path.to_string(), EntryStat { is_dir: true, size: 4096, modified: 0 }).unwrap()
}

#[test]
fn size_display_small_values() {
    assert_eq!(file("/d/a", 999, 0).size_display(), "999 B");
    assert_eq!(file("/d/a", 0, 0).size_display(), "0 B");
    assert_eq!(file("/d/a", 1, 0).size_display(), "1 B");
    assert_eq!(file("/d/a", 1023, 0).size_display(), "1023 B");
}

#[test]
fn size_display_scaled_values() {
    assert_eq!(file("/d/a", 1536, 0).size_display(), "1.5 KB");
    assert_eq!(file("/d/a", 1024, 0).size_display(), "1.0 KB");
    assert_eq!(file("/d/a", 1048575, 0).size_display(), "1024.0 KB");
    assert_eq!(file("/d/a", 1048576, 0).size_display(), "1.0 MB");
    assert_eq!(file("/d/a", 5 * 1048576 + 1048576 / 4, 0).size_display(), "5.2 MB");
    assert_eq!(file("/d/a", 1073741824, 0).size_display(), "1.0 GB");
    assert_eq!(file("/d/a", 3 * 1073741824 + 1073741824 / 2, 0).size_display(), "3.5 GB");
    assert_eq!(file("/d/a", u64::MAX, 0).size_display(), "17179869184.0 GB");
}

#[test]
fn size_display_rounds_ties_to_even() {
    assert_eq!(file("/d/a", 1280, 0).size_display(), "1.2 KB");
    assert_eq!(file("/d/a", 1382, 0).size_display(), "1.3 KB");
}

#[test]
fn size_display_directory_is_a_dash() {
    assert_eq!(dir("/d/sub").size_display(), "—");
}

#[test]
fn kind_display_labels() {
    assert_eq!(dir("/d/sub").kind_display(), "Folder");
    assert_eq!(file("/d/notes.txt", 1, 0).kind_display(), "Text");
    assert_eq!(file("/d/a.png", 1, 0).kind_display(), "PNG Image");
    assert_eq!(file("/d/a.jpg", 1, 0).kind_display(), "JPEG Image");
    assert_eq!(file("/d/a.jpeg", 1, 0).kind_display(), "JPEG Image");
    assert_eq!(file("/d/a.pdf", 1, 0).kind_display(), "PDF");
    assert_eq!(file("/d/a.zip", 1, 0).kind_display(), "ZIP Archive");
    assert_eq!(file("/d/a.tar", 1, 0).kind_display(), "TAR Archive");
    assert_eq!(file("/d/a.tar.gz", 1, 0).kind_display(), "GZ Archive");
    assert_eq!(file("/d/main.rs", 1, 0).kind_display(), "Rust Source");
    assert_eq!(file("/d/Cargo.toml", 1, 0).kind_display(), "TOML File");
}

#[test]
fn kind_display_unmapped_extension_is_uppercased() {
    assert_eq!(file("/d/readme.md", 1, 0).kind_display(), "MD File");
    assert_eq!(file("/d/photo.Webp", 1, 0).kind_display(), "WEBP File");
}

#[test]
fn kind_display_without_extension_is_unknown() {
    assert_eq!(file("/d/Makefile", 1, 0).kind_display(), "Unknown");
    assert_eq!(file("/d/.bashrc", 1, 0).kind_display(), "Unknown");
}

#[test]
fn date_display_epoch() {
    assert_eq!(file("/d/a", 1, 0).date_display(), "1970-01-01 00:00");
}

#[test]
fn date_display_later_instants() {
    assert_eq!(file("/d/a", 1, 951782400).date_display(), "2000-02-29 00:00");
    assert_eq!(file("/d/a", 1, 1700000000).date_display(), "2023-11-14 22:13");
    assert_eq!(file("/d/a", 1, 86399).date_display(), "1970-01-01 23:59");
    assert_eq!(file("/d/a", 1, 4102444800).date_display(), "2100-01-01 00:00");
}

#[test]
fn secs_to_date_splits_fields() {
    assert_eq!(secs_to_date(0), (1970, 1, 1, 0, 0));
    assert_eq!(secs_to_date(1700000000), (2023, 11, 14, 22, 13));
    assert_eq!(secs_to_date(951868799), (2000, 2, 29, 23, 59));
    assert_eq!(secs_to_date(951868800), (2000, 3, 1, 0, 0));
}

#[test]
fn icon_names() {
    assert_eq!(dir("/d/sub").icon_name(), "folder-symbolic");
    assert_eq!(file("/d/a.txt", 1, 0).icon_name(), "text-x-generic");
    assert_eq!(file("/d/a.jpeg", 1, 0).icon_name(), "image-x-generic");
    assert_eq!(file("/d/a.pdf", 1, 0).icon_name(), "application-pdf");
    assert_eq!(file("/d/a.gz", 1, 0).icon_name(), "package-x-generic");
    assert_eq!(file("/d/a.py", 1, 0).icon_name(), "text-x-script");
    assert_eq!(file("/d/a.md", 1, 0).icon_name(), "application-x-generic");
    assert_eq!(file("/d/Makefile", 1, 0).icon_name(), "application-x-generic");
}

#[test]
fn from_path_takes_the_final_component() {
    let e = file("/home/user/notes.txt", 12, 34);
    assert_eq!(e.name, "notes.txt");
    assert_eq!(e.path, "/home/user/notes.txt");
    assert_eq!(e.size, 12);
    assert_eq!(e.modified, 34);
    assert!(!e.is_dir);
    let stat = EntryStat { is_dir: true, size: 0, modified: 0 };
    assert!(FileEntry::from_path("/".to_string(), stat).is_none());
    assert!(FileEntry::from_path("/home/..".to_string(), stat).is_none());
}

#[test]
fn list_directory_drops_unreadable_children() {
    let stat = EntryStat { is_dir: false, size: 5, modified: 7 };
    let children = vec![
        ("/d/a".to_string(), Some(stat)),
        ("/d/b".to_string(), None),
        ("/d/c".to_string(), Some(EntryStat { is_dir: true, size: 0, modified: 1 })),
    ];
    let entries = FileEntry::list_directory(children);
    assert_eq!(entries.len(), 2);
    assert_eq!(entries[0].name, "a");
    assert_eq!(entries[0].size, 5);
    assert_eq!(entries[1].name, "c");
    assert!(entries[1].is_dir);
    assert!(FileEntry::list_directory(vec![]).is_empty());
}

#[test]
fn sort_order_toggles() {
    let mut o = SortOrder::default();
    assert_eq!(o, SortOrder::Ascending);
    o.toggle();
    assert_eq!(o, SortOrder::Descending);
    o.toggle();
    assert_eq!(o, SortOrder::Ascending);
    assert_eq!(ViewMode::default(), ViewMode::List);
    assert_eq!(SortBy::default(), SortBy::Name);
}

#[test]
fn kind_display_extension_edge_cases() {
    assert_eq!(file("/d/archive.", 1, 0).kind_display(), " File");
    assert_eq!(file("/d/.config.toml", 1, 0).kind_display(), "TOML File");
    assert_eq!(file("/d.x/plain", 1, 0).kind_display(), "Unknown");
}
