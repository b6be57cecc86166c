use file_explorer::{format_bookmarks, parse_bookmarks, Bookmark, OwlSidePanel};

fn pairs(bs: &[Bookmark]) -> Vec<(String, String)> {
    bs.iter().map(|b| (b.path.clone(), b.name.clone())).collect()
}

fn pair(path: &str, name: &str) -> (String, String) {
    (path.to_string(), name.to_string())
}

#[test]
fn bookmark_from_path_uses_final_component() {
    let b = Bookmark::from_path("/home/user/Music".to_string());
    assert_eq!(b.name, "Music");
    let root = Bookmark::from_path("/".to_string());
    assert_eq!(root.name, "/");
    let b = Bookmark::new("/srv".to_string(), "Server");
    assert_eq!((b.path.as_str(), b.name.as_str()), ("/srv", "Server"));
}

#[test]
fn parse_reads_records_and_skips_the_rest() {
    let text = "file:///home/u/Projects Work stuff\n\nsmb://host/share Share\nfile:///tmp\r\nfile:///opt/x y\r\n";
    let bs = parse_bookmarks(text);
    assert_eq!(
        pairs(&bs),
        vec![pair("/home/u/Projects", "Work stuff"), pair("/tmp", "tmp"), pair("/opt/x", "y")]
    );
}

#[test]
fn parse_of_empty_text_is_empty() {
    assert!(parse_bookmarks("").is_empty());
    assert!(parse_bookmarks("\n\n").is_empty());
    assert!(parse_bookmarks("file:/").is_empty());
}

#[test]
fn parse_keeps_an_empty_name_after_the_space() {
    let bs = parse_bookmarks("file:///a/b ");
    assert_eq!(pairs(&bs), vec![pair("/a/b", "")]);
    let bs = parse_bookmarks("file://");
    assert_eq!(pairs(&bs), vec![pair("", "")]);
}

#[test]
fn format_writes_one_record_per_line() {
    let bs = vec![
        Bookmark::new("/home/u".to_string(), "u"),
        Bookmark::new("/data/photos".to_string(), "My Photos"),
    ];
    assert_eq!(format_bookmarks(&bs), "file:///home/u u\nfile:///data/photos My Photos");
    assert_eq!(format_bookmarks(&vec![]), "");
}

#[test]
fn format_then_parse_gives_the_bookmarks_back() {
    let bs = vec![
        Bookmark::new("/home/u".to_string(), "u"),
        Bookmark::new("/data/photos".to_string(), "My Photos"),
        Bookmark::new("/x".to_string(), ""),
    ];
    let back = parse_bookmarks(&format_bookmarks(&bs));
    assert_eq!(pairs(&back), pairs(&bs));
}

#[test]
fn side_panel_starts_with_home_and_avoids_duplicates() {
    let mut p = OwlSidePanel::new("/home/u".to_string(), "file:///srv Server\n");
    assert_eq!(pairs(p.bookmarks()), vec![pair("/home/u", "u"), pair("/srv", "Server")]);
    assert!(!p.add_bookmark("/srv".to_string()));
    assert!(p.add_bookmark("/opt/tools".to_string()));
    assert_eq!(p.bookmarks().len(), 3);
    assert_eq!(p.bookmarks()[2].name, "tools");
    p.remove_bookmark("/srv");
    assert_eq!(pairs(p.bookmarks()), vec![pair("/home/u", "u"), pair("/opt/tools", "tools")]);
    assert_eq!(p.saved_text(), "file:///home/u u\nfile:///opt/tools tools");
    p.reload_bookmarks("/root".to_string(), "");
    assert_eq!(pairs(p.bookmarks()), vec![pair("/root", "root")]);
}

#[test]
fn side_panel_compares_paths_by_component() {
    let mut p = OwlSidePanel::new("/home/u".to_string(), "file:///srv Server\n");
    assert!(!p.add_bookmark("/srv/".to_string()));
    p.remove_bookmark("/home//u");
    assert_eq!(pairs(p.bookmarks()), vec![pair("/srv", "Server")]);
}
