use std::path::PathBuf;

use xentool::layouts::{
    current_index, kind_for_extension, next, next_index, resolve_layout_path, resolve_with,
    sort_layout_files, LayoutEntry, LayoutKind,
};

fn s(v: &str) -> String {
    v.to_string()
}

#[test]
fn bare_wtn_goes_to_wtn_dir() {
    let r = PathBuf::from(resolve_layout_path("edo31.wtn"));
    assert_eq!(r, PathBuf::from("wtn").join("edo31.wtn"));
}

#[test]
fn bare_xtn_goes_to_xtn_dir() {
    let r = PathBuf::from(resolve_layout_path("edo31.xtn"));
    assert_eq!(r, PathBuf::from("xtn").join("edo31.xtn"));
}

#[test]
fn slashed_path_passes_through() {
    let r = PathBuf::from(resolve_layout_path("wtn/edo31.wtn"));
    assert_eq!(r, PathBuf::from("wtn/edo31.wtn"));
    let r2 = PathBuf::from(resolve_layout_path("wtn\\edo31.wtn"));
    assert_eq!(r2, PathBuf::from("wtn\\edo31.wtn"));
}

#[test]
fn absolute_path_passes_through() {
    let abs = PathBuf::from("/tmp/edo31.wtn");
    assert_eq!(PathBuf::from(resolve_layout_path("/tmp/edo31.wtn")), abs);
}

#[test]
fn unknown_extension_passes_through() {
    let r = PathBuf::from(resolve_layout_path("notes.txt"));
    assert_eq!(r, PathBuf::from("notes.txt"));
}

#[test]
fn kind_detected_from_extension() {
    assert_eq!(LayoutKind::from_extension("a.wtn"), Some(LayoutKind::Wtn));
    assert_eq!(LayoutKind::from_extension("a.XTN"), Some(LayoutKind::Xtn));
    assert_eq!(LayoutKind::from_extension("a.ini"), None);
}

#[test]
fn current_index_matches_by_basename() {
    let list = vec![s("wtn/edo12.wtn"), s("wtn/edo19.wtn"), s("wtn/edo31.wtn")];
    assert_eq!(current_index(&list, "wtn/edo19.wtn"), Some(1));
    assert_eq!(current_index(&list, "edo31.wtn"), Some(2));
    assert_eq!(current_index(&list, "edo999.wtn"), None);
}

#[test]
fn kind_dir_and_ext() {
    assert_eq!(LayoutKind::Wtn.dir(), "wtn");
    assert_eq!(LayoutKind::Xtn.ext(), "xtn");
    assert_eq!(kind_for_extension("WtN"), Some(LayoutKind::Wtn));
    assert_eq!(kind_for_extension("xtnx"), None);
}

#[test]
fn resolve_with_uses_the_given_separator() {
    assert_eq!(resolve_with("edo5.xtn", false, Some(LayoutKind::Xtn), '\\'), "xtn\\edo5.xtn");
    assert_eq!(resolve_with("edo5.xtn", true, Some(LayoutKind::Xtn), '/'), "edo5.xtn");
    assert_eq!(resolve_with("a/edo5.xtn", false, Some(LayoutKind::Xtn), '/'), "a/edo5.xtn");
    assert_eq!(resolve_with("edo5", false, None, '/'), "edo5");
}

#[test]
fn next_wraps_and_starts_over_for_unknown() {
    let list = vec![s("wtn/edo12.wtn"), s("wtn/edo19.wtn"), s("wtn/edo31.wtn")];
    assert_eq!(next(&list, "wtn/edo12.wtn"), Some(s("wtn/edo19.wtn")));
    assert_eq!(next(&list, "edo31.wtn"), Some(s("wtn/edo12.wtn")));
    assert_eq!(next(&list, "other.wtn"), Some(s("wtn/edo12.wtn")));
    assert_eq!(next(&[], "edo12.wtn"), None);
    assert_eq!(next_index(3, Some(2)), 0);
    assert_eq!(next_index(3, Some(0)), 1);
    assert_eq!(next_index(3, None), 0);
}

fn entry(path: &str, is_file: bool, ext: Option<&str>, name: Option<&str>) -> LayoutEntry {
    LayoutEntry {
        path: s(path),
        is_file,
        ext: ext.map(s),
        name: name.map(s),
    }
}

#[test]
fn layout_listing_filters_dedups_and_sorts() {
    let entries = vec![
        entry("wtn/edo31.wtn", true, Some("wtn"), Some("edo31.wtn")),
        entry("wtn/edo12.WTN", true, Some("WTN"), Some("edo12.WTN")),
        entry("wtn/readme.txt", true, Some("txt"), Some("readme.txt")),
        entry("wtn/sub.wtn", false, Some("wtn"), Some("sub.wtn")),
        entry("wtn/edo19.wtn", true, Some("wtn"), Some("edo19.wtn")),
        entry("other/edo31.wtn", true, Some("wtn"), Some("edo31.wtn")),
        entry("wtn/noname", true, Some("wtn"), None),
    ];
    assert_eq!(
        sort_layout_files(&entries, "wtn"),
        vec![s("wtn/edo12.WTN"), s("wtn/edo19.wtn"), s("wtn/edo31.wtn")]
    );
    assert!(sort_layout_files(&entries, "xtn").is_empty());
}

#[test]
fn wooting_layouts_by_extension_and_log_names() {
    assert!(xentool::layouts::is_wtn("wtn/edo31.WTN"));
    assert!(xentool::layouts::is_wtn("a.wtn"));
    assert!(!xentool::layouts::is_wtn("xtn/edo31.xtn"));
    assert!(!xentool::layouts::is_wtn("wtn"));
    assert_eq!(
        xentool::logging::sanitize_filename("2024-01-02T03:04:05+01:00"),
        "2024-01-02T03-04-05+01-00"
    );
    assert_eq!(xentool::logging::sanitize_filename("a/b\\c"), "a-b-c");
}

#[test]
fn plain_paths_read_their_last_component() {
    assert!(xentool::layouts::is_wtn("wtn/edo31.wtn/"));
    assert!(xentool::layouts::is_wtn("./edo31.wtn/."));
    assert!(!xentool::layouts::is_wtn(".wtn"));
    assert!(!xentool::layouts::is_wtn("edo31.wtn/.."));
    assert_eq!(LayoutKind::from_extension("a.b.xtn"), Some(LayoutKind::Xtn));
    assert_eq!(LayoutKind::from_extension("xtn."), None);
    let list = vec![s("xtn/a.xtn"), s("xtn//b.xtn"), s("other/b.xtn")];
    assert_eq!(current_index(&list, "b.xtn/"), Some(1));
    assert_eq!(current_index(&list, ".."), None);
}
