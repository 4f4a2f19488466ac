use std::rc::Rc;

use balti::nav::{BucketNav, TabNav};

fn names(nav: &TabNav<u32>) -> Vec<String> {
    nav.tabs().clone()
}

fn three_tabs() -> TabNav<u32> {
    let mut nav = TabNav::new();
    nav.new_tab("R1".to_string(), 1);
    nav.new_tab("R2".to_string(), 2);
    nav.new_tab("R3".to_string(), 3);
    nav
}

#[test]
fn new_tab_appends_and_activates() {
    let nav = three_tabs();
    assert_eq!(names(&nav), vec!["R1", "R2", "R3"]);
    assert_eq!(*nav.active_index(), 2);
    assert_eq!(nav.active_view(), Some(&3));
}

#[test]
fn open_same_remote_twice_focuses_existing_tab() {
    let mut nav = three_tabs();
    nav.new_tab("R1".to_string(), 10);
    assert_eq!(names(&nav), vec!["R1", "R2", "R3"]);
    assert_eq!(*nav.active_index(), 0);
    assert_eq!(nav.active_view(), Some(&1));
    nav.new_tab("R1".to_string(), 11);
    assert_eq!(names(&nav), vec!["R1", "R2", "R3"]);
    assert_eq!(*nav.active_index(), 0);
}

#[test]
fn close_before_active_keeps_same_tab_active() {
    let mut nav = three_tabs();
    assert_eq!(*nav.active_index(), 2);
    nav.close_tab(0);
    assert_eq!(names(&nav), vec!["R2", "R3"]);
    assert_eq!(*nav.active_index(), 1);
    assert_eq!(nav.active_view(), Some(&3));
}

#[test]
fn close_after_active_leaves_index() {
    let mut nav = three_tabs();
    nav.select_tab(0);
    nav.close_tab(2);
    assert_eq!(names(&nav), vec!["R1", "R2"]);
    assert_eq!(*nav.active_index(), 0);
}

#[test]
fn close_active_in_middle_moves_to_next_tab() {
    let mut nav = three_tabs();
    nav.select_tab(1);
    nav.close_tab(1);
    assert_eq!(names(&nav), vec!["R1", "R3"]);
    assert_eq!(*nav.active_index(), 1);
    assert_eq!(nav.active_view(), Some(&3));
}

#[test]
fn close_active_last_moves_back() {
    let mut nav = three_tabs();
    assert!(nav.close_active_tab());
    assert_eq!(names(&nav), vec!["R1", "R2"]);
    assert_eq!(*nav.active_index(), 1);
}

#[test]
fn close_only_tab_leaves_empty_set() {
    let mut nav: TabNav<u32> = TabNav::new();
    nav.new_tab("R1".to_string(), 1);
    assert!(nav.close_active_tab());
    assert!(nav.tabs().is_empty());
    assert_eq!(*nav.active_index(), 0);
    assert_eq!(nav.active_view(), None);
}

#[test]
fn close_active_on_empty_returns_false() {
    let mut nav: TabNav<u32> = TabNav::new();
    assert!(!nav.close_active_tab());
    assert!(nav.tabs().is_empty());
    assert_eq!(*nav.active_index(), 0);
}

#[test]
fn out_of_range_indices_change_nothing() {
    let mut nav = three_tabs();
    nav.close_tab(7);
    nav.select_tab(9);
    assert_eq!(names(&nav), vec!["R1", "R2", "R3"]);
    assert_eq!(*nav.active_index(), 2);
}

#[test]
fn close_tab_by_remote_name() {
    let mut nav = three_tabs();
    assert_eq!(nav.get_index_for_id("R2"), Some(1));
    nav.close_tab_by_remote("R2");
    assert_eq!(names(&nav), vec!["R1", "R3"]);
    assert_eq!(*nav.active_index(), 1);
    assert_eq!(nav.get_index_for_id("R2"), None);
    nav.close_tab_by_remote("missing");
    assert_eq!(names(&nav), vec!["R1", "R3"]);
}

fn entry(name: &str, prefix: &str) -> (String, String) {
    (name.to_string(), prefix.to_string())
}

#[test]
fn trim_to_root_drops_deeper_entries_and_views() {
    let root = Rc::new("root");
    let a = Rc::new("a");
    let b = Rc::new("b");
    let mut nav = BucketNav::new("bucket".to_string(), "/".to_string(), root.clone());
    nav.push("folderA".to_string(), "/folderA/".to_string(), a.clone());
    nav.push("folderB".to_string(), "/folderA/folderB/".to_string(), b.clone());
    assert_eq!(nav.stack().len(), 3);
    assert_eq!(nav.active_view().map(|s| s.as_str()), Some("/folderA/folderB/"));
    assert_eq!(Rc::strong_count(&b), 2);
    nav.trim(0);
    assert_eq!(*nav.stack(), vec![entry("bucket", "/")]);
    assert_eq!(nav.active_view().map(|s| s.as_str()), Some("/"));
    assert_eq!(nav.current_view().map(|v| **v), Some("root"));
    assert_eq!(Rc::strong_count(&a), 1);
    assert_eq!(Rc::strong_count(&b), 1);
}

#[test]
fn push_after_trim_discards_forward_history() {
    let mut nav = BucketNav::new("bucket".to_string(), "/".to_string(), 0u32);
    nav.push("a".to_string(), "a/".to_string(), 1);
    nav.push("b".to_string(), "a/b/".to_string(), 2);
    nav.trim(1);
    nav.push("c".to_string(), "a/c/".to_string(), 3);
    assert_eq!(*nav.stack(), vec![entry("bucket", "/"), entry("a", "a/"), entry("c", "a/c/")]);
    assert_eq!(nav.current_view(), Some(&3));
}

#[test]
fn trim_out_of_range_changes_nothing() {
    let mut nav = BucketNav::new("bucket".to_string(), "/".to_string(), 0u32);
    nav.push("a".to_string(), "a/".to_string(), 1);
    nav.trim(5);
    assert_eq!(nav.stack().len(), 2);
    assert_eq!(nav.current_view(), Some(&1));
}

#[test]
fn refresh_replaces_only_current_view() {
    let mut nav = BucketNav::new("bucket".to_string(), "/".to_string(), 0u32);
    nav.push("a".to_string(), "a/".to_string(), 1);
    nav.refresh_active_view(7);
    assert_eq!(*nav.stack(), vec![entry("bucket", "/"), entry("a", "a/")]);
    assert_eq!(nav.current_view(), Some(&7));
    nav.trim(0);
    assert_eq!(nav.current_view(), Some(&0));
}
