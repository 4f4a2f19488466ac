use balti::error::AppError;
use balti::listing::{aggregate_delete_results, ListingState, ListingView};
use balti::object::__S3Object;

fn file(key: &str) -> __S3Object {
    __S3Object::File { key: key.to_string(), size: 1, last_modified: None }
}

fn folder(key: &str) -> __S3Object {
    __S3Object::Folder(key.to_string())
}

fn keys(view: &ListingView) -> Vec<String> {
    view.objects().iter().map(|o| o.key().clone()).collect()
}

fn loaded(objects: Vec<__S3Object>) -> ListingView {
    let mut view = ListingView::new("/docs/".to_string(), "bucket".to_string());
    let t = view.begin_fetch();
    assert!(view.complete_fetch(t, Ok(objects)));
    view
}

#[test]
fn fetch_cycle_loads_objects() {
    let mut view = ListingView::new("/docs/".to_string(), "bucket".to_string());
    assert_eq!(view.state(), ListingState::Idle);
    let t = view.begin_fetch();
    assert_eq!(t, 1);
    assert!(view.is_loading());
    assert!(view.complete_fetch(t, Ok(vec![folder("docs/a/"), file("docs/b.txt")])));
    assert_eq!(view.state(), ListingState::Loaded);
    assert_eq!(keys(&view), vec!["docs/a/", "docs/b.txt"]);
}

#[test]
fn late_result_does_not_overwrite_newer_one() {
    let mut view = ListingView::new("/".to_string(), "bucket".to_string());
    let a = view.begin_fetch();
    let b = view.begin_fetch();
    assert!(view.complete_fetch(b, Ok(vec![file("new.txt")])));
    assert!(!view.complete_fetch(a, Ok(vec![file("old.txt")])));
    assert_eq!(keys(&view), vec!["new.txt"]);
    assert_eq!(view.state(), ListingState::Loaded);
}

#[test]
fn superseded_result_is_dropped_while_newer_in_flight() {
    let mut view = ListingView::new("/".to_string(), "bucket".to_string());
    let a = view.begin_fetch();
    let b = view.begin_fetch();
    assert!(!view.complete_fetch(a, Err(AppError::err("timeout".to_string()))));
    assert!(view.is_loading());
    assert!(view.error().is_none());
    assert!(view.complete_fetch(b, Ok(vec![])));
    assert!(!view.complete_fetch(b, Ok(vec![file("again.txt")])));
    assert!(view.objects().is_empty());
}

#[test]
fn failed_fetch_keeps_last_listing_and_next_fetch_clears_error() {
    let mut view = loaded(vec![file("docs/a.txt")]);
    let t = view.begin_fetch();
    assert!(view.complete_fetch(t, Err(AppError::err("denied".to_string()))));
    assert_eq!(view.state(), ListingState::Errored);
    assert_eq!(view.error().as_ref().map(|e| e.message.clone()), Some("denied".to_string()));
    assert_eq!(keys(&view), vec!["docs/a.txt"]);
    view.begin_fetch();
    assert!(view.error().is_none());
}

#[test]
fn select_all_then_clear_empties_selection() {
    let mut view = loaded(vec![folder("docs/a/"), file("docs/b.txt")]);
    view.select_all();
    assert!(view.is_checked("docs/a/"));
    assert!(view.is_checked("docs/b.txt"));
    assert_eq!(view.checked().len(), 2);
    view.clear_selection();
    assert!(view.checked().is_empty());
    assert_eq!(keys(&view), vec!["docs/a/", "docs/b.txt"]);
}

#[test]
fn toggle_flips_check_of_loaded_key_only() {
    let mut view = loaded(vec![file("docs/a.txt"), file("docs/b.txt")]);
    view.toggle("docs/a.txt");
    assert!(view.is_checked("docs/a.txt"));
    view.toggle("docs/zzz.txt");
    assert!(!view.is_checked("docs/zzz.txt"));
    view.select_all();
    assert_eq!(view.checked().len(), 2);
    view.toggle("docs/a.txt");
    assert!(!view.is_checked("docs/a.txt"));
    assert!(view.is_checked("docs/b.txt"));
}

#[test]
fn selection_ignored_unless_loaded() {
    let mut view = ListingView::new("/".to_string(), "bucket".to_string());
    view.begin_fetch();
    view.toggle("x");
    view.select_all();
    assert!(view.checked().is_empty());
}

#[test]
fn new_fetch_clears_selection() {
    let mut view = loaded(vec![file("docs/a.txt")]);
    view.select_all();
    view.begin_fetch();
    assert!(view.checked().is_empty());
}

#[test]
fn bulk_delete_with_one_failure_reports_it_and_does_not_refresh() {
    let mut view = loaded(vec![file("docs/1.txt"), file("docs/2.txt"), file("docs/3.txt")]);
    view.select_all();
    let plan = view.begin_delete();
    assert!(view.is_deleting());
    assert_eq!(plan.files, vec!["docs/1.txt", "docs/2.txt", "docs/3.txt"]);
    assert!(plan.folders.is_empty());
    let results = vec![Ok(()), Err(AppError::err("network error".to_string())), Ok(())];
    let generation = view.generation();
    let outcome = view.finish_delete(&results);
    let err = outcome.unwrap_err();
    assert_eq!(err.message, "network error;\n");
    assert_eq!(err.status, 400);
    assert!(!view.is_deleting());
    assert_eq!(view.state(), ListingState::Loaded);
    assert_eq!(view.generation(), generation);
    assert_eq!(view.checked().len(), 3);
}

#[test]
fn bulk_delete_success_refreshes_and_clears_selection() {
    let mut view = loaded(vec![folder("docs/sub/"), file("docs/1.txt")]);
    view.select_all();
    let plan = view.begin_delete();
    assert_eq!(plan.folders, vec!["docs/sub/"]);
    assert_eq!(plan.files, vec!["docs/1.txt"]);
    let outcome = view.finish_delete(&vec![Ok(()), Ok(())]);
    assert_eq!(outcome.ok(), Some(2));
    assert!(view.is_loading());
    assert!(view.checked().is_empty());
}

#[test]
fn delete_plan_takes_checked_entries_only() {
    let mut view = loaded(vec![file("docs/1.txt"), folder("docs/f/"), file("docs/2.txt")]);
    view.toggle("docs/2.txt");
    let plan = view.begin_delete();
    assert_eq!(plan.files, vec!["docs/2.txt"]);
    assert!(plan.folders.is_empty());
}

#[test]
fn aggregate_joins_every_failure() {
    let results = vec![
        Err(AppError::err("a failed".to_string())),
        Ok(()),
        Err(AppError::err("c failed".to_string())),
    ];
    let err = aggregate_delete_results(&results).unwrap_err();
    assert_eq!(err.message, "a failed;\nc failed;\n");
    assert!(aggregate_delete_results(&vec![Ok(()), Ok(())]).is_ok());
    assert!(aggregate_delete_results(&vec![]).is_ok());
}

#[test]
fn create_folder_cycle() {
    let mut view = loaded(vec![]);
    let key = view.begin_create_folder("  new.folder/ ");
    assert_eq!(key, "docs/newfolder");
    assert!(view.is_creating());
    let err = view.finish_create_folder(Err(AppError::err("nope".to_string()))).unwrap_err();
    assert_eq!(err.message, "nope");
    assert!(!view.is_creating());
    assert_eq!(view.state(), ListingState::Loaded);
    view.begin_create_folder("x");
    assert_eq!(view.finish_create_folder(Ok(())).ok(), Some(2));
    assert!(view.is_loading());
}

#[test]
fn listing_names() {
    let root = ListingView::new("/".to_string(), "my-bucket".to_string());
    assert_eq!(root.name(), "my-bucket");
    assert_eq!(root.listing_prefix(), "");
    let deep = ListingView::new("/folderA/folderB/".to_string(), "my-bucket".to_string());
    assert_eq!(deep.name(), "folderB");
    assert_eq!(deep.listing_prefix(), "folderA/folderB/");
    let plain = ListingView::new("top/".to_string(), "b".to_string());
    assert_eq!(plain.name(), "top");
    assert_eq!(plain.prefix(), "top/");
}
