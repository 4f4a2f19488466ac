use balti::object::{
    create_folder_key, folder_marker_key, objects_from_listing, strip_key_prefix, ListedFile,
    TrimPrefix, __S3Object,
};
use balti::text::{after_last_slash, same_text, trim_char, trim_start_char, without_char};

#[test]
fn key_below_prefix() {
    assert_eq!(strip_key_prefix("folderA/x.txt", "/folderA/"), "x.txt");
    assert_eq!(strip_key_prefix("folderA/sub/", "folderA/"), "sub/");
    assert_eq!(strip_key_prefix("folderA/", "/folderA/"), "folderA/");
    assert_eq!(strip_key_prefix("a.txt", "/"), "a.txt");
    assert_eq!("docs/readme.md".to_string().trim_key_prefix("/docs/"), "readme.md");
}

#[test]
fn folder_marker_key_trims_slashes() {
    assert_eq!(folder_marker_key("/a/b/"), "a/b/__fd.dat");
    assert_eq!(folder_marker_key("new"), "new/__fd.dat");
}

#[test]
fn folder_key_cleans_name() {
    assert_eq!(create_folder_key("/docs/", "  my.folder/ "), "docs/myfolder");
    assert_eq!(create_folder_key("/", "..x..y"), "/xy");
    assert_eq!(create_folder_key("a/b", "\tc\n"), "a/b/c");
}

#[test]
fn listing_puts_folders_before_files() {
    let prefixes = vec![Some("a/".to_string()), None, Some("b/".to_string())];
    let files = vec![
        ListedFile { key: "c.txt".to_string(), size: Some(42), modified_secs: Some(0) },
        ListedFile { key: "d.txt".to_string(), size: None, modified_secs: None },
        ListedFile { key: "e.txt".to_string(), size: Some(1), modified_secs: Some(i64::MAX) },
    ];
    let objects = objects_from_listing(&prefixes, &files);
    assert_eq!(objects.len(), 5);
    assert!(matches!(&objects[0], __S3Object::Folder(k) if k == "a/"));
    assert!(matches!(&objects[1], __S3Object::Folder(k) if k == "b/"));
    match &objects[2] {
        __S3Object::File { key, size, last_modified } => {
            assert_eq!(key, "c.txt");
            assert_eq!(*size, 42);
            assert_eq!(last_modified.as_deref(), Some("Jan 01, 1970 12:00:00 AM"));
        }
        _ => panic!("expected a file"),
    }
    match &objects[3] {
        __S3Object::File { size, last_modified, .. } => {
            assert_eq!(*size, 0);
            assert!(last_modified.is_none());
        }
        _ => panic!("expected a file"),
    }
    match &objects[4] {
        __S3Object::File { last_modified, .. } => assert!(last_modified.is_none()),
        _ => panic!("expected a file"),
    }
    assert_eq!(objects[4].key(), "e.txt");
}

#[test]
fn modified_label_in_the_afternoon() {
    let files = vec![ListedFile { key: "k".to_string(), size: Some(1), modified_secs: Some(1_700_000_000) }];
    let objects = objects_from_listing(&vec![], &files);
    match &objects[0] {
        __S3Object::File { last_modified, .. } => {
            assert_eq!(last_modified.as_deref(), Some("Nov 14, 2023 10:13:20 PM"))
        }
        _ => panic!("expected a file"),
    }
}

#[test]
fn text_helpers() {
    assert_eq!(trim_char("//a/b//", '/'), "a/b");
    assert_eq!(trim_char("////", '/'), "");
    assert_eq!(trim_start_char("//a/", '/'), "a/");
    assert_eq!(without_char("a.b..c", '.'), "abc");
    assert_eq!(after_last_slash("a/b/c"), "c");
    assert_eq!(after_last_slash("abc"), "abc");
    assert_eq!(after_last_slash("abc/"), "");
    assert!(same_text("héllo", "héllo"));
    assert!(!same_text("a", "ab"));
}
