use balti::config::{
    config_from_fields, get_sha_var, get_version_var, remotes_from_table, RemoteFields, RemoteForm,
};
use balti::error::AppError;
use balti::nav::TabNav;
use balti::object::S3Config;
use balti::registry::{create_remote, delete_remote, text_less, S3RemoteManager};

fn config(bucket: &str) -> S3Config {
    S3Config {
        access_key_id: "key".to_string(),
        secret_access_key: "secret".to_string(),
        region: "us-east-1".to_string(),
        endpoint: "http://localhost:9000".to_string(),
        bucket_name: bucket.to_string(),
    }
}

fn names(m: &S3RemoteManager) -> Vec<String> {
    m.remotes().iter().map(|(n, _)| n.clone()).collect()
}

#[test]
fn remotes_are_listed_by_name() {
    let mut m = S3RemoteManager::empty();
    assert!(m.add_remote("zeta".to_string(), config("z")).is_ok());
    assert!(m.add_remote("alpha".to_string(), config("a")).is_ok());
    assert!(m.add_remote("Mid".to_string(), config("m")).is_ok());
    assert!(m.add_remote("alp".to_string(), config("p")).is_ok());
    assert_eq!(names(&m), vec!["Mid", "alp", "alpha", "zeta"]);
    assert!(m.has_remote("alpha"));
    assert!(!m.has_remote("beta"));
}

#[test]
fn adding_taken_name_fails() {
    let mut m = S3RemoteManager::empty();
    m.add_remote("r1".to_string(), config("a")).unwrap();
    let err = m.add_remote("r1".to_string(), config("b")).unwrap_err();
    assert_eq!(err.name, "r1");
    assert_eq!(m.remotes().len(), 1);
    assert_eq!(m.remotes()[0].1.bucket_name, "a");
}

#[test]
fn remove_remote_drops_only_that_name() {
    let mut m = S3RemoteManager::empty();
    m.add_remote("a".to_string(), config("a")).unwrap();
    m.add_remote("b".to_string(), config("b")).unwrap();
    m.remove_remote("a");
    m.remove_remote("missing");
    assert_eq!(names(&m), vec!["b"]);
}

#[test]
fn parse_replaces_remotes_last_entry_wins() {
    let mut m = S3RemoteManager::empty();
    m.add_remote("old".to_string(), config("o")).unwrap();
    let loaded = vec![
        ("b".to_string(), config("b1")),
        ("a".to_string(), config("a")),
        ("b".to_string(), config("b2")),
    ];
    assert!(m.parse(Ok(loaded)).is_ok());
    assert_eq!(names(&m), vec!["a", "b"]);
    assert_eq!(m.remotes()[1].1.bucket_name, "b2");
    assert!(m.save_remotes().is_some());
}

#[test]
fn failed_parse_disables_saving() {
    let mut m = S3RemoteManager::empty();
    m.add_remote("a".to_string(), config("a")).unwrap();
    let err = m.parse(Err(AppError::err("bad toml".to_string()))).unwrap_err();
    assert_eq!(err.message, "bad toml");
    assert_eq!(names(&m), vec!["a"]);
    assert!(m.save_remotes().is_none());
}

#[test]
fn delete_remote_closes_its_tab() {
    let mut m = S3RemoteManager::empty();
    m.add_remote("a".to_string(), config("a")).unwrap();
    m.add_remote("b".to_string(), config("b")).unwrap();
    let mut tabs: TabNav<u8> = TabNav::new();
    tabs.new_tab("a".to_string(), 1);
    tabs.new_tab("b".to_string(), 2);
    delete_remote(&mut m, &mut tabs, "a");
    assert_eq!(names(&m), vec!["b"]);
    assert_eq!(*tabs.tabs(), vec!["b"]);
    assert_eq!(*tabs.active_index(), 0);
}

#[test]
fn create_remote_rejects_taken_name() {
    let mut m = S3RemoteManager::empty();
    m.add_remote("a".to_string(), config("a")).unwrap();
    let mut tabs: TabNav<u8> = TabNav::new();
    tabs.new_tab("a".to_string(), 1);
    let err = create_remote(&mut m, &mut tabs, "a".to_string(), config("x"), None).unwrap_err();
    assert_eq!(err.name, "a");
    assert_eq!(m.remotes()[0].1.bucket_name, "a");
    assert_eq!(tabs.tabs().len(), 1);
}

#[test]
fn edit_remote_replaces_it_and_closes_tab() {
    let mut m = S3RemoteManager::empty();
    m.add_remote("a".to_string(), config("a")).unwrap();
    let mut tabs: TabNav<u8> = TabNav::new();
    tabs.new_tab("a".to_string(), 1);
    assert!(create_remote(&mut m, &mut tabs, "a".to_string(), config("x"), Some("a")).is_ok());
    assert_eq!(m.remotes()[0].1.bucket_name, "x");
    assert!(tabs.tabs().is_empty());
    assert!(create_remote(&mut m, &mut tabs, "c".to_string(), config("c"), Some("a")).is_ok());
    assert_eq!(names(&m), vec!["c"]);
}

#[test]
fn name_order_compares_code_points() {
    assert!(text_less("a", "b"));
    assert!(text_less("ab", "abc"));
    assert!(!text_less("abc", "ab"));
    assert!(!text_less("a", "a"));
    assert!(text_less("Z", "a"));
    assert!(text_less("", "a"));
}

fn fields(bucket: Option<&str>, region: Option<&str>) -> RemoteFields {
    RemoteFields {
        access_key_id: Some("key".to_string()),
        secret_access_key: Some("secret".to_string()),
        region: region.map(|s| s.to_string()),
        endpoint: Some("http://e".to_string()),
        bucket_name: bucket.map(|s| s.to_string()),
    }
}

#[test]
fn config_from_complete_fields() {
    let c = config_from_fields("r1", &fields(Some("b"), Some("eu"))).unwrap();
    assert_eq!(c.bucket_name, "b");
    assert_eq!(c.region, "eu");
    assert_eq!(c.endpoint, "http://e");
}

#[test]
fn config_missing_field_names_first_missing() {
    let err = config_from_fields("r1", &fields(None, None)).unwrap_err();
    assert_eq!(err.message, "Missing or invalid region for remote: r1");
    assert_eq!(err.status, 400);
    let err = config_from_fields("r2", &fields(None, Some("eu"))).unwrap_err();
    assert_eq!(err.message, "Missing or invalid bucket_name for remote: r2");
}

#[test]
fn table_entries_that_are_not_tables_are_skipped() {
    let entries = vec![
        ("r1".to_string(), Some(fields(Some("b1"), Some("eu")))),
        ("junk".to_string(), None),
        ("r2".to_string(), Some(fields(Some("b2"), Some("us")))),
    ];
    let remotes = remotes_from_table(&entries).unwrap();
    assert_eq!(remotes.len(), 2);
    assert_eq!(remotes[0].0, "r1");
    assert_eq!(remotes[1].1.bucket_name, "b2");
    let bad = vec![
        ("r1".to_string(), Some(fields(Some("b1"), Some("eu")))),
        ("r2".to_string(), Some(fields(None, Some("us")))),
    ];
    let err = remotes_from_table(&bad).unwrap_err();
    assert_eq!(err.message, "Missing or invalid bucket_name for remote: r2");
}

#[test]
fn unset_settings_read_na() {
    assert_eq!(get_version_var(None), "NA");
    assert_eq!(get_version_var(Some("1.2.3".to_string())), "1.2.3");
    assert_eq!(get_sha_var(None), "NA");
    assert_eq!(get_sha_var(Some("abc123".to_string())), "abc123");
}

#[test]
fn app_error_statuses() {
    let e = AppError::message("m".to_string());
    assert_eq!((e.status, e.message.as_str(), e.req_id.as_str()), (400, "m", ""));
    let e = AppError::err("x".to_string());
    assert_eq!(e.status, 500);
}

fn form(name: &str, region: &str, bucket: &str) -> RemoteForm {
    RemoteForm {
        remote_name: name.to_string(),
        access_key_id: "key".to_string(),
        secret_access_key: "secret".to_string(),
        region: region.to_string(),
        endpoint: "http://e".to_string(),
        bucket_name: bucket.to_string(),
    }
}

#[test]
fn remote_form_requires_all_but_region() {
    assert!(form("r", "", "b").is_valid());
    assert!(!form("", "eu", "b").is_valid());
    assert!(!form("r", "eu", "").is_valid());
}

#[test]
fn remote_form_blank_region_reads_auto() {
    assert_eq!(form("r", "  \t", "b").config().region, "auto");
    assert_eq!(form("r", "", "b").config().region, "auto");
    assert_eq!(form("r", " eu-west-1", "b").config().region, " eu-west-1");
    assert_eq!(form("r", "eu", "bkt").config().bucket_name, "bkt");
}
