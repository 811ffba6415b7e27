use rusty::alias::{has_char, is_valid_command, is_valid_name, name_less, AliasError};
use rusty::store::AliasStore;

#[test]
fn create_then_get_returns_same_command() {
    let mut store = AliasStore::new();
    let created = store.create("proj", "workon proj").unwrap();
    assert_eq!(created.name, "proj");
    assert_eq!(created.command, "workon proj");
    let got = store.get("proj").unwrap();
    assert_eq!(got.name, "proj");
    assert_eq!(got.command, "workon proj");
}

#[test]
fn create_then_get_with_tab_in_command() {
    let mut store = AliasStore::new();
    store.create("x", "echo\tone").unwrap();
    assert_eq!(store.get("x").unwrap().command, "echo\tone");
}

#[test]
fn duplicate_create_fails_and_keeps_store() {
    let mut store = AliasStore::new();
    store.create("a", "first").unwrap();
    assert_eq!(store.create("a", "second").unwrap_err(), AliasError::DuplicateName);
    assert_eq!(store.len(), 1);
    assert_eq!(store.get("a").unwrap().command, "first");
}

#[test]
fn create_rejects_bad_names_and_commands() {
    let mut store = AliasStore::new();
    assert_eq!(store.create("", "x").unwrap_err(), AliasError::InvalidName);
    assert_eq!(store.create("a\nb", "x").unwrap_err(), AliasError::InvalidName);
    assert_eq!(store.create("a\tb", "x").unwrap_err(), AliasError::InvalidName);
    assert_eq!(store.create("ok", "two\nlines").unwrap_err(), AliasError::InvalidCommand);
    assert_eq!(store.len(), 0);
}

#[test]
fn empty_command_is_accepted() {
    let mut store = AliasStore::new();
    store.create("blank", "").unwrap();
    assert_eq!(store.get("blank").unwrap().command, "");
}

#[test]
fn names_are_case_sensitive() {
    let mut store = AliasStore::new();
    store.create("Proj", "one").unwrap();
    store.create("proj", "two").unwrap();
    assert_eq!(store.get("Proj").unwrap().command, "one");
    assert_eq!(store.get("proj").unwrap().command, "two");
}

#[test]
fn delete_missing_is_not_found() {
    let mut store = AliasStore::new();
    store.create("a", "x").unwrap();
    assert_eq!(store.delete("b"), Err(AliasError::NotFound));
    assert_eq!(store.len(), 1);
    let mut empty = AliasStore::new();
    assert_eq!(empty.delete("a"), Err(AliasError::NotFound));
    assert_eq!(empty.len(), 0);
}

#[test]
fn delete_removes_alias() {
    let mut store = AliasStore::new();
    store.create("a", "x").unwrap();
    store.create("b", "y").unwrap();
    assert_eq!(store.delete("a"), Ok(()));
    assert_eq!(store.len(), 1);
    assert_eq!(store.get("a").unwrap_err(), AliasError::NotFound);
    assert_eq!(store.get("b").unwrap().command, "y");
    assert_eq!(store.delete("a"), Err(AliasError::NotFound));
}

#[test]
fn get_missing_is_not_found() {
    let store = AliasStore::new();
    assert_eq!(store.get("nope").unwrap_err(), AliasError::NotFound);
}

#[test]
fn list_empty_store() {
    let store = AliasStore::new();
    assert!(store.list().is_empty());
}

#[test]
fn list_sorted_regardless_of_creation_order() {
    let mut first = AliasStore::new();
    first.create("b", "cb").unwrap();
    first.create("a", "ca").unwrap();
    first.create("c", "cc").unwrap();
    let names: Vec<String> = first.list().into_iter().map(|a| a.name).collect();
    assert_eq!(names, vec!["a", "b", "c"]);

    let mut second = AliasStore::new();
    second.create("c", "cc").unwrap();
    second.create("a", "ca").unwrap();
    second.create("b", "cb").unwrap();
    let pairs: Vec<(String, String)> =
        second.list().into_iter().map(|a| (a.name, a.command)).collect();
    let expected: Vec<(String, String)> =
        first.list().into_iter().map(|a| (a.name, a.command)).collect();
    assert_eq!(pairs, expected);
}

#[test]
fn list_orders_prefix_first_and_by_code_point() {
    let mut store = AliasStore::new();
    store.create("ab", "1").unwrap();
    store.create("a", "2").unwrap();
    store.create("B", "3").unwrap();
    let names: Vec<String> = store.list().into_iter().map(|a| a.name).collect();
    assert_eq!(names, vec!["B", "a", "ab"]);
}

#[test]
fn name_order_examples() {
    assert!(name_less("a", "b"));
    assert!(!name_less("b", "a"));
    assert!(name_less("", "a"));
    assert!(!name_less("a", "a"));
    assert!(name_less("a", "ab"));
    assert!(!name_less("ab", "a"));
    assert!(name_less("Z", "a"));
}

#[test]
fn name_and_command_checks() {
    assert!(is_valid_name("proj"));
    assert!(!is_valid_name(""));
    assert!(!is_valid_name("p\tq"));
    assert!(!is_valid_name("p\nq"));
    assert!(is_valid_command("source venv/bin/activate"));
    assert!(is_valid_command(""));
    assert!(!is_valid_command("a\nb"));
    assert!(has_char("héllo", 'é'));
    assert!(!has_char("hello", 'z'));
}
