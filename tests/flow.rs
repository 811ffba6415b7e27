use rusty::alias::AliasError;
use rusty::codec::{decode, encode};
use rusty::handoff::handoff_path;
use rusty::outcome::{exit_code, Failure, HandoffError, StorageError};
use rusty::picker::{pick, picker_prompt, PickerEvent, PickerPrompt};
use rusty::router::{activate, route, Action, Request};
use rusty::store::AliasStore;

#[test]
fn handoff_path_is_history_under_root() {
    assert_eq!(handoff_path("/tmp/t1"), "/tmp/t1/history");
    assert_eq!(handoff_path(""), "/history");
}

#[test]
fn end_to_end_activation_by_name() {
    let mut store = AliasStore::new();
    let created = route(&mut store, Request::Create("proj".to_string(), "workon proj".to_string()));
    assert!(matches!(created, Ok(Action::Stored)));
    let decided = route(&mut store, Request::Activate("proj".to_string()));
    match decided {
        Ok(Action::Publish(c)) => assert_eq!(c, "workon proj"),
        _ => panic!("expected a command to publish"),
    }
    assert_eq!(handoff_path("/tmp/t1"), "/tmp/t1/history");
    assert_eq!(exit_code(None), 0);
}

#[test]
fn end_to_end_unknown_name() {
    let mut store = AliasStore::new();
    store.create("proj", "workon proj").unwrap();
    let decided = route(&mut store, Request::Activate("nope".to_string()));
    assert!(matches!(decided, Err(AliasError::NotFound)));
    assert_ne!(exit_code(Some(Failure::Alias(AliasError::NotFound))), 0);
    assert_eq!(store.len(), 1);
}

#[test]
fn activate_returns_command() {
    let mut store = AliasStore::new();
    store.create("env", "source venv/bin/activate").unwrap();
    assert_eq!(activate(&store, "env").unwrap(), "source venv/bin/activate");
    assert_eq!(activate(&store, "other").unwrap_err(), AliasError::NotFound);
}

#[test]
fn route_list_and_delete() {
    let mut store = AliasStore::new();
    route(&mut store, Request::Create("b".to_string(), "2".to_string())).unwrap();
    route(&mut store, Request::Create("a".to_string(), "1".to_string())).unwrap();
    match route(&mut store, Request::List) {
        Ok(Action::Show(list)) => {
            let names: Vec<String> = list.into_iter().map(|a| a.name).collect();
            assert_eq!(names, vec!["a", "b"]);
        }
        _ => panic!("expected a listing"),
    }
    assert!(matches!(route(&mut store, Request::Delete("a".to_string())), Ok(Action::Stored)));
    assert!(matches!(
        route(&mut store, Request::Delete("a".to_string())),
        Err(AliasError::NotFound)
    ));
    assert!(matches!(
        route(&mut store, Request::Create("b".to_string(), "3".to_string())),
        Err(AliasError::DuplicateName)
    ));
    assert_eq!(store.len(), 1);
}

#[test]
fn exit_codes_are_distinct() {
    let codes = vec![
        exit_code(None),
        exit_code(Some(Failure::Storage(StorageError::Unavailable))),
        exit_code(Some(Failure::Alias(AliasError::DuplicateName))),
        exit_code(Some(Failure::Alias(AliasError::InvalidName))),
        exit_code(Some(Failure::Alias(AliasError::NotFound))),
        exit_code(Some(Failure::Alias(AliasError::InvalidCommand))),
        exit_code(Some(Failure::Handoff(HandoffError::WriteFailed))),
    ];
    assert_eq!(codes, vec![0, 1, 2, 3, 4, 5, 6]);
}

#[test]
fn picker_on_empty_store_offers_creation() {
    let mut store = AliasStore::new();
    assert!(matches!(picker_prompt(&store), PickerPrompt::OfferCreate));
    assert!(matches!(pick(&mut store, PickerEvent::CreateDeclined), Ok(None)));
    assert_eq!(store.len(), 0);
}

#[test]
fn picker_creates_first_alias_and_selects_it() {
    let mut store = AliasStore::new();
    let r = pick(&mut store, PickerEvent::CreateEntered("proj".to_string(), "workon proj".to_string()));
    assert_eq!(r.unwrap(), Some("workon proj".to_string()));
    assert_eq!(store.get("proj").unwrap().command, "workon proj");
    let bad = pick(&mut store, PickerEvent::CreateEntered(String::new(), "x".to_string()));
    assert_eq!(bad.unwrap_err(), AliasError::InvalidName);
}

#[test]
fn picker_menu_lists_names_in_order() {
    let mut store = AliasStore::new();
    store.create("b", "cb").unwrap();
    store.create("a", "ca").unwrap();
    match picker_prompt(&store) {
        PickerPrompt::Menu(names) => assert_eq!(names, vec!["a", "b"]),
        PickerPrompt::OfferCreate => panic!("expected a menu"),
    }
    assert_eq!(pick(&mut store, PickerEvent::Chosen(1)).unwrap(), Some("cb".to_string()));
    assert_eq!(pick(&mut store, PickerEvent::Chosen(0)).unwrap(), Some("ca".to_string()));
    assert_eq!(pick(&mut store, PickerEvent::Chosen(2)).unwrap_err(), AliasError::NotFound);
    assert!(matches!(pick(&mut store, PickerEvent::Cancelled), Ok(None)));
    assert_eq!(store.len(), 2);
}

#[test]
fn encode_writes_sorted_records() {
    let mut store = AliasStore::new();
    assert_eq!(encode(&store), "");
    store.create("b", "workon b").unwrap();
    store.create("a", "source venv/bin/activate").unwrap();
    assert_eq!(encode(&store), "a\tsource venv/bin/activate\nb\tworkon b\n");
}

#[test]
fn decode_reads_back_encoded_store() {
    let mut store = AliasStore::new();
    store.create("proj", "workon proj").unwrap();
    store.create("env", "cmd\twith tab").unwrap();
    let text = encode(&store);
    let back = decode(&text).unwrap();
    assert_eq!(back.len(), 2);
    assert_eq!(back.get("proj").unwrap().command, "workon proj");
    assert_eq!(back.get("env").unwrap().command, "cmd\twith tab");
    assert_eq!(encode(&back), text);
    assert_eq!(decode("").unwrap().len(), 0);
}

#[test]
fn decode_refuses_malformed_text() {
    assert_eq!(decode("a\tx").unwrap_err(), StorageError::Unavailable);
    assert_eq!(decode("ax\n").unwrap_err(), StorageError::Unavailable);
    assert_eq!(decode("\tx\n").unwrap_err(), StorageError::Unavailable);
    assert_eq!(decode("b\tx\na\ty\n").unwrap_err(), StorageError::Unavailable);
    assert_eq!(decode("a\tx\na\ty\n").unwrap_err(), StorageError::Unavailable);
}
