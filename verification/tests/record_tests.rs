use ironvault::record::{EntryMap, Record, RecordKind};
use ring::rand::SystemRandom;

fn login(name: &str, username: &str, password: &str) -> Record {
    let random = SystemRandom::new();
    Record::new_login(name.to_string(), username.to_string(), password.to_string(), &random)
        .unwrap()
}

#[test]
fn new_login_instantiates_with_the_correct_settings() {
    let record = login("My Bank Account", "myemail@example.com", "password1");
    assert_eq!(record.name, "My Bank Account");
    assert_eq!(record.entries.get(&"username".to_string()), Some(&"myemail@example.com".to_string()));
    assert_eq!(record.entries.get(&"password".to_string()), Some(&"password1".to_string()));
    assert_eq!(record.kind, RecordKind::Login);
    assert_eq!(record.uuid.len(), 36);
}

#[test]
fn new_login_uuids_have_the_canonical_form() {
    let record = login("My Bank Account", "myemail@example.com", "password1");
    let uuid: Vec<char> = record.uuid.chars().collect();
    assert_eq!(uuid.len(), 36);
    for (i, c) in uuid.iter().enumerate() {
        if i == 8 || i == 13 || i == 18 || i == 23 {
            assert_eq!(*c, '-');
        } else {
            assert!(c.is_ascii_hexdigit() && !c.is_ascii_uppercase());
        }
    }
    assert_eq!(uuid[14], '4');
    assert!(matches!(uuid[19], '8' | '9' | 'a' | 'b'));
}

#[test]
fn new_login_generates_unique_uuids() {
    let record_a = login("My Bank Account", "myemail@example.com", "password1");
    let record_b = login("My Bank Account", "myemail@example.com", "password1");
    assert!(record_a.uuid != record_b.uuid);
    assert!(record_a.name == record_b.name);
}

#[test]
fn accessors_read_the_entry_table() {
    let record = login("My Bank Account", "myemail@example.com", "password1");
    assert_eq!(record.username(), Some(&"myemail@example.com".to_string()));
    assert_eq!(record.password(), Some(&"password1".to_string()));
    assert_eq!(record.metadata(&"username".to_string()), Some(&"myemail@example.com".to_string()));
    assert_eq!(record.metadata(&"missing".to_string()), None);
}

#[test]
fn updates_hand_back_the_previous_value() {
    let mut record = login("My Bank Account", "myemail@example.com", "password1");
    let prev = record.update_username("other@example.com".to_string());
    assert_eq!(prev, Some("myemail@example.com".to_string()));
    assert_eq!(record.username(), Some(&"other@example.com".to_string()));
    let prev = record.update_password("password2".to_string());
    assert_eq!(prev, Some("password1".to_string()));
    let prev = record.update_metadata("note".to_string(), "primary".to_string());
    assert_eq!(prev, None);
    assert_eq!(record.metadata(&"note".to_string()), Some(&"primary".to_string()));
}

#[test]
fn serializes_and_deserializes_into_an_equivalent_record() {
    let record_a = login("My Bank Account", "myemail@example.com", "password1");
    let json = record_a.to_json();
    let record_b = Record::from_json(json).unwrap();
    assert_eq!(record_a.uuid, record_b.uuid);
    assert_eq!(record_a.name, record_b.name);
    assert_eq!(record_a.kind, record_b.kind);
    assert_eq!(record_b.username(), Some(&"myemail@example.com".to_string()));
    assert_eq!(record_b.password(), Some(&"password1".to_string()));
}

#[test]
fn serializes_to_known_json() {
    let mut entries = EntryMap::new();
    entries.insert("username".to_string(), "myemail@example.com".to_string());
    entries.insert("password".to_string(), "password1".to_string());
    let record = Record {
        uuid: "60f1e42d-5eec-47cd-9377-fda6af2be692".to_string(),
        name: "My Bank Account".to_string(),
        kind: RecordKind::Login,
        entries,
    };
    assert_eq!(
        record.to_json(),
        "{\"uuid\":\"60f1e42d-5eec-47cd-9377-fda6af2be692\",\"name\":\"My Bank Account\",\"kind\":\"Login\",\"entries\":{\"username\":\"myemail@example.com\",\"password\":\"password1\"}}"
    );
}

#[test]
fn deserializes_from_known_json() {
    let json = "{\"uuid\":\"60f1e42d-5eec-47cd-9377-fda6af2be692\",\"name\":\"My Bank Account\",\"kind\":\"Login\",\"entries\":{\"username\":\"myemail@example.com\",\"password\":\"password1\"}}".to_string();
    let record = Record::from_json(json).unwrap();
    assert_eq!(record.uuid, "60f1e42d-5eec-47cd-9377-fda6af2be692");
    assert_eq!(record.name, "My Bank Account");
    assert_eq!(record.kind, RecordKind::Login);
    assert_eq!(record.username(), Some(&"myemail@example.com".to_string()));
    assert_eq!(record.password(), Some(&"password1".to_string()));
}

#[test]
fn rejects_json_that_is_not_canonical() {
    assert!(Record::from_json("".to_string()).is_err());
    assert!(Record::from_json("{}".to_string()).is_err());
    assert!(Record::from_json("not json at all".to_string()).is_err());
    let spaced = "{\"uuid\": \"60f1e42d-5eec-47cd-9377-fda6af2be692\",\"name\":\"n\",\"kind\":\"Login\",\"entries\":{}}";
    assert!(Record::from_json(spaced.to_string()).is_err());
}

#[test]
fn escapes_special_characters_in_strings() {
    let record = login("Quote \" backslash \\ tab \t", "user", "pass");
    let json = record.to_json();
    assert!(json.contains("Quote \\\" backslash \\\\ tab \\u0009"));
    let back = Record::from_json(json).unwrap();
    assert_eq!(back.name, "Quote \" backslash \\ tab \t");
}

#[test]
fn round_trips_non_ascii_names() {
    let record = login("Bücher-Konto", "user", "pass");
    let back = Record::from_json(record.to_json()).unwrap();
    assert_eq!(back.name, "Bücher-Konto");
}

#[test]
fn entry_map_replaces_by_key_in_place() {
    let mut entries = EntryMap::new();
    assert_eq!(entries.len(), 0);
    assert_eq!(entries.insert("a".to_string(), "1".to_string()), None);
    assert_eq!(entries.insert("b".to_string(), "2".to_string()), None);
    assert_eq!(entries.insert("a".to_string(), "3".to_string()), Some("1".to_string()));
    assert_eq!(entries.len(), 2);
    assert_eq!(entries.get(&"a".to_string()), Some(&"3".to_string()));
    assert_eq!(entries.get(&"b".to_string()), Some(&"2".to_string()));
}

#[test]
fn a_record_with_no_entries_round_trips() {
    let record = Record {
        uuid: "60f1e42d-5eec-47cd-9377-fda6af2be692".to_string(),
        name: "Bare".to_string(),
        kind: RecordKind::Login,
        entries: EntryMap::new(),
    };
    let json = record.to_json();
    assert_eq!(
        json,
        "{\"uuid\":\"60f1e42d-5eec-47cd-9377-fda6af2be692\",\"name\":\"Bare\",\"kind\":\"Login\",\"entries\":{}}"
    );
    let back = Record::from_json(json).unwrap();
    assert_eq!(back.name, "Bare");
    assert_eq!(back.entries.len(), 0);
}
