use ironvault::keys::KeyError;
use ironvault::record::Record;
use ironvault::storage::StorageError;
use ironvault::vault::{
    config_path, create_vault_configuration, determine_vault_path, encrypted_key_path,
    storage_path, vault_path, Configuration, Vault, VaultError, VaultFiles,
};
use ring::rand::SystemRandom;

fn login(name: &str, username: &str, password: &str) -> Record {
    let random = SystemRandom::new();
    Record::new_login(name.to_string(), username.to_string(), password.to_string(), &random)
        .unwrap()
}

fn create_vault(password: &str) -> (Vault, VaultFiles) {
    let random = SystemRandom::new();
    Vault::create(password.to_string(), "/tmp/v1".to_string(), false, &random).unwrap()
}

fn open_vault(password: &str, files: &VaultFiles) -> Result<Vault, VaultError> {
    Vault::open(
        password.to_string(),
        "/tmp/v1".to_string(),
        &files.config,
        &files.key,
        &files.storage,
    )
}

#[test]
fn create_then_open_yields_an_empty_record_set() {
    let (vault, files) = create_vault("pw1");
    assert_eq!(vault.fetch_records().len(), 0);
    let reopened = open_vault("pw1", &files).unwrap();
    assert_eq!(reopened.fetch_records().len(), 0);
    assert_eq!(reopened.path().as_str(), "/tmp/v1");
}

#[test]
fn create_on_an_existing_directory_is_refused() {
    let random = SystemRandom::new();
    let result = Vault::create("pw1".to_string(), "/tmp/v1".to_string(), true, &random);
    assert_eq!(result.unwrap_err(), VaultError::VaultAlreadyExists);
}

#[test]
fn an_added_record_survives_a_reopen() {
    let (_, files) = create_vault("pw1");
    let mut vault = open_vault("pw1", &files).unwrap();
    let record = login("GitHub", "alice", "hunter2");
    let uuid = record.uuid.clone();
    let random = SystemRandom::new();
    let new_storage = vault.add_record(record, &random).unwrap();
    let files = VaultFiles { config: files.config, key: files.key, storage: new_storage };
    let reopened = open_vault("pw1", &files).unwrap();
    assert_eq!(reopened.fetch_records().len(), 1);
    let record = reopened.get_record_by_uuid(uuid.clone()).unwrap();
    assert_eq!(record.uuid, uuid);
    assert_eq!(record.name, "GitHub");
    assert_eq!(record.username(), Some(&"alice".to_string()));
    assert_eq!(record.password(), Some(&"hunter2".to_string()));
}

#[test]
fn a_wrong_passphrase_fails_to_decrypt() {
    let (_, files) = create_vault("pw1");
    let result = open_vault("pw2", &files);
    assert_eq!(
        result.unwrap_err(),
        VaultError::VaultStorageError(StorageError::DecryptionError)
    );
}

#[test]
fn a_tampered_storage_file_fails_to_decrypt() {
    let (_, files) = create_vault("pw1");
    for i in 0..files.storage.len() {
        let mut tampered = files.storage.clone();
        tampered[i] ^= 0x01;
        let result = Vault::open(
            "pw1".to_string(),
            "/tmp/v1".to_string(),
            &files.config,
            &files.key,
            &tampered,
        );
        assert_eq!(
            result.unwrap_err(),
            VaultError::VaultStorageError(StorageError::DecryptionError)
        );
    }
}

#[test]
fn a_tampered_key_file_fails_to_decrypt() {
    let (_, files) = create_vault("pw1");
    let mut tampered = files.key.clone();
    tampered[12] ^= 0x01;
    let result = Vault::open(
        "pw1".to_string(),
        "/tmp/v1".to_string(),
        &files.config,
        &tampered,
        &files.storage,
    );
    assert_eq!(
        result.unwrap_err(),
        VaultError::VaultStorageError(StorageError::DecryptionError)
    );
}

#[test]
fn records_sharing_a_name_are_all_found() {
    let (mut vault, _) = create_vault("pw1");
    let random = SystemRandom::new();
    let record_a = login("Email", "alice", "a");
    let record_b = login("Email", "bob", "b");
    let uuid_a = record_a.uuid.clone();
    let uuid_b = record_b.uuid.clone();
    vault.add_record(record_a, &random).unwrap();
    vault.add_record(record_b, &random).unwrap();
    let found = vault.get_records_by_name("Email".to_string());
    assert_eq!(found.len(), 2);
    let by_uuid = vault.get_record_by_uuid(uuid_a.clone()).unwrap();
    assert_eq!(by_uuid.uuid, uuid_a);
    assert_eq!(by_uuid.username(), Some(&"alice".to_string()));
    let by_uuid = vault.get_record_by_uuid(uuid_b.clone()).unwrap();
    assert_eq!(by_uuid.uuid, uuid_b);
    assert_eq!(by_uuid.username(), Some(&"bob".to_string()));
    assert_eq!(vault.get_records_by_name("Missing".to_string()).len(), 0);
}

#[test]
fn adding_a_record_with_the_same_uuid_replaces_it() {
    let (mut vault, _) = create_vault("pw1");
    let random = SystemRandom::new();
    let record_a = login("Email", "alice", "a");
    let uuid = record_a.uuid.clone();
    vault.add_record(record_a, &random).unwrap();
    let mut record_b = login("Email", "bob", "b");
    record_b.uuid = uuid.clone();
    vault.add_record(record_b, &random).unwrap();
    assert_eq!(vault.fetch_records().len(), 1);
    let record = vault.get_record_by_uuid(uuid).unwrap();
    assert_eq!(record.username(), Some(&"bob".to_string()));
}

#[test]
fn the_config_file_is_plain_json_with_the_salt() {
    let (_, files) = create_vault("pw1");
    let text = String::from_utf8(files.config.clone()).unwrap();
    assert!(text.starts_with("{\"salt\":["));
    assert!(text.ends_with("]}"));
    let config = Configuration::from_json(text).unwrap();
    assert_eq!(config.salt().len(), 16);
}

#[test]
fn configuration_round_trips_through_json() {
    let random = SystemRandom::new();
    let config = create_vault_configuration(&random).unwrap();
    assert_eq!(config.salt().len(), 16);
    let json = config.to_json();
    let back = Configuration::from_json(json.clone()).unwrap();
    assert_eq!(back.salt(), config.salt());
    assert_eq!(back.to_json(), json);
}

#[test]
fn configuration_reads_known_json() {
    let json = "{\"salt\":[0,1,2,3,4,5,6,7,8,9,10,11,12,13,14,255]}".to_string();
    let config = Configuration::from_json(json.clone()).unwrap();
    assert_eq!(
        config.salt(),
        &vec![0u8, 1, 2, 3, 4, 5, 6, 7, 8, 9, 10, 11, 12, 13, 14, 255]
    );
    assert_eq!(config.to_json(), json);
    assert!(Configuration::from_json("{\"salt\":[00]}".to_string()).is_err());
    assert!(Configuration::from_json("{\"salt\":[256]}".to_string()).is_err());
    assert!(Configuration::from_json("{\"salt\":[1,]}".to_string()).is_err());
}

#[test]
fn a_short_salt_in_the_config_is_refused_on_open() {
    let (_, files) = create_vault("pw1");
    let config = "{\"salt\":[1,2,3]}".as_bytes().to_vec();
    let result = Vault::open(
        "pw1".to_string(),
        "/tmp/v1".to_string(),
        &config,
        &files.key,
        &files.storage,
    );
    assert_eq!(result.unwrap_err(), VaultError::KeyError(KeyError::SaltLengthError));
}

#[test]
fn uses_the_explicit_path_first() {
    let resolved = determine_vault_path(
        Some("test_dir/explicit"),
        Some("test_dir/env/ironvault".to_string()),
        Some("/home/me".to_string()),
    );
    assert_eq!(resolved, Some("test_dir/explicit".to_string()));
}

#[test]
fn uses_the_environment_before_the_hardcoded_path() {
    let resolved = determine_vault_path(
        None,
        Some("test_dir/env/ironvault".to_string()),
        Some("/home/me".to_string()),
    );
    assert_eq!(resolved, Some("test_dir/env/ironvault".to_string()));
}

#[test]
fn uses_the_hardcoded_path_if_no_other_form_is_available() {
    let resolved = determine_vault_path(None, None, Some("/home/me".to_string()));
    assert_eq!(resolved, Some("/home/me/.ironvault/".to_string()));
    let resolved = determine_vault_path(None, Some("".to_string()), Some("/home/me".to_string()));
    assert_eq!(resolved, Some("/home/me/.ironvault/".to_string()));
    assert_eq!(determine_vault_path(None, None, None), None);
}

#[test]
fn vault_paths_join_with_a_single_separator() {
    let base = "/tmp/v1".to_string();
    assert_eq!(config_path(&base), "/tmp/v1/config");
    assert_eq!(storage_path(&base), "/tmp/v1/storage");
    assert_eq!(encrypted_key_path(&base), "/tmp/v1/key");
    let base = "/tmp/v1/".to_string();
    assert_eq!(vault_path(&base, "config"), "/tmp/v1/config");
}

#[test]
fn vault_error_descriptions() {
    assert_eq!(VaultError::VaultAlreadyExists.description(), "Vault already exists.");
    assert_eq!(
        VaultError::VaultStorageError(StorageError::DecryptionError).description(),
        "The encrypted data could not be decrypted."
    );
    assert_eq!(
        VaultError::KeyError(KeyError::SaltLengthError).description(),
        "The given salt was too short."
    );
}

#[test]
fn configuration_accepts_an_empty_salt_array() {
    let json = "{\"salt\":[]}".to_string();
    let config = Configuration::from_json(json.clone()).unwrap();
    assert_eq!(config.salt().len(), 0);
    assert_eq!(config.to_json(), json);
}
