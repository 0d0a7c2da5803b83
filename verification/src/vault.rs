//! The vault: the two-level key hierarchy, the three on-disk files and
//! the in-memory record collection.
//!
//! A vault directory holds `config` (plaintext JSON with the salt),
//! `key` (the data-encryption key sealed under the passphrase-derived
//! key) and `storage` (the record collection sealed under the
//! data-encryption key). The library computes and checks the contents of
//! those files; a thin caller moves the bytes between here and the
//! filesystem.

use vstd::prelude::*;
use vstd::slice::slice_to_vec;
use vstd::string::StringExecFns;
use vstd::string::StrSliceExecFns;
use vstd::utf8::encode_utf8;
use vstd::utf8::encode_scalar;
use vstd::utf8::decode_utf8_encode_utf8;
use crate::json::chars_to_string;
use crate::json::chars_eq;
use crate::json::bytes_to_string;
use crate::json::dec_u8;
use crate::json::push_dec_u8;
use crate::json::parse_dec_u8;
use crate::json::str_to_chars;
use crate::keys::AeadAlgorithm;
use crate::keys::KeyError;
use crate::keys::derive_key;
use crate::keys::generate_key;
use crate::keys::generate_salt;
use crate::keys::spec_derived_key;
use crate::record::Record;
use crate::record::RecordView;
use crate::record::records_view;
use crate::record::records_json;
use crate::record::push_records_json;
use crate::record::parse_records;
use crate::storage::EncryptedStorage;
use crate::storage::StorageError;
use crate::storage::envelope_opens_to;
use crate::storage::envelope_seals;

verus! {

/// The errors of vault creation and opening.
#[derive(Debug, PartialEq, Eq, Structural, Clone, Copy)]
pub enum VaultError {
    KeyError(KeyError),
    ConfigurationSerializationError,
    ConfigurationFileError,
    VaultStorageError(StorageError),
    VaultAlreadyExists,
    VaultGenerationError,
}

impl VaultError {
    /// A short account of the error, for a caller that reports it. An
    /// error that wraps a cause hands back the cause's account.
    pub fn description(&self) -> (r: &'static str)
        ensures
            r@ == (match *self {
                VaultError::KeyError(cause) => (match cause {
                    KeyError::KeyGenerationError => "There was a problem generating the key from the system's random values."@,
                    KeyError::SaltGenerationError => "There was a problem generating the salt from the system's random values."@,
                    KeyError::SaltLengthError => "The given salt was too short."@,
                }),
                VaultError::ConfigurationSerializationError => "The configuration could not be read or written as JSON."@,
                VaultError::ConfigurationFileError => "There was an error accessing the configuration file."@,
                VaultError::VaultStorageError(cause) => (match cause {
                    StorageError::KeyLengthError => "The key was not the right length for the encryption algorithm"@,
                    StorageError::KeyError => "There was a problem with the key to access the encrypted storage."@,
                    StorageError::NonceGenerationError => "There was a problem generating the nonce."@,
                    StorageError::DecryptionError => "The encrypted data could not be decrypted."@,
                    StorageError::EncryptionError => "The plaintext data could not be encrypted."@,
                    StorageError::StringError => "The file contents were not valid UTF-8."@,
                    StorageError::FileError => "There was an error accessing the file."@,
                    StorageError::SerializationError => "The file contents could not be interpreted."@,
                }),
                VaultError::VaultAlreadyExists => "Vault already exists."@,
                VaultError::VaultGenerationError => "Vault generation error."@,
            }),
    {
        match *self {
            VaultError::KeyError(cause) => cause.description(),
            VaultError::ConfigurationSerializationError => "The configuration could not be read or written as JSON.",
            VaultError::ConfigurationFileError => "There was an error accessing the configuration file.",
            VaultError::VaultStorageError(cause) => cause.description(),
            VaultError::VaultAlreadyExists => "Vault already exists.",
            VaultError::VaultGenerationError => "Vault generation error.",
        }
    }
}

/// The fixed text that opens the configuration object, through the
/// bracket that opens the salt array.
pub open spec fn tok_salt_open() -> Seq<char> {
    seq!['{', '"', 's', 'a', 'l', 't', '"', ':', '[']
}

/// The canonical JSON text of the salt bytes after the first: each with
/// a comma in front.
pub open spec fn salt_rest_json(salt: Seq<u8>) -> Seq<char>
    decreases salt.len(),
{
    if salt.len() == 0 {
        seq![]
    } else {
        seq![','] + dec_u8(salt[0]) + salt_rest_json(salt.drop_first())
    }
}

/// The canonical JSON text of the salt bytes, commas between them.
pub open spec fn salt_items_json(salt: Seq<u8>) -> Seq<char> {
    if salt.len() == 0 {
        seq![]
    } else {
        dec_u8(salt[0]) + salt_rest_json(salt.drop_first())
    }
}

/// The canonical JSON text of a configuration: its salt as an array of
/// byte values.
pub open spec fn config_json(salt: Seq<u8>) -> Seq<char> {
    tok_salt_open() + salt_items_json(salt) + seq![']', '}']
}

/// The configuration of a vault: the salt fed into key derivation,
/// written in plaintext at creation and read on every open.
#[derive(Debug)]
pub struct Configuration {
    salt: Vec<u8>,
}

fn push_tok_salt_open(out: &mut Vec<char>)
    ensures
        final(out)@ == old(out)@ + tok_salt_open(),
{
    out.push('{');
    out.push('"');
    out.push('s');
    out.push('a');
    out.push('l');
    out.push('t');
    out.push('"');
    out.push(':');
    out.push('[');
    proof {
        assert(out@ =~= old(out)@ + tok_salt_open());
    }
}

/// Appends the canonical JSON text of the salt bytes, commas between
/// them.
fn push_salt_items(out: &mut Vec<char>, salt: &Vec<u8>)
    ensures
        final(out)@ == old(out)@ + salt_items_json(salt@),
{
    let ghost start = out@;
    if salt.len() == 0 {
        proof {
            assert(out@ =~= start + salt_items_json(salt@));
        }
        return ;
    }
    push_dec_u8(out, salt[0]);
    proof {
        assert(salt@.drop_first() =~= salt@.skip(1));
        assert(out@ + salt_rest_json(salt@.skip(1)) =~= start + salt_items_json(salt@));
    }
    let mut i: usize = 1;
    while i < salt.len()
        invariant
            1 <= i <= salt@.len(),
            out@ + salt_rest_json(salt@.skip(i as int)) == start + salt_items_json(salt@),
        decreases salt@.len() - i,
    {
        out.push(',');
        push_dec_u8(out, salt[i]);
        proof {
            assert(salt@.skip(i as int).drop_first() =~= salt@.skip(i + 1));
            assert(salt@.skip(i as int)[0] == salt@[i as int]);
            assert(out@ + salt_rest_json(salt@.skip(i + 1)) =~= start + salt_items_json(salt@));
        }
        i = i + 1;
    }
    proof {
        assert(salt_rest_json(salt@.skip(salt@.len() as int)) =~= Seq::<char>::empty());
        assert(out@ =~= start + salt_items_json(salt@));
    }
}

impl Configuration {
    /// The salt this configuration holds.
    pub closed spec fn spec_salt(&self) -> Seq<u8> {
        self.salt@
    }

    /// The salt this configuration holds.
    pub fn salt(&self) -> (salt: &Vec<u8>)
        ensures
            salt@ == self.spec_salt(),
    {
        &self.salt
    }

    /// Serialize this configuration to its canonical JSON text.
    pub fn to_json(&self) -> (json: String)
        ensures
            json@ == config_json(self.spec_salt()),
    {
        let mut out: Vec<char> = Vec::new();
        push_tok_salt_open(&mut out);
        push_salt_items(&mut out, &self.salt);
        out.push(']');
        out.push('}');
        proof {
            assert(out@ =~= config_json(self.spec_salt()));
        }
        chars_to_string(&out)
    }

    /// Read a configuration back from JSON text. Exactly the canonical
    /// form that `to_json` writes is accepted: what `to_json` writes for
    /// some salt always reads back as that salt, and everything else is
    /// rejected.
    pub fn from_json(json: String) -> (r: Result<Configuration, VaultError>)
        ensures
            r matches Ok(config) ==> json@ == config_json(config.spec_salt()),
            r matches Err(e) ==> e == VaultError::ConfigurationSerializationError,
            forall|salt: Seq<u8>|
                json@ == config_json(salt) ==> (r matches Ok(config) && config.spec_salt()
                    == salt),
    {
        let chars = str_to_chars(json.as_str());
        let input = chars.as_slice();
        let ghost has_form = exists|salt: Seq<u8>| chars@ == config_json(salt);
        let ghost salt0: Seq<u8> = if has_form {
            choose|salt: Seq<u8>| chars@ == config_json(salt)
        } else {
            Seq::empty()
        };
        proof {
            if has_form {
                lemma_config_json_decompose(salt0);
            }
        }
        let mut salt: Vec<u8> = Vec::new();
        let mut tok: Vec<char> = Vec::new();
        push_tok_salt_open(&mut tok);
        let mut pos: usize;
        if input.len() < tok.len() {
            proof {
                assert(!has_form);
                assert forall|s: Seq<u8>| json@ == config_json(s) implies false by {
                    assert(has_form);
                }
            }
            return Err(VaultError::ConfigurationSerializationError);
        }
        let head = vstd::slice::slice_subrange(input, 0, tok.len());
        if !chars_eq(head, tok.as_slice()) {
            proof {
                if has_form {
                    assert(head@ == chars@.subrange(0, 9));
                    assert(false);
                }
                assert forall|s: Seq<u8>| json@ == config_json(s) implies false by {
                    assert(has_form);
                }
            }
            return Err(VaultError::ConfigurationSerializationError);
        }
        pos = tok.len();
        if pos < input.len() && input[pos] == ']' {
            proof {
                if has_form {
                    if salt0.len() > 0 {
                        crate::json::lemma_dec_u8_digits(salt0[0]);
                        assert(chars@[9] == dec_u8(salt0[0])[0]);
                        assert(false);
                    }
                }
            }
            pos = pos + 1;
        } else {
            proof {
                if has_form {
                    if salt0.len() == 0 {
                        assert(chars@[9] == ']');
                        assert(false);
                    }
                    assert(chars@.skip(9) == dec_u8(salt0[0]) + (salt_rest_json(salt0.skip(1))
                        + seq![']', '}']));
                }
            }
            loop
                invariant_except_break
                    has_form ==> ({
                        &&& 0 < salt0.len()
                        &&& salt@.len() < salt0.len()
                        &&& salt@ == salt0.take(salt@.len() as int)
                        &&& chars@.skip(pos as int) == dec_u8(salt0[salt@.len() as int]) + (
                        salt_rest_json(salt0.skip(salt@.len() as int + 1)) + seq![']', '}'])
                    }),
                invariant
                    input@ == chars@,
                    chars@ == json@,
                    has_form == exists|s: Seq<u8>| chars@ == config_json(s),
                    9 <= pos <= input@.len(),
                ensures
                    input@ == chars@,
                    9 <= pos <= input@.len(),
                    has_form ==> (salt@ == salt0 && pos + 1 == input@.len() && chars@[pos as int]
                        == '}'),
                decreases input@.len() - pos,
            {
                let ghost k = salt@.len() as int;
                proof {
                    if has_form {
                        lemma_salt_suffix_step(chars@, pos as int, salt0, k);
                    }
                }
                let (value, p2) = match parse_dec_u8(input, pos) {
                    Some(x) => x,
                    None => {
                        proof {
                            assert(!has_form);
                            assert forall|s: Seq<u8>| json@ == config_json(s) implies false by {
                                assert(has_form);
                            }
                        }
                        return Err(VaultError::ConfigurationSerializationError);
                    },
                };
                proof {
                    if has_form {
                        assert(value == salt0[k] && p2 == pos + dec_u8(salt0[k]).len());
                    }
                }
                salt.push(value);
                proof {
                    if has_form {
                        assert(salt@ =~= salt0.take(k + 1));
                    }
                }
                if p2 >= input.len() {
                    proof {
                        assert(!has_form);
                        assert forall|s: Seq<u8>| json@ == config_json(s) implies false by {
                            assert(has_form);
                        }
                    }
                    return Err(VaultError::ConfigurationSerializationError);
                }
                if input[p2] == ']' {
                    proof {
                        if has_form {
                            if k + 1 < salt0.len() {
                                assert(chars@[p2 as int] == ',');
                                assert(false);
                            }
                            assert(salt@ =~= salt0);
                        }
                    }
                    pos = p2 + 1;
                    break ;
                }
                if input[p2] != ',' {
                    proof {
                        assert(!has_form);
                        assert forall|s: Seq<u8>| json@ == config_json(s) implies false by {
                            assert(has_form);
                        }
                    }
                    return Err(VaultError::ConfigurationSerializationError);
                }
                proof {
                    if has_form {
                        if k + 1 == salt0.len() {
                            assert(chars@[p2 as int] == ']');
                            assert(false);
                        }
                    }
                }
                pos = p2 + 1;
            }
        }
        if pos >= input.len() || input[pos] != '}' {
            proof {
                assert(!has_form);
                assert forall|s: Seq<u8>| json@ == config_json(s) implies false by {
                    assert(has_form);
                }
            }
            return Err(VaultError::ConfigurationSerializationError);
        }
        if pos + 1 != input.len() {
            proof {
                assert(!has_form);
                assert forall|s: Seq<u8>| json@ == config_json(s) implies false by {
                    assert(has_form);
                }
            }
            return Err(VaultError::ConfigurationSerializationError);
        }
        let config = Configuration { salt };
        let mut rendered: Vec<char> = Vec::new();
        push_tok_salt_open(&mut rendered);
        push_salt_items(&mut rendered, &config.salt);
        rendered.push(']');
        rendered.push('}');
        proof {
            assert(rendered@ =~= config_json(config.spec_salt()));
        }
        if chars_eq(input, rendered.as_slice()) {
            proof {
                assert forall|s: Seq<u8>| json@ == config_json(s) implies config.spec_salt()
                    == s by {
                    lemma_config_json_unique(s, config.spec_salt());
                }
            }
            Ok(config)
        } else {
            proof {
                assert(!has_form);
                assert forall|s: Seq<u8>| json@ == config_json(s) implies false by {
                    assert(has_form);
                }
            }
            Err(VaultError::ConfigurationSerializationError)
        }
    }
}

/// The files of a vault directory, as the bytes that belong in each.
#[derive(Debug)]
pub struct VaultFiles {
    pub config: Vec<u8>,
    pub key: Vec<u8>,
    pub storage: Vec<u8>,
}

/// True when the three files hold a vault sealed for `password`: the
/// config file carries `salt` in plaintext JSON, the key file seals the
/// data-encryption key `dek` under the key derived from `password` and
/// `salt`, and the storage file seals the canonical JSON of `records`
/// under `dek`.
pub open spec fn vault_files_hold(
    password: Seq<char>,
    salt: Seq<u8>,
    dek: Seq<u8>,
    records: Seq<RecordView>,
    config_file: Seq<u8>,
    key_file: Seq<u8>,
    storage_file: Seq<u8>,
) -> bool {
    &&& config_file == encode_utf8(config_json(salt))
    &&& envelope_seals(
        spec_derived_key(AeadAlgorithm::ChaCha20Poly1305, salt, password),
        key_file,
        dek,
    )
    &&& envelope_seals(dek, storage_file, encode_utf8(records_json(records)))
}

/// Law: rewriting the storage file after an insertion keeps the three
/// files a sealed vault. Files that hold a collection for a passphrase,
/// together with a fresh seal of the updated collection - what
/// `add_record` returns - hold the updated collection for the same
/// passphrase, salt and data-encryption key; `open` then recovers
/// exactly the updated collection.
pub proof fn lemma_vault_files_after_add(
    password: Seq<char>,
    salt: Seq<u8>,
    dek: Seq<u8>,
    records: Seq<RecordView>,
    record: RecordView,
    config_file: Seq<u8>,
    key_file: Seq<u8>,
    old_storage_file: Seq<u8>,
    new_storage_file: Seq<u8>,
)
    requires
        vault_files_hold(password, salt, dek, records, config_file, key_file, old_storage_file),
        envelope_seals(
            dek,
            new_storage_file,
            encode_utf8(records_json(spec_add_record(records, record))),
        ),
    ensures
        vault_files_hold(
            password,
            salt,
            dek,
            spec_add_record(records, record),
            config_file,
            key_file,
            new_storage_file,
        ),
{
}

/// A record collection after inserting a record keyed by its uuid: the
/// first record with the same uuid is replaced in place, or the record
/// is appended.
pub open spec fn spec_add_record(records: Seq<RecordView>, record: RecordView) -> Seq<RecordView>
    decreases records.len(),
{
    if records.len() == 0 {
        seq![record]
    } else if records[0].uuid == record.uuid {
        seq![record] + records.drop_first()
    } else {
        seq![records[0]] + spec_add_record(records.drop_first(), record)
    }
}

/// The first record with the given uuid, if any.
pub open spec fn record_with_uuid(records: Seq<RecordView>, uuid: Seq<char>) -> Option<RecordView>
    decreases records.len(),
{
    if records.len() == 0 {
        None
    } else if records[0].uuid == uuid {
        Some(records[0])
    } else {
        record_with_uuid(records.drop_first(), uuid)
    }
}

/// The records with the given name, in order.
pub open spec fn records_with_name(records: Seq<RecordView>, name: Seq<char>) -> Seq<RecordView>
    decreases records.len(),
{
    if records.len() == 0 {
        seq![]
    } else if records[0].name == name {
        seq![records[0]] + records_with_name(records.drop_first(), name)
    } else {
        records_with_name(records.drop_first(), name)
    }
}

proof fn lemma_record_with_uuid_at(records: Seq<RecordView>, uuid: Seq<char>, i: int)
    requires
        0 <= i < records.len(),
        records[i].uuid == uuid,
        forall|j: int| 0 <= j < i ==> records[j].uuid != uuid,
    ensures
        record_with_uuid(records, uuid) == Some(records[i]),
    decreases i,
{
    if i > 0 {
        lemma_record_with_uuid_at(records.drop_first(), uuid, i - 1);
    }
}

proof fn lemma_record_with_uuid_none(records: Seq<RecordView>, uuid: Seq<char>)
    requires
        forall|j: int| 0 <= j < records.len() ==> records[j].uuid != uuid,
    ensures
        record_with_uuid(records, uuid) is None,
    decreases records.len(),
{
    if records.len() > 0 {
        lemma_record_with_uuid_none(records.drop_first(), uuid);
    }
}

proof fn lemma_spec_add_record_at(records: Seq<RecordView>, record: RecordView, i: int)
    requires
        0 <= i < records.len(),
        records[i].uuid == record.uuid,
        forall|j: int| 0 <= j < i ==> records[j].uuid != record.uuid,
    ensures
        spec_add_record(records, record) == records.update(i, record),
    decreases i,
{
    if i == 0 {
        assert(seq![record] + records.drop_first() =~= records.update(0, record));
    } else {
        lemma_spec_add_record_at(records.drop_first(), record, i - 1);
        assert(seq![records[0]] + records.drop_first().update(i - 1, record) =~= records.update(
            i,
            record,
        ));
    }
}

proof fn lemma_spec_add_record_none(records: Seq<RecordView>, record: RecordView)
    requires
        forall|j: int| 0 <= j < records.len() ==> records[j].uuid != record.uuid,
    ensures
        spec_add_record(records, record) == records.push(record),
    decreases records.len(),
{
    if records.len() == 0 {
        assert(spec_add_record(records, record) =~= records.push(record));
    } else {
        lemma_spec_add_record_none(records.drop_first(), record);
        assert(seq![records[0]] + records.drop_first().push(record) =~= records.push(record));
    }
}

proof fn lemma_salt_rest_is_comma_items(salt: Seq<u8>)
    requires
        salt.len() > 0,
    ensures
        salt_rest_json(salt) == seq![','] + salt_items_json(salt),
{
    assert(salt_rest_json(salt) =~= seq![','] + salt_items_json(salt));
}

/// A character sequence starts with the canonical salt array of at most
/// one byte sequence, when what follows the items is neither a digit
/// nor a comma.
proof fn lemma_salt_items_unique(a: Seq<u8>, b: Seq<u8>, rest_a: Seq<char>, rest_b: Seq<char>)
    requires
        salt_items_json(a) + rest_a == salt_items_json(b) + rest_b,
        rest_a.len() > 0 && !crate::json::is_dec_digit(rest_a[0]) && rest_a[0] != ',',
        rest_b.len() > 0 && !crate::json::is_dec_digit(rest_b[0]) && rest_b[0] != ',',
    ensures
        a == b,
        rest_a == rest_b,
    decreases a.len(),
{
    let s = salt_items_json(a) + rest_a;
    if a.len() == 0 && b.len() == 0 {
        assert(rest_a =~= s);
        assert(rest_b =~= s);
    } else if a.len() == 0 {
        crate::json::lemma_dec_u8_digits(b[0]);
        assert(s[0] == rest_a[0]);
        assert(s[0] == (dec_u8(b[0]) + (salt_rest_json(b.drop_first()) + rest_b))[0]);
        assert(s[0] == dec_u8(b[0])[0]);
        assert(false);
    } else if b.len() == 0 {
        crate::json::lemma_dec_u8_digits(a[0]);
        assert(s[0] == rest_b[0]);
        assert(s[0] == (dec_u8(a[0]) + (salt_rest_json(a.drop_first()) + rest_a))[0]);
        assert(s[0] == dec_u8(a[0])[0]);
        assert(false);
    } else {
        let tail_a = salt_rest_json(a.drop_first()) + rest_a;
        let tail_b = salt_rest_json(b.drop_first()) + rest_b;
        assert(dec_u8(a[0]) + tail_a =~= s);
        assert(dec_u8(b[0]) + tail_b =~= s);
        if a.drop_first().len() > 0 {
            lemma_salt_rest_is_comma_items(a.drop_first());
        }
        if b.drop_first().len() > 0 {
            lemma_salt_rest_is_comma_items(b.drop_first());
        }
        assert(tail_a.len() > 0 && tail_b.len() > 0);
        assert(!crate::json::is_dec_digit(tail_a[0]));
        assert(!crate::json::is_dec_digit(tail_b[0]));
        crate::json::lemma_dec_u8_unique(a[0], b[0], tail_a, tail_b);
        if a.drop_first().len() == 0 && b.drop_first().len() == 0 {
            assert(rest_a =~= tail_a);
            assert(rest_b =~= tail_b);
            assert(a =~= b);
        } else if a.drop_first().len() == 0 {
            assert(tail_a[0] == rest_a[0]);
            assert(tail_b[0] == ',');
            assert(false);
        } else if b.drop_first().len() == 0 {
            assert(tail_b[0] == rest_b[0]);
            assert(tail_a[0] == ',');
            assert(false);
        } else {
            assert(tail_a == seq![','] + (salt_items_json(a.drop_first()) + rest_a)) by {
                assert(tail_a =~= seq![','] + (salt_items_json(a.drop_first()) + rest_a));
            }
            assert(tail_b == seq![','] + (salt_items_json(b.drop_first()) + rest_b)) by {
                assert(tail_b =~= seq![','] + (salt_items_json(b.drop_first()) + rest_b));
            }
            assert(salt_items_json(a.drop_first()) + rest_a =~= salt_items_json(b.drop_first())
                + rest_b) by {
                assert(salt_items_json(a.drop_first()) + rest_a =~= tail_a.drop_first());
                assert(salt_items_json(b.drop_first()) + rest_b =~= tail_b.drop_first());
            }
            lemma_salt_items_unique(a.drop_first(), b.drop_first(), rest_a, rest_b);
            assert(a.len() == b.len());
            assert forall|i: int| 0 <= i < a.len() implies a[i] == b[i] by {
                if i > 0 {
                    assert(a[i] == a.drop_first()[i - 1]);
                    assert(b[i] == b.drop_first()[i - 1]);
                }
            }
            assert(a =~= b);
        }
    }
}

/// How the canonical configuration text splits around its fixed parts.
proof fn lemma_config_json_decompose(salt: Seq<u8>)
    ensures
        config_json(salt).len() == 11 + salt_items_json(salt).len(),
        config_json(salt).subrange(0, 9) == tok_salt_open(),
        config_json(salt).skip(9) == salt_items_json(salt) + seq![']', '}'],
        salt.len() > 0 ==> config_json(salt).skip(9) == dec_u8(salt[0]) + (salt_rest_json(
            salt.skip(1),
        ) + seq![']', '}']),
        salt.len() == 0 ==> config_json(salt)[9] == ']' && config_json(salt).len() == 11
            && config_json(salt)[10] == '}',
        salt.len() > 0 ==> config_json(salt)[9] == dec_u8(salt[0])[0],
{
    assert(config_json(salt).subrange(0, 9) =~= tok_salt_open());
    assert(config_json(salt).skip(9) =~= salt_items_json(salt) + seq![']', '}']);
    if salt.len() > 0 {
        assert(salt.drop_first() =~= salt.skip(1));
        assert(config_json(salt).skip(9) =~= dec_u8(salt[0]) + (salt_rest_json(salt.skip(1))
            + seq![']', '}']));
        crate::json::lemma_dec_u8_digits(salt[0]);
    }
}

/// What one parsed salt item leaves behind: the characters after its
/// digits are a comma and the next item, or the closing bracket and
/// brace.
proof fn lemma_salt_suffix_step(chars: Seq<char>, pos: int, salt0: Seq<u8>, k: int)
    requires
        0 <= pos <= chars.len(),
        0 <= k < salt0.len(),
        chars.skip(pos) == dec_u8(salt0[k]) + (salt_rest_json(salt0.skip(k + 1)) + seq![']', '}']),
    ensures
        !crate::json::is_dec_digit((salt_rest_json(salt0.skip(k + 1)) + seq![']', '}'])[0]),
        pos + dec_u8(salt0[k]).len() + 2 <= chars.len(),
        k + 1 < salt0.len() ==> chars[pos + dec_u8(salt0[k]).len()] == ',' && chars.skip(
            pos + dec_u8(salt0[k]).len() + 1,
        ) == dec_u8(salt0[k + 1]) + (salt_rest_json(salt0.skip(k + 2)) + seq![']', '}']),
        k + 1 == salt0.len() ==> chars[pos + dec_u8(salt0[k]).len()] == ']' && chars.len() == pos
            + dec_u8(salt0[k]).len() + 2 && chars[pos + dec_u8(salt0[k]).len() + 1] == '}',
{
    let dl = dec_u8(salt0[k]).len() as int;
    let rest = salt_rest_json(salt0.skip(k + 1)) + seq![']', '}'];
    crate::json::lemma_dec_u8_digits(salt0[k]);
    lemma_salt_rest_json_len(salt0.skip(k + 1));
    assert(chars.skip(pos).len() == dl + rest.len());
    assert forall|j: int| 0 <= j < rest.len() implies chars[pos + dl + j] == rest[j] by {
        assert(chars.skip(pos)[dl + j] == chars[pos + dl + j]);
        assert((dec_u8(salt0[k]) + rest)[dl + j] == rest[j]);
    }
    assert(chars.skip(pos + dl) =~= rest);
    if k + 1 < salt0.len() {
        let next = salt0.skip(k + 1);
        assert(next.len() > 0);
        assert(next[0] == salt0[k + 1]);
        assert(next.drop_first() =~= salt0.skip(k + 2));
        assert(salt_rest_json(next) == seq![','] + dec_u8(salt0[k + 1]) + salt_rest_json(
            salt0.skip(k + 2),
        ));
        assert(rest[0] == ',');
        assert(chars[pos + dl] == rest[0]);
        let target = dec_u8(salt0[k + 1]) + (salt_rest_json(salt0.skip(k + 2)) + seq![']', '}']);
        assert(rest =~= seq![','] + target);
        assert forall|j: int| 0 <= j < target.len() implies #[trigger] (chars.skip(
            pos + dl + 1,
        )[j]) == target[j] by {
            assert(chars.skip(pos + dl + 1)[j] == chars[pos + dl + 1 + j]);
            assert(chars[pos + dl + (1 + j)] == rest[1 + j]);
            assert(rest[1 + j] == (seq![','] + target)[1 + j]);
        }
        assert(chars.skip(pos + dl + 1) =~= target);
    } else {
        assert(salt0.skip(k + 1).len() == 0);
        assert(salt_rest_json(salt0.skip(k + 1)) =~= Seq::<char>::empty());
        assert(rest =~= seq![']', '}']);
        assert(chars[pos + dl] == rest[0]);
        assert(chars[pos + dl + 1] == rest[1]);
    }
}

/// The canonical configuration text determines the salt.
proof fn lemma_config_json_unique(a: Seq<u8>, b: Seq<u8>)
    requires
        config_json(a) == config_json(b),
    ensures
        a == b,
{
    assert(salt_items_json(a) + seq![']', '}'] =~= config_json(a).skip(9));
    assert(salt_items_json(b) + seq![']', '}'] =~= config_json(b).skip(9));
    assert((seq![']', '}'])[0] == ']');
    lemma_salt_items_unique(a, b, seq![']', '}'], seq![']', '}']);
}

/// Every salt byte takes at least one character in the salt array.
proof fn lemma_salt_items_json_len(salt: Seq<u8>)
    ensures
        salt_items_json(salt).len() >= salt.len(),
    decreases salt.len(),
{
    if salt.len() > 0 {
        lemma_salt_rest_json_len(salt.drop_first());
    }
}

proof fn lemma_salt_rest_json_len(salt: Seq<u8>)
    ensures
        salt_rest_json(salt).len() >= salt.len(),
    decreases salt.len(),
{
    if salt.len() > 0 {
        lemma_salt_rest_json_len(salt.drop_first());
    }
}

/// The UTF-8 encoding of a character sequence takes at least one byte
/// per character.
proof fn lemma_encode_utf8_len_lower(chars: Seq<char>)
    ensures
        encode_utf8(chars).len() >= chars.len(),
    decreases chars.len(),
{
    if chars.len() > 0 {
        assert(encode_scalar(chars[0] as u32).len() >= 1);
        lemma_encode_utf8_len_lower(chars.drop_first());
    }
}

/// The index of the first record whose uuid equals `uuid`, if any.
fn find_record_index(records: &Vec<Record>, uuid: &String) -> (r: Option<usize>)
    ensures
        r matches Some(i) ==> (i < records@.len() && records_view(records@)[i as int].uuid == uuid@
            && forall|j: int|
            0 <= j < i ==> #[trigger] records_view(records@)[j].uuid != uuid@),
        r is None ==> forall|j: int|
            0 <= j < records@.len() ==> #[trigger] records_view(records@)[j].uuid != uuid@,
{
    let mut i: usize = 0;
    while i < records.len()
        invariant
            i <= records@.len(),
            forall|j: int| 0 <= j < i ==> #[trigger] records_view(records@)[j].uuid != uuid@,
        decreases records@.len() - i,
    {
        proof {
            assert(records_view(records@)[i as int] == records@[i as int]@);
        }
        if records[i].uuid == *uuid {
            return Some(i);
        }
        i = i + 1;
    }
    None
}

/// The top-level object of the library: an opened or freshly created
/// vault, holding its directory path, its configuration, the handles of
/// its two sealed files and the in-memory record collection.
#[derive(Debug)]
pub struct Vault {
    path: String,
    configuration: Configuration,
    record_storage: EncryptedStorage,
    key_storage: EncryptedStorage,
    records: Vec<Record>,
}

/// Builds the path of a file inside the vault directory.
pub fn vault_path(base_path: &String, file: &str) -> (path: String)
    ensures
        path@ == (if base_path@.len() > 0 && base_path@[base_path@.len() - 1] == '/' {
            base_path@ + file@
        } else {
            base_path@ + seq!['/'] + file@
        }),
{
    let n = base_path.as_str().unicode_len();
    if n > 0 && base_path.as_str().get_char(n - 1) == '/' {
        base_path.clone().concat(file)
    } else {
        let with_sep = base_path.clone().concat("/");
        proof {
            reveal_strlit("/");
            assert("/"@ =~= seq!['/']);
        }
        with_sep.concat(file)
    }
}

/// The path of the sealed key file inside the vault directory.
pub fn encrypted_key_path(path: &String) -> (r: String)
    ensures
        r@ == (if path@.len() > 0 && path@[path@.len() - 1] == '/' {
            path@ + "key"@
        } else {
            path@ + seq!['/'] + "key"@
        }),
{
    vault_path(path, "key")
}

/// The path of the sealed record storage file inside the vault
/// directory.
pub fn storage_path(path: &String) -> (r: String)
    ensures
        r@ == (if path@.len() > 0 && path@[path@.len() - 1] == '/' {
            path@ + "storage"@
        } else {
            path@ + seq!['/'] + "storage"@
        }),
{
    vault_path(path, "storage")
}

/// The path of the plaintext configuration file inside the vault
/// directory.
pub fn config_path(path: &String) -> (r: String)
    ensures
        r@ == (if path@.len() > 0 && path@[path@.len() - 1] == '/' {
            path@ + "config"@
        } else {
            path@ + seq!['/'] + "config"@
        }),
{
    vault_path(path, "config")
}

/// The vault directory under the home directory, when a home directory
/// is known.
pub open spec fn resolved_home_path(home: Option<String>) -> Option<Seq<char>> {
    match home {
        Some(h) => Some(h@ + "/.ironvault/"@),
        None => None,
    }
}

/// The vault directory the three tiers resolve to, in order of
/// precedence: the explicit path, then a non-empty environment value,
/// then `.ironvault/` under the home directory.
pub open spec fn resolved_vault_path(
    path: Option<&str>,
    env_database: Option<String>,
    home: Option<String>,
) -> Option<Seq<char>> {
    match path {
        Some(p) => Some(p@),
        None => match env_database {
            Some(e) => if e@.len() > 0 {
                Some(e@)
            } else {
                resolved_home_path(home)
            },
            None => resolved_home_path(home),
        },
    }
}

/// Resolves the vault directory, in order of precedence: the explicit
/// path if one is supplied, else the value of the `IRONVAULT_DATABASE`
/// environment variable if set and non-empty, else `.ironvault/` under
/// the home directory. The caller passes in what the environment holds;
/// nothing is resolved only when all three tiers are absent.
pub fn determine_vault_path(
    path: Option<&str>,
    env_database: Option<String>,
    home: Option<String>,
) -> (r: Option<String>)
    ensures
        r matches Some(s) ==> resolved_vault_path(path, env_database, home) == Some(s@),
        r is None ==> resolved_vault_path(path, env_database, home) is None,
{
    match path {
        Some(p) => Some(String::from_str(p)),
        None => {
            match env_database {
                Some(e) => {
                    if !e.as_str().is_empty() {
                        Some(e)
                    } else {
                        match home {
                            Some(h) => Some(h.concat("/.ironvault/")),
                            None => None,
                        }
                    }
                },
                None => {
                    match home {
                        Some(h) => Some(h.concat("/.ironvault/")),
                        None => None,
                    }
                },
            }
        },
    }
}

/// Draws a fresh 16-byte salt and builds the configuration around it.
pub fn create_vault_configuration(random: &ring::rand::SystemRandom) -> (r: Result<
    Configuration,
    VaultError,
>)
    ensures
        r matches Ok(config) ==> config.spec_salt().len() == 16,
        r matches Err(e) ==> e == VaultError::KeyError(KeyError::SaltGenerationError),
{
    match generate_salt(random) {
        Ok(salt) => Ok(Configuration { salt }),
        Err(e) => Err(VaultError::KeyError(e)),
    }
}

impl Vault {
    /// The directory this vault lives in.
    pub closed spec fn spec_path(&self) -> Seq<char> {
        self.path@
    }

    /// The salt of this vault's configuration.
    pub closed spec fn spec_salt(&self) -> Seq<u8> {
        self.configuration.spec_salt()
    }

    /// The data-encryption key this vault seals its records with.
    pub closed spec fn spec_dek(&self) -> Seq<u8> {
        self.record_storage.spec_key()
    }

    /// The record collection this vault holds in memory.
    pub closed spec fn spec_records(&self) -> Seq<RecordView> {
        records_view(self.records@)
    }

    /// A well-formed vault: its data-encryption key has the length the
    /// sealing algorithm asks for.
    pub open spec fn wf(&self) -> bool {
        self.spec_dek().len() == 32
    }

    /// The directory this vault lives in.
    pub fn path(&self) -> (path: &String)
        ensures
            path@ == self.spec_path(),
    {
        &self.path
    }

    /// Creates a fresh vault for `password` at the resolved directory
    /// `path`. The caller reports whether the directory already exists -
    /// an existing directory is refused with `VaultAlreadyExists` before
    /// anything is generated - and writes the three returned files into
    /// the directory it then creates. The new vault holds no records.
    pub fn create(
        password: String,
        path: String,
        directory_exists: bool,
        random: &ring::rand::SystemRandom,
    ) -> (r: Result<(Vault, VaultFiles), VaultError>)
        requires
            password@.len() <= 0x3FFF_FFFF,
        ensures
            directory_exists ==> (r matches Err(e) && e == VaultError::VaultAlreadyExists),
            r matches Err(e) && e == VaultError::VaultAlreadyExists ==> directory_exists,
            r matches Err(e) ==> (!directory_exists ==> (e == VaultError::KeyError(
                KeyError::SaltGenerationError,
            ) || e == VaultError::KeyError(KeyError::KeyGenerationError) || e
                == VaultError::VaultStorageError(StorageError::NonceGenerationError))),
            r matches Ok((vault, files)) ==> ({
                &&& !directory_exists
                &&& vault.wf()
                &&& vault.spec_path() == path@
                &&& vault.spec_records() == Seq::<RecordView>::empty()
                &&& vault.spec_salt().len() == 16
                &&& vault_files_hold(
                    password@,
                    vault.spec_salt(),
                    vault.spec_dek(),
                    Seq::<RecordView>::empty(),
                    files.config@,
                    files.key@,
                    files.storage@,
                )
            }),
    {
        if directory_exists {
            return Err(VaultError::VaultAlreadyExists);
        }
        let config = match create_vault_configuration(random) {
            Ok(config) => config,
            Err(e) => return Err(e),
        };
        let config_text = config.to_json();
        let config_bytes = config_text.as_str().as_bytes_vec();
        let password_key = match derive_key(
            AeadAlgorithm::ChaCha20Poly1305,
            config.salt().as_slice(),
            password,
        ) {
            Ok(key) => key,
            Err(e) => return Err(VaultError::KeyError(e)),
        };
        let key_storage = EncryptedStorage::new(encrypted_key_path(&path), password_key);
        let encryption_key = match generate_key(AeadAlgorithm::ChaCha20Poly1305, random) {
            Ok(key) => key,
            Err(e) => return Err(VaultError::KeyError(e)),
        };
        let key_file = match key_storage.write(encryption_key.as_slice(), random) {
            Ok(file) => file,
            Err(e) => return Err(VaultError::VaultStorageError(e)),
        };
        let records: Vec<Record> = Vec::new();
        let record_storage = EncryptedStorage::new(storage_path(&path), encryption_key);
        let mut records_chars: Vec<char> = Vec::new();
        push_records_json(&mut records_chars, &records);
        let records_text = chars_to_string(&records_chars);
        proof {
            assert(records_view(records@) =~= Seq::<RecordView>::empty());
            assert(records_json(Seq::<RecordView>::empty()) =~= seq!['{', '}']);
            crate::keys::lemma_encode_utf8_len(records_text@);
        }
        let storage_file = match record_storage.write(
            records_text.as_str().as_bytes_vec().as_slice(),
            random,
        ) {
            Ok(file) => file,
            Err(e) => return Err(VaultError::VaultStorageError(e)),
        };
        let vault = Vault {
            path,
            configuration: config,
            record_storage,
            key_storage,
            records,
        };
        proof {
            assert(records_view(Seq::<Record>::empty()) =~= Seq::<RecordView>::empty());
        }
        Ok((vault, VaultFiles { config: config_bytes, key: key_file, storage: storage_file }))
    }

    /// Opens the vault at `path` with `password`, from the contents of
    /// its three files. Files that hold a vault sealed for this
    /// passphrase - what `create` and `add_record` lay down - always
    /// open, to a vault with that salt, that data-encryption key and
    /// exactly those records. A key file that opens under no payload
    /// for the derived key (a wrong passphrase, or a tampered key
    /// file), like a storage file that opens under no payload for the
    /// data-encryption key (a tampered storage file), surfaces as
    /// exactly `VaultStorageError(DecryptionError)`; a malformed
    /// configuration as `ConfigurationSerializationError`.
    pub fn open(
        password: String,
        path: String,
        config_bytes: &[u8],
        key_bytes: &[u8],
        storage_bytes: &[u8],
    ) -> (r: Result<Vault, VaultError>)
        requires
            password@.len() <= 0x3FFF_FFFF,
            config_bytes@.len() <= 0xFFFF_FFFF,
        ensures
            r matches Ok(vault) ==> ({
                &&& vault.wf()
                &&& vault.spec_path() == path@
                &&& config_bytes@ == encode_utf8(config_json(vault.spec_salt()))
                &&& envelope_opens_to(
                    spec_derived_key(
                        AeadAlgorithm::ChaCha20Poly1305,
                        vault.spec_salt(),
                        password@,
                    ),
                    key_bytes@,
                    vault.spec_dek(),
                )
                &&& envelope_opens_to(
                    vault.spec_dek(),
                    storage_bytes@,
                    encode_utf8(records_json(vault.spec_records())),
                )
                &&& vault.spec_salt().len() > 4
            }),
            r matches Err(e) ==> (e == VaultError::ConfigurationSerializationError || e
                == VaultError::KeyError(KeyError::SaltLengthError) || e matches
                VaultError::VaultStorageError(..)),
            r matches Err(VaultError::VaultStorageError(se)) ==> (se
                == StorageError::DecryptionError || se == StorageError::KeyLengthError || se
                == StorageError::StringError || se == StorageError::SerializationError),
            forall|salt: Seq<u8>, dek: Seq<u8>, records: Seq<RecordView>|
                #[trigger] vault_files_hold(
                    password@,
                    salt,
                    dek,
                    records,
                    config_bytes@,
                    key_bytes@,
                    storage_bytes@,
                ) && 4 < salt.len() && dek.len() == 32 ==> (r matches Ok(vault)
                && vault.spec_salt() == salt && vault.spec_dek() == dek && vault.spec_records()
                == records),
            forall|salt: Seq<u8>|
                #![trigger config_json(salt)]
                config_bytes@ == encode_utf8(config_json(salt)) && salt.len() > 4 && (forall|
                    payload: Seq<u8>,
                |
                    !envelope_opens_to(
                        spec_derived_key(AeadAlgorithm::ChaCha20Poly1305, salt, password@),
                        key_bytes@,
                        payload,
                    )) ==> r == Err::<Vault, VaultError>(
                    VaultError::VaultStorageError(StorageError::DecryptionError),
                ),
            forall|salt: Seq<u8>, dek: Seq<u8>|
                #![trigger envelope_seals(spec_derived_key(AeadAlgorithm::ChaCha20Poly1305, salt, password@), key_bytes@, dek)]
                config_bytes@ == encode_utf8(config_json(salt)) && salt.len() > 4
                    && envelope_seals(
                    spec_derived_key(AeadAlgorithm::ChaCha20Poly1305, salt, password@),
                    key_bytes@,
                    dek,
                ) && dek.len() == 32 && (forall|payload: Seq<u8>|
                    !envelope_opens_to(dek, storage_bytes@, payload)) ==> r == Err::<
                    Vault,
                    VaultError,
                >(VaultError::VaultStorageError(StorageError::DecryptionError)),
    {
        let ghost bad_storage = exists|salt: Seq<u8>, dek: Seq<u8>|
            #![trigger envelope_seals(spec_derived_key(AeadAlgorithm::ChaCha20Poly1305, salt, password@), key_bytes@, dek)]
            config_bytes@ == encode_utf8(config_json(salt)) && salt.len() > 4 && envelope_seals(
                spec_derived_key(AeadAlgorithm::ChaCha20Poly1305, salt, password@),
                key_bytes@,
                dek,
            ) && dek.len() == 32 && (forall|payload: Seq<u8>|
                !envelope_opens_to(dek, storage_bytes@, payload));
        let ghost (salt_t, dek_t): (Seq<u8>, Seq<u8>) = if bad_storage {
            choose|salt: Seq<u8>, dek: Seq<u8>|
                #![trigger envelope_seals(spec_derived_key(AeadAlgorithm::ChaCha20Poly1305, salt, password@), key_bytes@, dek)]
                config_bytes@ == encode_utf8(config_json(salt)) && salt.len() > 4
                    && envelope_seals(
                    spec_derived_key(AeadAlgorithm::ChaCha20Poly1305, salt, password@),
                    key_bytes@,
                    dek,
                ) && dek.len() == 32 && (forall|payload: Seq<u8>|
                    !envelope_opens_to(dek, storage_bytes@, payload))
        } else {
            (Seq::empty(), Seq::empty())
        };
        let ghost wrong_key = exists|salt: Seq<u8>|
            #![trigger config_json(salt)]
            config_bytes@ == encode_utf8(config_json(salt)) && salt.len() > 4 && (forall|
                payload: Seq<u8>,
            |
                !envelope_opens_to(
                    spec_derived_key(AeadAlgorithm::ChaCha20Poly1305, salt, password@),
                    key_bytes@,
                    payload,
                ));
        let ghost salt_w: Seq<u8> = if wrong_key {
            choose|salt: Seq<u8>|
                #![trigger config_json(salt)]
                config_bytes@ == encode_utf8(config_json(salt)) && salt.len() > 4 && (forall|
                    payload: Seq<u8>,
                |
                    !envelope_opens_to(
                        spec_derived_key(AeadAlgorithm::ChaCha20Poly1305, salt, password@),
                        key_bytes@,
                        payload,
                    ))
        } else {
            Seq::empty()
        };
        let ghost sealed_vault = exists|salt: Seq<u8>, dek: Seq<u8>, records: Seq<RecordView>|
            #[trigger] vault_files_hold(
                password@,
                salt,
                dek,
                records,
                config_bytes@,
                key_bytes@,
                storage_bytes@,
            ) && 4 < salt.len() && dek.len() == 32;
        let ghost (salt0, dek0, recs0): (Seq<u8>, Seq<u8>, Seq<RecordView>) = if sealed_vault {
            choose|salt: Seq<u8>, dek: Seq<u8>, records: Seq<RecordView>|
                #[trigger] vault_files_hold(
                    password@,
                    salt,
                    dek,
                    records,
                    config_bytes@,
                    key_bytes@,
                    storage_bytes@,
                ) && 4 < salt.len() && dek.len() == 32
        } else {
            (Seq::empty(), Seq::empty(), Seq::empty())
        };
        proof {
            if sealed_vault {
                vstd::utf8::encode_utf8_valid_utf8(config_json(salt0));
                vstd::utf8::encode_utf8_decode_utf8(config_json(salt0));
            }
            if wrong_key {
                vstd::utf8::encode_utf8_valid_utf8(config_json(salt_w));
                vstd::utf8::encode_utf8_decode_utf8(config_json(salt_w));
            }
            if bad_storage {
                vstd::utf8::encode_utf8_valid_utf8(config_json(salt_t));
                vstd::utf8::encode_utf8_decode_utf8(config_json(salt_t));
            }
        }
        let config_text = match bytes_to_string(slice_to_vec(config_bytes)) {
            Some(text) => text,
            None => {
                proof {
                    assert(!sealed_vault);
                    assert(!wrong_key);
                    assert(!bad_storage);
                }
                return Err(VaultError::ConfigurationSerializationError);
            },
        };
        let config = match Configuration::from_json(config_text) {
            Ok(config) => config,
            Err(e) => {
                proof {
                    assert(!sealed_vault);
                    assert(!wrong_key);
                    assert(!bad_storage);
                }
                return Err(e);
            },
        };
        proof {
            decode_utf8_encode_utf8(config_bytes@);
            lemma_salt_items_json_len(config.spec_salt());
            lemma_encode_utf8_len_lower(config_json(config.spec_salt()));
            if sealed_vault {
                assert(config.spec_salt() == salt0);
            }
            if wrong_key {
                assert(config.spec_salt() == salt_w);
            }
            if bad_storage {
                assert(config.spec_salt() == salt_t);
            }
        }
        let password_key = match derive_key(
            AeadAlgorithm::ChaCha20Poly1305,
            config.salt().as_slice(),
            password,
        ) {
            Ok(key) => key,
            Err(e) => {
                proof {
                    assert(!sealed_vault);
                    assert(!wrong_key);
                    assert(!bad_storage);
                }
                return Err(VaultError::KeyError(e));
            },
        };
        let key_storage = EncryptedStorage::new(encrypted_key_path(&path), password_key);
        let encryption_key = match key_storage.read(key_bytes) {
            Ok(key) => key,
            Err(e) => {
                proof {
                    assert(!sealed_vault);
                    if bad_storage {
                        assert(envelope_seals(key_storage.spec_key(), key_bytes@, dek_t));
                        assert(false);
                    }
                    assert(!bad_storage);
                    assert forall|salt: Seq<u8>|
                        config_bytes@ == encode_utf8(#[trigger] config_json(salt)) && salt.len()
                            > 4 && (forall|payload: Seq<u8>|
                            !envelope_opens_to(
                                spec_derived_key(
                                    AeadAlgorithm::ChaCha20Poly1305,
                                    salt,
                                    password@,
                                ),
                                key_bytes@,
                                payload,
                            )) implies e == StorageError::DecryptionError by {
                        vstd::utf8::encode_utf8_decode_utf8(config_json(salt));
                        assert(config_json(salt) == config_json(salt_w));
                        lemma_config_json_unique(salt, salt_w);
                    }
                }
                return Err(VaultError::VaultStorageError(e));
            },
        };
        proof {
            if sealed_vault {
                assert(encryption_key@ == dek0);
                vstd::utf8::encode_utf8_valid_utf8(records_json(recs0));
                vstd::utf8::encode_utf8_decode_utf8(records_json(recs0));
            }
            if wrong_key {
                assert(envelope_opens_to(
                    spec_derived_key(AeadAlgorithm::ChaCha20Poly1305, salt_w, password@),
                    key_bytes@,
                    encryption_key@,
                ));
                assert(false);
            }
            assert(!wrong_key);
            if bad_storage {
                assert(envelope_seals(key_storage.spec_key(), key_bytes@, dek_t));
                assert(encryption_key@ == dek_t);
            }
        }
        let record_storage = EncryptedStorage::new(storage_path(&path), encryption_key);
        let records_bytes = match record_storage.read(storage_bytes) {
            Ok(bytes) => bytes,
            Err(e) => {
                proof {
                    assert(!sealed_vault);
                    assert forall|salt: Seq<u8>, dek: Seq<u8>|
                        #![trigger envelope_seals(spec_derived_key(AeadAlgorithm::ChaCha20Poly1305, salt, password@), key_bytes@, dek)]
                        config_bytes@ == encode_utf8(config_json(salt)) && salt.len()
                            > 4 && envelope_seals(
                            spec_derived_key(AeadAlgorithm::ChaCha20Poly1305, salt, password@),
                            key_bytes@,
                            dek,
                        ) && dek.len() == 32 && (forall|payload: Seq<u8>|
                            !envelope_opens_to(dek, storage_bytes@, payload)) implies e
                        == StorageError::DecryptionError by {
                        vstd::utf8::encode_utf8_decode_utf8(config_json(salt));
                        assert(config_json(salt) == config_json(salt_t));
                        lemma_config_json_unique(salt, salt_t);
                        assert(envelope_opens_to(
                            spec_derived_key(AeadAlgorithm::ChaCha20Poly1305, salt_t, password@),
                            key_bytes@,
                            dek,
                        ));
                        assert(dek == dek_t);
                    }
                }
                return Err(VaultError::VaultStorageError(e));
            },
        };
        let ghost records_bytes_view = records_bytes@;
        proof {
            if bad_storage {
                assert(envelope_opens_to(dek_t, storage_bytes@, records_bytes_view));
                assert(false);
            }
            assert(!bad_storage);
        }
        let records_text = match bytes_to_string(records_bytes) {
            Some(text) => text,
            None => {
                proof {
                    assert(!sealed_vault);
                }
                return Err(VaultError::VaultStorageError(StorageError::StringError));
            },
        };
        let records = match parse_records(records_text.as_str()) {
            Some(records) => records,
            None => {
                proof {
                    assert(!sealed_vault);
                }
                return Err(VaultError::VaultStorageError(StorageError::SerializationError));
            },
        };
        proof {
            decode_utf8_encode_utf8(records_bytes_view);
        }
        let vault = Vault { path, configuration: config, record_storage, key_storage, records };
        proof {
            if sealed_vault {
                assert(records_view(records@) == recs0);
            }
            assert forall|salt: Seq<u8>, dek: Seq<u8>, recs: Seq<RecordView>|
                #[trigger] vault_files_hold(
                    password@,
                    salt,
                    dek,
                    recs,
                    config_bytes@,
                    key_bytes@,
                    storage_bytes@,
                ) && 4 < salt.len() && dek.len() == 32 implies (vault.spec_salt() == salt
                && vault.spec_dek() == dek && vault.spec_records() == recs) by {
                assert(sealed_vault);
                vstd::utf8::encode_utf8_decode_utf8(config_json(salt));
                assert(config_json(salt) == config_json(salt0));
                lemma_config_json_unique(salt, salt0);
                assert(envelope_opens_to(
                    spec_derived_key(AeadAlgorithm::ChaCha20Poly1305, salt0, password@),
                    key_bytes@,
                    dek,
                ));
                assert(dek == dek0);
                assert(envelope_opens_to(dek0, storage_bytes@, encode_utf8(records_json(recs))));
                assert(encode_utf8(records_json(recs)) == records_bytes_view);
                vstd::utf8::encode_utf8_valid_utf8(records_json(recs));
                vstd::utf8::encode_utf8_decode_utf8(records_json(recs));
                assert(records_text@ == records_json(recs));
                assert(records_view(records@) == recs);
            }
        }
        Ok(vault)
    }

    /// Inserts `record` into the in-memory collection, keyed by its
    /// uuid - a record with the same uuid is replaced - and seals the
    /// whole collection afresh. The returned bytes are the new contents
    /// of the storage file; the record stays in the collection even if
    /// sealing fails.
    pub fn add_record(&mut self, record: Record, random: &ring::rand::SystemRandom) -> (r: Result<
        Vec<u8>,
        VaultError,
    >)
        requires
            old(self).wf(),
        ensures
            final(self).wf(),
            final(self).spec_path() == old(self).spec_path(),
            final(self).spec_salt() == old(self).spec_salt(),
            final(self).spec_dek() == old(self).spec_dek(),
            final(self).spec_records() == spec_add_record(old(self).spec_records(), record@),
            r matches Ok(storage_file) ==> envelope_seals(
                final(self).spec_dek(),
                storage_file@,
                encode_utf8(records_json(final(self).spec_records())),
            ),
            r matches Err(e) ==> (e matches VaultError::VaultStorageError(se) && (se
                == StorageError::NonceGenerationError || se == StorageError::EncryptionError)),
    {
        let ghost old_views = self.spec_records();
        let ghost record_view = record@;
        match find_record_index(&self.records, &record.uuid) {
            Some(i) => {
                proof {
                    lemma_spec_add_record_at(old_views, record_view, i as int);
                }
                self.records.set(i, record);
                proof {
                    assert(self.spec_records() =~= old_views.update(i as int, record_view));
                }
            },
            None => {
                proof {
                    lemma_spec_add_record_none(old_views, record_view);
                }
                self.records.push(record);
                proof {
                    assert(self.spec_records() =~= old_views.push(record_view));
                }
            },
        }
        let mut records_chars: Vec<char> = Vec::new();
        push_records_json(&mut records_chars, &self.records);
        let records_text = chars_to_string(&records_chars);
        match self.record_storage.write(records_text.as_str().as_bytes_vec().as_slice(), random) {
            Ok(file) => Ok(file),
            Err(e) => Err(VaultError::VaultStorageError(e)),
        }
    }

    /// A borrowed view of all records, in insertion order.
    pub fn fetch_records(&self) -> (records: &Vec<Record>)
        ensures
            records_view(records@) == self.spec_records(),
    {
        &self.records
    }

    /// The records whose name equals `record_name`, in order; duplicates
    /// are allowed.
    pub fn get_records_by_name(&self, record_name: String) -> (found: Vec<&Record>)
        ensures
            found@.map_values(|r: &Record| r@) == records_with_name(
                self.spec_records(),
                record_name@,
            ),
    {
        let ghost views = self.spec_records();
        let mut found: Vec<&Record> = Vec::new();
        proof {
            assert(views.skip(0) =~= views);
            assert(found@.map_values(|r: &Record| r@) =~= Seq::<RecordView>::empty());
            assert(found@.map_values(|r: &Record| r@) + records_with_name(views.skip(0), record_name@)
                =~= records_with_name(views, record_name@));
        }
        let mut i: usize = 0;
        while i < self.records.len()
            invariant
                i <= self.records@.len(),
                views == self.spec_records(),
                views.len() == self.records@.len(),
                found@.map_values(|r: &Record| r@) + records_with_name(
                    views.skip(i as int),
                    record_name@,
                ) == records_with_name(views, record_name@),
            decreases self.records@.len() - i,
        {
            proof {
                assert(views.skip(i as int).drop_first() =~= views.skip(i + 1));
                assert(views.skip(i as int)[0] == views[i as int]);
                assert(views[i as int] == self.records@[i as int]@);
            }
            if self.records[i].name == record_name {
                let r: &Record = &self.records[i];
                found.push(r);
                proof {
                    assert(found@.map_values(|r: &Record| r@) =~= found@.drop_last().map_values(
                        |r: &Record| r@,
                    ) + seq![views[i as int]]);
                    assert(found@.map_values(|r: &Record| r@) + records_with_name(
                        views.skip(i + 1),
                        record_name@,
                    ) =~= records_with_name(views, record_name@));
                }
            } else {
                proof {
                    assert(found@.map_values(|r: &Record| r@) + records_with_name(
                        views.skip(i + 1),
                        record_name@,
                    ) =~= records_with_name(views, record_name@));
                }
            }
            i = i + 1;
        }
        proof {
            assert(records_with_name(views.skip(views.len() as int), record_name@)
                =~= Seq::<RecordView>::empty());
            assert(found@.map_values(|r: &Record| r@) =~= records_with_name(views, record_name@));
        }
        found
    }

    /// The first record whose uuid equals `record_uuid`, if any.
    pub fn get_record_by_uuid(&self, record_uuid: String) -> (r: Option<&Record>)
        ensures
            r matches Some(record) ==> record_with_uuid(self.spec_records(), record_uuid@)
                == Some(record@),
            r is None ==> record_with_uuid(self.spec_records(), record_uuid@) is None,
    {
        let mut i: usize = 0;
        while i < self.records.len()
            invariant
                i <= self.records@.len(),
                forall|j: int|
                    0 <= j < i ==> #[trigger] records_view(self.records@)[j].uuid
                        != record_uuid@,
            decreases self.records@.len() - i,
        {
            proof {
                assert(records_view(self.records@)[i as int] == self.records@[i as int]@);
            }
            if self.records[i].uuid == record_uuid {
                proof {
                    lemma_record_with_uuid_at(self.spec_records(), record_uuid@, i as int);
                }
                return Some(&self.records[i]);
            }
            i = i + 1;
        }
        proof {
            lemma_record_with_uuid_none(self.spec_records(), record_uuid@);
        }
        None
    }
}

} // verus!
