//! The serializable entity of the vault: a named credential record.

use vstd::prelude::*;
use vstd::pervasive::VecAdditionalExecFns;
use vstd::string::StringExecFns;
use crate::json::json_string;
use crate::json::push_json_string;
use crate::json::parse_json_string;
use crate::json::str_to_chars;
use crate::json::chars_to_string;
use crate::json::chars_eq;
use crate::keys::KeyError;
use crate::storage::StorageError;

verus! {

/// The kinds of record the vault knows. `Login` is the only one; the tag
/// exists as the extension point of the format.
#[derive(Debug, PartialEq, Eq, Structural, Clone, Copy)]
pub enum RecordKind {
    Login,
}

/// The value stored under `key` in an entry list: the first pair with
/// that key wins.
pub open spec fn find_entry(entries: Seq<(Seq<char>, Seq<char>)>, key: Seq<char>) -> Option<
    Seq<char>,
>
    decreases entries.len(),
{
    if entries.len() == 0 {
        None
    } else if entries[0].0 == key {
        Some(entries[0].1)
    } else {
        find_entry(entries.drop_first(), key)
    }
}

/// An entry list after storing `value` under `key`: the first pair with
/// that key is replaced in place, or a new pair is appended.
pub open spec fn update_entry(
    entries: Seq<(Seq<char>, Seq<char>)>,
    key: Seq<char>,
    value: Seq<char>,
) -> Seq<(Seq<char>, Seq<char>)>
    decreases entries.len(),
{
    if entries.len() == 0 {
        seq![(key, value)]
    } else if entries[0].0 == key {
        seq![(key, value)] + entries.drop_first()
    } else {
        seq![entries[0]] + update_entry(entries.drop_first(), key, value)
    }
}

proof fn lemma_find_entry_at(entries: Seq<(Seq<char>, Seq<char>)>, key: Seq<char>, i: int)
    requires
        0 <= i < entries.len(),
        entries[i].0 == key,
        forall|j: int| 0 <= j < i ==> entries[j].0 != key,
    ensures
        find_entry(entries, key) == Some(entries[i].1),
    decreases i,
{
    if i > 0 {
        lemma_find_entry_at(entries.drop_first(), key, i - 1);
    }
}

proof fn lemma_find_entry_none(entries: Seq<(Seq<char>, Seq<char>)>, key: Seq<char>)
    requires
        forall|j: int| 0 <= j < entries.len() ==> entries[j].0 != key,
    ensures
        find_entry(entries, key) is None,
    decreases entries.len(),
{
    if entries.len() > 0 {
        lemma_find_entry_none(entries.drop_first(), key);
    }
}

proof fn lemma_update_entry_at(
    entries: Seq<(Seq<char>, Seq<char>)>,
    key: Seq<char>,
    value: Seq<char>,
    i: int,
)
    requires
        0 <= i < entries.len(),
        entries[i].0 == key,
        forall|j: int| 0 <= j < i ==> entries[j].0 != key,
    ensures
        update_entry(entries, key, value) == entries.update(i, (key, value)),
    decreases i,
{
    if i == 0 {
        assert(seq![(key, value)] + entries.drop_first() =~= entries.update(0, (key, value)));
    } else {
        lemma_update_entry_at(entries.drop_first(), key, value, i - 1);
        assert(seq![entries[0]] + entries.drop_first().update(i - 1, (key, value))
            =~= entries.update(i, (key, value)));
    }
}

proof fn lemma_update_entry_none(
    entries: Seq<(Seq<char>, Seq<char>)>,
    key: Seq<char>,
    value: Seq<char>,
)
    requires
        forall|j: int| 0 <= j < entries.len() ==> entries[j].0 != key,
    ensures
        update_entry(entries, key, value) == entries.push((key, value)),
    decreases entries.len(),
{
    if entries.len() == 0 {
        assert(update_entry(entries, key, value) =~= entries.push((key, value)));
    } else {
        lemma_update_entry_none(entries.drop_first(), key, value);
        assert(seq![entries[0]] + entries.drop_first().push((key, value)) =~= entries.push(
            (key, value),
        ));
    }
}

/// The metadata of a record: a list of key-value pairs of strings, looked
/// up and replaced by key, first match first.
#[derive(Debug)]
pub struct EntryMap {
    pairs: Vec<(String, String)>,
}

impl View for EntryMap {
    type V = Seq<(Seq<char>, Seq<char>)>;

    closed spec fn view(&self) -> Seq<(Seq<char>, Seq<char>)> {
        self.pairs@.map_values(|p: (String, String)| (p.0@, p.1@))
    }
}

impl EntryMap {
    /// Creates an empty entry map.
    pub fn new() -> (map: EntryMap)
        ensures
            map@ == Seq::<(Seq<char>, Seq<char>)>::empty(),
    {
        let map = EntryMap { pairs: Vec::new() };
        proof {
            assert(map@ =~= Seq::<(Seq<char>, Seq<char>)>::empty());
        }
        map
    }

    /// The number of entries.
    pub fn len(&self) -> (n: usize)
        ensures
            n == self@.len(),
    {
        self.pairs.len()
    }

    /// The value stored under `key`, if any.
    pub fn get(&self, key: &String) -> (r: Option<&String>)
        ensures
            r matches Some(value) ==> find_entry(self@, key@) == Some(value@),
            r is None ==> find_entry(self@, key@) is None,
    {
        let mut i: usize = 0;
        while i < self.pairs.len()
            invariant
                i <= self.pairs@.len(),
                forall|j: int| 0 <= j < i ==> #[trigger] self.pairs@[j].0@ != key@,
            decreases self.pairs@.len() - i,
        {
            if self.pairs[i].0 == *key {
                proof {
                    lemma_find_entry_at(self@, key@, i as int);
                }
                return Some(&self.pairs[i].1);
            }
            i = i + 1;
        }
        proof {
            lemma_find_entry_none(self@, key@);
        }
        None
    }

    /// Stores `value` under `key` and hands back the value that was there
    /// before, if any.
    pub fn insert(&mut self, key: String, value: String) -> (prev: Option<String>)
        ensures
            final(self)@ == update_entry(old(self)@, key@, value@),
            prev matches Some(p) ==> find_entry(old(self)@, key@) == Some(p@),
            prev is None ==> find_entry(old(self)@, key@) is None,
    {
        let mut i: usize = 0;
        while i < self.pairs.len()
            invariant
                i <= self.pairs@.len(),
                self.pairs@ == old(self).pairs@,
                forall|j: int| 0 <= j < i ==> #[trigger] self.pairs@[j].0@ != key@,
            decreases self.pairs@.len() - i,
        {
            if self.pairs[i].0 == key {
                let prev = self.pairs[i].1.clone();
                proof {
                    lemma_find_entry_at(old(self)@, key@, i as int);
                    lemma_update_entry_at(old(self)@, key@, value@, i as int);
                }
                self.pairs.set(i, (key, value));
                proof {
                    assert(self@ =~= old(self)@.update(i as int, (key@, value@)));
                }
                return Some(prev);
            }
            i = i + 1;
        }
        proof {
            lemma_find_entry_none(old(self)@, key@);
            lemma_update_entry_none(old(self)@, key@, value@);
        }
        self.pairs.push((key, value));
        proof {
            assert(self@ =~= old(self)@.push((key@, value@)));
        }
        None
    }
}

/// The mathematical value of a record.
pub struct RecordView {
    pub uuid: Seq<char>,
    pub name: Seq<char>,
    pub kind: RecordKind,
    pub entries: Seq<(Seq<char>, Seq<char>)>,
}

/// A record is an entry in the password database: a randomly generated
/// textual UUID as its identity, a human-chosen (not necessarily unique)
/// display name, a kind tag, and a table of metadata entries. For a
/// `Login` record the conventional entries are `username` and `password`,
/// though neither is required to be present.
#[derive(Debug)]
pub struct Record {
    pub uuid: String,
    pub name: String,
    pub kind: RecordKind,
    pub entries: EntryMap,
}

impl View for Record {
    type V = RecordView;

    open spec fn view(&self) -> RecordView {
        RecordView {
            uuid: self.uuid@,
            name: self.name@,
            kind: self.kind,
            entries: self.entries@,
        }
    }
}

/// A lower-case hexadecimal digit character.
pub open spec fn is_lower_hex_digit(c: char) -> bool {
    (0x30 <= (c as u32) && (c as u32) <= 0x39) || (0x61 <= (c as u32) && (c as u32) <= 0x66)
}

/// The canonical text of a version-4 UUID: five groups of lower-case
/// hexadecimal digits, 8-4-4-4-12, separated by hyphens, with `4` as
/// the version digit and an RFC 4122 variant digit.
pub open spec fn is_uuid_v4_text(s: Seq<char>) -> bool {
    &&& s.len() == 36
    &&& forall|i: int|
        0 <= i < 36 ==> (if i == 8 || i == 13 || i == 18 || i == 23 {
            s[i] == '-'
        } else {
            is_lower_hex_digit(#[trigger] s[i])
        })
    &&& s[14] == '4'
    &&& (s[19] == '8' || s[19] == '9' || s[19] == 'a' || s[19] == 'b')
}

/// Relies on uuid::Builder::from_random_bytes and the hyphenated text
/// form: the sixteen bytes are stamped with the version-4 and RFC 4122
/// variant bits and written as lower-case hexadecimal groups separated
/// by hyphens - the canonical text of a version-4 UUID. Stamping and
/// formatting cannot fail; the conversion to an array is covered by the
/// length in `requires`.
#[verifier::external_body]
fn uuid_v4_text(bytes: &[u8]) -> (uuid: String)
    requires
        bytes@.len() == 16,
    ensures
        is_uuid_v4_text(uuid@),
{
    let bytes: [u8; 16] = bytes.try_into().unwrap();
    uuid::Builder::from_random_bytes(bytes).into_uuid().hyphenated().to_string()
}

impl Record {
    /// Create a new `Record` of kind `Login`, with a freshly drawn UUID
    /// and the given username and password in its entry table. Fails
    /// with `KeyError::KeyGenerationError` only if the source of
    /// randomness fails.
    pub fn new_login(
        name: String,
        username: String,
        password: String,
        random: &ring::rand::SystemRandom,
    ) -> (r: Result<Record, KeyError>)
        ensures
            r matches Ok(record) ==> ({
                &&& record@.name == name@
                &&& record@.kind == RecordKind::Login
                &&& record@.entries == seq![("username"@, username@), ("password"@, password@)]
                &&& is_uuid_v4_text(record@.uuid)
            }),
            r matches Err(e) ==> e == KeyError::KeyGenerationError,
    {
        let uuid_bytes = match crate::rng::random_bytes(random, 16) {
            Some(bytes) => bytes,
            None => return Err(KeyError::KeyGenerationError),
        };
        let uuid = uuid_v4_text(uuid_bytes.as_slice());
        let mut entries_map = EntryMap::new();
        entries_map.insert(String::from_str("username"), username);
        entries_map.insert(String::from_str("password"), password);
        proof {
            reveal_strlit("username");
            reveal_strlit("password");
            assert("username"@[0] == 'u' && "password"@[0] == 'p');
            assert("username"@ != "password"@);
            let e0 = Seq::<(Seq<char>, Seq<char>)>::empty();
            let s1 = seq![("username"@, username@)];
            assert(update_entry(e0, "username"@, username@) =~= s1);
            assert(s1.drop_first() =~= e0);
            assert(update_entry(s1, "password"@, password@) =~= seq![s1[0]] + update_entry(
                e0,
                "password"@,
                password@,
            ));
            assert(entries_map@ =~= seq![("username"@, username@), ("password"@, password@)]);
        }
        Ok(Record { uuid, name, kind: RecordKind::Login, entries: entries_map })
    }

    /// The `username` entry, if present.
    pub fn username(&self) -> (r: Option<&String>)
        ensures
            r matches Some(value) ==> find_entry(self@.entries, "username"@) == Some(value@),
            r is None ==> find_entry(self@.entries, "username"@) is None,
    {
        self.metadata(&String::from_str("username"))
    }

    /// Stores a new `username` entry and hands back the previous one, if
    /// any.
    pub fn update_username(&mut self, username: String) -> (prev: Option<String>)
        ensures
            final(self)@.entries == update_entry(old(self)@.entries, "username"@, username@),
            final(self)@.uuid == old(self)@.uuid,
            final(self)@.name == old(self)@.name,
            final(self)@.kind == old(self)@.kind,
            prev matches Some(p) ==> find_entry(old(self)@.entries, "username"@) == Some(p@),
            prev is None ==> find_entry(old(self)@.entries, "username"@) is None,
    {
        self.update_metadata(String::from_str("username"), username)
    }

    /// The `password` entry, if present.
    pub fn password(&self) -> (r: Option<&String>)
        ensures
            r matches Some(value) ==> find_entry(self@.entries, "password"@) == Some(value@),
            r is None ==> find_entry(self@.entries, "password"@) is None,
    {
        self.metadata(&String::from_str("password"))
    }

    /// Stores a new `password` entry and hands back the previous one, if
    /// any.
    pub fn update_password(&mut self, password: String) -> (prev: Option<String>)
        ensures
            final(self)@.entries == update_entry(old(self)@.entries, "password"@, password@),
            final(self)@.uuid == old(self)@.uuid,
            final(self)@.name == old(self)@.name,
            final(self)@.kind == old(self)@.kind,
            prev matches Some(p) ==> find_entry(old(self)@.entries, "password"@) == Some(p@),
            prev is None ==> find_entry(old(self)@.entries, "password"@) is None,
    {
        self.update_metadata(String::from_str("password"), password)
    }

    /// Stores `meta_value` under `meta_key` in the entry table and hands
    /// back the previous value for that key, if any.
    pub fn update_metadata(&mut self, meta_key: String, meta_value: String) -> (prev: Option<
        String,
    >)
        ensures
            final(self)@.entries == update_entry(old(self)@.entries, meta_key@, meta_value@),
            final(self)@.uuid == old(self)@.uuid,
            final(self)@.name == old(self)@.name,
            final(self)@.kind == old(self)@.kind,
            prev matches Some(p) ==> find_entry(old(self)@.entries, meta_key@) == Some(p@),
            prev is None ==> find_entry(old(self)@.entries, meta_key@) is None,
    {
        self.entries.insert(meta_key, meta_value)
    }

    /// The value under `meta_key` in the entry table, if any.
    pub fn metadata(&self, meta_key: &String) -> (r: Option<&String>)
        ensures
            r matches Some(value) ==> find_entry(self@.entries, meta_key@) == Some(value@),
            r is None ==> find_entry(self@.entries, meta_key@) is None,
    {
        self.entries.get(meta_key)
    }

    /// Serialize this record to its canonical JSON text.
    pub fn to_json(&self) -> (json: String)
        ensures
            json@ == record_json(self@),
    {
        let mut out: Vec<char> = Vec::new();
        push_record_json(&mut out, self);
        chars_to_string(&out)
    }

    /// Read a record back from JSON text. Exactly the canonical form
    /// that `to_json` writes is accepted: what `to_json` writes for some
    /// record always reads back as that record, and anything else is
    /// rejected with `StorageError::SerializationError`.
    pub fn from_json(json: String) -> (r: Result<Record, StorageError>)
        ensures
            r matches Ok(record) ==> json@ == record_json(record@),
            r matches Err(e) ==> e == StorageError::SerializationError,
            forall|rv: RecordView|
                json@ == record_json(rv) ==> (r matches Ok(record) && record@ == rv),
    {
        let chars = str_to_chars(json.as_str());
        proof {
            assert forall|rv: RecordView| json@ == record_json(rv) implies chars@.skip(0)
                == record_json(rv) + Seq::<char>::empty() by {
                assert(chars@.skip(0) =~= record_json(rv) + Seq::<char>::empty());
            }
        }
        let record = match parse_record_at(chars.as_slice(), 0) {
            Some((record, end)) if end == chars.len() => record,
            _ => {
                proof {
                    assert forall|rv: RecordView| json@ == record_json(rv) implies false by {}
                }
                return Err(StorageError::SerializationError);
            },
        };
        let mut rendered: Vec<char> = Vec::new();
        push_record_json(&mut rendered, &record);
        if chars_eq(chars.as_slice(), rendered.as_slice()) {
            proof {
                assert forall|rv: RecordView| json@ == record_json(rv) implies record@ == rv by {}
            }
            Ok(record)
        } else {
            proof {
                assert forall|rv: RecordView| json@ == record_json(rv) implies false by {}
            }
            Err(StorageError::SerializationError)
        }
    }
}

/// The canonical JSON text of one metadata entry.
pub open spec fn entry_json(entry: (Seq<char>, Seq<char>)) -> Seq<char> {
    json_string(entry.0) + seq![':'] + json_string(entry.1)
}

/// The canonical JSON text of the metadata entries after the first:
/// each with a comma in front.
pub open spec fn entries_rest_json(entries: Seq<(Seq<char>, Seq<char>)>) -> Seq<char>
    decreases entries.len(),
{
    if entries.len() == 0 {
        seq![]
    } else {
        seq![','] + entry_json(entries[0]) + entries_rest_json(entries.drop_first())
    }
}

/// The canonical JSON text of a list of metadata entries, commas between
/// them.
pub open spec fn entries_items_json(entries: Seq<(Seq<char>, Seq<char>)>) -> Seq<char> {
    if entries.len() == 0 {
        seq![]
    } else {
        entry_json(entries[0]) + entries_rest_json(entries.drop_first())
    }
}

/// The fixed text that opens a record object, through the colon after
/// the uuid field's name.
pub open spec fn tok_uuid() -> Seq<char> {
    seq!['{', '"', 'u', 'u', 'i', 'd', '"', ':']
}

/// The fixed text between the uuid value and the name value.
pub open spec fn tok_name() -> Seq<char> {
    seq![',', '"', 'n', 'a', 'm', 'e', '"', ':']
}

/// The fixed text between the name value and the entries: the kind
/// field, always `Login`, and the brace that opens the entry table.
pub open spec fn tok_kind_entries() -> Seq<char> {
    seq![',', '"', 'k', 'i', 'n', 'd', '"', ':', '"', 'L', 'o', 'g', 'i', 'n', '"', ',', '"', 'e',
        'n', 't', 'r', 'i', 'e', 's', '"', ':', '{']
}

/// The canonical JSON text of a record: its uuid, its name, its kind -
/// always `Login` - and its entry table, in that order, without
/// whitespace.
pub open spec fn record_json(r: RecordView) -> Seq<char> {
    tok_uuid() + json_string(r.uuid) + tok_name() + json_string(r.name) + tok_kind_entries()
        + entries_items_json(r.entries) + seq!['}', '}']
}

/// The canonical JSON text of one record as an item of the record map:
/// its uuid as the key, the record as the value.
pub open spec fn record_item_json(r: RecordView) -> Seq<char> {
    json_string(r.uuid) + seq![':'] + record_json(r)
}

/// The canonical JSON text of the records after the first: each with a
/// comma in front.
pub open spec fn records_rest_json(records: Seq<RecordView>) -> Seq<char>
    decreases records.len(),
{
    if records.len() == 0 {
        seq![]
    } else {
        seq![','] + record_item_json(records[0]) + records_rest_json(records.drop_first())
    }
}

/// The canonical JSON text of the items of the record map, commas
/// between them.
pub open spec fn records_items_json(records: Seq<RecordView>) -> Seq<char> {
    if records.len() == 0 {
        seq![]
    } else {
        record_item_json(records[0]) + records_rest_json(records.drop_first())
    }
}

/// The canonical JSON text of the whole record collection: an object
/// keyed by record uuid.
pub open spec fn records_json(records: Seq<RecordView>) -> Seq<char> {
    seq!['{'] + records_items_json(records) + seq!['}']
}

/// The mathematical values of a sequence of records.
pub open spec fn records_view(records: Seq<Record>) -> Seq<RecordView> {
    records.map_values(|r: Record| r@)
}

fn push_tok_uuid(out: &mut Vec<char>)
    ensures
        final(out)@ == old(out)@ + tok_uuid(),
{
    out.push('{');
    out.push('"');
    out.push('u');
    out.push('u');
    out.push('i');
    out.push('d');
    out.push('"');
    out.push(':');
    proof {
        assert(out@ =~= old(out)@ + tok_uuid());
    }
}

fn push_tok_name(out: &mut Vec<char>)
    ensures
        final(out)@ == old(out)@ + tok_name(),
{
    out.push(',');
    out.push('"');
    out.push('n');
    out.push('a');
    out.push('m');
    out.push('e');
    out.push('"');
    out.push(':');
    proof {
        assert(out@ =~= old(out)@ + tok_name());
    }
}

fn push_tok_kind_entries(out: &mut Vec<char>)
    ensures
        final(out)@ == old(out)@ + tok_kind_entries(),
{
    out.push(',');
    out.push('"');
    out.push('k');
    out.push('i');
    out.push('n');
    out.push('d');
    out.push('"');
    out.push(':');
    out.push('"');
    out.push('L');
    out.push('o');
    out.push('g');
    out.push('i');
    out.push('n');
    out.push('"');
    out.push(',');
    out.push('"');
    out.push('e');
    out.push('n');
    out.push('t');
    out.push('r');
    out.push('i');
    out.push('e');
    out.push('s');
    out.push('"');
    out.push(':');
    out.push('{');
    proof {
        assert(out@ =~= old(out)@ + tok_kind_entries());
    }
}

/// Appends the canonical JSON text of the entries of `entries`, commas
/// between them.
fn push_entries_json(out: &mut Vec<char>, entries: &EntryMap)
    ensures
        final(out)@ == old(out)@ + entries_items_json(entries@),
{
    let ghost start = out@;
    if entries.pairs.len() == 0 {
        proof {
            assert(out@ =~= start + entries_items_json(entries@));
        }
        return ;
    }
    push_json_string(out, entries.pairs[0].0.as_str());
    out.push(':');
    push_json_string(out, entries.pairs[0].1.as_str());
    proof {
        assert(entries@[0] == (entries.pairs@[0].0@, entries.pairs@[0].1@));
        assert(entries@.drop_first() =~= entries@.skip(1));
        assert(out@ + entries_rest_json(entries@.skip(1)) =~= start + entries_items_json(
            entries@,
        ));
    }
    let mut i: usize = 1;
    while i < entries.pairs.len()
        invariant
            1 <= i <= entries@.len(),
            entries@.len() == entries.pairs@.len(),
            out@ + entries_rest_json(entries@.skip(i as int)) == start + entries_items_json(
                entries@,
            ),
        decreases entries@.len() - i,
    {
        out.push(',');
        push_json_string(out, entries.pairs[i].0.as_str());
        out.push(':');
        push_json_string(out, entries.pairs[i].1.as_str());
        proof {
            assert(entries@[i as int] == (entries.pairs@[i as int].0@, entries.pairs@[
            i as int].1@));
            assert(entries@.skip(i as int).drop_first() =~= entries@.skip(i + 1));
            assert(entries@.skip(i as int)[0] == entries@[i as int]);
            assert(out@ + entries_rest_json(entries@.skip(i + 1)) =~= start + entries_items_json(
                entries@,
            ));
        }
        i = i + 1;
    }
    proof {
        assert(entries_rest_json(entries@.skip(entries@.len() as int)) =~= Seq::<char>::empty());
        assert(out@ =~= start + entries_items_json(entries@));
    }
}

/// Appends the canonical JSON text of a record.
pub fn push_record_json(out: &mut Vec<char>, record: &Record)
    ensures
        final(out)@ == old(out)@ + record_json(record@),
{
    push_tok_uuid(out);
    push_json_string(out, record.uuid.as_str());
    push_tok_name(out);
    push_json_string(out, record.name.as_str());
    push_tok_kind_entries(out);
    push_entries_json(out, &record.entries);
    out.push('}');
    out.push('}');
    proof {
        assert(out@ =~= old(out)@ + record_json(record@));
    }
}

/// Appends the canonical JSON text of the whole record collection.
pub fn push_records_json(out: &mut Vec<char>, records: &Vec<Record>)
    ensures
        final(out)@ == old(out)@ + records_json(records_view(records@)),
{
    let ghost start = out@;
    let ghost views = records_view(records@);
    out.push('{');
    if records.len() == 0 {
        out.push('}');
        proof {
            assert(out@ =~= start + records_json(views));
        }
        return ;
    }
    push_json_string(out, records[0].uuid.as_str());
    out.push(':');
    push_record_json(out, &records[0]);
    proof {
        assert(views[0] == records@[0]@);
        assert(views.drop_first() =~= views.skip(1));
        assert(out@ + records_rest_json(views.skip(1)) =~= start + seq!['{']
            + records_items_json(views));
    }
    let mut i: usize = 1;
    while i < records.len()
        invariant
            1 <= i <= views.len(),
            views == records_view(records@),
            views.len() == records@.len(),
            out@ + records_rest_json(views.skip(i as int)) == start + seq!['{']
                + records_items_json(views),
        decreases views.len() - i,
    {
        out.push(',');
        push_json_string(out, records[i].uuid.as_str());
        out.push(':');
        push_record_json(out, &records[i]);
        proof {
            assert(views[i as int] == records@[i as int]@);
            assert(views.skip(i as int).drop_first() =~= views.skip(i + 1));
            assert(views.skip(i as int)[0] == views[i as int]);
            assert(out@ + records_rest_json(views.skip(i + 1)) =~= start + seq!['{']
                + records_items_json(views));
        }
        i = i + 1;
    }
    out.push('}');
    proof {
        assert(records_rest_json(views.skip(views.len() as int)) =~= Seq::<char>::empty());
        assert(out@ =~= start + records_json(views));
    }
}

/// Reads the characters of `tok` at `pos`, strictly. Where the input
/// from `pos` on starts with exactly `tok`, reading succeeds.
fn expect_tok(input: &[char], pos: usize, tok: &Vec<char>) -> (r: Option<usize>)
    requires
        pos <= input@.len(),
    ensures
        r matches Some(end) ==> pos <= end <= input@.len(),
        forall|rest: Seq<char>|
            input@.skip(pos as int) == tok@ + rest ==> (r matches Some(end) && end == pos
                + tok@.len()),
{
    if input.len() - pos < tok.len() {
        proof {
            assert forall|rest: Seq<char>| input@.skip(pos as int) == tok@ + rest implies false by {
                assert(input@.skip(pos as int).len() == tok@.len() + rest.len());
            }
        }
        return None;
    }
    let end = pos + tok.len();
    let segment = vstd::slice::slice_subrange(input, pos, end);
    if chars_eq(segment, tok.as_slice()) {
        Some(end)
    } else {
        proof {
            assert forall|rest: Seq<char>| input@.skip(pos as int) == tok@ + rest implies false by {
                assert forall|t: int| 0 <= t < tok@.len() implies segment@[t] == tok@[t] by {
                    assert(segment@[t] == input@[pos + t]);
                    assert(input@.skip(pos as int)[t] == input@[pos + t]);
                    assert((tok@ + rest)[t] == tok@[t]);
                }
                assert(segment@ =~= tok@);
            }
        }
        None
    }
}

proof fn lemma_entry_json_head(e: (Seq<char>, Seq<char>))
    ensures
        entry_json(e).len() >= 5,
        entry_json(e)[0] == '"',
{
    assert(json_string(e.0)[0] == '"');
    assert(entry_json(e)[0] == json_string(e.0)[0]);
}

/// Reads the entries of a metadata object, the opening brace already
/// consumed, through the closing brace. Where the input from `pos` on is
/// exactly the canonical entries text, the closing brace, and anything
/// at all, those entries come back.
#[verifier::rlimit(100)]
fn parse_entries(input: &[char], pos: usize) -> (r: Option<(EntryMap, usize)>)
    requires
        pos <= input@.len(),
    ensures
        r matches Some((map, end)) ==> pos <= end <= input@.len(),
        forall|es: Seq<(Seq<char>, Seq<char>)>, rest: Seq<char>|
            input@.skip(pos as int) == entries_items_json(es) + (seq!['}'] + rest) ==> (r matches
                Some((map, end)) && map@ == es && end == pos + entries_items_json(es).len() + 1),
{
    let mut map = EntryMap { pairs: Vec::new() };
    proof {
        assert(map@ =~= Seq::<(Seq<char>, Seq<char>)>::empty());
    }
    if pos < input.len() && input[pos] == '}' {
        proof {
            assert forall|es: Seq<(Seq<char>, Seq<char>)>, rest: Seq<char>|
                input@.skip(pos as int) == entries_items_json(es) + (seq!['}'] + rest) implies (
            map@ == es && pos + 1 == pos + entries_items_json(es).len() + 1) by {
                if es.len() > 0 {
                    lemma_entry_json_head(es[0]);
                    assert(entries_items_json(es)[0] == entry_json(es[0])[0]);
                    assert(input@.skip(pos as int)[0] == input@[pos as int]);
                    assert((entries_items_json(es) + (seq!['}'] + rest))[0]
                        == entries_items_json(es)[0]);
                    assert(false);
                }
                assert(map@ =~= es);
            }
        }
        return Some((map, pos + 1));
    }
    let mut cursor = pos;
    proof {
        assert forall|es: Seq<(Seq<char>, Seq<char>)>, rest: Seq<char>|
            input@.skip(pos as int) == entries_items_json(es) + (seq!['}'] + rest) implies ({
            &&& (map@.len() as int) < es.len()
            &&& map@ == es.take(map@.len() as int)
            &&& input@.skip(cursor as int) == entry_json(es[map@.len() as int]) + (
            entries_rest_json(es.skip(map@.len() as int + 1)) + (seq!['}'] + rest))
        }) by {
            if es.len() == 0 {
                assert(entries_items_json(es) =~= Seq::<char>::empty());
                assert(input@.skip(pos as int) =~= seq!['}'] + rest);
                assert(input@.skip(pos as int)[0] == input@[pos as int]);
                assert(false);
            }
            assert(map@ =~= es.take(0));
            assert(es.drop_first() =~= es.skip(1));
            assert(input@.skip(cursor as int) =~= entry_json(es[0]) + (entries_rest_json(
                es.skip(1),
            ) + (seq!['}'] + rest)));
        }
    }
    loop
        invariant
            pos <= cursor <= input@.len(),
            forall|es: Seq<(Seq<char>, Seq<char>)>, rest: Seq<char>|
                input@.skip(pos as int) == entries_items_json(es) + (seq!['}'] + rest) ==> ({
                    &&& (map@.len() as int) < es.len()
                    &&& map@ == es.take(map@.len() as int)
                    &&& input@.skip(cursor as int) == entry_json(es[map@.len() as int]) + (
                    entries_rest_json(es.skip(map@.len() as int + 1)) + (seq!['}'] + rest))
                }),
        decreases input@.len() - cursor,
    {
        let ghost prev_map = map@;
        let ghost j = map@.len() as int;
        proof {
            assert forall|es: Seq<(Seq<char>, Seq<char>)>, rest: Seq<char>|
                input@.skip(pos as int) == entries_items_json(es) + (seq!['}'] + rest) implies (
            input@.skip(cursor as int) == json_string(es[j].0) + (seq![':'] + (json_string(
                es[j].1,
            ) + (entries_rest_json(es.skip(j + 1)) + (seq!['}'] + rest))))) by {
                assert(entry_json(es[j]) + (entries_rest_json(es.skip(j + 1)) + (seq!['}'] + rest))
                    =~= json_string(es[j].0) + (seq![':'] + (json_string(es[j].1) + (
                entries_rest_json(es.skip(j + 1)) + (seq!['}'] + rest)))));
            }
        }
        let (key, p2) = match parse_json_string(input, cursor) {
            Some(x) => x,
            None => {
                proof {
                    assert forall|es: Seq<(Seq<char>, Seq<char>)>, rest: Seq<char>|
                        input@.skip(pos as int) == entries_items_json(es) + (seq!['}'] + rest)
                        implies false by {}
                }
                return None;
            },
        };
        proof {
            assert forall|es: Seq<(Seq<char>, Seq<char>)>, rest: Seq<char>|
                input@.skip(pos as int) == entries_items_json(es) + (seq!['}'] + rest) implies ({
                &&& key@ == es[j].0
                &&& input@.skip(p2 as int) == seq![':'] + (json_string(es[j].1) + (
                entries_rest_json(es.skip(j + 1)) + (seq!['}'] + rest)))
                &&& input@[p2 as int] == ':'
                &&& p2 < input@.len()
            }) by {
                crate::json::lemma_skip_concat(
                    input@,
                    cursor as int,
                    json_string(es[j].0),
                    seq![':'] + (json_string(es[j].1) + (entries_rest_json(es.skip(j + 1)) + (
                    seq!['}'] + rest))),
                );
            }
        }
        if p2 >= input.len() || input[p2] != ':' {
            proof {
                assert forall|es: Seq<(Seq<char>, Seq<char>)>, rest: Seq<char>|
                    input@.skip(pos as int) == entries_items_json(es) + (seq!['}'] + rest)
                    implies false by {}
            }
            return None;
        }
        proof {
            assert forall|es: Seq<(Seq<char>, Seq<char>)>, rest: Seq<char>|
                input@.skip(pos as int) == entries_items_json(es) + (seq!['}'] + rest) implies (
            input@.skip(p2 as int + 1) == json_string(es[j].1) + (entries_rest_json(
                es.skip(j + 1),
            ) + (seq!['}'] + rest))) by {
                crate::json::lemma_skip_concat(
                    input@,
                    p2 as int,
                    seq![':'],
                    json_string(es[j].1) + (entries_rest_json(es.skip(j + 1)) + (seq!['}']
                        + rest)),
                );
            }
        }
        let (value, p3) = match parse_json_string(input, p2 + 1) {
            Some(x) => x,
            None => {
                proof {
                    assert forall|es: Seq<(Seq<char>, Seq<char>)>, rest: Seq<char>|
                        input@.skip(pos as int) == entries_items_json(es) + (seq!['}'] + rest)
                        implies false by {}
                }
                return None;
            },
        };
        proof {
            assert forall|es: Seq<(Seq<char>, Seq<char>)>, rest: Seq<char>|
                input@.skip(pos as int) == entries_items_json(es) + (seq!['}'] + rest) implies ({
                &&& value@ == es[j].1
                &&& input@.skip(p3 as int) == entries_rest_json(es.skip(j + 1)) + (seq!['}']
                    + rest)
                &&& p3 < input@.len()
            }) by {
                crate::json::lemma_skip_concat(
                    input@,
                    p2 as int + 1,
                    json_string(es[j].1),
                    entries_rest_json(es.skip(j + 1)) + (seq!['}'] + rest),
                );
            }
        }
        map.pairs.push((chars_to_string(&key), chars_to_string(&value)));
        proof {
            assert(map@ =~= prev_map.push((key@, value@)));
            assert forall|es: Seq<(Seq<char>, Seq<char>)>, rest: Seq<char>|
                input@.skip(pos as int) == entries_items_json(es) + (seq!['}'] + rest) implies (
            map@.len() <= es.len() && map@ == es.take(map@.len() as int)) by {
                assert((key@, value@) == (es[j].0, es[j].1));
                assert(es[j] == (es[j].0, es[j].1));
                assert(map@ =~= es.take(j + 1));
            }
        }
        if p3 >= input.len() {
            proof {
                assert forall|es: Seq<(Seq<char>, Seq<char>)>, rest: Seq<char>|
                    input@.skip(pos as int) == entries_items_json(es) + (seq!['}'] + rest)
                    implies false by {}
            }
            return None;
        }
        if input[p3] == '}' {
            proof {
                assert forall|es: Seq<(Seq<char>, Seq<char>)>, rest: Seq<char>|
                    input@.skip(pos as int) == entries_items_json(es) + (seq!['}'] + rest)
                    implies (map@ == es && p3 + 1 == pos + entries_items_json(es).len() + 1) by {
                    if j + 1 < es.len() {
                        assert(es.skip(j + 1).len() > 0);
                        assert(es.skip(j + 1)[0] == es[j + 1]);
                        assert(entries_rest_json(es.skip(j + 1))[0] == ',');
                        assert((entries_rest_json(es.skip(j + 1)) + (seq!['}'] + rest))[0] == ',');
                        assert(input@.skip(p3 as int)[0] == input@[p3 as int]);
                        assert(false);
                    }
                    assert(map@ =~= es);
                    assert(entries_rest_json(es.skip(j + 1)) =~= Seq::<char>::empty());
                    assert(input@.skip(p3 as int) =~= seq!['}'] + rest);
                    assert(input@.skip(pos as int).len() == entries_items_json(es).len() + 1
                        + rest.len());
                    assert(input@.skip(p3 as int).len() == 1 + rest.len());
                }
            }
            return Some((map, p3 + 1));
        }
        if input[p3] != ',' {
            proof {
                assert forall|es: Seq<(Seq<char>, Seq<char>)>, rest: Seq<char>|
                    input@.skip(pos as int) == entries_items_json(es) + (seq!['}'] + rest)
                    implies false by {
                    if j + 1 < es.len() {
                        assert(es.skip(j + 1)[0] == es[j + 1]);
                        assert(entries_rest_json(es.skip(j + 1))[0] == ',');
                        assert((entries_rest_json(es.skip(j + 1)) + (seq!['}'] + rest))[0] == ',');
                        assert(input@.skip(p3 as int)[0] == input@[p3 as int]);
                    } else {
                        assert(entries_rest_json(es.skip(j + 1)) =~= Seq::<char>::empty());
                        assert(input@.skip(p3 as int) =~= seq!['}'] + rest);
                        assert(input@.skip(p3 as int)[0] == input@[p3 as int]);
                    }
                }
            }
            return None;
        }
        proof {
            assert forall|es: Seq<(Seq<char>, Seq<char>)>, rest: Seq<char>|
                input@.skip(pos as int) == entries_items_json(es) + (seq!['}'] + rest) implies ({
                &&& (map@.len() as int) < es.len()
                &&& input@.skip(p3 as int + 1) == entry_json(es[j + 1]) + (entries_rest_json(
                    es.skip(j + 2),
                ) + (seq!['}'] + rest))
            }) by {
                if j + 1 >= es.len() {
                    assert(entries_rest_json(es.skip(j + 1)) =~= Seq::<char>::empty());
                    assert(input@.skip(p3 as int) =~= seq!['}'] + rest);
                    assert(input@.skip(p3 as int)[0] == input@[p3 as int]);
                    assert(false);
                }
                assert(es.skip(j + 1)[0] == es[j + 1]);
                assert(es.skip(j + 1).drop_first() =~= es.skip(j + 2));
                assert(entries_rest_json(es.skip(j + 1)) == seq![','] + entry_json(es[j + 1])
                    + entries_rest_json(es.skip(j + 2)));
                assert(input@.skip(p3 as int) =~= seq![','] + (entry_json(es[j + 1]) + (
                entries_rest_json(es.skip(j + 2)) + (seq!['}'] + rest))));
                crate::json::lemma_skip_concat(
                    input@,
                    p3 as int,
                    seq![','],
                    entry_json(es[j + 1]) + (entries_rest_json(es.skip(j + 2)) + (seq!['}']
                        + rest)),
                );
            }
        }
        cursor = p3 + 1;
    }
}

/// Reads one canonical record starting at `pos`. Where the input from
/// `pos` on is exactly the canonical text of a record followed by
/// anything at all, that record comes back.
#[verifier::rlimit(100)]
pub fn parse_record_at(input: &[char], pos: usize) -> (r: Option<(Record, usize)>)
    requires
        pos <= input@.len(),
    ensures
        r matches Some((record, end)) ==> pos <= end <= input@.len(),
        forall|rv: RecordView, rest: Seq<char>|
            input@.skip(pos as int) == record_json(rv) + rest ==> (r matches Some((record, end))
                && record@ == rv && end == pos + record_json(rv).len()),
{
    let ghost pos0 = pos as int;
    proof {
        assert forall|rv: RecordView, rest: Seq<char>|
            input@.skip(pos0) == record_json(rv) + rest implies (input@.skip(pos0) == tok_uuid()
            + (json_string(rv.uuid) + (tok_name() + (json_string(rv.name) + (tok_kind_entries() + (
        entries_items_json(rv.entries) + (seq!['}'] + (seq!['}'] + rest)))))))) by {
            assert(record_json(rv) + rest =~= tok_uuid() + (json_string(rv.uuid) + (tok_name() + (
            json_string(rv.name) + (tok_kind_entries() + (entries_items_json(rv.entries) + (
            seq!['}'] + (seq!['}'] + rest))))))));
        }
    }
    let mut tok: Vec<char> = Vec::new();
    push_tok_uuid(&mut tok);
    let p1 = match expect_tok(input, pos, &tok) {
        Some(p) => p,
        None => {
            proof {
                assert forall|rv: RecordView, rest: Seq<char>|
                    input@.skip(pos0) == record_json(rv) + rest implies false by {}
            }
            return None;
        },
    };
    proof {
        assert forall|rv: RecordView, rest: Seq<char>|
            input@.skip(pos0) == record_json(rv) + rest implies (input@.skip(p1 as int)
            == json_string(rv.uuid) + (tok_name() + (json_string(rv.name) + (tok_kind_entries()
            + (entries_items_json(rv.entries) + (seq!['}'] + (seq!['}'] + rest))))))) by {
            crate::json::lemma_skip_concat(
                input@,
                pos0,
                tok_uuid(),
                json_string(rv.uuid) + (tok_name() + (json_string(rv.name) + (tok_kind_entries()
                    + (entries_items_json(rv.entries) + (seq!['}'] + (seq!['}'] + rest)))))),
            );
        }
    }
    let (uuid, p2) = match parse_json_string(input, p1) {
        Some(x) => x,
        None => {
            proof {
                assert forall|rv: RecordView, rest: Seq<char>|
                    input@.skip(pos0) == record_json(rv) + rest implies false by {}
            }
            return None;
        },
    };
    proof {
        assert forall|rv: RecordView, rest: Seq<char>|
            input@.skip(pos0) == record_json(rv) + rest implies (uuid@ == rv.uuid && input@.skip(
            p2 as int,
        ) == tok_name() + (json_string(rv.name) + (tok_kind_entries() + (entries_items_json(
            rv.entries,
        ) + (seq!['}'] + (seq!['}'] + rest)))))) by {
            crate::json::lemma_skip_concat(
                input@,
                p1 as int,
                json_string(rv.uuid),
                tok_name() + (json_string(rv.name) + (tok_kind_entries() + (entries_items_json(
                    rv.entries,
                ) + (seq!['}'] + (seq!['}'] + rest))))),
            );
        }
    }
    let mut tok: Vec<char> = Vec::new();
    push_tok_name(&mut tok);
    let p3 = match expect_tok(input, p2, &tok) {
        Some(p) => p,
        None => {
            proof {
                assert forall|rv: RecordView, rest: Seq<char>|
                    input@.skip(pos0) == record_json(rv) + rest implies false by {}
            }
            return None;
        },
    };
    proof {
        assert forall|rv: RecordView, rest: Seq<char>|
            input@.skip(pos0) == record_json(rv) + rest implies (input@.skip(p3 as int)
            == json_string(rv.name) + (tok_kind_entries() + (entries_items_json(rv.entries) + (
        seq!['}'] + (seq!['}'] + rest))))) by {
            crate::json::lemma_skip_concat(
                input@,
                p2 as int,
                tok_name(),
                json_string(rv.name) + (tok_kind_entries() + (entries_items_json(rv.entries) + (
                seq!['}'] + (seq!['}'] + rest)))),
            );
        }
    }
    let (name, p4) = match parse_json_string(input, p3) {
        Some(x) => x,
        None => {
            proof {
                assert forall|rv: RecordView, rest: Seq<char>|
                    input@.skip(pos0) == record_json(rv) + rest implies false by {}
            }
            return None;
        },
    };
    proof {
        assert forall|rv: RecordView, rest: Seq<char>|
            input@.skip(pos0) == record_json(rv) + rest implies (name@ == rv.name && input@.skip(
            p4 as int,
        ) == tok_kind_entries() + (entries_items_json(rv.entries) + (seq!['}'] + (seq!['}']
            + rest)))) by {
            crate::json::lemma_skip_concat(
                input@,
                p3 as int,
                json_string(rv.name),
                tok_kind_entries() + (entries_items_json(rv.entries) + (seq!['}'] + (seq!['}']
                    + rest))),
            );
        }
    }
    let mut tok: Vec<char> = Vec::new();
    push_tok_kind_entries(&mut tok);
    let p5 = match expect_tok(input, p4, &tok) {
        Some(p) => p,
        None => {
            proof {
                assert forall|rv: RecordView, rest: Seq<char>|
                    input@.skip(pos0) == record_json(rv) + rest implies false by {}
            }
            return None;
        },
    };
    proof {
        assert forall|rv: RecordView, rest: Seq<char>|
            input@.skip(pos0) == record_json(rv) + rest implies (input@.skip(p5 as int)
            == entries_items_json(rv.entries) + (seq!['}'] + (seq!['}'] + rest))) by {
            crate::json::lemma_skip_concat(
                input@,
                p4 as int,
                tok_kind_entries(),
                entries_items_json(rv.entries) + (seq!['}'] + (seq!['}'] + rest)),
            );
        }
    }
    let (entries, p6) = match parse_entries(input, p5) {
        Some(x) => x,
        None => {
            proof {
                assert forall|rv: RecordView, rest: Seq<char>|
                    input@.skip(pos0) == record_json(rv) + rest implies false by {}
            }
            return None;
        },
    };
    proof {
        assert forall|rv: RecordView, rest: Seq<char>|
            input@.skip(pos0) == record_json(rv) + rest implies (entries@ == rv.entries
            && input@.skip(p6 as int) == seq!['}'] + rest && input@[p6 as int] == '}' && p6 + 1
            == pos + record_json(rv).len()) by {
            crate::json::lemma_skip_concat(
                input@,
                p5 as int,
                entries_items_json(rv.entries),
                seq!['}'] + (seq!['}'] + rest),
            );
            crate::json::lemma_skip_concat(
                input@,
                p5 + entries_items_json(rv.entries).len() as int,
                seq!['}'],
                seq!['}'] + rest,
            );
        }
    }
    if pos >= input.len() {
        proof {
            assert forall|rv: RecordView, rest: Seq<char>|
                input@.skip(pos0) == record_json(rv) + rest implies false by {}
        }
        return None;
    }
    if p6 >= input.len() || input[p6] != '}' {
        proof {
            assert forall|rv: RecordView, rest: Seq<char>|
                input@.skip(pos0) == record_json(rv) + rest implies false by {}
        }
        return None;
    }
    let record = Record {
        uuid: chars_to_string(&uuid),
        name: chars_to_string(&name),
        kind: RecordKind::Login,
        entries,
    };
    proof {
        assert forall|rv: RecordView, rest: Seq<char>|
            input@.skip(pos0) == record_json(rv) + rest implies (record@ == rv && p6 + 1 == pos
            + record_json(rv).len()) by {
            assert(rv.kind == RecordKind::Login);
            assert(record@.uuid == rv.uuid && record@.name == rv.name && record@.kind == rv.kind
                && record@.entries == rv.entries);
        }
    }
    Some((record, p6 + 1))
}

proof fn lemma_record_item_head(rv: RecordView)
    ensures
        record_item_json(rv).len() >= 3,
        record_item_json(rv)[0] == '"',
{
    assert(json_string(rv.uuid)[0] == '"');
    assert(record_item_json(rv)[0] == json_string(rv.uuid)[0]);
}

proof fn lemma_record_item_decompose(input: Seq<char>, pos: int, vs: Seq<RecordView>, j: int)
    requires
        0 <= pos <= input.len(),
        0 <= j < vs.len(),
        input.skip(pos) == record_item_json(vs[j]) + (records_rest_json(vs.skip(j + 1))
            + seq!['}']),
    ensures
        input.skip(pos) == json_string(vs[j].uuid) + (seq![':'] + (record_json(vs[j]) + (
        records_rest_json(vs.skip(j + 1)) + seq!['}']))),
{
    assert(record_item_json(vs[j]) + (records_rest_json(vs.skip(j + 1)) + seq!['}'])
        =~= json_string(vs[j].uuid) + (seq![':'] + (record_json(vs[j]) + (records_rest_json(
        vs.skip(j + 1),
    ) + seq!['}']))));
}

proof fn lemma_records_tail_head(input: Seq<char>, p3: int, vs: Seq<RecordView>, j: int)
    requires
        0 <= p3 <= input.len(),
        0 <= j < vs.len(),
        input.skip(p3) == records_rest_json(vs.skip(j + 1)) + seq!['}'],
    ensures
        p3 < input.len(),
        j + 1 < vs.len() ==> input[p3] == ',' && input.skip(p3 + 1) == record_item_json(
            vs[j + 1],
        ) + (records_rest_json(vs.skip(j + 2)) + seq!['}']),
        j + 1 == vs.len() ==> input[p3] == '}' && p3 + 1 == input.len(),
{
    if j + 1 < vs.len() {
        assert(vs.skip(j + 1)[0] == vs[j + 1]);
        assert(vs.skip(j + 1).drop_first() =~= vs.skip(j + 2));
        assert(records_rest_json(vs.skip(j + 1)) == seq![','] + record_item_json(vs[j + 1])
            + records_rest_json(vs.skip(j + 2)));
        assert(input.skip(p3) =~= seq![','] + (record_item_json(vs[j + 1]) + (records_rest_json(
            vs.skip(j + 2),
        ) + seq!['}'])));
        assert(input.skip(p3)[0] == input[p3]);
        crate::json::lemma_skip_concat(
            input,
            p3,
            seq![','],
            record_item_json(vs[j + 1]) + (records_rest_json(vs.skip(j + 2)) + seq!['}']),
        );
    } else {
        assert(records_rest_json(vs.skip(j + 1)) =~= Seq::<char>::empty());
        assert(input.skip(p3) =~= seq!['}']);
        assert(input.skip(p3)[0] == input[p3]);
    }
}

/// Reads the uuid key, the colon and the record of one item of the
/// record map.
#[verifier::rlimit(100)]
fn parse_records_pair(input: &[char], pos: usize, Ghost(j): Ghost<int>) -> (r: Option<
    (Record, usize),
>)
    requires
        1 <= pos <= input@.len(),
        forall|vs: Seq<RecordView>|
            #![trigger records_json(vs)]
            input@ == records_json(vs) ==> (0 <= j < vs.len() && input@.skip(pos as int)
                == record_item_json(vs[j]) + (records_rest_json(vs.skip(j + 1)) + seq!['}'])),
    ensures
        r matches Some((record, end)) ==> pos < end <= input@.len(),
        r is None ==> (forall|vs: Seq<RecordView>| input@ != records_json(vs)),
        forall|vs: Seq<RecordView>|
            #![trigger records_json(vs)]
            r matches Some((record, end)) ==> (input@ == records_json(vs) ==> (record@ == vs[j]
                && input@.skip(end as int) == records_rest_json(vs.skip(j + 1)) + seq!['}'] && end
                < input@.len())),
{
    proof {
        assert forall|vs: Seq<RecordView>| input@ == records_json(vs) implies (input@.skip(
            pos as int,
        ) == json_string(vs[j].uuid) + (seq![':'] + (record_json(vs[j]) + (records_rest_json(
            vs.skip(j + 1),
        ) + seq!['}'])))) by {
            lemma_record_item_decompose(input@, pos as int, vs, j);
        }
    }
    let (_uuid, p2) = match parse_json_string(input, pos) {
        Some(x) => x,
        None => {
            proof {
                assert forall|vs: Seq<RecordView>| input@ != records_json(vs) by {}
            }
            return None;
        },
    };
    proof {
        assert forall|vs: Seq<RecordView>| input@ == records_json(vs) implies (input@.skip(
            p2 as int,
        ) == seq![':'] + (record_json(vs[j]) + (records_rest_json(vs.skip(j + 1)) + seq!['}']))
            && input@[p2 as int] == ':' && p2 < input@.len()) by {
            crate::json::lemma_skip_concat(
                input@,
                pos as int,
                json_string(vs[j].uuid),
                seq![':'] + (record_json(vs[j]) + (records_rest_json(vs.skip(j + 1))
                    + seq!['}'])),
            );
        }
    }
    if p2 >= input.len() || input[p2] != ':' {
        proof {
            assert forall|vs: Seq<RecordView>| input@ != records_json(vs) by {}
        }
        return None;
    }
    proof {
        assert forall|vs: Seq<RecordView>| input@ == records_json(vs) implies (input@.skip(
            p2 as int + 1,
        ) == record_json(vs[j]) + (records_rest_json(vs.skip(j + 1)) + seq!['}'])) by {
            crate::json::lemma_skip_concat(
                input@,
                p2 as int,
                seq![':'],
                record_json(vs[j]) + (records_rest_json(vs.skip(j + 1)) + seq!['}']),
            );
        }
    }
    let (record, p3) = match parse_record_at(input, p2 + 1) {
        Some(x) => x,
        None => {
            proof {
                assert forall|vs: Seq<RecordView>| input@ != records_json(vs) by {}
            }
            return None;
        },
    };
    proof {
        assert forall|vs: Seq<RecordView>| input@ == records_json(vs) implies (record@ == vs[j]
            && input@.skip(p3 as int) == records_rest_json(vs.skip(j + 1)) + seq!['}'] && p3
            < input@.len()) by {
            crate::json::lemma_skip_concat(
                input@,
                p2 as int + 1,
                record_json(vs[j]),
                records_rest_json(vs.skip(j + 1)) + seq!['}'],
            );
        }
    }
    Some((record, p3))
}

/// Reads one item of the record map - the uuid key, the colon and the
/// record - together with what follows it: a comma before a further
/// item, or the brace that closes the map, which must end the input.
#[verifier::rlimit(100)]
fn parse_records_item(input: &[char], pos: usize, records: &mut Vec<Record>) -> (r: Option<
    (usize, bool),
>)
    requires
        1 <= pos <= input@.len(),
        forall|vs: Seq<RecordView>|
            #![trigger records_json(vs)]
            input@ == records_json(vs) ==> ({
                &&& (records_view(old(records)@).len() as int) < vs.len()
                &&& records_view(old(records)@) == vs.take(
                    records_view(old(records)@).len() as int,
                )
                &&& input@.skip(pos as int) == record_item_json(
                    vs[records_view(old(records)@).len() as int],
                ) + (records_rest_json(
                    vs.skip(records_view(old(records)@).len() as int + 1),
                ) + seq!['}'])
            }),
    ensures
        r matches Some((end, done)) ==> pos < end <= input@.len(),
        r is None ==> (forall|vs: Seq<RecordView>| input@ != records_json(vs)),
        forall|vs: Seq<RecordView>|
            #![trigger records_json(vs)]
            r matches Some((end, done)) ==> (done && input@ == records_json(vs) ==> (records_view(
                final(records)@,
            ) == vs && end == input@.len())),
        forall|vs: Seq<RecordView>|
            #![trigger records_json(vs)]
            r matches Some((end, done)) ==> (!done && input@ == records_json(vs) ==> {
                &&& (records_view(final(records)@).len() as int) < vs.len()
                &&& records_view(final(records)@) == vs.take(
                    records_view(final(records)@).len() as int,
                )
                &&& input@.skip(end as int) == record_item_json(
                    vs[records_view(final(records)@).len() as int],
                ) + (records_rest_json(
                    vs.skip(records_view(final(records)@).len() as int + 1),
                ) + seq!['}'])
            }),
{
    let ghost prev = records_view(records@);
    let ghost j = prev.len() as int;
    let (record, p3) = match parse_records_pair(input, pos, Ghost(j)) {
        Some(x) => x,
        None => {
            proof {
                assert forall|vs: Seq<RecordView>| input@ != records_json(vs) by {}
            }
            return None;
        },
    };
    records.push(record);
    proof {
        assert(records_view(records@) =~= prev.push(record@));
        assert forall|vs: Seq<RecordView>| input@ == records_json(vs) implies (records_view(
            records@,
        ).len() <= vs.len() && records_view(records@) == vs.take(
            records_view(records@).len() as int,
        )) by {
            assert(records_view(records@) =~= vs.take(j + 1));
        }
    }
    if p3 >= input.len() {
        proof {
            assert forall|vs: Seq<RecordView>| input@ != records_json(vs) by {}
        }
        return None;
    }
    if input[p3] == '}' {
        proof {
            assert forall|vs: Seq<RecordView>| input@ == records_json(vs) implies (records_view(
                records@,
            ) == vs && p3 + 1 == input@.len()) by {
                lemma_records_tail_head(input@, p3 as int, vs, j);
                assert(vs.take(vs.len() as int) =~= vs);
            }
        }
        if p3 + 1 != input.len() {
            proof {
                assert forall|vs: Seq<RecordView>| input@ != records_json(vs) by {}
            }
            return None;
        }
        return Some((p3 + 1, true));
    }
    if input[p3] != ',' {
        proof {
            assert forall|vs: Seq<RecordView>| input@ == records_json(vs) implies false by {
                lemma_records_tail_head(input@, p3 as int, vs, j);
            }
            assert forall|vs: Seq<RecordView>| input@ != records_json(vs) by {}
        }
        return None;
    }
    proof {
        assert forall|vs: Seq<RecordView>| input@ == records_json(vs) implies ({
            &&& (records_view(records@).len() as int) < vs.len()
            &&& input@.skip(p3 as int + 1) == record_item_json(vs[j + 1]) + (records_rest_json(
                vs.skip(j + 2),
            ) + seq!['}'])
        }) by {
            lemma_records_tail_head(input@, p3 as int, vs, j);
        }
    }
    Some((p3 + 1, false))
}

/// Reads a whole canonical record collection, and accepts it only if it
/// reads back exactly as the collection would be written. What
/// `push_records_json` writes for a collection always reads back as that
/// collection.
#[verifier::rlimit(100)]
pub fn parse_records(json: &str) -> (r: Option<Vec<Record>>)
    ensures
        r matches Some(records) ==> json@ == records_json(records_view(records@)),
        forall|vs: Seq<RecordView>|
            json@ == records_json(vs) ==> (r matches Some(records) && records_view(records@)
                == vs),
{
    let chars = str_to_chars(json);
    let input = chars.as_slice();
    proof {
        assert forall|vs: Seq<RecordView>| json@ == records_json(vs) implies (input@.len() >= 2
            && input@[0] == '{') by {
            assert(records_json(vs)[0] == '{');
        }
    }
    if chars.len() == 0 || input[0] != '{' {
        proof {
            assert forall|vs: Seq<RecordView>| json@ == records_json(vs) implies false by {}
        }
        return None;
    }
    let mut records: Vec<Record> = Vec::new();
    proof {
        assert(records_view(records@) =~= Seq::<RecordView>::empty());
        assert forall|vs: Seq<RecordView>| json@ == records_json(vs) implies (input@.skip(1)
            == records_items_json(vs) + seq!['}']) by {
            assert(input@.skip(1) =~= records_items_json(vs) + seq!['}']);
        }
    }
    let mut pos: usize = 1;
    if pos < input.len() && input[pos] == '}' {
        proof {
            assert forall|vs: Seq<RecordView>| json@ == records_json(vs) implies (vs.len() == 0
                && input@.len() == 2) by {
                if vs.len() > 0 {
                    lemma_record_item_head(vs[0]);
                    assert(records_items_json(vs)[0] == record_item_json(vs[0])[0]);
                    assert((records_items_json(vs) + seq!['}'])[0] == records_items_json(vs)[0]);
                    assert(input@.skip(1)[0] == input@[1]);
                    assert(false);
                }
                assert(records_items_json(vs) =~= Seq::<char>::empty());
            }
        }
        if input.len() != 2 {
            proof {
                assert forall|vs: Seq<RecordView>| json@ == records_json(vs) implies false by {}
            }
            return None;
        }
        pos = 2;
        proof {
            assert forall|vs: Seq<RecordView>| json@ == records_json(vs) implies (
            records_view(records@) == vs) by {
                assert(records_view(records@) =~= vs);
            }
        }
    } else {
        proof {
            assert forall|vs: Seq<RecordView>| json@ == records_json(vs) implies ({
                &&& 0 < vs.len()
                &&& input@.skip(1) == record_item_json(vs[0]) + (records_rest_json(vs.skip(1))
                    + seq!['}'])
            }) by {
                if vs.len() == 0 {
                    assert(records_items_json(vs) =~= Seq::<char>::empty());
                    assert(input@.skip(1) =~= seq!['}']);
                    assert(input@.skip(1)[0] == input@[1]);
                    assert(false);
                }
                assert(vs.drop_first() =~= vs.skip(1));
                assert(input@.skip(1) =~= record_item_json(vs[0]) + (records_rest_json(vs.skip(1))
                    + seq!['}']));
            }
        }
        loop
            invariant_except_break
                forall|vs: Seq<RecordView>|
                    json@ == records_json(vs) ==> ({
                        &&& (records_view(records@).len() as int) < vs.len()
                        &&& records_view(records@) == vs.take(records_view(records@).len() as int)
                        &&& input@.skip(pos as int) == record_item_json(
                            vs[records_view(records@).len() as int],
                        ) + (records_rest_json(vs.skip(records_view(records@).len() as int + 1))
                            + seq!['}'])
                    }),
            invariant
                1 <= pos <= input@.len(),
                input@ == chars@,
                chars@ == json@,
            ensures
                pos <= input@.len(),
                input@ == chars@,
                chars@ == json@,
                forall|vs: Seq<RecordView>|
                    json@ == records_json(vs) ==> (records_view(records@) == vs && pos
                        == input@.len()),
            decreases input@.len() - pos,
        {
            let (end, done) = match parse_records_item(input, pos, &mut records) {
                Some(x) => x,
                None => {
                    proof {
                        assert forall|vs: Seq<RecordView>| json@ == records_json(vs)
                            implies false by {}
                    }
                    return None;
                },
            };
            pos = end;
            if done {
                break ;
            }
        }
    }
    let mut rendered: Vec<char> = Vec::new();
    push_records_json(&mut rendered, &records);
    proof {
        assert forall|vs: Seq<RecordView>| json@ == records_json(vs) implies rendered@
            == input@ by {
            assert(records_view(records@) == vs);
        }
    }
    if chars_eq(input, rendered.as_slice()) {
        Some(records)
    } else {
        proof {
            assert forall|vs: Seq<RecordView>| json@ == records_json(vs) implies false by {}
        }
        None
    }
}

} // verus!
