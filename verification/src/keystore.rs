//! The key store: what must be kept to put an encrypted file together again.

use vstd::prelude::*;
use vstd::string::StringSliceAdditionalSpecFns;
use vstd::utf8::encode_utf8;
use crate::crypto::{Cipher, KEY_SIZE, NONCE_SIZE};
use crate::error::Error;
use crate::identifier::{
    is_hyphen_position,
    is_lower_hex,
    key_from_identifier,
    random_identifier,
};
use crate::ordering::{in_strict_order, name_views, ordered, sort_names, strictly_ordered};

verus! {

/// One chunk of a session: the name under which its ciphertext is stored, and the
/// nonce under which it was encrypted.
#[derive(Debug)]
pub struct ChunkRecord {
    pub name: String,
    pub nonce: String,
}

/// A [`ChunkRecord`] as text.
pub struct RecordView {
    pub name: Seq<char>,
    pub nonce: Seq<char>,
}

impl View for ChunkRecord {
    type V = RecordView;

    open spec fn view(&self) -> RecordView {
        RecordView { name: self.name@, nonce: self.nonce@ }
    }
}

/// The views of a list of records.
pub open spec fn record_views(records: Seq<ChunkRecord>) -> Seq<RecordView> {
    records.map_values(|record: ChunkRecord| record@)
}

/// What a key store holds, as text.
pub struct KeyStoreView {
    /// The path or name of the plaintext.
    pub source_identity: Seq<char>,
    /// The session's key.
    pub master_key: Seq<char>,
    /// The chunks, in the order in which they were recorded.
    pub chunk_records: Seq<RecordView>,
    /// The directory or prefix under which the chunks are stored.
    pub storage_location: Seq<char>,
}

impl KeyStoreView {
    /// The names of the chunks, in the order in which they were recorded.
    pub open spec fn names(self) -> Seq<Seq<char>> {
        self.chunk_records.map_values(|record: RecordView| record.name)
    }

    /// The nonces of the chunks, in the order in which they were recorded.
    pub open spec fn nonces(self) -> Seq<Seq<char>> {
        self.chunk_records.map_values(|record: RecordView| record.nonce)
    }

    /// The invariant of a key store: the key has the cipher's key size, every
    /// nonce has the cipher's nonce size, and no chunk name and no nonce occurs
    /// twice.
    pub open spec fn wf(self) -> bool {
        &&& encode_utf8(self.master_key).len() == KEY_SIZE
        &&& forall|i: int|
            0 <= i < self.chunk_records.len() ==> encode_utf8(
                (#[trigger] self.chunk_records[i]).nonce,
            ).len() == NONCE_SIZE
        &&& self.names().no_duplicates()
        &&& self.nonces().no_duplicates()
    }

    /// Whether a chunk of this name and nonce can be recorded: the name and the
    /// nonce are new, and the nonce has the cipher's nonce size.
    pub open spec fn accepts(self, name: Seq<char>, nonce: Seq<char>) -> bool {
        &&& !self.names().contains(name)
        &&& !self.nonces().contains(nonce)
        &&& encode_utf8(nonce).len() == NONCE_SIZE
    }

    /// The key store with one more chunk recorded.
    pub open spec fn with_record(self, name: Seq<char>, nonce: Seq<char>) -> KeyStoreView {
        KeyStoreView {
            chunk_records: self.chunk_records.push(RecordView { name, nonce }),
            ..self
        }
    }

    /// The key store with no chunk recorded.
    pub open spec fn without_records(self) -> KeyStoreView {
        KeyStoreView { chunk_records: Seq::empty(), ..self }
    }

    /// Whether `other` holds the records of this key store and no others, in
    /// whatever order, under the same key.
    pub open spec fn same_records(self, other: KeyStoreView) -> bool {
        &&& other.master_key == self.master_key
        &&& other.chunk_records.len() == self.chunk_records.len()
        &&& forall|k: int|
            0 <= k < other.chunk_records.len() ==> self.chunk_records.contains(
                #[trigger] other.chunk_records[k],
            )
    }

    /// The nonce recorded for the chunk `name`, if there is such a chunk.
    pub open spec fn nonce_of(self, name: Seq<char>) -> Option<Seq<char>> {
        if self.names().contains(name) {
            Some(self.chunk_records[self.names().index_of(name)].nonce)
        } else {
            None
        }
    }
}

/// Whether `key` has the shape of a key that [`KeyStore::new`] draws: the first
/// 32 characters of an identifier.
pub open spec fn is_drawn_key(key: Seq<char>) -> bool {
    &&& key.len() == KEY_SIZE
    &&& forall|i: int|
        0 <= i < key.len() ==> if is_hyphen_position(i) {
            #[trigger] key[i] == '-'
        } else {
            is_lower_hex(key[i])
        }
}

/// The key of one encryption session and the nonce of each of its chunks, with
/// the name of the plaintext and the place where the chunks are stored.
#[derive(Debug)]
pub struct KeyStore {
    source_identity: String,
    master_key: String,
    chunk_records: Vec<ChunkRecord>,
    storage_location: String,
}

/// A key store as it is written to a document and read from one: the same four
/// fields, with nothing known of them.
#[derive(Debug)]
pub struct KeyStoreDocument {
    pub source_identity: String,
    pub master_key: String,
    pub chunk_records: Vec<ChunkRecord>,
    pub storage_location: String,
}

impl View for KeyStoreDocument {
    type V = KeyStoreView;

    open spec fn view(&self) -> KeyStoreView {
        KeyStoreView {
            source_identity: self.source_identity@,
            master_key: self.master_key@,
            chunk_records: record_views(self.chunk_records@),
            storage_location: self.storage_location@,
        }
    }
}

impl View for KeyStore {
    type V = KeyStoreView;

    closed spec fn view(&self) -> KeyStoreView {
        KeyStoreView {
            source_identity: self.source_identity@,
            master_key: self.master_key@,
            chunk_records: record_views(self.chunk_records@),
            storage_location: self.storage_location@,
        }
    }
}

impl KeyStore {
    /// Whether the key store's invariant holds. Every key store that the
    /// functions of this type return satisfies it.
    pub open spec fn wf(&self) -> bool {
        self@.wf()
    }

    /// How the view's lists line up with the records held.
    proof fn lemma_view_indices(&self)
        ensures
            self@.chunk_records.len() == self.chunk_records@.len(),
            self@.names().len() == self.chunk_records@.len(),
            self@.nonces().len() == self.chunk_records@.len(),
            forall|k: int|
                0 <= k < self.chunk_records@.len() ==> {
                    &&& (#[trigger] self@.chunk_records[k]) == self.chunk_records@[k]@
                    &&& (#[trigger] self@.names()[k]) == self.chunk_records@[k].name@
                    &&& (#[trigger] self@.nonces()[k]) == self.chunk_records@[k].nonce@
                },
    {
    }

    /// A key store for a new session, with a key drawn at random and no chunk
    /// recorded.
    pub fn new(filepath: String, encryption_dir: String) -> (store: KeyStore)
        ensures
            store.wf(),
            store@.source_identity == filepath@,
            store@.storage_location == encryption_dir@,
            store@.chunk_records.len() == 0,
            is_drawn_key(store@.master_key),
    {
        let id = random_identifier();
        let key = key_from_identifier(id.as_str());
        let store = KeyStore {
            source_identity: filepath,
            master_key: key,
            chunk_records: Vec::new(),
            storage_location: encryption_dir,
        };
        proof {
            assert(store@.names() =~= Seq::<Seq<char>>::empty());
            assert(store@.nonces() =~= Seq::<Seq<char>>::empty());
        }
        store
    }

    /// A key store for a session under `master_key`, with no chunk recorded. A
    /// key that has not [`KEY_SIZE`] bytes is refused with
    /// [`Error::CryptoError`].
    pub fn with_key(source_identity: String, storage_location: String, master_key: String) -> (res:
        Result<KeyStore, Error>)
        ensures
            res is Ok <==> encode_utf8(master_key@).len() == KEY_SIZE,
            res matches Ok(store) ==> store.wf() && store@ == (KeyStoreView {
                source_identity: source_identity@,
                master_key: master_key@,
                chunk_records: Seq::empty(),
                storage_location: storage_location@,
            }),
            res matches Err(e) ==> e == Error::CryptoError,
    {
        if master_key.as_str().as_bytes().len() != KEY_SIZE {
            return Err(Error::CryptoError);
        }
        let store = KeyStore {
            source_identity,
            master_key,
            chunk_records: Vec::new(),
            storage_location,
        };
        proof {
            assert(store@.chunk_records =~= Seq::<RecordView>::empty());
            assert(store@.names() =~= Seq::<Seq<char>>::empty());
            assert(store@.nonces() =~= Seq::<Seq<char>>::empty());
        }
        Ok(store)
    }

    /// The path or name of the plaintext.
    pub fn source_identity(&self) -> (text: &String)
        ensures
            text@ == self@.source_identity,
    {
        &self.source_identity
    }

    /// The session's key.
    pub fn master_key(&self) -> (text: &String)
        ensures
            text@ == self@.master_key,
    {
        &self.master_key
    }

    /// The directory or prefix under which the chunks are stored.
    pub fn storage_location(&self) -> (text: &String)
        ensures
            text@ == self@.storage_location,
    {
        &self.storage_location
    }

    /// The chunks, in the order in which they were recorded.
    pub fn chunk_records(&self) -> (records: &Vec<ChunkRecord>)
        ensures
            record_views(records@) == self@.chunk_records,
    {
        &self.chunk_records
    }

    /// The cipher under this session's key.
    pub fn cipher(&self) -> (cipher: Cipher)
        requires
            self.wf(),
        ensures
            cipher.key() == encode_utf8(self@.master_key),
    {
        Cipher::with_key(self.master_key.as_str().as_bytes())
    }

    /// Whether a chunk of this name is recorded.
    pub fn has_name(&self, chunk_name: &String) -> (found: bool)
        ensures
            found == self@.names().contains(chunk_name@),
    {
        let mut i: usize = 0;
        proof {
            self.lemma_view_indices();
        }
        while i < self.chunk_records.len()
            invariant
                i <= self.chunk_records@.len(),
                self@.names().len() == self.chunk_records@.len(),
                forall|k: int|
                    0 <= k < self.chunk_records@.len() ==> (#[trigger] self@.names()[k])
                        == self.chunk_records@[k].name@,
                forall|k: int| 0 <= k < i ==> self@.names()[k] != chunk_name@,
            decreases self.chunk_records@.len() - i,
        {
            if self.chunk_records[i].name == *chunk_name {
                assert(self@.names()[i as int] == chunk_name@);
                return true;
            }
            i = i + 1;
        }
        false
    }

    /// Whether a chunk with this nonce is recorded.
    pub fn has_nonce(&self, nonce: &String) -> (found: bool)
        ensures
            found == self@.nonces().contains(nonce@),
    {
        let mut i: usize = 0;
        proof {
            self.lemma_view_indices();
        }
        while i < self.chunk_records.len()
            invariant
                i <= self.chunk_records@.len(),
                self@.nonces().len() == self.chunk_records@.len(),
                forall|k: int|
                    0 <= k < self.chunk_records@.len() ==> (#[trigger] self@.nonces()[k])
                        == self.chunk_records@[k].nonce@,
                forall|k: int| 0 <= k < i ==> self@.nonces()[k] != nonce@,
            decreases self.chunk_records@.len() - i,
        {
            if self.chunk_records[i].nonce == *nonce {
                assert(self@.nonces()[i as int] == nonce@);
                return true;
            }
            i = i + 1;
        }
        false
    }

    /// The nonce recorded for the chunk `chunk_name`, if there is such a chunk.
    pub fn nonce(&self, chunk_name: &String) -> (found: Option<&String>)
        requires
            self.wf(),
        ensures
            match found {
                Some(nonce) => Some(nonce@),
                None => None,
            } == self@.nonce_of(chunk_name@),
    {
        let mut i: usize = 0;
        proof {
            self.lemma_view_indices();
        }
        while i < self.chunk_records.len()
            invariant
                self.wf(),
                i <= self.chunk_records@.len(),
                self@.names().len() == self.chunk_records@.len(),
                forall|k: int|
                    0 <= k < self.chunk_records@.len() ==> (#[trigger] self@.names()[k])
                        == self.chunk_records@[k].name@,
                forall|k: int| 0 <= k < i ==> self@.names()[k] != chunk_name@,
            decreases self.chunk_records@.len() - i,
        {
            if self.chunk_records[i].name == *chunk_name {
                proof {
                    self.lemma_view_indices();
                    let names = self@.names();
                    assert(names[i as int] == chunk_name@);
                    assert(names.contains(chunk_name@));
                    let at = names.index_of(chunk_name@);
                    assert(0 <= at < names.len() && names[at] == chunk_name@);
                    assert(names.no_duplicates());
                    assert(at == i);
                }
                return Some(&self.chunk_records[i].nonce);
            }
            i = i + 1;
        }
        None
    }

    /// Records one chunk. A name or a nonce that is already recorded, or a nonce
    /// that has not [`NONCE_SIZE`] bytes, is refused with
    /// [`Error::ConfigError`], and the key store stays as it was.
    pub fn record(&mut self, chunk_name: String, nonce: String) -> (res: Result<(), Error>)
        requires
            old(self).wf(),
        ensures
            final(self).wf(),
            res is Ok <==> old(self)@.accepts(chunk_name@, nonce@),
            res is Ok ==> final(self)@ == old(self)@.with_record(chunk_name@, nonce@),
            res matches Err(e) ==> e == Error::ConfigError && final(self)@ == old(self)@,
    {
        if self.has_name(&chunk_name) || self.has_nonce(&nonce)
            || nonce.as_str().as_bytes().len() != NONCE_SIZE {
            return Err(Error::ConfigError);
        }
        let ghost before = self@;
        proof {
            self.lemma_view_indices();
        }
        self.chunk_records.push(ChunkRecord { name: chunk_name, nonce });
        proof {
            let after = self@;
            self.lemma_view_indices();
            assert(after.chunk_records =~= before.chunk_records.push(
                RecordView { name: chunk_name@, nonce: nonce@ },
            ));
            assert(after.names() =~= before.names().push(chunk_name@));
            assert(after.nonces() =~= before.nonces().push(nonce@));
            assert(after == before.with_record(chunk_name@, nonce@));
        }
        Ok(())
    }

    /// The names of the chunks, in the order in which they were recorded.
    pub fn chunk_names(&self) -> (names: Vec<String>)
        ensures
            name_views(names@) == self@.names(),
    {
        let mut names: Vec<String> = Vec::new();
        let mut i: usize = 0;
        proof {
            self.lemma_view_indices();
        }
        while i < self.chunk_records.len()
            invariant
                i <= self.chunk_records@.len(),
                self@.names().len() == self.chunk_records@.len(),
                forall|k: int|
                    0 <= k < self.chunk_records@.len() ==> (#[trigger] self@.names()[k])
                        == self.chunk_records@[k].name@,
                name_views(names@) == self@.names().take(i as int),
            decreases self.chunk_records@.len() - i,
        {
            let ghost before = name_views(names@);
            names.push(self.chunk_records[i].name.clone());
            proof {
                assert(name_views(names@) =~= before.push(self@.names()[i as int]));
                assert(self@.names().take(i + 1) =~= self@.names().take(i as int).push(
                    self@.names()[i as int],
                ));
            }
            i = i + 1;
        }
        proof {
            assert(self@.names().take(i as int) =~= self@.names());
        }
        names
    }

    /// The names of the chunks in the order in which the chunks are put together
    /// again: sorted by the alphanumeric order, in which `"2_d"` comes before
    /// `"10_c"`.
    pub fn ordered_chunk_names(&self) -> (names: Vec<String>)
        ensures
            name_views(names@) == ordered(self@.names()),
            name_views(names@).to_multiset() == self@.names().to_multiset(),
            names@.len() == self@.chunk_records.len(),
    {
        let given = self.chunk_names();
        sort_names(&given)
    }

    /// Whether the chunks were recorded in the order of their names: the name
    /// of each precedes that of every later one, and none precedes that of an
    /// earlier one.
    pub fn records_in_order(&self) -> (in_order: bool)
        ensures
            in_order == strictly_ordered(self@.names()),
    {
        let recorded = self.chunk_names();
        in_strict_order(&recorded)
    }

    /// The key store as a document: its four fields, copied.
    pub fn to_document(&self) -> (document: KeyStoreDocument)
        ensures
            document@ == self@,
    {
        let mut records: Vec<ChunkRecord> = Vec::new();
        let mut i: usize = 0;
        while i < self.chunk_records.len()
            invariant
                i <= self.chunk_records@.len(),
                record_views(records@) == record_views(self.chunk_records@).take(i as int),
            decreases self.chunk_records@.len() - i,
        {
            let ghost before = record_views(records@);
            let name = self.chunk_records[i].name.clone();
            let nonce = self.chunk_records[i].nonce.clone();
            records.push(ChunkRecord { name, nonce });
            proof {
                let all = record_views(self.chunk_records@);
                assert(record_views(records@) =~= before.push(all[i as int]));
                assert(all.take(i + 1) =~= all.take(i as int).push(all[i as int]));
            }
            i = i + 1;
        }
        proof {
            let all = record_views(self.chunk_records@);
            assert(all.take(i as int) =~= all);
        }
        KeyStoreDocument {
            source_identity: self.source_identity.clone(),
            master_key: self.master_key.clone(),
            chunk_records: records,
            storage_location: self.storage_location.clone(),
        }
    }

    /// The key store that a document describes. A document whose key has not
    /// [`KEY_SIZE`] bytes, in which a nonce has not [`NONCE_SIZE`] bytes, or in
    /// which a chunk name or a nonce occurs twice, is refused with
    /// [`Error::SerializationError`]; every other document is accepted as it is.
    pub fn from_document(document: KeyStoreDocument) -> (res: Result<KeyStore, Error>)
        ensures
            res is Ok <==> document@.wf(),
            res matches Ok(store) ==> store.wf() && store@ == document@,
            res matches Err(e) ==> e == Error::SerializationError,
    {
        let ghost described = document@;
        let KeyStoreDocument { source_identity, master_key, chunk_records, storage_location } =
            document;
        if master_key.as_str().as_bytes().len() != KEY_SIZE {
            return Err(Error::SerializationError);
        }
        let mut store = KeyStore {
            source_identity,
            master_key,
            chunk_records: Vec::new(),
            storage_location,
        };
        proof {
            assert(store@.chunk_records =~= described.chunk_records.take(0));
            assert(store@.names() =~= Seq::<Seq<char>>::empty());
            assert(store@.nonces() =~= Seq::<Seq<char>>::empty());
        }
        let mut i: usize = 0;
        while i < chunk_records.len()
            invariant
                i <= chunk_records@.len(),
                described == document@,
                described.chunk_records == record_views(chunk_records@),
                store.wf(),
                store@ == (KeyStoreView {
                    chunk_records: described.chunk_records.take(i as int),
                    ..described
                }),
            decreases chunk_records@.len() - i,
        {
            let name = chunk_records[i].name.clone();
            let nonce = chunk_records[i].nonce.clone();
            match store.record(name, nonce) {
                Ok(()) => {},
                Err(_) => {
                    proof {
                        lemma_prefix_refusal(described, i as int);
                    }
                    return Err(Error::SerializationError);
                },
            }
            proof {
                let all = described.chunk_records;
                assert(all.take(i + 1) =~= all.take(i as int).push(all[i as int]));
            }
            i = i + 1;
        }
        proof {
            assert(described.chunk_records.take(i as int) =~= described.chunk_records);
        }
        Ok(store)
    }
}

/// Where the chunk at `index` cannot be recorded after those in front of it, the
/// whole list breaks the invariant.
proof fn lemma_prefix_refusal(described: KeyStoreView, index: int)
    requires
        0 <= index < described.chunk_records.len(),
        !(KeyStoreView {
            chunk_records: described.chunk_records.take(index),
            ..described
        }).accepts(
            described.chunk_records[index].name,
            described.chunk_records[index].nonce,
        ),
    ensures
        !described.wf(),
{
    let front = KeyStoreView { chunk_records: described.chunk_records.take(index), ..described };
    let name = described.chunk_records[index].name;
    let nonce = described.chunk_records[index].nonce;
    if front.names().contains(name) {
        let k = choose|k: int| 0 <= k < front.names().len() && front.names()[k] == name;
        assert(described.names()[k] == name);
        assert(described.names()[index] == name);
    } else if front.nonces().contains(nonce) {
        let k = choose|k: int| 0 <= k < front.nonces().len() && front.nonces()[k] == nonce;
        assert(described.nonces()[k] == nonce);
        assert(described.nonces()[index] == nonce);
    }
}

/// What recording adds: the name at the end of the names, the nonce at the end
/// of the nonces, and the nonce is the one that the name finds.
pub proof fn lemma_with_record(store: KeyStoreView, name: Seq<char>, nonce: Seq<char>)
    ensures
        store.with_record(name, nonce).names() == store.names().push(name),
        store.with_record(name, nonce).nonces() == store.nonces().push(nonce),
        store.with_record(name, nonce).names().contains(name),
        store.with_record(name, nonce).nonces().contains(nonce),
        store.wf() && store.accepts(name, nonce) ==> store.with_record(name, nonce).wf()
            && store.with_record(name, nonce).nonce_of(name) == Some(nonce),
{
    let after = store.with_record(name, nonce);
    let last = store.chunk_records.len() as int;
    assert(after.names() =~= store.names().push(name));
    assert(after.nonces() =~= store.nonces().push(nonce));
    assert(after.names()[last] == name);
    assert(after.nonces()[last] == nonce);
    if store.wf() && store.accepts(name, nonce) {
        assert(after.wf());
        lemma_names_are_unique(after, last, last);
    }
}

/// No two chunks of a key store share a nonce.
pub proof fn lemma_nonces_are_unique(store: KeyStoreView, first: int, second: int)
    requires
        store.wf(),
        0 <= first < store.chunk_records.len(),
        0 <= second < store.chunk_records.len(),
        first != second,
    ensures
        store.chunk_records[first].nonce != store.chunk_records[second].nonce,
{
    assert(store.nonces()[first] == store.chunk_records[first].nonce);
    assert(store.nonces()[second] == store.chunk_records[second].nonce);
}

/// No two chunks of a key store share a name, so a name finds one nonce: that
/// of the chunk recorded under it.
pub proof fn lemma_names_are_unique(store: KeyStoreView, first: int, second: int)
    requires
        store.wf(),
        0 <= first < store.chunk_records.len(),
        0 <= second < store.chunk_records.len(),
    ensures
        first != second ==> store.chunk_records[first].name != store.chunk_records[second].name,
        store.nonce_of(store.chunk_records[first].name) == Some(store.chunk_records[first].nonce),
{
    let names = store.names();
    assert(names[first] == store.chunk_records[first].name);
    assert(names[second] == store.chunk_records[second].name);
    assert(names.contains(names[first]));
    let at = names.index_of(names[first]);
    assert(0 <= at < names.len() && names[at] == names[first]);
}

} // verus!
