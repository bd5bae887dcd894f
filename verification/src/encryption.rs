//! Encrypting a file: from its bytes to the objects to store and the key store
//! that describes them.

use vstd::prelude::*;
use vstd::utf8::encode_utf8;
use crate::cli_args::EncryptCommand;
use crate::crypto::{
    cipher_takes,
    decrypt_spec,
    encrypt,
    fits_cipher,
    sealed,
    NONCE_SIZE,
    TAG_SIZE,
};
use crate::error::Error;
use crate::identifier::{
    is_hyphen_position,
    is_identifier,
    is_lower_hex,
    nonce_from_identifier,
    nonce_part,
    random_identifier,
};
use crate::keystore::{lemma_with_record, KeyStore, KeyStoreView};
use crate::ordering::{name_views, strictly_ordered};
use crate::naming::{
    chunk_name,
    chunk_name_spec,
    document_name,
    document_name_spec,
    lemma_names_differ,
};
use crate::splitter::{
    byte_views,
    chunk_count,
    chunks_of,
    count_chunks,
    lemma_chunk_lengths,
    split,
};

verus! {

/// One object to store: a chunk's ciphertext under the chunk's name.
#[derive(Debug)]
pub struct StoredObject {
    pub key: String,
    pub bytes: Vec<u8>,
}

/// A [`StoredObject`] as text and bytes.
pub struct ObjectView {
    pub key: Seq<char>,
    pub bytes: Seq<u8>,
}

impl View for StoredObject {
    type V = ObjectView;

    open spec fn view(&self) -> ObjectView {
        ObjectView { key: self.key@, bytes: self.bytes@ }
    }
}

/// The views of a list of objects.
pub open spec fn object_views(objects: Seq<StoredObject>) -> Seq<ObjectView> {
    objects.map_values(|object: StoredObject| object@)
}

/// What encrypting a file gives: the objects to store, in the order of the
/// chunks, the key store that records them, and the name under which the key
/// store's document is to be stored once every object is.
#[derive(Debug)]
pub struct EncryptedFile {
    pub keystore: KeyStore,
    pub objects: Vec<StoredObject>,
    pub document_name: String,
}

/// Whether `name` is a name of chunk `index` at `location`, whatever its
/// suffix.
pub open spec fn is_chunk_name(name: Seq<char>, location: Seq<char>, index: int) -> bool {
    exists|suffix: Seq<char>| name == #[trigger] chunk_name_spec(location, index as nat, suffix)
}

/// Whether `name` has the shape of a name that [`encrypt_file`] gives chunk
/// `index`: its suffix is an identifier.
pub open spec fn is_drawn_name(name: Seq<char>, location: Seq<char>, index: int) -> bool {
    exists|suffix: Seq<char>|
        is_identifier(suffix) && name == #[trigger] chunk_name_spec(location, index as nat, suffix)
}

/// Whether `nonce` has the shape of a nonce that [`encrypt_file`] draws: twelve
/// lower-case hexadecimal digits.
pub open spec fn is_drawn_nonce(nonce: Seq<char>) -> bool {
    &&& nonce.len() == NONCE_SIZE
    &&& forall|i: int| 0 <= i < nonce.len() ==> is_lower_hex(#[trigger] nonce[i])
}

/// Whether every record of `store` has the shape of what [`encrypt_file`]
/// draws.
pub open spec fn is_drawn(store: KeyStoreView) -> bool {
    forall|index: int|
        0 <= index < store.chunk_records.len() ==> is_drawn_nonce(
            (#[trigger] store.chunk_records[index]).nonce,
        ) && is_drawn_name(store.chunk_records[index].name, store.storage_location, index)
}

/// Whether the record and the object at `index` are those of `chunk`: they go
/// by one name, which bears the index; the object is what the cipher gives for
/// the chunk under the session's key and the recorded nonce; and decrypting it
/// under these gives the chunk back.
pub open spec fn holds_chunk(
    store: KeyStoreView,
    objects: Seq<ObjectView>,
    index: int,
    chunk: Seq<u8>,
) -> bool {
    let record = store.chunk_records[index];
    let object = objects[index];
    let key = encode_utf8(store.master_key);
    let nonce = encode_utf8(record.nonce);
    &&& object.key == record.name
    &&& is_chunk_name(record.name, store.storage_location, index)
    &&& sealed(key, nonce, chunk) == Some(object.bytes)
    &&& decrypt_spec(key, nonce, object.bytes) == Ok::<Seq<u8>, Error>(chunk)
    &&& object.bytes.len() == chunk.len() + TAG_SIZE
}

/// Whether `store` and `objects` are an encryption of `content` in chunks of
/// `chunk_size` bytes: there is one record and one object for each chunk, in the
/// order of the chunks, and the order of names is that order: the name of each
/// chunk precedes that of every later one, and none precedes that of an earlier
/// one.
pub open spec fn is_encryption_of(
    store: KeyStoreView,
    objects: Seq<ObjectView>,
    content: Seq<u8>,
    chunk_size: nat,
) -> bool {
    let chunks = chunks_of(content, chunk_size);
    &&& store.wf()
    &&& store.chunk_records.len() == chunks.len()
    &&& objects.len() == chunks.len()
    &&& strictly_ordered(store.names())
    &&& forall|index: int|
        0 <= index < chunks.len() ==> holds_chunk(store, objects, index, #[trigger] chunks[index])
}

/// Whether the cipher takes every chunk of `content`.
pub open spec fn all_chunks_fit(content: Seq<u8>, chunk_size: nat) -> bool {
    forall|index: int|
        0 <= index < chunk_count(content.len(), chunk_size) ==> fits_cipher(
            (#[trigger] chunks_of(content, chunk_size)[index]).len(),
        )
}

/// Encrypts one chunk under the session's key and `nonce`, names it after its
/// index and `suffix`, and records it.
///
/// The cipher is asked first: a nonce that has not [`NONCE_SIZE`] bytes or a
/// chunk too long for the cipher gives [`Error::CryptoError`]. A name or a nonce
/// that the key store already holds gives [`Error::ConfigError`]. On either,
/// nothing is recorded and no object is added.
pub fn add_chunk(
    store: &mut KeyStore,
    objects: &mut Vec<StoredObject>,
    index: usize,
    chunk: &[u8],
    nonce: String,
    suffix: &str,
) -> (res: Result<(), Error>)
    requires
        old(store).wf(),
    ensures
        final(store).wf(),
        ({
            let before = old(store)@;
            let name = chunk_name_spec(before.storage_location, index as nat, suffix@);
            let key = encode_utf8(before.master_key);
            let taken = encode_utf8(nonce@).len() == NONCE_SIZE && fits_cipher(chunk@.len());
            &&& res is Ok <==> taken && before.accepts(name, nonce@)
            &&& res is Ok ==> {
                &&& final(store)@ == before.with_record(name, nonce@)
                &&& sealed(key, encode_utf8(nonce@), chunk@) is Some
                &&& object_views(final(objects)@) == object_views(old(objects)@).push(
                    ObjectView { key: name, bytes: sealed(key, encode_utf8(nonce@), chunk@)->Some_0 },
                )
                &&& decrypt_spec(
                    key,
                    encode_utf8(nonce@),
                    sealed(key, encode_utf8(nonce@), chunk@)->Some_0,
                ) == Ok::<Seq<u8>, Error>(chunk@)
                &&& sealed(key, encode_utf8(nonce@), chunk@)->Some_0.len() == chunk@.len()
                    + TAG_SIZE
            }
            &&& res matches Err(e) ==> {
                &&& final(store)@ == before
                &&& final(objects)@ == old(objects)@
                &&& e == if taken {
                    Error::ConfigError
                } else {
                    Error::CryptoError
                }
            }
        }),
{
    let cipher = store.cipher();
    let bytes = match encrypt(chunk, &cipher, nonce.as_str()) {
        Ok(bytes) => bytes,
        Err(e) => {
            return Err(e);
        },
    };
    let key = chunk_name(store.storage_location().as_str(), index, suffix);
    match store.record(key.clone(), nonce) {
        Ok(()) => {},
        Err(e) => {
            return Err(e);
        },
    }
    let ghost before = object_views(objects@);
    let ghost added = ObjectView { key: key@, bytes: bytes@ };
    objects.push(StoredObject { key, bytes });
    proof {
        assert(object_views(objects@) =~= before.push(added));
    }
    Ok(())
}

/// The names of a session's chunks at `location`, given the suffix of each.
pub open spec fn planned_names(location: Seq<char>, suffixes: Seq<Seq<char>>) -> Seq<Seq<char>> {
    Seq::new(suffixes.len(), |index: int| chunk_name_spec(location, index as nat, suffixes[index]))
}

/// Whether a session can be begun with these draws: the chunk size is not zero,
/// nothing is recorded yet, and there is one nonce and one suffix for each
/// chunk.
pub open spec fn draws_are_usable(
    store: KeyStoreView,
    content: Seq<u8>,
    chunk_size: nat,
    nonces: Seq<Seq<char>>,
    suffixes: Seq<Seq<char>>,
) -> bool {
    &&& chunk_size >= 1
    &&& store.chunk_records.len() == 0
    &&& nonces.len() == chunk_count(content.len(), chunk_size)
    &&& suffixes.len() == chunk_count(content.len(), chunk_size)
}

/// Whether the cipher takes every chunk of `content` under its nonce: every
/// chunk fits, and every nonce has [`NONCE_SIZE`] bytes.
pub open spec fn cipher_takes_all(content: Seq<u8>, chunk_size: nat, nonces: Seq<Seq<char>>) -> bool {
    &&& all_chunks_fit(content, chunk_size)
    &&& forall|index: int|
        0 <= index < nonces.len() ==> encode_utf8(#[trigger] nonces[index]).len() == NONCE_SIZE
}

/// Whether a session with these draws succeeds: the draws are usable, the
/// cipher takes every chunk, no nonce is drawn twice, and the order of names
/// puts the chunks' names in the order of the chunks.
pub open spec fn session_succeeds(
    store: KeyStoreView,
    content: Seq<u8>,
    chunk_size: nat,
    nonces: Seq<Seq<char>>,
    suffixes: Seq<Seq<char>>,
) -> bool {
    &&& draws_are_usable(store, content, chunk_size, nonces, suffixes)
    &&& cipher_takes_all(content, chunk_size, nonces)
    &&& nonces.no_duplicates()
    &&& strictly_ordered(planned_names(store.storage_location, suffixes))
}

/// The error of a session that does not succeed: [`Error::CryptoError`] where
/// the draws are usable and the cipher refuses a chunk or a nonce,
/// [`Error::ConfigError`] in every other case.
pub open spec fn session_error(
    store: KeyStoreView,
    content: Seq<u8>,
    chunk_size: nat,
    nonces: Seq<Seq<char>>,
    suffixes: Seq<Seq<char>>,
) -> Error {
    if draws_are_usable(store, content, chunk_size, nonces, suffixes) && !cipher_takes_all(
        content,
        chunk_size,
        nonces,
    ) {
        Error::CryptoError
    } else {
        Error::ConfigError
    }
}

/// Encrypts `content` in a session whose draws are given: chunk `index` is
/// encrypted under `nonces[index]` and named after `suffixes[index]`, and every
/// chunk is recorded in `store`, which comes with the session's key and
/// location.
///
/// Whether the session succeeds, and with which error it ends where it does
/// not, depends on the arguments alone: see [`session_succeeds`] and
/// [`session_error`].
pub fn encrypt_with(
    store: KeyStore,
    content: &[u8],
    chunk_size: usize,
    nonces: &Vec<String>,
    suffixes: &Vec<String>,
) -> (res: Result<EncryptedFile, Error>)
    requires
        store.wf(),
    ensures
        res is Ok <==> session_succeeds(
            store@,
            content@,
            chunk_size as nat,
            name_views(nonces@),
            name_views(suffixes@),
        ),
        res matches Ok(file) ==> {
            &&& is_encryption_of(
                file.keystore@,
                object_views(file.objects@),
                content@,
                chunk_size as nat,
            )
            &&& file.keystore@.without_records() == store@.without_records()
            &&& file.keystore@.names() == planned_names(
                store@.storage_location,
                name_views(suffixes@),
            )
            &&& file.keystore@.nonces() == name_views(nonces@)
            &&& file.document_name@ == document_name_spec(store@.storage_location)
        },
        res matches Err(e) ==> e == session_error(
            store@,
            content@,
            chunk_size as nat,
            name_views(nonces@),
            name_views(suffixes@),
        ),
{
    let ghost begun = store@;
    let mut keystore = store;
    let ghost size = chunk_size as nat;
    let ghost all = chunks_of(content@, size);
    let ghost drawn = name_views(nonces@);
    let ghost ends = name_views(suffixes@);
    let ghost planned = planned_names(begun.storage_location, ends);
    let chunks = match split(content, chunk_size) {
        Ok(chunks) => chunks,
        Err(e) => {
            return Err(e);
        },
    };
    proof {
        assert(byte_views(chunks@).len() == chunks@.len());
        assert(drawn.len() == nonces@.len());
        assert(ends.len() == suffixes@.len());
    }
    if keystore.chunk_records().len() != 0 || nonces.len() != chunks.len() || suffixes.len()
        != chunks.len() {
        return Err(Error::ConfigError);
    }
    let mut index: usize = 0;
    while index < chunks.len()
        invariant
            index <= chunks@.len(),
            byte_views(chunks@) == all,
            all == chunks_of(content@, size),
            chunks@.len() == chunk_count(content@.len(), size),
            drawn == name_views(nonces@),
            nonces@.len() == chunks@.len(),
            begun == store@,
            size == chunk_size,
            draws_are_usable(begun, content@, size, drawn, name_views(suffixes@)),
            forall|k: int| 0 <= k < index ==> fits_cipher((#[trigger] all[k]).len()),
            forall|k: int| 0 <= k < index ==> encode_utf8(#[trigger] drawn[k]).len() == NONCE_SIZE,
        decreases chunks@.len() - index,
    {
        proof {
            assert(all[index as int] == chunks@[index as int]@);
            assert(drawn[index as int] == nonces@[index as int]@);
        }
        if !cipher_takes(chunks[index].len()) || nonces[index].as_str().as_bytes().len()
            != NONCE_SIZE {
            proof {
                if !fits_cipher(all[index as int].len()) {
                    assert(!all_chunks_fit(content@, size));
                } else {
                    assert(encode_utf8(drawn[index as int]).len() != NONCE_SIZE);
                }
            }
            return Err(Error::CryptoError);
        }
        index = index + 1;
    }
    proof {
        assert(cipher_takes_all(content@, size, drawn));
        assert(begun.names() =~= planned.take(0));
        assert(begun.nonces() =~= drawn.take(0));
    }
    let mut objects: Vec<StoredObject> = Vec::new();
    let mut index: usize = 0;
    while index < chunks.len()
        invariant
            size >= 1,
            size == chunk_size,
            all == chunks_of(content@, size),
            byte_views(chunks@) == all,
            chunks@.len() == chunk_count(content@.len(), size),
            drawn == name_views(nonces@),
            ends == name_views(suffixes@),
            planned == planned_names(begun.storage_location, ends),
            nonces@.len() == chunks@.len(),
            suffixes@.len() == chunks@.len(),
            draws_are_usable(begun, content@, size, drawn, ends),
            cipher_takes_all(content@, size, drawn),
            index <= chunks@.len(),
            begun == store@,
            keystore.wf(),
            keystore@.without_records() == begun.without_records(),
            keystore@.chunk_records.len() == index,
            keystore@.names() == planned.take(index as int),
            keystore@.nonces() == drawn.take(index as int),
            object_views(objects@).len() == index,
            forall|k: int|
                0 <= k < index ==> holds_chunk(
                    keystore@,
                    object_views(objects@),
                    k,
                    #[trigger] all[k],
                ),
        decreases chunks@.len() - index,
    {
        let ghost before = keystore@;
        let ghost stored = object_views(objects@);
        let ghost name = planned[index as int];
        let nonce = nonces[index].clone();
        proof {
            assert(all[index as int] == chunks@[index as int]@);
            assert(drawn[index as int] == nonces@[index as int]@);
            assert(ends[index as int] == suffixes@[index as int]@);
            assert(fits_cipher(all[index as int].len()));
            // a name with this index is not among those with smaller ones
            if before.names().contains(name) {
                let k = choose|k: int| 0 <= k < before.names().len() && before.names()[k] == name;
                assert(planned.take(index as int)[k] == planned[k]);
                lemma_names_differ(
                    begun.storage_location,
                    k as nat,
                    ends[k],
                    index as nat,
                    ends[index as int],
                );
            }
        }
        match add_chunk(
            &mut keystore,
            &mut objects,
            index,
            chunks[index].as_slice(),
            nonce,
            suffixes[index].as_str(),
        ) {
            Ok(()) => {},
            Err(e) => {
                proof {
                    // the nonce was drawn before
                    assert(before.nonces().contains(drawn[index as int]));
                    let k = choose|k: int|
                        0 <= k < before.nonces().len() && before.nonces()[k] == drawn[index as int];
                    assert(drawn.take(index as int)[k] == drawn[k]);
                    assert(!drawn.no_duplicates());
                }
                return Err(e);
            },
        }
        proof {
            let now = keystore@;
            let held = object_views(objects@);
            lemma_with_record(before, name, drawn[index as int]);
            assert(planned.take(index + 1) =~= planned.take(index as int).push(name));
            assert(drawn.take(index + 1) =~= drawn.take(index as int).push(drawn[index as int]));
            assert forall|k: int| 0 <= k <= index implies holds_chunk(now, held, k, #[trigger] all[k]) by {
                if k < index {
                    assert(holds_chunk(before, stored, k, all[k]));
                    assert(now.chunk_records[k] == before.chunk_records[k]);
                    assert(held[k] == stored[k]);
                } else {
                    assert(now.chunk_records[k].name == chunk_name_spec(
                        now.storage_location,
                        k as nat,
                        ends[k],
                    ));
                }
            }
        }
        index = index + 1;
    }
    proof {
        assert(planned.take(index as int) =~= planned);
        assert(drawn.take(index as int) =~= drawn);
    }
    if !keystore.records_in_order() {
        return Err(Error::ConfigError);
    }
    let name = document_name(keystore.storage_location().as_str());
    Ok(EncryptedFile { keystore, objects, document_name: name })
}

/// The location that a command names, or where it names none, any identifier.
pub open spec fn is_location_of(location: Seq<char>, args: EncryptCommand) -> bool {
    match args.output_dir {
        Some(dir) => location == dir@,
        None => is_identifier(location),
    }
}

/// Encrypts a file's content as the command asks: a key is drawn, the content is
/// cut into chunks of `args.chunk_size` bytes, and every chunk is encrypted under
/// a nonce of its own and recorded under a name that bears its index.
///
/// Nothing is stored here: see [`crate::upload::Upload`].
///
/// A chunk size of zero is refused with [`Error::ConfigError`], a chunk too long
/// for the cipher with [`Error::CryptoError`]. The key, the nonces and the
/// names' suffixes are drawn at random, and the session is that of
/// [`encrypt_with`] with these draws: it ends with [`Error::ConfigError`] where
/// a nonce is drawn twice, or where the order of names does not put the names
/// in the order of the chunks. With no more than one chunk neither can happen.
pub fn encrypt_file(args: &EncryptCommand, content: &[u8]) -> (res: Result<EncryptedFile, Error>)
    ensures
        args.chunk_size == 0 ==> res is Err && res->Err_0 == Error::ConfigError,
        res matches Ok(file) ==> {
            &&& is_encryption_of(
                file.keystore@,
                object_views(file.objects@),
                content@,
                args.chunk_size as nat,
            )
            &&& is_drawn(file.keystore@)
            &&& file.keystore@.chunk_records.len() == chunk_count(
                content@.len(),
                args.chunk_size as nat,
            )
            &&& file.objects@.len() == file.keystore@.chunk_records.len()
            &&& file.keystore@.source_identity == args.file_path@
            &&& is_location_of(file.keystore@.storage_location, *args)
            &&& file.document_name@ == document_name_spec(file.keystore@.storage_location)
        },
        res matches Err(e) ==> e == Error::ConfigError || e == Error::CryptoError,
        args.chunk_size >= 1 ==> (res == Err::<EncryptedFile, Error>(Error::CryptoError)
            <==> !all_chunks_fit(content@, args.chunk_size as nat)),
        args.chunk_size >= 1 && all_chunks_fit(content@, args.chunk_size as nat) && chunk_count(
            content@.len(),
            args.chunk_size as nat,
        ) <= 1 ==> res is Ok,
{
    if args.chunk_size == 0 {
        return Err(Error::ConfigError);
    }
    let count = count_chunks(content.len(), args.chunk_size);
    let location = match &args.output_dir {
        Some(dir) => dir.clone(),
        None => random_identifier(),
    };
    let store = KeyStore::new(args.file_path.clone(), location);
    let mut nonces: Vec<String> = Vec::new();
    let mut suffixes: Vec<String> = Vec::new();
    let mut index: usize = 0;
    while index < count
        invariant
            index <= count,
            nonces@.len() == index,
            suffixes@.len() == index,
            forall|k: int| 0 <= k < index ==> is_drawn_nonce(#[trigger] nonces@[k]@),
            forall|k: int| 0 <= k < index ==> is_identifier(#[trigger] suffixes@[k]@),
        decreases count - index,
    {
        let drawn = random_identifier();
        let nonce = nonce_from_identifier(drawn.as_str());
        proof {
            assert forall|i: int| 0 <= i < NONCE_SIZE implies is_lower_hex(
                #[trigger] nonce_part(drawn@)[i],
            ) by {
                assert(nonce_part(drawn@)[i] == drawn@[i + 24]);
                assert(!is_hyphen_position(i + 24));
            }
        }
        nonces.push(nonce);
        suffixes.push(random_identifier());
        index = index + 1;
    }
    let ghost begun = store@;
    let ghost drawn = name_views(nonces@);
    let ghost ends = name_views(suffixes@);
    let ghost size = args.chunk_size as nat;
    proof {
        assert(begun.names() =~= Seq::<Seq<char>>::empty());
        assert forall|k: int| 0 <= k < drawn.len() implies encode_utf8(#[trigger] drawn[k]).len()
            == NONCE_SIZE by {
            assert(is_drawn_nonce(nonces@[k]@));
            assert(vstd::utf8::is_ascii_chars(drawn[k]));
            vstd::utf8::is_ascii_chars_encode_utf8(drawn[k]);
        }
        assert(draws_are_usable(begun, content@, size, drawn, ends));
        if count <= 1 {
            assert(drawn.no_duplicates());
            assert(strictly_ordered(planned_names(begun.storage_location, ends)));
        }
    }
    let res = encrypt_with(store, content, args.chunk_size, &nonces, &suffixes);
    proof {
        if res is Ok {
            let now = res->Ok_0.keystore@;
            assert forall|k: int| 0 <= k < now.chunk_records.len() implies is_drawn_nonce(
                (#[trigger] now.chunk_records[k]).nonce,
            ) && is_drawn_name(now.chunk_records[k].name, now.storage_location, k) by {
                assert(now.nonces()[k] == now.chunk_records[k].nonce);
                assert(now.names()[k] == now.chunk_records[k].name);
                assert(drawn[k] == nonces@[k]@);
                assert(ends[k] == suffixes@[k]@);
                assert(is_identifier(ends[k]));
                assert(now.chunk_records[k].name == chunk_name_spec(
                    now.storage_location,
                    k as nat,
                    ends[k],
                ));
            }
        }
    }
    res
}

/// A buffer's first chunk is its longest, so where the cipher takes the chunks in
/// front of `index`, of which there is one, it takes them all.
proof fn lemma_fit_like_the_first(content: Seq<u8>, size: nat, index: int)
    requires
        size >= 1,
        0 <= index < chunk_count(content.len(), size),
        forall|k: int| 0 <= k < index ==> fits_cipher((#[trigger] chunks_of(content, size)[k]).len()),
    ensures
        index >= 1 ==> all_chunks_fit(content, size),
{
    if index >= 1 {
        let all = chunks_of(content, size);
        lemma_chunk_lengths(content, size, 0);
        assert(fits_cipher(all[0].len()));
        assert forall|k: int| 0 <= k < chunk_count(content.len(), size) implies fits_cipher(
            (#[trigger] all[k]).len(),
        ) by {
            lemma_chunk_lengths(content, size, k);
            lemma_shorter_fits(all[k].len(), all[0].len());
        }
    }
}

/// What is no longer than something the cipher takes, the cipher takes.
pub proof fn lemma_shorter_fits(shorter: nat, longer: nat)
    requires
        shorter <= longer,
        fits_cipher(longer),
    ensures
        fits_cipher(shorter),
{
    vstd::arithmetic::div_mod::lemma_div_is_ordered(shorter as int, longer as int, 64);
}

} // verus!
