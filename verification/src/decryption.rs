//! Decrypting a file: from its key store and the stored objects to its bytes.

use vstd::prelude::*;
use vstd::utf8::encode_utf8;
use crate::cli_args::DecryptCommand;
use crate::crypto::{decrypt, decrypt_spec};
use crate::encryption::{holds_chunk, is_encryption_of, ObjectView};
use crate::error::Error;
use crate::keystore::{lemma_names_are_unique, KeyStore, KeyStoreView};
use crate::ordering::{
    lemma_ordered_permutes,
    lemma_strict_order,
    lemma_strict_order_sorts,
    name_views,
    ordered,
};
use crate::splitter::{byte_views, chunks_of, lemma_chunks_rejoin};
use crate::storage::{request_views, Request, RequestView};

verus! {

/// What decrypting a file gives: the file's bytes, the path to write them to,
/// and the cleanup to do once they are written.
#[derive(Debug)]
pub struct DecryptedFile {
    pub output_path: String,
    pub bytes: Vec<u8>,
    pub cleanup: Vec<Request>,
}

/// What decrypting the object at `position` gives, the objects standing in the
/// order of [`ordered`] names: the ciphertext is opened under the session's key
/// and the nonce recorded for the name at that position.
pub open spec fn plaintext_at(store: KeyStoreView, ciphertexts: Seq<Seq<u8>>, position: int) -> Result<
    Seq<u8>,
    Error,
> {
    let name = ordered(store.names())[position];
    decrypt_spec(
        encode_utf8(store.master_key),
        encode_utf8(store.nonce_of(name)->Some_0),
        ciphertexts[position],
    )
}

/// Whether every one of the objects decrypts.
pub open spec fn all_authentic(store: KeyStoreView, ciphertexts: Seq<Seq<u8>>) -> bool {
    forall|position: int|
        0 <= position < ciphertexts.len() ==> (#[trigger] plaintext_at(
            store,
            ciphertexts,
            position,
        )) is Ok
}

/// The plaintexts of the objects, in their order.
pub open spec fn plaintexts(store: KeyStoreView, ciphertexts: Seq<Seq<u8>>) -> Seq<Seq<u8>> {
    Seq::new(ciphertexts.len(), |position: int| plaintext_at(store, ciphertexts, position)->Ok_0)
}

/// What [`decrypt_chunks`] returns: the plaintexts end to end, where there is
/// one object for each recorded chunk and every one decrypts.
pub open spec fn reassembled(store: KeyStoreView, ciphertexts: Seq<Seq<u8>>) -> Result<
    Seq<u8>,
    Error,
> {
    if ciphertexts.len() != store.chunk_records.len() {
        Err(Error::StorageError)
    } else if !all_authentic(store, ciphertexts) {
        Err(Error::CryptoError)
    } else {
        Ok(plaintexts(store, ciphertexts).flatten())
    }
}

/// The cleanup after a decryption: the key store's document goes first, then
/// every chunk, then the storage location.
pub open spec fn cleanup_spec(document_path: Seq<char>, store: KeyStoreView) -> Seq<RequestView> {
    seq![RequestView::DeleteDocument { path: document_path }] + store.names().map_values(
        |name: Seq<char>| RequestView::Delete { key: name },
    ) + seq![RequestView::RemoveLocation { location: store.storage_location }]
}

/// Decrypts the chunks of a session and puts them end to end. `ciphertexts`
/// holds the stored objects in the order of
/// [`KeyStore::ordered_chunk_names`].
///
/// Where the number of objects is not that of the recorded chunks, the result is
/// [`Error::StorageError`]; where an object does not authenticate under the
/// session's key and the nonce of its chunk, [`Error::CryptoError`]. No part of
/// a plaintext is returned then.
pub fn decrypt_chunks(store: &KeyStore, ciphertexts: &Vec<Vec<u8>>) -> (res: Result<Vec<u8>, Error>)
    requires
        store.wf(),
    ensures
        match res {
            Ok(bytes) => Ok(bytes@),
            Err(e) => Err(e),
        } == reassembled(store@, byte_views(ciphertexts@)),
{
    let names = store.ordered_chunk_names();
    if ciphertexts.len() != names.len() {
        return Err(Error::StorageError);
    }
    let cipher = store.cipher();
    let ghost given = byte_views(ciphertexts@);
    let mut bytes: Vec<u8> = Vec::new();
    let mut position: usize = 0;
    proof {
        assert(plaintexts(store@, given).take(0).flatten() =~= Seq::<u8>::empty());
    }
    while position < names.len()
        invariant
            store.wf(),
            given == byte_views(ciphertexts@),
            name_views(names@) == ordered(store@.names()),
            name_views(names@).to_multiset() == store@.names().to_multiset(),
            names@.len() == ciphertexts@.len(),
            names@.len() == store@.chunk_records.len(),
            cipher.key() == encode_utf8(store@.master_key),
            position <= names@.len(),
            forall|p: int| 0 <= p < position ==> (#[trigger] plaintext_at(store@, given, p)) is Ok,
            bytes@ == plaintexts(store@, given).take(position as int).flatten(),
        decreases names@.len() - position,
    {
        proof {
            let listed = name_views(names@);
            let name = listed[position as int];
            assert(name == names@[position as int]@);
            assert(listed.contains(name));
            listed.to_multiset_ensures();
            store@.names().to_multiset_ensures();
            assert(listed.to_multiset().count(name) > 0);
            assert(store@.names().contains(name));
        }
        // a listed name is a recorded one, so that its nonce is found
        let nonce = match store.nonce(&names[position]) {
            Some(nonce) => nonce,
            None => {
                return Err(Error::CryptoError);
            },
        };
        let mut plain = match decrypt(&ciphertexts[position], &cipher, nonce.as_str()) {
            Ok(plain) => plain,
            Err(e) => {
                proof {
                    assert(given[position as int] == ciphertexts@[position as int]@);
                    assert(plaintext_at(store@, given, position as int) is Err);
                }
                return Err(e);
            },
        };
        proof {
            let all = plaintexts(store@, given);
            assert(given[position as int] == ciphertexts@[position as int]@);
            assert(plaintext_at(store@, given, position as int) == Ok::<Seq<u8>, Error>(plain@));
            assert(all.take(position + 1) =~= all.take(position as int).push(plain@));
            all.take(position as int).lemma_flatten_push(plain@);
        }
        bytes.append(&mut plain);
        position = position + 1;
    }
    proof {
        let all = plaintexts(store@, given);
        assert(all.take(position as int) =~= all);
    }
    Ok(bytes)
}

/// The cleanup leaves nothing of the session: it has a step for the key store's
/// document, the first; one for every recorded chunk, by its name; and one for
/// the storage location, the last.
pub proof fn lemma_cleanup_is_complete(document_path: Seq<char>, store: KeyStoreView)
    ensures
        cleanup_spec(document_path, store).len() == store.chunk_records.len() + 2,
        cleanup_spec(document_path, store).first() == (RequestView::DeleteDocument {
            path: document_path,
        }),
        forall|k: int|
            0 <= k < store.chunk_records.len() ==> #[trigger] cleanup_spec(document_path, store)[k
                + 1] == (RequestView::Delete { key: store.chunk_records[k].name }),
        cleanup_spec(document_path, store).last() == (RequestView::RemoveLocation {
            location: store.storage_location,
        }),
{
    assert forall|k: int| 0 <= k < store.chunk_records.len() implies #[trigger] cleanup_spec(
        document_path,
        store,
    )[k + 1] == (RequestView::Delete { key: store.chunk_records[k].name }) by {
        assert(store.names()[k] == store.chunk_records[k].name);
    }
}

/// The cleanup after a decryption of `store`, whose document lies at
/// `document_path`.
pub fn cleanup_plan(document_path: &String, store: &KeyStore) -> (steps: Vec<Request>)
    ensures
        request_views(steps@) == cleanup_spec(document_path@, store@),
{
    let names = store.chunk_names();
    let mut steps: Vec<Request> = Vec::new();
    steps.push(Request::DeleteDocument { path: document_path.clone() });
    let ghost first = seq![RequestView::DeleteDocument { path: document_path@ }];
    let ghost deletions = store@.names().map_values(
        |name: Seq<char>| RequestView::Delete { key: name },
    );
    let mut i: usize = 0;
    proof {
        assert(request_views(steps@) =~= first + deletions.take(0));
    }
    while i < names.len()
        invariant
            i <= names@.len(),
            name_views(names@) == store@.names(),
            first == seq![RequestView::DeleteDocument { path: document_path@ }],
            deletions == store@.names().map_values(
                |name: Seq<char>| RequestView::Delete { key: name },
            ),
            request_views(steps@) == first + deletions.take(i as int),
        decreases names@.len() - i,
    {
        let ghost before = request_views(steps@);
        steps.push(Request::Delete { key: names[i].clone() });
        proof {
            assert(name_views(names@)[i as int] == names@[i as int]@);
            assert(request_views(steps@) =~= before.push(deletions[i as int]));
            assert(deletions.take(i + 1) =~= deletions.take(i as int).push(deletions[i as int]));
        }
        i = i + 1;
    }
    let ghost before = request_views(steps@);
    steps.push(Request::RemoveLocation { location: store.storage_location().clone() });
    proof {
        assert(deletions.take(i as int) =~= deletions);
        assert(request_views(steps@) =~= before.push(
            RequestView::RemoveLocation { location: store@.storage_location },
        ));
        assert(request_views(steps@) =~= cleanup_spec(document_path@, store@));
    }
    steps
}

/// The path that a decryption writes to: the one that the command names, or
/// where it names none, the path of the plaintext in the key store.
pub open spec fn output_path_spec(args: DecryptCommand, store: KeyStoreView) -> Seq<char> {
    match args.output_file {
        Some(path) => path@,
        None => store.source_identity,
    }
}

/// The cleanup that a decryption asks for: all of it where the command asks
/// for the removal, none where it does not.
pub open spec fn requested_cleanup(args: DecryptCommand, store: KeyStoreView) -> Seq<RequestView> {
    if args.delete_dir {
        cleanup_spec(args.keystore_path@, store)
    } else {
        Seq::empty()
    }
}

/// Decrypts a file as the command asks. `keystore` is the key store read from
/// `args.keystore_path`, and `ciphertexts` holds the stored objects in the
/// order of [`KeyStore::ordered_chunk_names`].
///
/// Nothing is written or deleted here. The caller writes the bytes to
/// `output_path`, which must not exist yet, and after that goes through the
/// cleanup, first step first. The errors are those of [`decrypt_chunks`].
pub fn decrypt_to_file(args: &DecryptCommand, keystore: &KeyStore, ciphertexts: &Vec<Vec<u8>>) -> (res:
    Result<DecryptedFile, Error>)
    requires
        keystore.wf(),
    ensures
        match reassembled(keystore@, byte_views(ciphertexts@)) {
            Ok(content) => {
                &&& res matches Ok(file)
                &&& file.bytes@ == content
                &&& file.output_path@ == output_path_spec(*args, keystore@)
                &&& request_views(file.cleanup@) == requested_cleanup(*args, keystore@)
            },
            Err(e) => res is Err && res->Err_0 == e,
        },
{
    let bytes = match decrypt_chunks(keystore, ciphertexts) {
        Ok(bytes) => bytes,
        Err(e) => {
            return Err(e);
        },
    };
    let output_path = match &args.output_file {
        Some(path) => path.clone(),
        None => keystore.source_identity().clone(),
    };
    let cleanup = if args.delete_dir {
        cleanup_plan(&args.keystore_path, keystore)
    } else {
        let none: Vec<Request> = Vec::new();
        proof {
            assert(request_views(none@) =~= Seq::<RequestView>::empty());
        }
        none
    };
    Ok(DecryptedFile { output_path, bytes, cleanup })
}

/// The bytes of a list of objects.
pub open spec fn object_bytes(objects: Seq<ObjectView>) -> Seq<Seq<u8>> {
    objects.map_values(|object: ObjectView| object.bytes)
}

/// Decryption undoes encryption: where a key store and its objects are an
/// encryption of `content`, decrypting the objects gives `content`, byte for
/// byte; for the empty content too.
pub proof fn lemma_round_trip(
    store: KeyStoreView,
    objects: Seq<ObjectView>,
    content: Seq<u8>,
    chunk_size: nat,
)
    requires
        chunk_size >= 1,
        is_encryption_of(store, objects, content, chunk_size),
    ensures
        reassembled(store, object_bytes(objects)) == Ok::<Seq<u8>, Error>(content),
{
    let chunks = chunks_of(content, chunk_size);
    let given = object_bytes(objects);
    lemma_strict_order(store.names());
    lemma_strict_order_sorts(store.names(), store.names());
    assert forall|position: int| 0 <= position < given.len() implies #[trigger] plaintext_at(
        store,
        given,
        position,
    ) == Ok::<Seq<u8>, Error>(chunks[position]) by {
        lemma_names_are_unique(store, position, position);
        assert(store.names()[position] == store.chunk_records[position].name);
        assert(holds_chunk(store, objects, position, chunks[position]));
    }
    assert(plaintexts(store, given) =~= chunks);
    lemma_chunks_rejoin(content, chunk_size);
}

/// The order of the records does not matter: where a key store holds the
/// records of an encryption of `content`, in whatever order, under the same key,
/// sorting its names gives the names in the order of the chunks, and decrypting
/// the objects gives `content`. So a key store may be written to a document
/// that keeps no order, and read back.
pub proof fn lemma_round_trip_in_any_order(
    origin: KeyStoreView,
    store: KeyStoreView,
    objects: Seq<ObjectView>,
    content: Seq<u8>,
    chunk_size: nat,
)
    requires
        chunk_size >= 1,
        is_encryption_of(origin, objects, content, chunk_size),
        store.wf(),
        origin.same_records(store),
    ensures
        ordered(store.names()) == origin.names(),
        reassembled(store, object_bytes(objects)) == Ok::<Seq<u8>, Error>(content),
{
    let chunks = chunks_of(content, chunk_size);
    let given = object_bytes(objects);
    let names = store.names();
    assert forall|k: int| 0 <= k < names.len() implies origin.names().contains(
        #[trigger] names[k],
    ) by {
        let record = store.chunk_records[k];
        assert(origin.chunk_records.contains(record));
        let j = choose|j: int|
            0 <= j < origin.chunk_records.len() && origin.chunk_records[j] == record;
        assert(origin.names()[j] == names[k]);
    }
    lemma_strict_order_sorts(origin.names(), names);
    lemma_ordered_permutes(names);
    assert forall|position: int| 0 <= position < given.len() implies #[trigger] plaintext_at(
        store,
        given,
        position,
    ) == Ok::<Seq<u8>, Error>(chunks[position]) by {
        let name = origin.names()[position];
        assert(name == origin.chunk_records[position].name);
        // the name is one of the store's
        let sorted = ordered(names);
        assert(sorted[position] == name);
        assert(sorted.contains(name));
        sorted.to_multiset_ensures();
        names.to_multiset_ensures();
        assert(sorted.to_multiset().count(name) > 0);
        assert(names.contains(name));
        let at = names.index_of(name);
        assert(0 <= at < names.len() && names[at] == name);
        // and its record there is the record of this chunk
        let record = store.chunk_records[at];
        assert(record.name == name);
        assert(origin.chunk_records.contains(record));
        let j = choose|j: int|
            0 <= j < origin.chunk_records.len() && origin.chunk_records[j] == record;
        lemma_names_are_unique(origin, j, position);
        assert(j == position);
        assert(store.nonce_of(name) == Some(origin.chunk_records[position].nonce));
        assert(holds_chunk(origin, objects, position, chunks[position]));
    }
    assert(plaintexts(store, given) =~= chunks);
    lemma_chunks_rejoin(content, chunk_size);
}

} // verus!
