//! Storing an encrypted file: every object in turn, and the key store's document
//! after the last of them.
//!
//! A key store's document in storage is a promise that every chunk it names is
//! stored. So the document is written last, and not at all where an object
//! could not be stored.

use vstd::prelude::*;
use crate::encryption::{object_views, EncryptedFile, ObjectView};
use crate::error::Error;
use crate::keystore::{KeyStore, KeyStoreView};
use crate::storage::{Event, EventView, Request, RequestView};

verus! {

/// Where an upload stands.
#[derive(Clone, Copy, Debug, PartialEq, Eq, Structural)]
pub enum UploadStage {
    /// Nothing was asked yet.
    Ready,
    /// An object is being stored.
    Storing,
    /// Every object is stored, and the document is being written.
    Documenting,
    /// The document is written.
    Finished,
    /// A request failed; nothing more is asked.
    Aborted(Error),
}

/// The storing of an encrypted file: every object in turn, and the key store's
/// document after the last of them.
#[derive(Debug)]
pub struct Upload {
    file: EncryptedFile,
    stored: usize,
    stage: UploadStage,
}

/// An [`Upload`] as text and bytes.
pub struct UploadView {
    /// The session's key store.
    pub store: KeyStoreView,
    /// The objects to store, in the order of the chunks.
    pub objects: Seq<ObjectView>,
    /// The path of the key store's document.
    pub document_name: Seq<char>,
    /// How many of the objects are known to be stored.
    pub stored: nat,
    /// Where the upload stands.
    pub stage: UploadStage,
}

impl UploadView {
    /// The invariant of an upload: no more objects are stored than there are;
    /// while one is being stored, it is there; and the document is written or
    /// being written only where every object is stored.
    pub open spec fn wf(self) -> bool {
        &&& self.stored <= self.objects.len()
        &&& self.stage == UploadStage::Ready ==> self.stored == 0
        &&& self.stage == UploadStage::Storing ==> self.stored < self.objects.len()
        &&& self.stage == UploadStage::Documenting || self.stage == UploadStage::Finished
            ==> self.stored == self.objects.len()
    }

    /// What is asked next while nothing has failed: the first object that is not
    /// stored yet, or where there is none, the document.
    pub open spec fn proceed(self) -> (UploadView, RequestView) {
        if self.stored < self.objects.len() {
            (
                UploadView { stage: UploadStage::Storing, ..self },
                RequestView::Put {
                    key: self.objects[self.stored as int].key,
                    bytes: self.objects[self.stored as int].bytes,
                },
            )
        } else {
            (
                UploadView { stage: UploadStage::Documenting, ..self },
                RequestView::WriteDocument { path: self.document_name, document: self.store },
            )
        }
    }

    /// The end of an upload that failed.
    pub open spec fn abort(self, e: Error) -> (UploadView, RequestView) {
        (UploadView { stage: UploadStage::Aborted(e), ..self }, RequestView::Fail(e))
    }

    /// The upload after `event`, and what it asks next. A request that did not
    /// succeed ends the upload: with [`Error::StorageError`] for an object, with
    /// [`Error::IOError`] for the document.
    pub open spec fn step(self, event: EventView) -> (UploadView, RequestView) {
        match self.stage {
            UploadStage::Ready => if event == EventView::Started {
                self.proceed()
            } else {
                self.abort(Error::StorageError)
            },
            UploadStage::Storing => if event == EventView::Succeeded {
                (UploadView { stored: self.stored + 1, ..self }).proceed()
            } else {
                self.abort(Error::StorageError)
            },
            UploadStage::Documenting => if event == EventView::Succeeded {
                (UploadView { stage: UploadStage::Finished, ..self }, RequestView::Finish)
            } else {
                self.abort(Error::IOError)
            },
            UploadStage::Finished => (self, RequestView::Finish),
            UploadStage::Aborted(e) => (self, RequestView::Fail(e)),
        }
    }
}

impl View for Upload {
    type V = UploadView;

    closed spec fn view(&self) -> UploadView {
        UploadView {
            store: self.file.keystore@,
            objects: object_views(self.file.objects@),
            document_name: self.file.document_name@,
            stored: self.stored as nat,
            stage: self.stage,
        }
    }
}

impl Upload {
    /// Whether the upload's invariant holds.
    pub open spec fn wf(&self) -> bool {
        self@.wf()
    }

    /// An upload of `file`, of which nothing is stored yet.
    pub fn new(file: EncryptedFile) -> (upload: Upload)
        ensures
            upload.wf(),
            upload@ == (UploadView {
                store: file.keystore@,
                objects: object_views(file.objects@),
                document_name: file.document_name@,
                stored: 0,
                stage: UploadStage::Ready,
            }),
    {
        Upload { file, stored: 0, stage: UploadStage::Ready }
    }

    /// Where the upload stands.
    pub fn stage(&self) -> (stage: UploadStage)
        ensures
            stage == self@.stage,
    {
        self.stage
    }

    /// The session's key store.
    pub fn keystore(&self) -> (store: &KeyStore)
        ensures
            store@ == self@.store,
    {
        &self.file.keystore
    }

    fn proceed(&mut self) -> (request: Request)
        requires
            old(self)@.stored <= old(self)@.objects.len(),
        ensures
            (final(self)@, request@) == old(self)@.proceed(),
    {
        if self.stored < self.file.objects.len() {
            self.stage = UploadStage::Storing;
            let object = &self.file.objects[self.stored];
            Request::Put { key: object.key.clone(), bytes: object.bytes.clone() }
        } else {
            self.stage = UploadStage::Documenting;
            Request::WriteDocument {
                path: self.file.document_name.clone(),
                document: self.file.keystore.to_document(),
            }
        }
    }

    fn abort(&mut self, e: Error) -> (request: Request)
        ensures
            (final(self)@, request@) == old(self)@.abort(e),
    {
        self.stage = UploadStage::Aborted(e);
        Request::Fail(e)
    }

    /// Takes what came of the last request, and says what to do next.
    ///
    /// The first event is [`Event::Started`]. The objects are asked to be stored
    /// one after another, in the order of the chunks; the key store's document
    /// is asked to be written when the last object is stored, and not before.
    /// Once a request has failed, nothing more is asked.
    pub fn step(&mut self, event: Event) -> (request: Request)
        requires
            old(self).wf(),
        ensures
            final(self).wf(),
            (final(self)@, request@) == old(self)@.step(event@),
    {
        match self.stage {
            UploadStage::Ready => match event {
                Event::Started => self.proceed(),
                _ => self.abort(Error::StorageError),
            },
            UploadStage::Storing => match event {
                Event::Succeeded => {
                    assert(self@.objects.len() == self.file.objects.len());
                    self.stored = self.stored + 1;
                    self.proceed()
                },
                _ => self.abort(Error::StorageError),
            },
            UploadStage::Documenting => match event {
                Event::Succeeded => {
                    self.stage = UploadStage::Finished;
                    Request::Finish
                },
                _ => self.abort(Error::IOError),
            },
            UploadStage::Finished => Request::Finish,
            UploadStage::Aborted(e) => Request::Fail(e),
        }
    }
}

/// What an upload asks in answer to the event at `at`, after it was handed the
/// events in front of it.
pub open spec fn upload_request(state: UploadView, events: Seq<EventView>, at: int) -> RequestView
    recommends
        0 <= at < events.len(),
    decreases at,
{
    if at <= 0 {
        state.step(events[0]).1
    } else {
        upload_request(state.step(events[0]).0, events.drop_first(), at - 1)
    }
}

/// How many objects an upload that has not failed will yet ask to be stored
/// before it asks for the document.
pub open spec fn puts_ahead(state: UploadView) -> int {
    match state.stage {
        UploadStage::Ready => state.objects.len() as int,
        _ => state.objects.len() - state.stored - 1,
    }
}

/// The event that an upload which has not failed waits for.
pub open spec fn awaited(state: UploadView) -> EventView {
    match state.stage {
        UploadStage::Ready => EventView::Started,
        _ => EventView::Succeeded,
    }
}

/// A step keeps the invariant, and changes neither the objects nor the key
/// store nor the document's name.
pub proof fn lemma_upload_step(state: UploadView, event: EventView)
    requires
        state.wf(),
    ensures
        state.step(event).0.wf(),
        state.step(event).0.objects == state.objects,
        state.step(event).0.store == state.store,
        state.step(event).0.document_name == state.document_name,
{
}

/// The document comes last: an upload asks for the key store's document only
/// after it has asked, one by one and in their order, for every object to be
/// stored, and every one of these requests has succeeded.
pub proof fn lemma_document_comes_last(state: UploadView, events: Seq<EventView>, at: int)
    requires
        state.wf(),
        state.stage == UploadStage::Ready || state.stage == UploadStage::Storing,
        0 <= at < events.len(),
        upload_request(state, events, at) is WriteDocument,
    ensures
        at == puts_ahead(state),
        upload_request(state, events, at) == (RequestView::WriteDocument {
            path: state.document_name,
            document: state.store,
        }),
        forall|k: int|
            0 <= k < at ==> #[trigger] upload_request(state, events, k) == (RequestView::Put {
                key: state.objects[state.objects.len() - at + k].key,
                bytes: state.objects[state.objects.len() - at + k].bytes,
            }),
        events[0] == awaited(state),
        forall|k: int| 0 < k <= at ==> #[trigger] events[k] == EventView::Succeeded,
    decreases at,
{
    let next = state.step(events[0]).0;
    let rest = events.drop_first();
    lemma_upload_step(state, events[0]);
    if at > 0 {
        if next.stage == UploadStage::Storing {
            lemma_document_comes_last(next, rest, at - 1);
            assert forall|k: int| 0 <= k < at implies #[trigger] upload_request(state, events, k)
                == (RequestView::Put {
                key: state.objects[state.objects.len() - at + k].key,
                bytes: state.objects[state.objects.len() - at + k].bytes,
            }) by {
                if k > 0 {
                    assert(upload_request(state, events, k) == upload_request(next, rest, k - 1));
                }
            }
            assert forall|k: int| 0 < k <= at implies #[trigger] events[k]
                == EventView::Succeeded by {
                assert(events[k] == rest[k - 1]);
            }
        } else {
            lemma_upload_never_recovers(next, rest, at - 1);
        }
    }
}

/// Once the document is asked for, or the upload has failed, neither an object
/// nor the document is asked for again: in particular, none is after a failure.
pub proof fn lemma_upload_never_recovers(state: UploadView, events: Seq<EventView>, at: int)
    requires
        state.stage != UploadStage::Ready,
        state.stage != UploadStage::Storing,
        0 <= at < events.len(),
    ensures
        !(upload_request(state, events, at) is WriteDocument),
        !(upload_request(state, events, at) is Put),
        state.stage is Aborted ==> upload_request(state, events, at) is Fail,
    decreases at,
{
    if at > 0 {
        lemma_upload_never_recovers(state.step(events[0]).0, events.drop_first(), at - 1);
    }
}

/// An upload finishes last: only after the key store's document was asked to be
/// written, and was.
pub proof fn lemma_upload_finishes_last(state: UploadView, events: Seq<EventView>, at: int)
    requires
        state.wf(),
        state.stage == UploadStage::Ready || state.stage == UploadStage::Storing,
        0 <= at < events.len(),
        upload_request(state, events, at) is Finish,
    ensures
        puts_ahead(state) < at,
        upload_request(state, events, puts_ahead(state)) is WriteDocument,
        events[puts_ahead(state) + 1] == EventView::Succeeded,
    decreases at,
{
    let next = state.step(events[0]).0;
    let rest = events.drop_first();
    lemma_upload_step(state, events[0]);
    if at > 0 {
        if next.stage == UploadStage::Storing {
            lemma_upload_finishes_last(next, rest, at - 1);
            assert(upload_request(state, events, puts_ahead(state)) == upload_request(
                next,
                rest,
                puts_ahead(next),
            ));
            assert(events[puts_ahead(state) + 1] == rest[puts_ahead(next) + 1]);
        } else if next.stage == UploadStage::Documenting {
            assert(events[1] == rest[0]);
            if rest[0] != EventView::Succeeded {
                lemma_upload_never_recovers(next.step(rest[0]).0, rest.drop_first(), at - 2);
            }
        } else {
            lemma_upload_never_recovers(next, rest, at - 1);
        }
    }
}

} // verus!
