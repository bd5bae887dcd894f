//! Decrypting a file from storage: the objects are fetched in the order of their
//! names, the plaintext is written once every one of them has decrypted, and the
//! cleanup follows the writing.

use vstd::prelude::*;
use crate::cli_args::DecryptCommand;
use crate::decryption::{
    cleanup_spec,
    decrypt_to_file,
    lemma_round_trip_in_any_order,
    object_bytes,
    output_path_spec,
    reassembled,
    requested_cleanup,
    DecryptedFile,
};
use crate::encryption::{holds_chunk, is_encryption_of, ObjectView};
use crate::error::Error;
use crate::keystore::{KeyStore, KeyStoreView};
use crate::ordering::{name_views, ordered};
use crate::splitter::{byte_views, chunks_of};
use crate::storage::{request_views, Event, EventView, Request, RequestView};

verus! {

/// Whether a request is a step of a cleanup.
pub open spec fn is_cleanup(request: RequestView) -> bool {
    request is DeleteDocument || request is Delete || request is RemoveLocation
}

/// Whether a list holds nothing but steps of a cleanup.
pub open spec fn all_cleanup(requests: Seq<RequestView>) -> bool {
    forall|i: int| 0 <= i < requests.len() ==> is_cleanup(#[trigger] requests[i])
}

/// The cleanup that a decryption asks for holds nothing but steps of a cleanup.
pub proof fn lemma_cleanup_is_cleanup(args: DecryptCommand, store: KeyStoreView)
    ensures
        all_cleanup(requested_cleanup(args, store)),
        all_cleanup(cleanup_spec(args.keystore_path@, store)),
{
}

/// Where a download stands.
#[derive(Clone, Copy, Debug, PartialEq, Eq, Structural)]
pub enum DownloadStage {
    /// Nothing was asked yet.
    Ready,
    /// An object is being fetched.
    Fetching,
    /// Every object is fetched and decrypted, and the output is being written.
    Writing,
    /// The output is written, and a step of the cleanup is being done.
    Cleaning,
    /// The output is written and the cleanup done.
    Finished,
    /// A request failed or an object did not decrypt; nothing more is asked.
    Aborted(Error),
}

/// The decryption of a file from storage: the objects are fetched in the order
/// of their names, the plaintext is written once all of them have decrypted,
/// and the cleanup follows the writing.
#[derive(Debug)]
pub struct Download {
    args: DecryptCommand,
    keystore: KeyStore,
    names: Vec<String>,
    fetched: Vec<Vec<u8>>,
    cleanup: Vec<Request>,
    stage: DownloadStage,
}

/// A [`Download`] as text and bytes.
pub struct DownloadView {
    /// The session's key store.
    pub store: KeyStoreView,
    /// The path that the plaintext is written to.
    pub output_path: Seq<char>,
    /// The cleanup that was asked for.
    pub plan: Seq<RequestView>,
    /// The objects fetched so far, in the order of their names.
    pub fetched: Seq<Seq<u8>>,
    /// The steps of the cleanup that are yet to be asked.
    pub cleanup: Seq<RequestView>,
    /// Where the download stands.
    pub stage: DownloadStage,
}

impl DownloadView {
    /// The invariant of a download: no more objects are fetched than there are
    /// chunks; while one is being fetched, it is one of them; and its cleanup
    /// holds nothing but steps of a cleanup.
    pub open spec fn wf(self) -> bool {
        &&& self.store.wf()
        &&& self.fetched.len() <= self.store.chunk_records.len()
        &&& self.stage == DownloadStage::Ready ==> self.fetched.len() == 0
        &&& self.stage == DownloadStage::Fetching ==> self.fetched.len()
            < self.store.chunk_records.len()
        &&& all_cleanup(self.plan)
        &&& all_cleanup(self.cleanup)
    }

    /// The end of a download that failed.
    pub open spec fn abort(self, e: Error) -> (DownloadView, RequestView) {
        (DownloadView { stage: DownloadStage::Aborted(e), ..self }, RequestView::Fail(e))
    }

    /// What is asked next while objects are fetched: the object of the first
    /// name, in the order of names, that is not fetched yet. Where all are
    /// fetched they are decrypted: the plaintext is to be written, or where one
    /// does not decrypt, the download ends with its error.
    pub open spec fn fetch(self) -> (DownloadView, RequestView) {
        if self.fetched.len() < self.store.chunk_records.len() {
            (
                DownloadView { stage: DownloadStage::Fetching, ..self },
                RequestView::Get { key: ordered(self.store.names())[self.fetched.len() as int] },
            )
        } else {
            match reassembled(self.store, self.fetched) {
                Ok(bytes) => (
                    DownloadView { stage: DownloadStage::Writing, cleanup: self.plan, ..self },
                    RequestView::WriteOutput { path: self.output_path, bytes },
                ),
                Err(e) => self.abort(e),
            }
        }
    }

    /// What is asked next once the output is written: the next step of the
    /// cleanup, or where none is left, nothing.
    pub open spec fn clean(self) -> (DownloadView, RequestView) {
        if self.cleanup.len() > 0 {
            (
                DownloadView {
                    stage: DownloadStage::Cleaning,
                    cleanup: self.cleanup.drop_first(),
                    ..self
                },
                self.cleanup.first(),
            )
        } else {
            (DownloadView { stage: DownloadStage::Finished, ..self }, RequestView::Finish)
        }
    }

    /// The download after `event`, and what it asks next. A request that did not
    /// succeed ends the download: with [`Error::IOError`] for the output, with
    /// [`Error::StorageError`] for any other.
    pub open spec fn step(self, event: EventView) -> (DownloadView, RequestView) {
        match self.stage {
            DownloadStage::Ready => if event == EventView::Started {
                self.fetch()
            } else {
                self.abort(Error::StorageError)
            },
            DownloadStage::Fetching => match event {
                EventView::Fetched(bytes) => (DownloadView {
                    fetched: self.fetched.push(bytes),
                    ..self
                }).fetch(),
                _ => self.abort(Error::StorageError),
            },
            DownloadStage::Writing => if event == EventView::Succeeded {
                self.clean()
            } else {
                self.abort(Error::IOError)
            },
            DownloadStage::Cleaning => if event == EventView::Succeeded {
                self.clean()
            } else {
                self.abort(Error::StorageError)
            },
            DownloadStage::Finished => (self, RequestView::Finish),
            DownloadStage::Aborted(e) => (self, RequestView::Fail(e)),
        }
    }
}

impl View for Download {
    type V = DownloadView;

    closed spec fn view(&self) -> DownloadView {
        DownloadView {
            store: self.keystore@,
            output_path: output_path_spec(self.args, self.keystore@),
            plan: requested_cleanup(self.args, self.keystore@),
            fetched: byte_views(self.fetched@),
            cleanup: request_views(self.cleanup@),
            stage: self.stage,
        }
    }
}

impl Download {
    /// Whether the download's invariant holds.
    pub open spec fn wf(&self) -> bool {
        &&& self@.wf()
        &&& self.names_are_listed()
    }

    /// Whether the names held are the key store's names in their order.
    pub closed spec fn names_are_listed(&self) -> bool {
        name_views(self.names@) == ordered(self.keystore@.names())
    }

    /// A download as the command asks, of the file that `keystore` describes.
    /// Nothing is fetched yet.
    pub fn new(args: DecryptCommand, keystore: KeyStore) -> (download: Download)
        requires
            keystore.wf(),
        ensures
            download.wf(),
            download@ == (DownloadView {
                store: keystore@,
                output_path: output_path_spec(args, keystore@),
                plan: requested_cleanup(args, keystore@),
                fetched: Seq::empty(),
                cleanup: Seq::empty(),
                stage: DownloadStage::Ready,
            }),
    {
        let names = keystore.ordered_chunk_names();
        let download = Download {
            args,
            keystore,
            names,
            fetched: Vec::new(),
            cleanup: Vec::new(),
            stage: DownloadStage::Ready,
        };
        proof {
            assert(download@.fetched =~= Seq::<Seq<u8>>::empty());
            assert(download@.cleanup =~= Seq::<RequestView>::empty());
            lemma_cleanup_is_cleanup(download.args, download.keystore@);
        }
        download
    }

    /// Where the download stands.
    pub fn stage(&self) -> (stage: DownloadStage)
        ensures
            stage == self@.stage,
    {
        self.stage
    }

    fn abort(&mut self, e: Error) -> (request: Request)
        ensures
            (final(self)@, request@) == old(self)@.abort(e),
            final(self).names_are_listed() == old(self).names_are_listed(),
    {
        self.stage = DownloadStage::Aborted(e);
        Request::Fail(e)
    }

    fn fetch(&mut self) -> (request: Request)
        requires
            old(self)@.store.wf(),
            old(self).names_are_listed(),
            old(self)@.fetched.len() <= old(self)@.store.chunk_records.len(),
        ensures
            (final(self)@, request@) == old(self)@.fetch(),
            final(self).names_are_listed(),
    {
        proof {
            crate::ordering::lemma_ordered_permutes(self.keystore@.names());
            assert(name_views(self.names@).len() == self.names@.len());
            assert(byte_views(self.fetched@).len() == self.fetched@.len());
        }
        if self.fetched.len() < self.names.len() {
            self.stage = DownloadStage::Fetching;
            let key = self.names[self.fetched.len()].clone();
            assert(key@ == name_views(self.names@)[self.fetched@.len() as int]);
            Request::Get { key }
        } else {
            match decrypt_to_file(&self.args, &self.keystore, &self.fetched) {
                Ok(file) => {
                    let DecryptedFile { output_path, bytes, cleanup } = file;
                    self.cleanup = cleanup;
                    self.stage = DownloadStage::Writing;
                    Request::WriteOutput { path: output_path, bytes }
                },
                Err(e) => self.abort(e),
            }
        }
    }

    fn clean(&mut self) -> (request: Request)
        ensures
            (final(self)@, request@) == old(self)@.clean(),
            final(self).names_are_listed() == old(self).names_are_listed(),
    {
        if self.cleanup.len() > 0 {
            let ghost before = request_views(self.cleanup@);
            self.stage = DownloadStage::Cleaning;
            let request = self.cleanup.remove(0);
            proof {
                assert(request@ == before.first());
                assert(request_views(self.cleanup@) =~= before.drop_first());
            }
            request
        } else {
            assert(request_views(self.cleanup@).len() == 0);
            self.stage = DownloadStage::Finished;
            Request::Finish
        }
    }

    /// Takes what came of the last request, and says what to do next.
    ///
    /// The first event is [`Event::Started`]. The objects are asked for one
    /// after another, in the order of their names. When the last has come they
    /// are decrypted, and where every one decrypts the plaintext is asked to be
    /// written; no output is asked for before, nor where one does not decrypt.
    /// The cleanup is asked for, step by step, once the output is written.
    /// Once a request has failed, nothing more is asked.
    pub fn step(&mut self, event: Event) -> (request: Request)
        requires
            old(self).wf(),
        ensures
            final(self).wf(),
            (final(self)@, request@) == old(self)@.step(event@),
    {
        proof {
            lemma_download_step(self@, event@);
        }
        match self.stage {
            DownloadStage::Ready => match event {
                Event::Started => self.fetch(),
                _ => self.abort(Error::StorageError),
            },
            DownloadStage::Fetching => match event {
                Event::Fetched(bytes) => {
                    let ghost before = byte_views(self.fetched@);
                    self.fetched.push(bytes);
                    proof {
                        assert(byte_views(self.fetched@) =~= before.push(bytes@));
                    }
                    self.fetch()
                },
                _ => self.abort(Error::StorageError),
            },
            DownloadStage::Writing => match event {
                Event::Succeeded => self.clean(),
                _ => self.abort(Error::IOError),
            },
            DownloadStage::Cleaning => match event {
                Event::Succeeded => self.clean(),
                _ => self.abort(Error::StorageError),
            },
            DownloadStage::Finished => Request::Finish,
            DownloadStage::Aborted(e) => Request::Fail(e),
        }
    }
}

/// What a download asks in answer to the event at `at`, after it was handed
/// the events in front of it.
pub open spec fn download_request(state: DownloadView, events: Seq<EventView>, at: int) -> RequestView
    recommends
        0 <= at < events.len(),
    decreases at,
{
    if at <= 0 {
        state.step(events[0]).1
    } else {
        download_request(state.step(events[0]).0, events.drop_first(), at - 1)
    }
}

/// The download after the first `count` of `events`.
pub open spec fn download_after(state: DownloadView, events: Seq<EventView>, count: int) -> DownloadView
    recommends
        0 <= count <= events.len(),
    decreases count,
{
    if count <= 0 {
        state
    } else {
        download_after(state.step(events[0]).0, events.drop_first(), count - 1)
    }
}

/// How many objects a download that has not failed will yet ask for before it
/// decrypts.
pub open spec fn gets_ahead(state: DownloadView) -> int {
    match state.stage {
        DownloadStage::Ready => state.store.chunk_records.len() as int,
        _ => state.store.chunk_records.len() - state.fetched.len() - 1,
    }
}


/// A step keeps the invariant, and changes neither the key store nor the
/// output's path nor the cleanup that was asked for.
pub proof fn lemma_download_step(state: DownloadView, event: EventView)
    requires
        state.wf(),
    ensures
        state.step(event).0.wf(),
        state.step(event).0.store == state.store,
        state.step(event).0.output_path == state.output_path,
        state.step(event).0.plan == state.plan,
{
    let next = state.step(event).0;
    assert forall|i: int| 0 <= i < next.cleanup.len() implies is_cleanup(
        #[trigger] next.cleanup[i],
    ) by {
        if next.cleanup == state.cleanup.drop_first() && state.cleanup.len() > 0 {
            assert(next.cleanup[i] == state.cleanup[i + 1]);
        }
    }
}

/// Objects are asked for in the order of their names: while a download
/// fetches, its requests are for the names in their order, one after another.
pub proof fn lemma_fetches_in_order(state: DownloadView, events: Seq<EventView>, at: int)
    requires
        state.wf(),
        state.stage == DownloadStage::Ready || state.stage == DownloadStage::Fetching,
        0 <= at < events.len(),
        download_request(state, events, at) is Get,
    ensures
        at < gets_ahead(state),
        download_request(state, events, at) == (RequestView::Get {
            key: ordered(state.store.names())[state.store.chunk_records.len() - gets_ahead(state)
                + at],
        }),
    decreases at,
{
    let next = state.step(events[0]).0;
    lemma_download_step(state, events[0]);
    if at > 0 {
        if next.stage == DownloadStage::Fetching {
            lemma_fetches_in_order(next, events.drop_first(), at - 1);
        } else {
            lemma_fetching_is_over(next, events.drop_first(), at - 1);
        }
    }
}

/// Once the objects are fetched, or the download has failed, no object is
/// asked for and no output is asked to be written again.
pub proof fn lemma_fetching_is_over(state: DownloadView, events: Seq<EventView>, at: int)
    requires
        state.wf(),
        state.stage != DownloadStage::Ready,
        state.stage != DownloadStage::Fetching,
        0 <= at < events.len(),
    ensures
        !(download_request(state, events, at) is Get),
        !(download_request(state, events, at) is WriteOutput),
    decreases at,
{
    lemma_download_step(state, events[0]);
    if state.cleanup.len() > 0 {
        assert(is_cleanup(state.cleanup[0]));
    }
    if at > 0 {
        lemma_fetching_is_over(state.step(events[0]).0, events.drop_first(), at - 1);
    }
}

/// The output comes after the last object: a download asks for the plaintext to
/// be written only when an object has come for every name, in the order of the
/// names, and every one has decrypted; what it asks to be written is what
/// these objects decrypt to.
pub proof fn lemma_output_comes_after_fetching(
    state: DownloadView,
    events: Seq<EventView>,
    at: int,
)
    requires
        state.wf(),
        state.stage == DownloadStage::Ready || state.stage == DownloadStage::Fetching,
        0 <= at < events.len(),
        download_request(state, events, at) is WriteOutput,
    ensures
        at == gets_ahead(state),
        ({
            let done = download_after(state, events, at + 1);
            let first = if state.stage == DownloadStage::Ready {
                1int
            } else {
                0int
            };
            &&& done.stage == DownloadStage::Writing
            &&& done.cleanup == state.plan
            &&& done.fetched.len() == state.store.chunk_records.len()
            &&& done.fetched.len() == state.fetched.len() + at + 1 - first
            &&& forall|k: int|
                0 <= k < state.fetched.len() ==> #[trigger] done.fetched[k] == state.fetched[k]
            &&& forall|k: int|
                first <= k <= at ==> #[trigger] events[k] == EventView::Fetched(
                    done.fetched[state.fetched.len() + k - first],
                )
            &&& reassembled(state.store, done.fetched) is Ok
            &&& download_request(state, events, at) == (RequestView::WriteOutput {
                path: state.output_path,
                bytes: reassembled(state.store, done.fetched)->Ok_0,
            })
        }),
    decreases at,
{
    let next = state.step(events[0]).0;
    let rest = events.drop_first();
    lemma_download_step(state, events[0]);
    if at > 0 {
        if next.stage == DownloadStage::Fetching {
            lemma_output_comes_after_fetching(next, rest, at - 1);
            let done = download_after(state, events, at + 1);
            assert(done == download_after(next, rest, at));
            let first = if state.stage == DownloadStage::Ready {
                1int
            } else {
                0int
            };
            assert forall|k: int| first <= k <= at implies #[trigger] events[k]
                == EventView::Fetched(done.fetched[state.fetched.len() + k - first]) by {
                if k > 0 {
                    assert(events[k] == rest[k - 1]);
                }
            }
        } else {
            lemma_fetching_is_over(next, rest, at - 1);
        }
    }
}

/// Once the output is being written, what a download asks is its cleanup, step
/// by step, for as long as every request succeeds.
pub proof fn lemma_cleanup_in_order(state: DownloadView, events: Seq<EventView>, at: int)
    requires
        state.stage == DownloadStage::Writing || state.stage == DownloadStage::Cleaning,
        0 <= at < events.len(),
        is_cleanup(download_request(state, events, at)),
    ensures
        at < state.cleanup.len(),
        download_request(state, events, at) == state.cleanup[at],
        forall|k: int| 0 <= k <= at ==> #[trigger] events[k] == EventView::Succeeded,
    decreases at,
{
    let next = state.step(events[0]).0;
    let rest = events.drop_first();
    if at > 0 {
        if next.stage == DownloadStage::Cleaning {
            lemma_cleanup_in_order(next, rest, at - 1);
            assert forall|k: int| 0 <= k <= at implies #[trigger] events[k]
                == EventView::Succeeded by {
                if k > 0 {
                    assert(events[k] == rest[k - 1]);
                }
            }
        } else {
            lemma_no_cleanup_at_the_end(next, rest, at - 1);
        }
    }
}

/// A download that has finished or failed asks for no cleanup.
pub proof fn lemma_no_cleanup_at_the_end(state: DownloadView, events: Seq<EventView>, at: int)
    requires
        state.stage == DownloadStage::Finished || state.stage is Aborted,
        0 <= at < events.len(),
    ensures
        !is_cleanup(download_request(state, events, at)),
        state.stage is Aborted ==> download_request(state, events, at) is Fail,
        state.stage == DownloadStage::Finished ==> download_request(state, events, at) is Finish,
    decreases at,
{
    if at > 0 {
        lemma_no_cleanup_at_the_end(state.step(events[0]).0, events.drop_first(), at - 1);
    }
}

/// The cleanup follows the writing: a download asks for a step of the cleanup
/// only after it has asked for the output to be written and that has
/// succeeded; and the steps are those of the cleanup that was asked for, in
/// their order.
pub proof fn lemma_cleanup_follows_output(state: DownloadView, events: Seq<EventView>, at: int)
    requires
        state.wf(),
        state.stage == DownloadStage::Ready || state.stage == DownloadStage::Fetching,
        0 <= at < events.len(),
        is_cleanup(download_request(state, events, at)),
    ensures
        gets_ahead(state) < at,
        download_request(state, events, gets_ahead(state)) is WriteOutput,
        forall|k: int| gets_ahead(state) < k <= at ==> #[trigger] events[k] == EventView::Succeeded,
        at - gets_ahead(state) - 1 < state.plan.len(),
        download_request(state, events, at) == state.plan[at - gets_ahead(state) - 1],
    decreases at,
{
    let next = state.step(events[0]).0;
    let rest = events.drop_first();
    lemma_download_step(state, events[0]);
    if at > 0 {
        if next.stage == DownloadStage::Fetching {
            lemma_cleanup_follows_output(next, rest, at - 1);
            assert(gets_ahead(next) == gets_ahead(state) - 1);
            assert(download_request(state, events, gets_ahead(state)) == download_request(
                next,
                rest,
                gets_ahead(next),
            ));
            assert forall|k: int| gets_ahead(state) < k <= at implies #[trigger] events[k]
                == EventView::Succeeded by {
                assert(events[k] == rest[k - 1]);
            }
        } else if next.stage == DownloadStage::Writing {
            lemma_cleanup_in_order(next, rest, at - 1);
            assert forall|k: int| gets_ahead(state) < k <= at implies #[trigger] events[k]
                == EventView::Succeeded by {
                assert(events[k] == rest[k - 1]);
            }
        } else {
            lemma_no_cleanup_at_the_end(next, rest, at - 1);
        }
    }
}

/// Once the output is being written, a download finishes only after every step
/// of its cleanup was asked for, in their order, and every request succeeded.
pub proof fn lemma_finish_after_cleanup(state: DownloadView, events: Seq<EventView>, at: int)
    requires
        state.wf(),
        state.stage == DownloadStage::Writing || state.stage == DownloadStage::Cleaning,
        0 <= at < events.len(),
        download_request(state, events, at) is Finish,
    ensures
        state.cleanup.len() <= at,
        forall|k: int|
            0 <= k < state.cleanup.len() ==> #[trigger] download_request(state, events, k)
                == state.cleanup[k],
        forall|k: int| 0 <= k <= state.cleanup.len() ==> #[trigger] events[k] == EventView::Succeeded,
    decreases at,
{
    let next = state.step(events[0]).0;
    let rest = events.drop_first();
    lemma_download_step(state, events[0]);
    if state.cleanup.len() > 0 {
        assert(is_cleanup(state.cleanup[0]));
    }
    if at > 0 {
        if next.stage == DownloadStage::Cleaning {
            lemma_finish_after_cleanup(next, rest, at - 1);
            assert forall|k: int| 0 <= k < state.cleanup.len() implies #[trigger] download_request(
                state,
                events,
                k,
            ) == state.cleanup[k] by {
                if k > 0 {
                    assert(download_request(state, events, k) == download_request(
                        next,
                        rest,
                        k - 1,
                    ));
                    assert(next.cleanup[k - 1] == state.cleanup[k]);
                }
            }
            assert forall|k: int| 0 <= k <= state.cleanup.len() implies #[trigger] events[k]
                == EventView::Succeeded by {
                if k > 0 {
                    assert(events[k] == rest[k - 1]);
                }
            }
        } else if next.stage is Aborted {
            lemma_no_cleanup_at_the_end(next, rest, at - 1);
        }
    }
}

/// A download finishes last: only after the output was written and every step
/// of the cleanup that was asked for was done, each in its turn. Where the
/// cleanup was asked for, the key store's document and every recorded chunk
/// have then been asked to be deleted.
pub proof fn lemma_finish_comes_last(state: DownloadView, events: Seq<EventView>, at: int)
    requires
        state.wf(),
        state.stage == DownloadStage::Ready || state.stage == DownloadStage::Fetching,
        0 <= at < events.len(),
        download_request(state, events, at) is Finish,
    ensures
        gets_ahead(state) + state.plan.len() < at,
        download_request(state, events, gets_ahead(state)) is WriteOutput,
        forall|k: int|
            0 <= k < state.plan.len() ==> #[trigger] download_request(
                state,
                events,
                gets_ahead(state) + 1 + k,
            ) == state.plan[k],
        forall|k: int|
            gets_ahead(state) < k <= gets_ahead(state) + 1 + state.plan.len() ==> #[trigger] events[k]
                == EventView::Succeeded,
    decreases at,
{
    let next = state.step(events[0]).0;
    let rest = events.drop_first();
    let ahead = gets_ahead(state);
    lemma_download_step(state, events[0]);
    if at > 0 {
        if next.stage == DownloadStage::Fetching {
            lemma_finish_comes_last(next, rest, at - 1);
            assert(gets_ahead(next) == ahead - 1);
            assert(download_request(state, events, ahead) == download_request(
                next,
                rest,
                ahead - 1,
            ));
            assert forall|k: int| 0 <= k < state.plan.len() implies #[trigger] download_request(
                state,
                events,
                ahead + 1 + k,
            ) == state.plan[k] by {
                assert(download_request(state, events, ahead + 1 + k) == download_request(
                    next,
                    rest,
                    gets_ahead(next) + 1 + k,
                ));
            }
            assert forall|k: int| ahead < k <= ahead + 1 + state.plan.len() implies #[trigger] events[k]
                == EventView::Succeeded by {
                assert(events[k] == rest[k - 1]);
            }
        } else if next.stage == DownloadStage::Writing {
            lemma_finish_after_cleanup(next, rest, at - 1);
            assert forall|k: int| 0 <= k < state.plan.len() implies #[trigger] download_request(
                state,
                events,
                ahead + 1 + k,
            ) == state.plan[k] by {
                assert(download_request(state, events, ahead + 1 + k) == download_request(
                    next,
                    rest,
                    k,
                ));
            }
            assert forall|k: int| ahead < k <= ahead + 1 + state.plan.len() implies #[trigger] events[k]
                == EventView::Succeeded by {
                assert(events[k] == rest[k - 1]);
            }
        } else {
            lemma_no_cleanup_at_the_end(next, rest, at - 1);
        }
    }
}

/// While a download fetches and is handed, one by one, the objects `given`, it
/// comes to ask for what they decrypt to to be written.
proof fn lemma_fetching_ends_in_output(
    state: DownloadView,
    events: Seq<EventView>,
    given: Seq<Seq<u8>>,
    content: Seq<u8>,
)
    requires
        state.wf(),
        state.stage == DownloadStage::Fetching,
        given.len() == state.store.chunk_records.len(),
        state.fetched == given.take(state.fetched.len() as int),
        reassembled(state.store, given) == Ok::<Seq<u8>, Error>(content),
        events.len() > gets_ahead(state),
        forall|k: int|
            0 <= k <= gets_ahead(state) ==> #[trigger] events[k] == EventView::Fetched(
                given[state.fetched.len() + k],
            ),
    ensures
        download_request(state, events, gets_ahead(state)) == (RequestView::WriteOutput {
            path: state.output_path,
            bytes: content,
        }),
    decreases gets_ahead(state),
{
    let next = state.step(events[0]).0;
    let rest = events.drop_first();
    let fetched = state.fetched.len() as int;
    lemma_download_step(state, events[0]);
    assert(events[0] == EventView::Fetched(given[fetched]));
    assert(next.fetched =~= given.take(fetched + 1));
    if gets_ahead(state) == 0 {
        assert(given.take(fetched + 1) =~= given);
    } else {
        assert forall|k: int| 0 <= k <= gets_ahead(next) implies #[trigger] rest[k]
            == EventView::Fetched(given[next.fetched.len() + k]) by {
            assert(rest[k] == events[k + 1]);
        }
        lemma_fetching_ends_in_output(next, rest, given, content);
    }
}

/// What was stored comes back: where a download's key store holds the records
/// of an encryption of `content`, in whatever order, and the download is
/// handed, for every request, the object that was stored under the name it asks
/// for, the download asks for the objects in the order of the chunks and then
/// for `content` to be written.
pub proof fn lemma_download_gives_content(
    state: DownloadView,
    events: Seq<EventView>,
    origin: KeyStoreView,
    objects: Seq<ObjectView>,
    content: Seq<u8>,
    chunk_size: nat,
)
    requires
        state.wf(),
        state.stage == DownloadStage::Ready,
        chunk_size >= 1,
        is_encryption_of(origin, objects, content, chunk_size),
        origin.same_records(state.store),
        events.len() > objects.len(),
        events[0] == EventView::Started,
        forall|k: int|
            0 < k <= objects.len() ==> #[trigger] events[k] == EventView::Fetched(
                objects[k - 1].bytes,
            ),
    ensures
        forall|k: int|
            0 <= k < objects.len() ==> #[trigger] download_request(state, events, k)
                == (RequestView::Get { key: objects[k].key }),
        download_request(state, events, objects.len() as int) == (RequestView::WriteOutput {
            path: state.output_path,
            bytes: content,
        }),
{
    let given = object_bytes(objects);
    let count = objects.len() as int;
    let next = state.step(events[0]).0;
    let rest = events.drop_first();
    lemma_round_trip_in_any_order(origin, state.store, objects, content, chunk_size);
    lemma_download_step(state, events[0]);
    assert(state.fetched =~= given.take(0));
    if count > 0 {
        assert forall|k: int| 0 <= k <= gets_ahead(next) implies #[trigger] rest[k]
            == EventView::Fetched(given[next.fetched.len() + k]) by {
            assert(rest[k] == events[k + 1]);
        }
        lemma_fetching_ends_in_output(next, rest, given, content);
        assert(download_request(state, events, count) == download_request(next, rest, count - 1));
    }
    assert forall|k: int| 0 <= k < count implies #[trigger] download_request(state, events, k)
        == (RequestView::Get { key: objects[k].key }) by {
        lemma_next_name_is_asked(state, events, k, count);
        assert(origin.names()[k] == origin.chunk_records[k].name);
        assert(holds_chunk(origin, objects, k, chunks_of(content, chunk_size)[k]));
    }
}

/// While fewer events than chunks were handed to a download that fetches, and
/// every one of them brought an object, the download asks for the next name.
proof fn lemma_next_name_is_asked(
    state: DownloadView,
    events: Seq<EventView>,
    at: int,
    count: int,
)
    requires
        state.wf(),
        state.stage == DownloadStage::Ready || state.stage == DownloadStage::Fetching,
        count == state.store.chunk_records.len(),
        0 <= at < gets_ahead(state),
        at < events.len(),
        state.stage == DownloadStage::Ready ==> events[0] == EventView::Started,
        forall|k: int|
            (if state.stage == DownloadStage::Ready {
                1int
            } else {
                0int
            }) <= k <= at ==> #[trigger] events[k] is Fetched,
    ensures
        download_request(state, events, at) == (RequestView::Get {
            key: ordered(state.store.names())[count - gets_ahead(state) + at],
        }),
    decreases at,
{
    let next = state.step(events[0]).0;
    let rest = events.drop_first();
    lemma_download_step(state, events[0]);
    if state.stage == DownloadStage::Fetching {
        assert(events[0] is Fetched);
    }
    if at > 0 {
        assert forall|k: int| 0 <= k <= at - 1 implies #[trigger] rest[k] is Fetched by {
            assert(rest[k] == events[k + 1]);
        }
        lemma_next_name_is_asked(next, rest, at - 1, count);
    }
}

} // verus!
