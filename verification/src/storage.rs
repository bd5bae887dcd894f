//! The boundary to storage.
//!
//! Nothing here reads or writes. An operation that needs storage is a session:
//! it hands out one [`Request`] at a time, the caller carries the request out on
//! the local file system or on an object store, and hands back what came of it
//! as an [`Event`].

use vstd::prelude::*;
use crate::error::Error;
use crate::keystore::{KeyStoreDocument, KeyStoreView};

verus! {

/// What a session asks of its caller.
#[derive(Debug)]
pub enum Request {
    /// Store `bytes` under `key`, creating what lies above it as needed.
    Put { key: String, bytes: Vec<u8> },
    /// Fetch the bytes stored under `key`.
    Get { key: String },
    /// Delete what is stored under `key`. Where nothing is, that is a success.
    Delete { key: String },
    /// Write the key store's document to the file at `path`.
    WriteDocument { path: String, document: KeyStoreDocument },
    /// Create the file at `path` with `bytes`. Where the file exists already, it
    /// is left as it is, and that is a failure.
    WriteOutput { path: String, bytes: Vec<u8> },
    /// Delete the key store's document at `path`.
    DeleteDocument { path: String },
    /// Remove the storage location, now empty, where it is a directory.
    RemoveLocation { location: String },
    /// Nothing more: the operation is complete.
    Finish,
    /// Nothing more: the operation has failed.
    Fail(Error),
}

/// A [`Request`] as text and bytes.
pub enum RequestView {
    Put { key: Seq<char>, bytes: Seq<u8> },
    Get { key: Seq<char> },
    Delete { key: Seq<char> },
    WriteDocument { path: Seq<char>, document: KeyStoreView },
    WriteOutput { path: Seq<char>, bytes: Seq<u8> },
    DeleteDocument { path: Seq<char> },
    RemoveLocation { location: Seq<char> },
    Finish,
    Fail(Error),
}

impl View for Request {
    type V = RequestView;

    open spec fn view(&self) -> RequestView {
        match self {
            Request::Put { key, bytes } => RequestView::Put { key: key@, bytes: bytes@ },
            Request::Get { key } => RequestView::Get { key: key@ },
            Request::Delete { key } => RequestView::Delete { key: key@ },
            Request::WriteDocument { path, document } => RequestView::WriteDocument {
                path: path@,
                document: document@,
            },
            Request::WriteOutput { path, bytes } => RequestView::WriteOutput {
                path: path@,
                bytes: bytes@,
            },
            Request::DeleteDocument { path } => RequestView::DeleteDocument { path: path@ },
            Request::RemoveLocation { location } => RequestView::RemoveLocation {
                location: location@,
            },
            Request::Finish => RequestView::Finish,
            Request::Fail(e) => RequestView::Fail(*e),
        }
    }
}

/// The views of a list of requests.
pub open spec fn request_views(requests: Seq<Request>) -> Seq<RequestView> {
    requests.map_values(|request: Request| request@)
}

/// What came of a session's last request.
#[derive(Debug)]
pub enum Event {
    /// Nothing was asked yet: the session begins.
    Started,
    /// The request was carried out.
    Succeeded,
    /// The bytes that a [`Request::Get`] asked for.
    Fetched(Vec<u8>),
    /// The request could not be carried out.
    Failed,
}

/// An [`Event`] as bytes.
pub enum EventView {
    Started,
    Succeeded,
    Fetched(Seq<u8>),
    Failed,
}

impl View for Event {
    type V = EventView;

    open spec fn view(&self) -> EventView {
        match self {
            Event::Started => EventView::Started,
            Event::Succeeded => EventView::Succeeded,
            Event::Fetched(bytes) => EventView::Fetched(bytes@),
            Event::Failed => EventView::Failed,
        }
    }
}

} // verus!
