//! The request payloads the compound operations take; the transport layer
//! builds them from the wire and hands them in as plain values.
use vstd::prelude::*;

verus! {

/// The query string every request carries.
pub struct Query {
    pub q: String,
    pub adapter: Option<String>,
    pub path: Option<String>,
    pub filter: Option<String>,
}

pub struct NewFolderRequest {
    pub name: String,
}

pub struct NewFileRequest {
    pub name: String,
}

pub struct RenameRequest {
    pub name: String,
    pub item: String,
}

pub struct MoveRequest {
    pub item: String,
    pub items: Vec<FileItem>,
}

pub struct DeleteRequest {
    pub items: Vec<FileItem>,
}

pub struct ArchiveRequest {
    pub name: String,
    pub items: Vec<FileItem>,
}

pub struct UnarchiveRequest {
    pub item: String,
}

pub struct SaveRequest {
    pub content: String,
}

/// One entry a compound operation targets, named by its virtual path.
pub struct FileItem {
    pub path: String,
}

} // verus!
