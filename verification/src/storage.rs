//! The storage capability interface: the error and listing types every
//! backend shares, and the contracted trait its primitives satisfy.
use vstd::prelude::*;
use crate::model::{
    ErrKind, FsModel, FsNode, create_dir_at, delete_at, is_child, join_segs, node_exists, read_at,
    write_at,
};
use crate::resolve::resolve_spec;
use crate::strutil::ext_of;
use crate::mime::mime_guess_of;

verus! {

/// A typed failure of a storage primitive, carrying a human-readable detail.
#[derive(Debug)]
pub enum StorageError {
    /// Any filesystem-level failure that is neither a missing entry nor a
    /// rejected path.
    Io(String),
    /// The target of a read or delete is absent.
    NotFound(String),
    /// The virtual path was rejected by resolution.
    InvalidPath(String),
}

impl StorageError {
    /// The kind of this error, as the model speaks of it.
    pub open spec fn kind(&self) -> ErrKind {
        match self {
            StorageError::Io(_) => ErrKind::Io,
            StorageError::NotFound(_) => ErrKind::NotFound,
            StorageError::InvalidPath(_) => ErrKind::InvalidPath,
        }
    }

    /// The detail string carried by the error.
    pub open spec fn spec_detail(&self) -> Seq<char> {
        match self {
            StorageError::Io(m) => m@,
            StorageError::NotFound(m) => m@,
            StorageError::InvalidPath(m) => m@,
        }
    }

    /// A user-visible description, phrased as the transport layer reports it.
    pub fn message(&self) -> (r: String)
        ensures
            match self {
                StorageError::Io(m) => r@ == "IO error: "@ + m@,
                StorageError::NotFound(m) => r@ == "Path not found: "@ + m@,
                StorageError::InvalidPath(m) => r@ == "Invalid path: "@ + m@,
            },
    {
        match self {
            StorageError::Io(m) => String::from_str("IO error: ").concat(m.as_str()),
            StorageError::NotFound(m) => String::from_str("Path not found: ").concat(m.as_str()),
            StorageError::InvalidPath(m) => String::from_str("Invalid path: ").concat(m.as_str()),
        }
    }
}

/// One directory entry as a listing reports it.
pub struct StorageItem {
    /// `"dir"` or `"file"`.
    pub node_type: String,
    /// The entry's virtual path, scheme prefix included.
    pub path: String,
    /// The entry's own name, the last segment of its path.
    pub basename: String,
    /// What follows the last `.` of the base name, if anything does.
    pub extension: Option<String>,
    /// The media type derived from the base name; files only.
    pub mime_type: Option<String>,
    /// Seconds since the epoch of the last change, where the backend has one.
    pub last_modified: Option<u64>,
    /// The byte length; files only.
    pub size: Option<u64>,
}

/// A flat record of one stored file, kept for transport-layer payloads.
pub struct StorageFile {
    pub path: String,
    pub file_type: String,
    pub size: u64,
    pub last_modified: Option<u64>,
}

/// What reading a virtual path yields once resolution is taken into account.
pub open spec fn read_result(fs: FsModel, path: Seq<char>) -> Result<Seq<u8>, ErrKind> {
    match resolve_spec(path) {
        Option::None => Err(ErrKind::InvalidPath),
        Option::Some(p) => read_at(fs, p),
    }
}

/// What writing a virtual path yields: the new state, or the failure kind.
pub open spec fn write_result(fs: FsModel, path: Seq<char>, data: Seq<u8>) -> Result<FsModel, ErrKind> {
    match resolve_spec(path) {
        Option::None => Err(ErrKind::InvalidPath),
        Option::Some(p) => write_at(fs, p, data),
    }
}

/// What creating a directory at a virtual path yields.
pub open spec fn create_dir_result(fs: FsModel, path: Seq<char>) -> Result<FsModel, ErrKind> {
    match resolve_spec(path) {
        Option::None => Err(ErrKind::InvalidPath),
        Option::Some(p) => create_dir_at(fs, p),
    }
}

/// What deleting a virtual path yields.
pub open spec fn delete_result(fs: FsModel, path: Seq<char>) -> Result<FsModel, ErrKind> {
    match resolve_spec(path) {
        Option::None => Err(ErrKind::InvalidPath),
        Option::Some(p) => delete_at(fs, p),
    }
}

/// What an existence test of a virtual path yields.
pub open spec fn exists_result(fs: FsModel, path: Seq<char>) -> Result<bool, ErrKind> {
    match resolve_spec(path) {
        Option::None => Err(ErrKind::InvalidPath),
        Option::Some(p) => Ok(node_exists(fs, p)),
    }
}

/// A directory stands at `p`; the root always does.
pub open spec fn dir_exists(fs: FsModel, p: Seq<Seq<char>>) -> bool {
    p.len() == 0 || (fs.dom().contains(p) && fs[p] is Dir)
}

/// The failure kind of a listing that cannot proceed at `p`.
pub open spec fn list_err_at(fs: FsModel, p: Seq<Seq<char>>) -> ErrKind {
    if !node_exists(fs, p) {
        ErrKind::NotFound
    } else {
        ErrKind::Io
    }
}

/// The item correctly describes the child of `parent` named by its own
/// `basename`, under the backend called `name`.
pub open spec fn item_matches(
    fs: FsModel,
    name: Seq<char>,
    parent: Seq<Seq<char>>,
    item: StorageItem,
) -> bool {
    let c = parent.push(item.basename@);
    &&& fs.dom().contains(c)
    &&& item.path@ == name + "://"@ + join_segs(c)
    &&& match (item.extension, ext_of(item.basename@)) {
        (Option::Some(e), Option::Some(x)) => e@ == x,
        (Option::None, Option::None) => true,
        _ => false,
    }
    &&& match fs[c] {
        FsNode::Dir => {
            &&& item.node_type@ == "dir"@
            &&& item.size is None
            &&& item.mime_type is None
        },
        FsNode::File { data } => {
            &&& item.node_type@ == "file"@
            &&& item.size matches Some(sz) && sz as nat == data.len()
            &&& item.mime_type matches Some(m) && m@ == mime_guess_of(item.basename@)
        },
    }
}

/// The items are exactly the direct children of `parent`, each described
/// correctly and none listed twice; their order is the backend's own.
pub open spec fn list_matches(
    fs: FsModel,
    name: Seq<char>,
    parent: Seq<Seq<char>>,
    items: Seq<StorageItem>,
) -> bool {
    &&& forall|i: int| 0 <= i < items.len() ==> item_matches(fs, name, parent, #[trigger] items[i])
    &&& forall|c: Seq<Seq<char>>|
        #[trigger] is_child(fs, parent, c) ==> exists|i: int|
            0 <= i < items.len() && (#[trigger] items[i].basename@) == c[parent.len() as int]
    &&& forall|i: int, j: int|
        0 <= i < j < items.len() ==> items[i].basename@ != items[j].basename@
}

/// The capability interface every backend satisfies. Each primitive resolves
/// its virtual path first and then acts on the backend's modelled state.
pub trait StorageAdapter: Sized {
    /// The modelled directory tree behind this backend; an implementation
    /// gives its own model, and one that keeps the default has no state its
    /// contracts could promise anything about.
    open spec fn fs(&self) -> FsModel {
        Map::empty()
    }

    /// The backend's internal well-formedness; false until an implementation
    /// says otherwise, so nothing is promised of an unmodelled backend.
    open spec fn inv(&self) -> bool {
        false
    }

    /// The backend's name, as contracts speak of it.
    open spec fn spec_name(&self) -> Seq<char> {
        Seq::empty()
    }

    /// The name under which the backend is registered; also its scheme.
    fn name(&self) -> (r: String)
        requires
            self.inv(),
        ensures
            r@ == self.spec_name(),
    ;

    /// Lists the direct children of a directory.
    fn list_contents(&self, path: &str) -> (r: Result<Vec<StorageItem>, StorageError>)
        requires
            self.inv(),
        ensures
            match r {
                Ok(items) => {
                    &&& resolve_spec(path@) matches Some(p)
                    &&& dir_exists(self.fs(), resolve_spec(path@)->Some_0)
                    &&& list_matches(self.fs(), self.spec_name(), resolve_spec(path@)->Some_0, items@)
                },
                Err(e) => match resolve_spec(path@) {
                    Option::None => e.kind() == ErrKind::InvalidPath,
                    Option::Some(p) => !dir_exists(self.fs(), p) && e.kind() == list_err_at(self.fs(), p),
                },
            },
    ;

    /// Reads a file's bytes.
    fn read(&self, path: &str) -> (r: Result<Vec<u8>, StorageError>)
        requires
            self.inv(),
        ensures
            match r {
                Ok(d) => read_result(self.fs(), path@) == Ok::<Seq<u8>, ErrKind>(d@),
                Err(e) => read_result(self.fs(), path@) == Err::<Seq<u8>, ErrKind>(e.kind()),
            },
    ;

    /// Writes a file, creating missing parent directories and overwriting any
    /// file already there.
    fn write(&mut self, path: &str, contents: Vec<u8>) -> (r: Result<(), StorageError>)
        requires
            old(self).inv(),
        ensures
            final(self).inv(),
            final(self).spec_name() == old(self).spec_name(),
            match r {
                Ok(_) => write_result(old(self).fs(), path@, contents@) == Ok::<FsModel, ErrKind>(
                    final(self).fs(),
                ),
                Err(e) => {
                    &&& write_result(old(self).fs(), path@, contents@) == Err::<FsModel, ErrKind>(
                        e.kind(),
                    )
                    &&& final(self).fs() == old(self).fs()
                },
            },
    ;

    /// Deletes a file, or a directory with its whole subtree.
    fn delete(&mut self, path: &str) -> (r: Result<(), StorageError>)
        requires
            old(self).inv(),
        ensures
            final(self).inv(),
            final(self).spec_name() == old(self).spec_name(),
            match r {
                Ok(_) => delete_result(old(self).fs(), path@) == Ok::<FsModel, ErrKind>(
                    final(self).fs(),
                ),
                Err(e) => {
                    &&& delete_result(old(self).fs(), path@) == Err::<FsModel, ErrKind>(e.kind())
                    &&& final(self).fs() == old(self).fs()
                },
            },
    ;

    /// Creates a directory and every missing ancestor; an existing directory
    /// is success, not an error.
    fn create_dir(&mut self, path: &str) -> (r: Result<(), StorageError>)
        requires
            old(self).inv(),
        ensures
            final(self).inv(),
            final(self).spec_name() == old(self).spec_name(),
            match r {
                Ok(_) => create_dir_result(old(self).fs(), path@) == Ok::<FsModel, ErrKind>(
                    final(self).fs(),
                ),
                Err(e) => {
                    &&& create_dir_result(old(self).fs(), path@) == Err::<FsModel, ErrKind>(
                        e.kind(),
                    )
                    &&& final(self).fs() == old(self).fs()
                },
            },
    ;

    /// Whether anything stands at the path; absence is `false`, not a failure.
    fn path_exists(&self, path: &str) -> (r: Result<bool, StorageError>)
        requires
            self.inv(),
        ensures
            match r {
                Ok(b) => exists_result(self.fs(), path@) == Ok::<bool, ErrKind>(b),
                Err(e) => exists_result(self.fs(), path@) == Err::<bool, ErrKind>(e.kind()),
            },
    ;
}

} // verus!
