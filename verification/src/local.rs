//! The disk-rooted backend's path logic: the root location and the secure
//! resolution of virtual paths below it. The filesystem calls themselves
//! live outside the library, behind the capability interface.
use vstd::prelude::*;
use crate::model::join_segs;
use crate::resolve::{resolve_spec, resolve_segments};
use crate::storage::StorageError;
use crate::strutil::join_path;

verus! {

/// The absolute textual location of a resolved path below `root`.
pub open spec fn abs_path_of(root: Seq<char>, p: Seq<Seq<char>>) -> Seq<char> {
    if p.len() == 0 {
        root
    } else {
        root + seq!['/'] + join_segs(p)
    }
}

/// A backend rooted at one directory of the local disk. It owns the path
/// arithmetic; the caller that talks to the disk feeds it the resolved
/// locations this type hands out.
pub struct LocalStorage {
    root: String,
}

impl LocalStorage {
    /// The root location this backend was built over.
    pub closed spec fn spec_root(&self) -> Seq<char> {
        self.root@
    }

    /// A backend rooted at the given directory location.
    pub fn new(root: &str) -> (r: LocalStorage)
        ensures
            r.spec_root() == root@,
    {
        LocalStorage { root: String::from_str(root) }
    }

    /// The name under which this backend registers; also its scheme.
    pub fn name(&self) -> (r: String)
        ensures
            r@ == "local"@,
    {
        String::from_str("local")
    }

    /// A one-backend registry rooted at the given location, keyed by the
    /// backend's name.
    pub fn setup(path: &str) -> (r: Vec<(String, LocalStorage)>)
        ensures
            r@.len() == 1,
            r@[0].0@ == "local"@,
            r@[0].1.spec_root() == path@,
    {
        let storage = LocalStorage::new(path);
        let mut r: Vec<(String, LocalStorage)> = Vec::new();
        r.push((storage.name(), storage));
        r
    }

    /// Resolves a virtual path to the absolute location below the root it
    /// names, rejecting every path that carries a traversal.
    pub fn resolve_path(&self, path: &str) -> (r: Result<String, StorageError>)
        ensures
            match r {
                Ok(s) => resolve_spec(path@) matches Some(p) && s@ == abs_path_of(
                    self.spec_root(),
                    p,
                ),
                Err(e) => resolve_spec(path@) is None && e is InvalidPath,
            },
    {
        let segs = match resolve_segments(path) {
            Ok(v) => v,
            Err(e) => {
                return Err(e);
            },
        };
        if segs.len() == 0 {
            proof {
                assert(segs.deep_view().len() == 0);
            }
            return Ok(self.root.clone());
        }
        proof {
            assert(segs.deep_view().len() == segs@.len());
        }
        let mut s = self.root.clone();
        s.append("/");
        let joined = join_path(&segs);
        s.append(joined.as_str());
        proof {
            reveal_strlit("/");
            assert(("/")@ =~= seq!['/']);
        }
        Ok(s)
    }
}

} // verus!
