//! The operation orchestrator: the adapter registry, the public-link
//! projection, and the compound file operations built from the storage
//! primitives.
use vstd::prelude::*;
use crate::model::{
    ErrKind, FsModel, changed_only_below, is_child, lemma_create_below, lemma_write_below,
};
use crate::resolve::{basename_spec, lemma_sub_path_stays_below, resolve_spec, scheme_safe};
use crate::storage::{
    StorageAdapter, StorageError, StorageItem, create_dir_result, delete_result, dir_exists,
    exists_result, item_matches, list_err_at, list_matches, read_result, write_result,
};
use crate::strutil::{
    contains_sub, lower_of, lowercase, stem_of, stem_of_name, str_contains_str, str_eq,
    str_starts_with, sub_path, sub_path_spec,
};
use crate::ziputil::{
    zip_decode, zip_encode, zip_entry, zip_error_message, zip_len, zip_open, zip_writer_add,
    zip_writer_finish, zip_writer_new, zw_entries, za_entries, za_wf,
};
use crate::payload::{
    ArchiveRequest, DeleteRequest, FileItem, MoveRequest, NewFileRequest, NewFolderRequest,
    RenameRequest, SaveRequest, UnarchiveRequest,
};
use crate::mime::{mime_guess_of, mime_of};

verus! {

/// The read-only configuration the orchestrator is started with: public-link
/// prefixes and the domains that replace them, in match order.
pub struct VueFinderConfig {
    pub public_links: Option<Vec<(String, String)>>,
}

impl VueFinderConfig {
    /// The configured links as the contracts speak of them; an absent table
    /// reads as empty.
    pub open spec fn links(&self) -> Seq<(Seq<char>, Seq<char>)> {
        match self.public_links {
            Option::Some(v) => v@.map_values(|p: (String, String)| (p.0@, p.1@)),
            Option::None => Seq::empty(),
        }
    }
}

/// One listed entry together with its public URL, where one is configured.
pub struct FileNode {
    pub storage_item: StorageItem,
    pub url: Option<String>,
}

/// A failure of a compound operation.
#[derive(Debug)]
pub enum FinderError {
    /// No registered backend fits the request.
    NoAdapter,
    /// A move target already exists; nothing was touched.
    ItemExists,
    /// The archive target already exists; nothing was touched.
    ArchiveExists,
    /// A storage primitive failed; the first failure is carried verbatim.
    Storage(StorageError),
    /// The archive encoder or decoder refused, with its own words.
    Zip(String),
}

impl FinderError {
    /// A user-visible description, phrased as the transport layer reports it.
    pub fn message(&self) -> (r: String)
        ensures
            match self {
                FinderError::NoAdapter => r@ == "No storage adapters available"@,
                FinderError::ItemExists => r@ == "One of the files already exists."@,
                FinderError::ArchiveExists => r@
                    == "Zip file already exists. Please use a different name."@,
                FinderError::Storage(se) => r@ == se.spec_detail(),
                FinderError::Zip(m) => r@ == m@,
            },
    {
        match self {
            FinderError::NoAdapter => String::from_str("No storage adapters available"),
            FinderError::ItemExists => String::from_str("One of the files already exists."),
            FinderError::ArchiveExists => String::from_str(
                "Zip file already exists. Please use a different name.",
            ),
            FinderError::Storage(se) => match se {
                StorageError::Io(m) => m.clone(),
                StorageError::NotFound(m) => m.clone(),
                StorageError::InvalidPath(m) => m.clone(),
            },
            FinderError::Zip(m) => m.clone(),
        }
    }
}

/// The first configured link whose prefix opens `path`, applied to it.
pub open spec fn first_link_match(links: Seq<(Seq<char>, Seq<char>)>, path: Seq<char>) -> Option<
    Seq<char>,
>
    decreases links.len(),
{
    if links.len() == 0 {
        Option::None
    } else if links[0].0.is_prefix_of(path) {
        Option::Some(links[0].1 + path.skip(links[0].0.len() as int))
    } else {
        first_link_match(links.skip(1), path)
    }
}

/// The URL a node carries: directories never get one, files get the first
/// matching link.
pub open spec fn node_url_of(config: VueFinderConfig, item: StorageItem) -> Option<Seq<char>> {
    if item.node_type@ != "dir"@ && first_link_match(config.links(), item.path@) is Some {
        first_link_match(config.links(), item.path@)
    } else {
        Option::None
    }
}

/// The nodes describe exactly the children of `parent`, each carrying the
/// URL its path is configured with.
pub open spec fn nodes_match(
    config: VueFinderConfig,
    fs: FsModel,
    name: Seq<char>,
    parent: Seq<Seq<char>>,
    nodes: Seq<FileNode>,
) -> bool {
    &&& list_matches(fs, name, parent, nodes.map_values(|n: FileNode| n.storage_item))
    &&& forall|i: int|
        0 <= i < nodes.len() ==> (#[trigger] nodes[i]).url.deep_view() == node_url_of(
            config,
            nodes[i].storage_item,
        )
}

/// A listing of `path` over `fs` cannot proceed and reports kind `k`.
pub open spec fn list_fail(fs: FsModel, path: Seq<char>, k: ErrKind) -> bool {
    match resolve_spec(path) {
        Option::None => k == ErrKind::InvalidPath,
        Option::Some(p) => !dir_exists(fs, p) && k == list_err_at(fs, p),
    }
}

/// A listing of `path` over `fs` can proceed.
pub open spec fn list_ok_at(fs: FsModel, path: Seq<char>) -> bool {
    match resolve_spec(path) {
        Option::None => false,
        Option::Some(p) => dir_exists(fs, p),
    }
}

/// The orchestrator: the registered backends, in registration order, and the
/// configuration shared by every request.
pub struct VueFinder<A: StorageAdapter> {
    pub storages: Vec<(String, A)>,
    pub config: VueFinderConfig,
}

impl<A: StorageAdapter> VueFinder<A> {
    /// The registry is sound: names are unique, each backend reports the name
    /// it is registered under, and each backend is internally well-formed.
    pub open spec fn wf(&self) -> bool {
        &&& forall|i: int, j: int|
            0 <= i < j < self.storages@.len() ==> self.storages@[i].0@ != self.storages@[j].0@
        &&& forall|i: int|
            0 <= i < self.storages@.len() ==> (#[trigger] self.storages@[i].1).inv()
                && self.storages@[i].1.spec_name() == self.storages@[i].0@
    }

    /// Whether some backend is registered under `name`.
    pub open spec fn has_adapter(&self, name: Seq<char>) -> bool {
        exists|i: int| 0 <= i < self.storages@.len() && (#[trigger] self.storages@[i].0@) == name
    }

    /// The position of the backend registered under `name`.
    pub open spec fn index_of_name(&self, name: Seq<char>) -> int {
        choose|i: int| 0 <= i < self.storages@.len() && (#[trigger] self.storages@[i].0@) == name
    }

    /// The name a request resolves to: the requested one when registered,
    /// else the first registered name, else nothing.
    pub open spec fn default_name(&self, req: Option<Seq<char>>) -> Seq<char> {
        match req {
            Option::Some(n) => if self.has_adapter(n) {
                n
            } else if self.storages@.len() > 0 {
                self.storages@[0].0@
            } else {
                Seq::empty()
            },
            Option::None => if self.storages@.len() > 0 {
                self.storages@[0].0@
            } else {
                Seq::empty()
            },
        }
    }

    /// The backend a request with fallback lands on: the requested one when
    /// registered, else the first.
    pub open spec fn chosen_index(&self, req: Option<Seq<char>>) -> int {
        match req {
            Option::Some(n) => if self.has_adapter(n) {
                self.index_of_name(n)
            } else {
                0
            },
            Option::None => 0,
        }
    }

    /// The name an exact request uses: the requested one, or the empty name.
    pub open spec fn exact_name(req: Option<Seq<char>>) -> Seq<char> {
        match req {
            Option::Some(n) => n,
            Option::None => Seq::empty(),
        }
    }

    /// Whether an exact request names a registered backend.
    pub open spec fn has_exact(&self, req: Option<Seq<char>>) -> bool {
        self.has_adapter(Self::exact_name(req))
    }

    /// The backend an exact request lands on.
    pub open spec fn exact_index(&self, req: Option<Seq<char>>) -> int {
        self.index_of_name(Self::exact_name(req))
    }

    /// The directory a request lists: the given path, or the chosen
    /// backend's own root.
    pub open spec fn dirname_of(&self, req: Option<Seq<char>>, path: Option<Seq<char>>) -> Seq<
        char,
    > {
        match path {
            Option::Some(s) => s,
            Option::None => self.default_name(req) + "://"@,
        }
    }

    /// The registry and configuration of `post` equal those of `pre` but for
    /// the state of the backend at `idx`, which keeps its name.
    pub open spec fn same_shape(pre: Self, post: Self, idx: int) -> bool {
        &&& post.config == pre.config
        &&& post.storages@.len() == pre.storages@.len()
        &&& forall|j: int|
            0 <= j < pre.storages@.len() && j != idx ==> post.storages@[j] == pre.storages@[j]
        &&& 0 <= idx < pre.storages@.len()
        &&& post.storages@[idx].0 == pre.storages@[idx].0
        &&& post.storages@[idx].1.spec_name() == pre.storages@[idx].1.spec_name()
        &&& post.wf()
    }

    /// Finds the backend registered under exactly `name`.
    fn find_adapter_index(&self, name: &str) -> (r: Option<usize>)
        requires
            self.wf(),
        ensures
            match r {
                Some(i) => i < self.storages@.len() && self.storages@[i as int].0@ == name@
                    && self.index_of_name(name@) == i as int && self.has_adapter(name@),
                None => !self.has_adapter(name@),
            },
    {
        let mut i: usize = 0;
        while i < self.storages.len()
            invariant
                0 <= i <= self.storages@.len(),
                self.wf(),
                forall|j: int| 0 <= j < i ==> (#[trigger] self.storages@[j].0@) != name@,
            decreases self.storages@.len() - i,
        {
            if str_eq(self.storages[i].0.as_str(), name) {
                proof {
                    let w = self.index_of_name(name@);
                    assert(0 <= w < self.storages@.len() && self.storages@[w].0@ == name@);
                    if w != i as int {
                        assert(false);
                    }
                }
                return Some(i);
            }
            i += 1;
        }
        None
    }

    /// The name a request falls back to: the requested backend when it is
    /// registered, else the first registered backend's name.
    pub fn get_default_adapter(&self, adapter: Option<String>) -> (r: String)
        requires
            self.wf(),
        ensures
            r@ == self.default_name(adapter.deep_view()),
    {
        match &adapter {
            Some(a) => {
                match self.find_adapter_index(a.as_str()) {
                    Some(_) => a.clone(),
                    None => {
                        if self.storages.len() > 0 {
                            self.storages[0].0.clone()
                        } else {
                            String::new()
                        }
                    },
                }
            },
            None => {
                if self.storages.len() > 0 {
                    self.storages[0].0.clone()
                } else {
                    String::new()
                }
            },
        }
    }

    /// The backend a request with fallback lands on, if any is registered.
    pub fn get_storage(&self, adapter: Option<String>) -> (r: Option<&A>)
        requires
            self.wf(),
        ensures
            match r {
                Some(a) => self.storages@.len() > 0 && *a == self.storages@[self.chosen_index(
                    adapter.deep_view(),
                )].1,
                None => self.storages@.len() == 0,
            },
    {
        if self.storages.len() == 0 {
            return None;
        }
        match &adapter {
            Some(a) => {
                match self.find_adapter_index(a.as_str()) {
                    Some(i) => Some(&self.storages[i].1),
                    None => Some(&self.storages[0].1),
                }
            },
            None => Some(&self.storages[0].1),
        }
    }

    /// Gives the node the URL of the first configured link whose prefix
    /// opens its path; directories and unmatched paths keep what they had.
    pub fn set_public_links(&self, node: &mut FileNode)
        ensures
            final(node).storage_item == old(node).storage_item,
            final(node).url.deep_view() == ({
                let m = first_link_match(self.config.links(), old(node).storage_item.path@);
                if old(node).storage_item.node_type@ != "dir"@ && m is Some {
                    Option::Some(m->Some_0)
                } else {
                    old(node).url.deep_view()
                }
            }),
    {
        let links = match &self.config.public_links {
            Some(v) => v,
            None => {
                return ;
            },
        };
        if str_eq(node.storage_item.node_type.as_str(), "dir") {
            proof {
                reveal_strlit("dir");
            }
            return ;
        }
        proof {
            reveal_strlit("dir");
        }
        let ghost lks = self.config.links();
        proof {
            assert(lks.skip(0) =~= lks);
        }
        let mut i: usize = 0;
        while i < links.len()
            invariant
                0 <= i <= links@.len(),
                lks == self.config.links(),
                self.config.public_links matches Some(v) && v == links,
                lks.len() == links@.len(),
                forall|j: int| 0 <= j < lks.len() ==> lks[j] == ((#[trigger] links@[j]).0@, links@[j].1@),
                first_link_match(lks, node.storage_item.path@) == first_link_match(
                    lks.skip(i as int),
                    node.storage_item.path@,
                ),
                *node == *old(node),
                old(node).storage_item.node_type@ != "dir"@,
            decreases links@.len() - i,
        {
            let prefix: &String = &links[i].0;
            if str_starts_with(node.storage_item.path.as_str(), prefix.as_str()) {
                let plen: usize = prefix.unicode_len();
                let n: usize = node.storage_item.path.unicode_len();
                let tail: &str = node.storage_item.path.substring_char(plen, n);
                let url: String = links[i].1.clone().concat(tail);
                proof {
                    assert(tail@ =~= node.storage_item.path@.skip(plen as int));
                    assert(lks.skip(i as int)[0] == lks[i as int]);
                    assert(lks[i as int].0.is_prefix_of(node.storage_item.path@));
                    assert(url@ == lks[i as int].1 + node.storage_item.path@.skip(
                        lks[i as int].0.len() as int,
                    ));
                }
                node.url = Some(url);
                return ;
            }
            proof {
                assert(lks.skip(i as int)[0] == lks[i as int]);
                assert(!lks[i as int].0.is_prefix_of(node.storage_item.path@));
                assert(lks.skip(i as int).skip(1) =~= lks.skip(i + 1));
            }
            i += 1;
        }
        proof {
            assert(lks.skip(i as int).len() == 0);
        }
    }

    /// Lists a directory of the backend at `idx` and projects every entry to
    /// a node with its public URL.
    fn list_nodes(&self, idx: usize, dirname: &str) -> (r: Result<Vec<FileNode>, FinderError>)
        requires
            self.wf(),
            idx < self.storages@.len(),
        ensures
            match r {
                Ok(nodes) => {
                    &&& list_ok_at(self.storages@[idx as int].1.fs(), dirname@)
                    &&& nodes_match(
                        self.config,
                        self.storages@[idx as int].1.fs(),
                        self.storages@[idx as int].1.spec_name(),
                        resolve_spec(dirname@)->Some_0,
                        nodes@,
                    )
                },
                Err(e) => e matches FinderError::Storage(se) && list_fail(
                    self.storages@[idx as int].1.fs(),
                    dirname@,
                    se.kind(),
                ),
            },
    {
        let mut items = match self.storages[idx].1.list_contents(dirname) {
            Ok(v) => v,
            Err(se) => {
                return Err(FinderError::Storage(se));
            },
        };
        let ghost all = items@;
        let ghost fs = self.storages@[idx as int].1.fs();
        let ghost name = self.storages@[idx as int].1.spec_name();
        let ghost parent = resolve_spec(dirname@)->Some_0;
        let mut nodes: Vec<FileNode> = Vec::new();
        let mut i: usize = 0;
        while i < items.len()
            invariant
                0 <= i <= items@.len(),
                self.wf(),
                items@ == all,
                nodes@.len() == i,
                forall|t: int|
                    0 <= t < i ==> (#[trigger] nodes@[t]).storage_item == all[t]
                        && nodes@[t].url.deep_view() == node_url_of(self.config, all[t]),
            decreases items@.len() - i,
        {
            let item = StorageItem {
                node_type: items[i].node_type.clone(),
                path: items[i].path.clone(),
                basename: items[i].basename.clone(),
                extension: match &items[i].extension {
                    Some(e) => Some(e.clone()),
                    None => None,
                },
                mime_type: match &items[i].mime_type {
                    Some(m) => Some(m.clone()),
                    None => None,
                },
                last_modified: items[i].last_modified,
                size: items[i].size,
            };
            proof {
                assert(item == all[i as int]);
            }
            let mut node = FileNode { storage_item: item, url: None };
            self.set_public_links(&mut node);
            let ghost prev = nodes@;
            nodes.push(node);
            proof {
                assert forall|t: int| 0 <= t < i + 1 implies (#[trigger] nodes@[t]).storage_item
                    == all[t] && nodes@[t].url.deep_view() == node_url_of(self.config, all[t]) by {
                    assert(nodes@[t] == prev.push(node)[t]);
                    if t < i {
                        assert(prev.push(node)[t] == prev[t]);
                    } else {
                        assert(prev.push(node)[t] == node);
                    }
                }
            }
            i += 1;
        }
        proof {
            assert(nodes@.map_values(|n: FileNode| n.storage_item) =~= all);
            assert(list_matches(fs, name, parent, nodes@.map_values(|n: FileNode| n.storage_item)));
        }
        Ok(nodes)
    }
}

/// The string an optional request field carries, empty when absent.
pub open spec fn opt_str(o: Option<Seq<char>>) -> Seq<char> {
    match o {
        Option::Some(s) => s,
        Option::None => Seq::empty(),
    }
}

/// A copy of one listed entry.
fn clone_item(it: &StorageItem) -> (r: StorageItem)
    ensures
        r == *it,
{
    StorageItem {
        node_type: it.node_type.clone(),
        path: it.path.clone(),
        basename: it.basename.clone(),
        extension: match &it.extension {
            Some(e) => Some(e.clone()),
            None => None,
        },
        mime_type: match &it.mime_type {
            Some(m) => Some(m.clone()),
            None => None,
        },
        last_modified: it.last_modified,
        size: it.size,
    }
}

/// The items are exactly the directory children of `parent`, each described
/// correctly and none listed twice.
pub open spec fn dir_items_match(
    fs: FsModel,
    name: Seq<char>,
    parent: Seq<Seq<char>>,
    items: Seq<StorageItem>,
) -> bool {
    &&& forall|i: int|
        0 <= i < items.len() ==> item_matches(fs, name, parent, #[trigger] items[i])
            && items[i].node_type@ == "dir"@
    &&& forall|c: Seq<Seq<char>>|
        #[trigger] is_child(fs, parent, c) && fs[c] is Dir ==> exists|i: int|
            0 <= i < items.len() && (#[trigger] items[i].basename@) == c[parent.len() as int]
    &&& forall|i: int, j: int|
        0 <= i < j < items.len() ==> items[i].basename@ != items[j].basename@
}

/// The item is a file whose lowercased name contains the lowercased filter.
pub open spec fn search_hit(item: StorageItem, filter: Seq<char>) -> bool {
    item.node_type@ == "file"@ && contains_sub(lower_of(item.basename@), lower_of(filter))
}

/// The items are exactly the file children of `parent` whose names match the
/// filter, each described correctly and none listed twice.
pub open spec fn search_items_match(
    fs: FsModel,
    name: Seq<char>,
    parent: Seq<Seq<char>>,
    filter: Seq<char>,
    items: Seq<StorageItem>,
) -> bool {
    &&& forall|i: int|
        0 <= i < items.len() ==> item_matches(fs, name, parent, #[trigger] items[i]) && search_hit(
            items[i],
            filter,
        )
    &&& forall|c: Seq<Seq<char>>|
        #[trigger] is_child(fs, parent, c) && fs[c] is File && contains_sub(
            lower_of(c[parent.len() as int]),
            lower_of(filter),
        ) ==> exists|i: int|
            0 <= i < items.len() && (#[trigger] items[i].basename@) == c[parent.len() as int]
    &&& forall|i: int, j: int|
        0 <= i < j < items.len() ==> items[i].basename@ != items[j].basename@
}

impl<A: StorageAdapter> VueFinder<A> {
    /// Lists the directory a request names, over the backend the request
    /// falls back to, projecting every entry to a node with its URL.
    pub fn index(&self, adapter: Option<String>, path: Option<String>) -> (r: Result<
        Vec<FileNode>,
        FinderError,
    >)
        requires
            self.wf(),
        ensures
            match r {
                Ok(nodes) => {
                    let idx = self.chosen_index(adapter.deep_view());
                    let dirname = self.dirname_of(adapter.deep_view(), path.deep_view());
                    &&& self.storages@.len() > 0
                    &&& list_ok_at(self.storages@[idx].1.fs(), dirname)
                    &&& nodes_match(
                        self.config,
                        self.storages@[idx].1.fs(),
                        self.storages@[idx].1.spec_name(),
                        resolve_spec(dirname)->Some_0,
                        nodes@,
                    )
                },
                Err(FinderError::NoAdapter) => self.storages@.len() == 0,
                Err(FinderError::Storage(se)) => self.storages@.len() > 0 && list_fail(
                    self.storages@[self.chosen_index(adapter.deep_view())].1.fs(),
                    self.dirname_of(adapter.deep_view(), path.deep_view()),
                    se.kind(),
                ),
                Err(_) => false,
            },
    {
        if self.storages.len() == 0 {
            return Err(FinderError::NoAdapter);
        }
        let ghost req = adapter.deep_view();
        let name = self.get_default_adapter(adapter);
        let idx: usize = match self.find_adapter_index(name.as_str()) {
            Some(i) => i,
            None => {
                proof {
                    assert(self.storages@[0].0@ == name@);
                    assert(false);
                }
                0
            },
        };
        proof {
            assert(idx as int == self.chosen_index(req)) by {
                match req {
                    Option::Some(n) => {
                        if self.has_adapter(n) {
                            assert(name@ == n);
                        } else {
                            assert(name@ == self.storages@[0].0@);
                            assert(idx == 0 || self.storages@[idx as int].0@ != self.storages@[0].0@);
                        }
                    },
                    Option::None => {
                        assert(name@ == self.storages@[0].0@);
                        assert(idx == 0 || self.storages@[idx as int].0@ != self.storages@[0].0@);
                    },
                }
            }
        }
        let dirname: String = match path {
            Some(s) => s,
            None => name.concat("://"),
        };
        self.list_nodes(idx, dirname.as_str())
    }

    /// Lists the directory children of the directory a request names.
    #[verifier::loop_isolation(false)]
    pub fn subfolders(&self, adapter: Option<String>, path: Option<String>) -> (r: Result<
        Vec<StorageItem>,
        FinderError,
    >)
        requires
            self.wf(),
        ensures
            match r {
                Ok(items) => {
                    let idx = self.chosen_index(adapter.deep_view());
                    let dirname = opt_str(path.deep_view());
                    &&& self.storages@.len() > 0
                    &&& list_ok_at(self.storages@[idx].1.fs(), dirname)
                    &&& dir_items_match(
                        self.storages@[idx].1.fs(),
                        self.storages@[idx].1.spec_name(),
                        resolve_spec(dirname)->Some_0,
                        items@,
                    )
                },
                Err(FinderError::NoAdapter) => self.storages@.len() == 0,
                Err(FinderError::Storage(se)) => self.storages@.len() > 0 && list_fail(
                    self.storages@[self.chosen_index(adapter.deep_view())].1.fs(),
                    opt_str(path.deep_view()),
                    se.kind(),
                ),
                Err(_) => false,
            },
    {
        if self.storages.len() == 0 {
            return Err(FinderError::NoAdapter);
        }
        let ghost req = adapter.deep_view();
        let name = self.get_default_adapter(adapter);
        let idx: usize = match self.find_adapter_index(name.as_str()) {
            Some(i) => i,
            None => {
                proof {
                    assert(self.storages@[0].0@ == name@);
                    assert(false);
                }
                0
            },
        };
        proof {
            assert(idx as int == self.chosen_index(req)) by {
                match req {
                    Option::Some(n) => {
                        if self.has_adapter(n) {
                            assert(name@ == n);
                        } else {
                            assert(name@ == self.storages@[0].0@);
                            assert(idx == 0 || self.storages@[idx as int].0@ != self.storages@[0].0@);
                        }
                    },
                    Option::None => {
                        assert(name@ == self.storages@[0].0@);
                        assert(idx == 0 || self.storages@[idx as int].0@ != self.storages@[0].0@);
                    },
                }
            }
        }
        let dirname: String = match path {
            Some(s) => s,
            None => String::new(),
        };
        let items = match self.storages[idx].1.list_contents(dirname.as_str()) {
            Ok(v) => v,
            Err(se) => {
                return Err(FinderError::Storage(se));
            },
        };
        let ghost all = items@;
        let ghost fs = self.storages@[idx as int].1.fs();
        let ghost sname = self.storages@[idx as int].1.spec_name();
        let ghost parent = resolve_spec(dirname@)->Some_0;
        let mut out: Vec<StorageItem> = Vec::new();
        let mut i: usize = 0;
        while i < items.len()
            invariant
                0 <= i <= items@.len(),
                items@ == all,
                list_matches(fs, sname, parent, all),
                forall|t2: int|
                    0 <= t2 < out@.len() ==> exists|t: int|
                        0 <= t < i && (#[trigger] out@[t2]) == all[t],
                forall|t2: int|
                    0 <= t2 < out@.len() ==> item_matches(fs, sname, parent, #[trigger] out@[t2])
                        && out@[t2].node_type@ == "dir"@,
                forall|t: int|
                    0 <= t < i && (#[trigger] all[t].node_type@) == "dir"@ ==> exists|t2: int|
                        0 <= t2 < out@.len() && (#[trigger] out@[t2].basename@) == all[t].basename@,
                forall|t1: int, t2: int|
                    0 <= t1 < t2 < out@.len() ==> out@[t1].basename@ != out@[t2].basename@,
            decreases items@.len() - i,
        {
            proof {
                reveal_strlit("dir");
            }
            if str_eq(items[i].node_type.as_str(), "dir") {
                let copied = clone_item(&items[i]);
                let ghost prev = out@;
                out.push(copied);
                proof {
                    assert forall|t2: int| 0 <= t2 < out@.len() implies exists|t: int|
                        0 <= t < i + 1 && (#[trigger] out@[t2]) == all[t] by {
                        assert(out@[t2] == prev.push(copied)[t2]);
                        if t2 < prev.len() {
                            assert(out@[t2] == prev[t2]);
                            let t = choose|t: int| 0 <= t < i && (#[trigger] prev[t2]) == all[t];
                            assert(out@[t2] == all[t]);
                        } else {
                            assert(out@[t2] == all[i as int]);
                        }
                    }
                    assert forall|t: int|
                        0 <= t < i + 1 && (#[trigger] all[t].node_type@) == "dir"@ implies exists|
                        t2: int|
                        0 <= t2 < out@.len() && (#[trigger] out@[t2].basename@)
                            == all[t].basename@ by {
                        if t < i {
                            let t2 = choose|t2: int|
                                0 <= t2 < prev.len() && (#[trigger] prev[t2].basename@)
                                    == all[t].basename@;
                            assert(out@[t2] == prev.push(copied)[t2]);
                            assert(out@[t2].basename@ == all[t].basename@);
                        } else {
                            assert(out@[out@.len() - 1] == copied);
                        }
                    }
                    assert forall|t1: int, t2: int| 0 <= t1 < t2 < out@.len() implies out@[t1].basename@
                        != out@[t2].basename@ by {
                        assert(out@[t1] == prev.push(copied)[t1]);
                        assert(out@[t2] == prev.push(copied)[t2]);
                        if t2 == out@.len() - 1 {
                            let ta = choose|t: int| 0 <= t < i && (#[trigger] prev[t1]) == all[t];
                            assert(all[ta].basename@ != all[i as int].basename@);
                        }
                    }
                }
            } else {
                proof {
                    assert(all[i as int].node_type@ != "dir"@);
                }
            }
            i += 1;
        }
        proof {
            assert forall|c: Seq<Seq<char>>|
                #[trigger] is_child(fs, parent, c) && fs[c] is Dir implies exists|t2: int|
                0 <= t2 < out@.len() && (#[trigger] out@[t2].basename@) == c[parent.len() as int] by {
                let t = choose|t: int|
                    0 <= t < all.len() && (#[trigger] all[t].basename@) == c[parent.len() as int];
                assert(item_matches(fs, sname, parent, all[t]));
                assert(parent.push(all[t].basename@) =~= c);
                assert(all[t].node_type@ == "dir"@);
            }
        }
        Ok(out)
    }

    /// Reads one file for download: its bytes, its base name, and its media
    /// type.
    pub fn download(&self, adapter: Option<String>, path: Option<String>) -> (r: Result<
        (Vec<u8>, String, String),
        FinderError,
    >)
        requires
            self.wf(),
        ensures
            match r {
                Ok((data, filename, mime)) => {
                    let idx = self.exact_index(adapter.deep_view());
                    let pathname = opt_str(path.deep_view());
                    &&& self.has_exact(adapter.deep_view())
                    &&& read_result(self.storages@[idx].1.fs(), pathname) == Ok::<Seq<u8>, ErrKind>(
                        data@,
                    )
                    &&& filename@ == basename_spec(pathname)
                    &&& mime@ == mime_guess_of(pathname)
                },
                Err(FinderError::NoAdapter) => !self.has_exact(adapter.deep_view()),
                Err(FinderError::Storage(se)) => self.has_exact(adapter.deep_view())
                    && read_result(
                    self.storages@[self.exact_index(adapter.deep_view())].1.fs(),
                    opt_str(path.deep_view()),
                ) == Err::<Seq<u8>, ErrKind>(se.kind()),
                Err(_) => false,
            },
    {
        let idx = match self.exact_adapter_index(&adapter) {
            Some(i) => i,
            None => {
                return Err(FinderError::NoAdapter);
            },
        };
        let pathname: String = match path {
            Some(s) => s,
            None => String::new(),
        };
        let data = match self.storages[idx].1.read(pathname.as_str()) {
            Ok(d) => d,
            Err(se) => {
                return Err(FinderError::Storage(se));
            },
        };
        let filename = crate::resolve::basename_of(pathname.as_str());
        let mime = mime_of(pathname.as_str());
        Ok((data, filename, mime))
    }

    /// Reads one file for preview: its bytes and its media type.
    pub fn preview(&self, adapter: Option<String>, path: Option<String>) -> (r: Result<
        (Vec<u8>, String),
        FinderError,
    >)
        requires
            self.wf(),
        ensures
            match r {
                Ok((data, mime)) => {
                    let idx = self.exact_index(adapter.deep_view());
                    let pathname = opt_str(path.deep_view());
                    &&& self.has_exact(adapter.deep_view())
                    &&& read_result(self.storages@[idx].1.fs(), pathname) == Ok::<Seq<u8>, ErrKind>(
                        data@,
                    )
                    &&& mime@ == mime_guess_of(pathname)
                },
                Err(FinderError::NoAdapter) => !self.has_exact(adapter.deep_view()),
                Err(FinderError::Storage(se)) => self.has_exact(adapter.deep_view())
                    && read_result(
                    self.storages@[self.exact_index(adapter.deep_view())].1.fs(),
                    opt_str(path.deep_view()),
                ) == Err::<Seq<u8>, ErrKind>(se.kind()),
                Err(_) => false,
            },
    {
        let idx = match self.exact_adapter_index(&adapter) {
            Some(i) => i,
            None => {
                return Err(FinderError::NoAdapter);
            },
        };
        let pathname: String = match path {
            Some(s) => s,
            None => String::new(),
        };
        let data = match self.storages[idx].1.read(pathname.as_str()) {
            Ok(d) => d,
            Err(se) => {
                return Err(FinderError::Storage(se));
            },
        };
        let mime = mime_of(pathname.as_str());
        Ok((data, mime))
    }

    /// Finds the backend an exact request names, if it is registered.
    fn exact_adapter_index(&self, adapter: &Option<String>) -> (r: Option<usize>)
        requires
            self.wf(),
        ensures
            match r {
                Some(i) => self.has_exact(adapter.deep_view()) && i as int == self.exact_index(
                    adapter.deep_view(),
                ) && i < self.storages@.len(),
                None => !self.has_exact(adapter.deep_view()),
            },
    {
        let empty = String::new();
        let name: &String = match adapter {
            Some(a) => a,
            None => &empty,
        };
        self.find_adapter_index(name.as_str())
    }
}

/// What one read-copy-delete step leaves behind: its result, and the state
/// the backend holds afterwards, failed steps included.
pub open spec fn rename_effect(fs: FsModel, item: Seq<char>, dst: Seq<char>) -> (
    Result<FsModel, ErrKind>,
    FsModel,
) {
    match read_result(fs, item) {
        Err(k) => (Err(k), fs),
        Ok(d) => match write_result(fs, dst, d) {
            Err(k) => (Err(k), fs),
            Ok(fs1) => match delete_result(fs1, item) {
                Err(k) => (Err(k), fs1),
                Ok(fs2) => (Ok(fs2), fs2),
            },
        },
    }
}

/// What deleting the items in order leaves behind; the first failure stops
/// the batch, already-deleted items stay deleted.
pub open spec fn delete_all(fs: FsModel, items: Seq<Seq<char>>) -> (Result<FsModel, ErrKind>, FsModel)
    decreases items.len(),
{
    if items.len() == 0 {
        (Ok(fs), fs)
    } else {
        match delete_result(fs, items[0]) {
            Err(k) => (Err(k), fs),
            Ok(fs1) => delete_all(fs1, items.skip(1)),
        }
    }
}

/// The path an item lands on when moved into `dir`: the directory joined
/// with the item's base name.
pub open spec fn target_of(dir: Seq<char>, item: Seq<char>) -> Seq<char> {
    sub_path_spec(dir, basename_spec(item))
}

/// Some item's move target already exists.
pub open spec fn move_collision(fs: FsModel, dir: Seq<char>, items: Seq<Seq<char>>) -> bool {
    exists|i: int|
        0 <= i < items.len() && exists_result(fs, #[trigger] target_of(dir, items[i])) == Ok::<
            bool,
            ErrKind,
        >(true)
}

/// What moving the items into `dir`, in order, leaves behind; the first
/// failing step stops the batch, already-moved items stay moved.
pub open spec fn move_all(fs: FsModel, dir: Seq<char>, items: Seq<Seq<char>>) -> (
    Result<FsModel, ErrKind>,
    FsModel,
)
    decreases items.len(),
{
    if items.len() == 0 {
        (Ok(fs), fs)
    } else {
        let step = rename_effect(fs, items[0], target_of(dir, items[0]));
        match step.0 {
            Err(k) => (Err(k), step.1),
            Ok(_) => move_all(step.1, dir, items.skip(1)),
        }
    }
}

impl<A: StorageAdapter> VueFinder<A> {
    /// Writes a file on the backend at `idx`, leaving the registry shape
    /// untouched.
    fn adapter_write(&mut self, idx: usize, path: &str, contents: Vec<u8>) -> (r: Result<
        (),
        StorageError,
    >)
        requires
            old(self).wf(),
            idx < old(self).storages@.len(),
        ensures
            Self::same_shape(*old(self), *final(self), idx as int),
            match r {
                Ok(_) => write_result(old(self).storages@[idx as int].1.fs(), path@, contents@)
                    == Ok::<FsModel, ErrKind>(final(self).storages@[idx as int].1.fs()),
                Err(e) => write_result(old(self).storages@[idx as int].1.fs(), path@, contents@)
                    == Err::<FsModel, ErrKind>(e.kind()) && final(self).storages@[idx as int].1.fs()
                    == old(self).storages@[idx as int].1.fs(),
            },
    {
        let pair = &mut self.storages[idx];
        let r = pair.1.write(path, contents);
        proof {
            self.lemma_same_shape(*old(self), idx as int);
        }
        r
    }

    /// Deletes an entry on the backend at `idx`.
    fn adapter_delete(&mut self, idx: usize, path: &str) -> (r: Result<(), StorageError>)
        requires
            old(self).wf(),
            idx < old(self).storages@.len(),
        ensures
            Self::same_shape(*old(self), *final(self), idx as int),
            match r {
                Ok(_) => delete_result(old(self).storages@[idx as int].1.fs(), path@) == Ok::<
                    FsModel,
                    ErrKind,
                >(final(self).storages@[idx as int].1.fs()),
                Err(e) => delete_result(old(self).storages@[idx as int].1.fs(), path@) == Err::<
                    FsModel,
                    ErrKind,
                >(e.kind()) && final(self).storages@[idx as int].1.fs() == old(
                    self,
                ).storages@[idx as int].1.fs(),
            },
    {
        let pair = &mut self.storages[idx];
        let r = pair.1.delete(path);
        proof {
            self.lemma_same_shape(*old(self), idx as int);
        }
        r
    }

    /// Creates a directory on the backend at `idx`.
    fn adapter_create_dir(&mut self, idx: usize, path: &str) -> (r: Result<(), StorageError>)
        requires
            old(self).wf(),
            idx < old(self).storages@.len(),
        ensures
            Self::same_shape(*old(self), *final(self), idx as int),
            match r {
                Ok(_) => create_dir_result(old(self).storages@[idx as int].1.fs(), path@) == Ok::<
                    FsModel,
                    ErrKind,
                >(final(self).storages@[idx as int].1.fs()),
                Err(e) => create_dir_result(old(self).storages@[idx as int].1.fs(), path@)
                    == Err::<FsModel, ErrKind>(e.kind()) && final(self).storages@[idx as int].1.fs()
                    == old(self).storages@[idx as int].1.fs(),
            },
    {
        let pair = &mut self.storages[idx];
        let r = pair.1.create_dir(path);
        proof {
            self.lemma_same_shape(*old(self), idx as int);
        }
        r
    }

    /// A mutation of the backend at `idx` keeps the registry's shape.
    proof fn lemma_same_shape(&self, pre: Self, idx: int)
        requires
            pre.wf(),
            0 <= idx < pre.storages@.len(),
            self.config == pre.config,
            self.storages@.len() == pre.storages@.len(),
            forall|j: int|
                0 <= j < pre.storages@.len() && j != idx ==> self.storages@[j] == pre.storages@[j],
            self.storages@[idx].0 == pre.storages@[idx].0,
            self.storages@[idx].1.spec_name() == pre.storages@[idx].1.spec_name(),
            self.storages@[idx].1.inv(),
        ensures
            Self::same_shape(pre, *self, idx),
    {
        assert forall|i: int, j: int|
            0 <= i < j < self.storages@.len() implies self.storages@[i].0@
            != self.storages@[j].0@ by {
            if i != idx {
                assert(self.storages@[i] == pre.storages@[i]);
            }
            if j != idx {
                assert(self.storages@[j] == pre.storages@[j]);
            }
        }
        assert forall|i: int|
            0 <= i < self.storages@.len() implies (#[trigger] self.storages@[i].1).inv()
            && self.storages@[i].1.spec_name() == self.storages@[i].0@ by {
            if i != idx {
                assert(self.storages@[i] == pre.storages@[i]);
            } else {
                assert(pre.storages@[idx].1.spec_name() == pre.storages@[idx].0@);
            }
        }
        assert(Self::same_shape(pre, *self, idx));
    }

    /// Writes the given text at the named path and hands back the saved
    /// file's bytes and media type.
    pub fn save(&mut self, adapter: Option<String>, path: Option<String>, req: &SaveRequest) -> (r:
        Result<(Vec<u8>, String), FinderError>)
        requires
            old(self).wf(),
        ensures
            final(self).wf(),
            match r {
                Ok((data, mime)) => {
                    let idx = old(self).exact_index(adapter.deep_view());
                    let pathname = opt_str(path.deep_view());
                    &&& old(self).has_exact(adapter.deep_view())
                    &&& Self::same_shape(*old(self), *final(self), idx)
                    &&& write_result(
                        old(self).storages@[idx].1.fs(),
                        pathname,
                        vstd::utf8::encode_utf8(req.content@),
                    ) == Ok::<FsModel, ErrKind>(final(self).storages@[idx].1.fs())
                    &&& data@ == vstd::utf8::encode_utf8(req.content@)
                    &&& mime@ == mime_guess_of(pathname)
                },
                Err(FinderError::NoAdapter) => !old(self).has_exact(adapter.deep_view())
                    && *final(self) == *old(self),
                Err(FinderError::Storage(se)) => {
                    let idx = old(self).exact_index(adapter.deep_view());
                    &&& old(self).has_exact(adapter.deep_view())
                    &&& Self::same_shape(*old(self), *final(self), idx)
                    &&& write_result(
                        old(self).storages@[idx].1.fs(),
                        opt_str(path.deep_view()),
                        vstd::utf8::encode_utf8(req.content@),
                    ) == Err::<FsModel, ErrKind>(se.kind())
                    &&& final(self).storages@[idx].1.fs() == old(self).storages@[idx].1.fs()
                },
                Err(_) => false,
            },
    {
        let idx = match self.exact_adapter_index(&adapter) {
            Some(i) => i,
            None => {
                return Err(FinderError::NoAdapter);
            },
        };
        let pathname: String = match path {
            Some(s) => s,
            None => String::new(),
        };
        let bytes: Vec<u8> = req.content.as_str().as_bytes_vec();
        match self.adapter_write(idx, pathname.as_str(), bytes) {
            Ok(_) => {},
            Err(se) => {
                return Err(FinderError::Storage(se));
            },
        }
        let data = match self.storages[idx].1.read(pathname.as_str()) {
            Ok(d) => d,
            Err(se) => {
                proof {
                    assert(false);
                }
                return Err(FinderError::Storage(se));
            },
        };
        let mime = mime_of(pathname.as_str());
        Ok((data, mime))
    }
}

/// Every item's virtual path resolves.
pub open spec fn all_resolve(items: Seq<Seq<char>>) -> bool {
    forall|i: int| 0 <= i < items.len() ==> resolve_spec(#[trigger] items[i]) is Some
}

impl<A: StorageAdapter> VueFinder<A> {
    /// The backend at `idx` lists `dirname` as `nodes`.
    pub open spec fn relist_ok(&self, idx: int, dirname: Seq<char>, nodes: Seq<FileNode>) -> bool {
        &&& list_ok_at(self.storages@[idx].1.fs(), dirname)
        &&& nodes_match(
            self.config,
            self.storages@[idx].1.fs(),
            self.storages@[idx].1.spec_name(),
            resolve_spec(dirname)->Some_0,
            nodes,
        )
    }

    /// The directory a mutating request relists when it is done: the given
    /// path, or the root of the backend the request named.
    pub open spec fn exact_dirname(req: Option<Seq<char>>, path: Option<Seq<char>>) -> Seq<char> {
        match path {
            Option::Some(s) => s,
            Option::None => Self::exact_name(req) + "://"@,
        }
    }

    /// The relisting directory, as an owned string.
    fn exact_dirname_string(adapter: &Option<String>, path: &Option<String>) -> (r: String)
        ensures
            r@ == Self::exact_dirname(adapter.deep_view(), path.deep_view()),
    {
        match path {
            Some(s) => s.clone(),
            None => {
                let name: String = match adapter {
                    Some(a) => a.clone(),
                    None => String::new(),
                };
                name.concat("://")
            },
        }
    }

    /// Creates a directory called `name` under the request's path and lists
    /// the request's directory afterwards.
    pub fn new_folder(
        &mut self,
        adapter: Option<String>,
        path: Option<String>,
        req: &NewFolderRequest,
    ) -> (r: Result<Vec<FileNode>, FinderError>)
        requires
            old(self).wf(),
        ensures
            final(self).wf(),
            match r {
                Ok(nodes) => {
                    let idx = old(self).exact_index(adapter.deep_view());
                    let dst = sub_path_spec(opt_str(path.deep_view()), req.name@);
                    let dirname = Self::exact_dirname(adapter.deep_view(), path.deep_view());
                    &&& old(self).has_exact(adapter.deep_view())
                    &&& Self::same_shape(*old(self), *final(self), idx)
                    &&& create_dir_result(old(self).storages@[idx].1.fs(), dst) == Ok::<
                        FsModel,
                        ErrKind,
                    >(final(self).storages@[idx].1.fs())
                    &&& final(self).relist_ok(idx, dirname, nodes@)
                },
                Err(FinderError::NoAdapter) => !old(self).has_exact(adapter.deep_view())
                    && *final(self) == *old(self),
                Err(FinderError::Storage(se)) => {
                    let idx = old(self).exact_index(adapter.deep_view());
                    let dst = sub_path_spec(opt_str(path.deep_view()), req.name@);
                    let dirname = Self::exact_dirname(adapter.deep_view(), path.deep_view());
                    let fs0 = old(self).storages@[idx].1.fs();
                    let fs1 = final(self).storages@[idx].1.fs();
                    &&& old(self).has_exact(adapter.deep_view())
                    &&& Self::same_shape(*old(self), *final(self), idx)
                    &&& ((create_dir_result(fs0, dst) == Err::<FsModel, ErrKind>(se.kind()) && fs1
                        == fs0) || (create_dir_result(fs0, dst) == Ok::<FsModel, ErrKind>(fs1)
                        && list_fail(fs1, dirname, se.kind())))
                },
                Err(_) => false,
            },
    {
        let idx = match self.exact_adapter_index(&adapter) {
            Some(i) => i,
            None => {
                return Err(FinderError::NoAdapter);
            },
        };
        let dirname = Self::exact_dirname_string(&adapter, &path);
        let pathname: String = match path {
            Some(s) => s,
            None => String::new(),
        };
        let dst = sub_path(pathname.as_str(), req.name.as_str());
        match self.adapter_create_dir(idx, dst.as_str()) {
            Ok(_) => {},
            Err(se) => {
                return Err(FinderError::Storage(se));
            },
        }
        self.list_nodes(idx, dirname.as_str())
    }

    /// Creates an empty file called `name` under the request's path and
    /// lists the request's directory afterwards.
    pub fn newfile(
        &mut self,
        adapter: Option<String>,
        path: Option<String>,
        req: &NewFileRequest,
    ) -> (r: Result<Vec<FileNode>, FinderError>)
        requires
            old(self).wf(),
        ensures
            final(self).wf(),
            match r {
                Ok(nodes) => {
                    let idx = old(self).exact_index(adapter.deep_view());
                    let dst = sub_path_spec(opt_str(path.deep_view()), req.name@);
                    let dirname = Self::exact_dirname(adapter.deep_view(), path.deep_view());
                    &&& old(self).has_exact(adapter.deep_view())
                    &&& Self::same_shape(*old(self), *final(self), idx)
                    &&& write_result(old(self).storages@[idx].1.fs(), dst, Seq::<u8>::empty())
                        == Ok::<FsModel, ErrKind>(final(self).storages@[idx].1.fs())
                    &&& final(self).relist_ok(idx, dirname, nodes@)
                },
                Err(FinderError::NoAdapter) => !old(self).has_exact(adapter.deep_view())
                    && *final(self) == *old(self),
                Err(FinderError::Storage(se)) => {
                    let idx = old(self).exact_index(adapter.deep_view());
                    let dst = sub_path_spec(opt_str(path.deep_view()), req.name@);
                    let dirname = Self::exact_dirname(adapter.deep_view(), path.deep_view());
                    let fs0 = old(self).storages@[idx].1.fs();
                    let fs1 = final(self).storages@[idx].1.fs();
                    &&& old(self).has_exact(adapter.deep_view())
                    &&& Self::same_shape(*old(self), *final(self), idx)
                    &&& ((write_result(fs0, dst, Seq::<u8>::empty()) == Err::<FsModel, ErrKind>(
                        se.kind(),
                    ) && fs1 == fs0) || (write_result(fs0, dst, Seq::<u8>::empty()) == Ok::<
                        FsModel,
                        ErrKind,
                    >(fs1) && list_fail(fs1, dirname, se.kind())))
                },
                Err(_) => false,
            },
    {
        let idx = match self.exact_adapter_index(&adapter) {
            Some(i) => i,
            None => {
                return Err(FinderError::NoAdapter);
            },
        };
        let dirname = Self::exact_dirname_string(&adapter, &path);
        let pathname: String = match path {
            Some(s) => s,
            None => String::new(),
        };
        let dst = sub_path(pathname.as_str(), req.name.as_str());
        match self.adapter_write(idx, dst.as_str(), Vec::new()) {
            Ok(_) => {},
            Err(se) => {
                return Err(FinderError::Storage(se));
            },
        }
        self.list_nodes(idx, dirname.as_str())
    }

    /// Stores one uploaded file under the request's path and lists that
    /// directory afterwards; the backend falls back to the first registered
    /// one, as browsing does.
    pub fn upload(
        &mut self,
        adapter: Option<String>,
        path: Option<String>,
        filename: &str,
        data: Vec<u8>,
    ) -> (r: Result<Vec<FileNode>, FinderError>)
        requires
            old(self).wf(),
        ensures
            final(self).wf(),
            match r {
                Ok(nodes) => {
                    let idx = old(self).chosen_index(adapter.deep_view());
                    let dst = sub_path_spec(opt_str(path.deep_view()), filename@);
                    let dirname = old(self).dirname_of(adapter.deep_view(), path.deep_view());
                    &&& old(self).storages@.len() > 0
                    &&& Self::same_shape(*old(self), *final(self), idx)
                    &&& write_result(old(self).storages@[idx].1.fs(), dst, data@) == Ok::<
                        FsModel,
                        ErrKind,
                    >(final(self).storages@[idx].1.fs())
                    &&& final(self).relist_ok(idx, dirname, nodes@)
                },
                Err(FinderError::NoAdapter) => old(self).storages@.len() == 0 && *final(self)
                    == *old(self),
                Err(FinderError::Storage(se)) => {
                    let idx = old(self).chosen_index(adapter.deep_view());
                    let dst = sub_path_spec(opt_str(path.deep_view()), filename@);
                    let dirname = old(self).dirname_of(adapter.deep_view(), path.deep_view());
                    let fs0 = old(self).storages@[idx].1.fs();
                    let fs1 = final(self).storages@[idx].1.fs();
                    &&& old(self).storages@.len() > 0
                    &&& Self::same_shape(*old(self), *final(self), idx)
                    &&& ((write_result(fs0, dst, data@) == Err::<FsModel, ErrKind>(se.kind())
                        && fs1 == fs0) || (write_result(fs0, dst, data@) == Ok::<FsModel, ErrKind>(
                        fs1,
                    ) && list_fail(fs1, dirname, se.kind())))
                },
                Err(_) => false,
            },
    {
        if self.storages.len() == 0 {
            return Err(FinderError::NoAdapter);
        }
        let ghost req = adapter.deep_view();
        let name = self.get_default_adapter(adapter);
        let idx: usize = match self.find_adapter_index(name.as_str()) {
            Some(i) => i,
            None => {
                proof {
                    assert(self.storages@[0].0@ == name@);
                    assert(false);
                }
                0
            },
        };
        proof {
            assert(idx as int == self.chosen_index(req)) by {
                match req {
                    Option::Some(n) => {
                        if self.has_adapter(n) {
                            assert(name@ == n);
                        } else {
                            assert(name@ == self.storages@[0].0@);
                            assert(idx == 0 || self.storages@[idx as int].0@ != self.storages@[0].0@);
                        }
                    },
                    Option::None => {
                        assert(name@ == self.storages@[0].0@);
                        assert(idx == 0 || self.storages@[idx as int].0@ != self.storages@[0].0@);
                    },
                }
            }
        }
        let dirname: String = match &path {
            Some(s) => s.clone(),
            None => name.concat("://"),
        };
        let pathname: String = match path {
            Some(s) => s,
            None => String::new(),
        };
        let dst = sub_path(pathname.as_str(), filename);
        match self.adapter_write(idx, dst.as_str(), data) {
            Ok(_) => {},
            Err(se) => {
                return Err(FinderError::Storage(se));
            },
        }
        self.list_nodes(idx, dirname.as_str())
    }

    /// Renames one entry by copying its bytes to the new name and deleting
    /// the original, in that order, then lists the request's directory.
    pub fn rename(
        &mut self,
        adapter: Option<String>,
        path: Option<String>,
        req: &RenameRequest,
    ) -> (r: Result<Vec<FileNode>, FinderError>)
        requires
            old(self).wf(),
        ensures
            final(self).wf(),
            match r {
                Ok(nodes) => {
                    let idx = old(self).exact_index(adapter.deep_view());
                    let dst = sub_path_spec(opt_str(path.deep_view()), req.name@);
                    let dirname = Self::exact_dirname(adapter.deep_view(), path.deep_view());
                    let eff = rename_effect(old(self).storages@[idx].1.fs(), req.item@, dst);
                    &&& old(self).has_exact(adapter.deep_view())
                    &&& Self::same_shape(*old(self), *final(self), idx)
                    &&& eff.0 is Ok
                    &&& final(self).storages@[idx].1.fs() == eff.1
                    &&& final(self).relist_ok(idx, dirname, nodes@)
                },
                Err(FinderError::NoAdapter) => !old(self).has_exact(adapter.deep_view())
                    && *final(self) == *old(self),
                Err(FinderError::Storage(se)) => {
                    let idx = old(self).exact_index(adapter.deep_view());
                    let dst = sub_path_spec(opt_str(path.deep_view()), req.name@);
                    let dirname = Self::exact_dirname(adapter.deep_view(), path.deep_view());
                    let eff = rename_effect(old(self).storages@[idx].1.fs(), req.item@, dst);
                    &&& old(self).has_exact(adapter.deep_view())
                    &&& Self::same_shape(*old(self), *final(self), idx)
                    &&& final(self).storages@[idx].1.fs() == eff.1
                    &&& ((eff.0 == Err::<FsModel, ErrKind>(se.kind())) || (eff.0 is Ok
                        && list_fail(eff.1, dirname, se.kind())))
                },
                Err(_) => false,
            },
    {
        let idx = match self.exact_adapter_index(&adapter) {
            Some(i) => i,
            None => {
                return Err(FinderError::NoAdapter);
            },
        };
        let dirname = Self::exact_dirname_string(&adapter, &path);
        let pathname: String = match path {
            Some(s) => s,
            None => String::new(),
        };
        let dst = sub_path(pathname.as_str(), req.name.as_str());
        let contents = match self.storages[idx].1.read(req.item.as_str()) {
            Ok(d) => d,
            Err(se) => {
                return Err(FinderError::Storage(se));
            },
        };
        match self.adapter_write(idx, dst.as_str(), contents) {
            Ok(_) => {},
            Err(se) => {
                return Err(FinderError::Storage(se));
            },
        }
        match self.adapter_delete(idx, req.item.as_str()) {
            Ok(_) => {},
            Err(se) => {
                return Err(FinderError::Storage(se));
            },
        }
        self.list_nodes(idx, dirname.as_str())
    }

    /// Deletes the request's items in order, stopping at the first failure,
    /// then lists the request's directory.
    #[verifier::loop_isolation(false)]
    pub fn delete(
        &mut self,
        adapter: Option<String>,
        path: Option<String>,
        req: &DeleteRequest,
    ) -> (r: Result<Vec<FileNode>, FinderError>)
        requires
            old(self).wf(),
        ensures
            final(self).wf(),
            match r {
                Ok(nodes) => {
                    let idx = old(self).exact_index(adapter.deep_view());
                    let dirname = Self::exact_dirname(adapter.deep_view(), path.deep_view());
                    let paths = req.items@.map_values(|it: FileItem| it.path@);
                    let eff = delete_all(old(self).storages@[idx].1.fs(), paths);
                    &&& old(self).has_exact(adapter.deep_view())
                    &&& Self::same_shape(*old(self), *final(self), idx)
                    &&& eff.0 is Ok
                    &&& final(self).storages@[idx].1.fs() == eff.1
                    &&& final(self).relist_ok(idx, dirname, nodes@)
                },
                Err(FinderError::NoAdapter) => !old(self).has_exact(adapter.deep_view())
                    && *final(self) == *old(self),
                Err(FinderError::Storage(se)) => {
                    let idx = old(self).exact_index(adapter.deep_view());
                    let dirname = Self::exact_dirname(adapter.deep_view(), path.deep_view());
                    let paths = req.items@.map_values(|it: FileItem| it.path@);
                    let eff = delete_all(old(self).storages@[idx].1.fs(), paths);
                    &&& old(self).has_exact(adapter.deep_view())
                    &&& Self::same_shape(*old(self), *final(self), idx)
                    &&& final(self).storages@[idx].1.fs() == eff.1
                    &&& ((eff.0 == Err::<FsModel, ErrKind>(se.kind())) || (eff.0 is Ok
                        && list_fail(eff.1, dirname, se.kind())))
                },
                Err(_) => false,
            },
    {
        let idx = match self.exact_adapter_index(&adapter) {
            Some(i) => i,
            None => {
                return Err(FinderError::NoAdapter);
            },
        };
        let dirname = Self::exact_dirname_string(&adapter, &path);
        let ghost paths = req.items@.map_values(|it: FileItem| it.path@);
        let ghost fs0 = self.storages@[idx as int].1.fs();
        let mut i: usize = 0;
        proof {
            assert(paths.skip(0) =~= paths);
        }
        while i < req.items.len()
            invariant
                0 <= i <= req.items@.len(),
                old(self).wf(),
                self.wf(),
                paths == req.items@.map_values(|it: FileItem| it.path@),
                paths.len() == req.items@.len(),
                idx < self.storages@.len(),
                idx as int == old(self).exact_index(adapter.deep_view()),
                fs0 == old(self).storages@[idx as int].1.fs(),
                Self::same_shape(*old(self), *self, idx as int),
                delete_all(fs0, paths) == delete_all(
                    self.storages@[idx as int].1.fs(),
                    paths.skip(i as int),
                ),
            decreases req.items@.len() - i,
        {
            let ghost cur = self.storages@[idx as int].1.fs();
            proof {
                assert(paths.skip(i as int)[0] == paths[i as int]);
                assert(paths[i as int] == req.items@[i as int].path@);
                assert(paths.skip(i as int).skip(1) =~= paths.skip(i + 1));
            }
            match self.adapter_delete(idx, req.items[i].path.as_str()) {
                Ok(_) => {},
                Err(se) => {
                    proof {
                        assert(delete_all(fs0, paths).0 == Err::<FsModel, ErrKind>(se.kind()));
                        assert(delete_all(fs0, paths).1 == cur);
                    }
                    return Err(FinderError::Storage(se));
                },
            }
            i += 1;
        }
        proof {
            assert(paths.skip(paths.len() as int).len() == 0);
        }
        self.list_nodes(idx, dirname.as_str())
    }
}

impl<A: StorageAdapter> VueFinder<A> {
    /// Moves the request's items into the request's target directory: every
    /// target is checked for a collision first and a collision aborts the
    /// whole batch untouched; then each item is copied and deleted in order,
    /// stopping at the first failure.
    ///
    /// An item whose path does not resolve aborts the batch untouched before
    /// anything is checked, deliberately: a malformed path is always surfaced
    /// as such, and is never allowed to move part of a batch first. A batch
    /// holding both a malformed path and a collision therefore reports the
    /// malformed path.
    #[verifier::loop_isolation(false)]
    pub fn move_items(
        &mut self,
        adapter: Option<String>,
        path: Option<String>,
        req: &MoveRequest,
    ) -> (r: Result<Vec<FileNode>, FinderError>)
        requires
            old(self).wf(),
        ensures
            final(self).wf(),
            match r {
                Ok(nodes) => {
                    let idx = old(self).exact_index(adapter.deep_view());
                    let dirname = Self::exact_dirname(adapter.deep_view(), path.deep_view());
                    let paths = req.items@.map_values(|it: FileItem| it.path@);
                    let eff = move_all(old(self).storages@[idx].1.fs(), req.item@, paths);
                    &&& old(self).has_exact(adapter.deep_view())
                    &&& all_resolve(paths)
                    &&& !move_collision(old(self).storages@[idx].1.fs(), req.item@, paths)
                    &&& Self::same_shape(*old(self), *final(self), idx)
                    &&& eff.0 is Ok
                    &&& final(self).storages@[idx].1.fs() == eff.1
                    &&& final(self).relist_ok(idx, dirname, nodes@)
                },
                Err(FinderError::NoAdapter) => !old(self).has_exact(adapter.deep_view())
                    && *final(self) == *old(self),
                Err(FinderError::ItemExists) => {
                    let idx = old(self).exact_index(adapter.deep_view());
                    let paths = req.items@.map_values(|it: FileItem| it.path@);
                    &&& old(self).has_exact(adapter.deep_view())
                    &&& all_resolve(paths)
                    &&& move_collision(old(self).storages@[idx].1.fs(), req.item@, paths)
                    &&& *final(self) == *old(self)
                },
                Err(FinderError::Storage(se)) => {
                    let idx = old(self).exact_index(adapter.deep_view());
                    let dirname = Self::exact_dirname(adapter.deep_view(), path.deep_view());
                    let paths = req.items@.map_values(|it: FileItem| it.path@);
                    let eff = move_all(old(self).storages@[idx].1.fs(), req.item@, paths);
                    &&& old(self).has_exact(adapter.deep_view())
                    &&& ((!all_resolve(paths) && se.kind() == ErrKind::InvalidPath && *final(self)
                        == *old(self)) || (all_resolve(paths) && !move_collision(
                        old(self).storages@[idx].1.fs(),
                        req.item@,
                        paths,
                    ) && Self::same_shape(*old(self), *final(self), idx)
                        && final(self).storages@[idx].1.fs() == eff.1 && ((eff.0 == Err::<
                        FsModel,
                        ErrKind,
                    >(se.kind())) || (eff.0 is Ok && list_fail(eff.1, dirname, se.kind())))))
                },
                Err(_) => false,
            },
    {
        let idx = match self.exact_adapter_index(&adapter) {
            Some(i) => i,
            None => {
                return Err(FinderError::NoAdapter);
            },
        };
        let dirname = Self::exact_dirname_string(&adapter, &path);
        let ghost paths = req.items@.map_values(|it: FileItem| it.path@);
        let ghost fs0 = self.storages@[idx as int].1.fs();
        // every target path, derived from each item's base name
        let mut targets: Vec<String> = Vec::new();
        let mut i: usize = 0;
        while i < req.items.len()
            invariant
                0 <= i <= req.items@.len(),
                targets@.len() == i,
                forall|t: int| 0 <= t < i ==> resolve_spec(#[trigger] paths[t]) is Some,
                forall|t: int|
                    0 <= t < i ==> (#[trigger] targets@[t])@ == target_of(req.item@, paths[t]),
            decreases req.items@.len() - i,
        {
            proof {
                assert(paths[i as int] == req.items@[i as int].path@);
            }
            match crate::resolve::resolve_segments(req.items[i].path.as_str()) {
                Err(e) => {
                    return Err(FinderError::Storage(e));
                },
                Ok(segs) => {
                    let bn: String = if segs.len() > 0 {
                        let b = segs[segs.len() - 1].clone();
                        proof {
                            assert(segs.deep_view().last() == segs@[segs@.len() - 1]@);
                        }
                        b
                    } else {
                        proof {
                            assert(segs.deep_view().len() == 0);
                        }
                        String::new()
                    };
                    proof {
                        assert(bn@ == basename_spec(paths[i as int]));
                    }
                    let tgt = sub_path(req.item.as_str(), bn.as_str());
                    let ghost prev = targets@;
                    targets.push(tgt);
                    proof {
                        assert forall|t: int| 0 <= t < i + 1 implies (#[trigger] targets@[t])@
                            == target_of(req.item@, paths[t]) by {
                            assert(targets@[t] == prev.push(tgt)[t]);
                            if t < i {
                                assert(targets@[t] == prev[t]);
                            }
                        }
                    }
                },
            }
            i += 1;
        }
        // first pass: a collision anywhere aborts the whole batch untouched
        let mut j: usize = 0;
        while j < targets.len()
            invariant
                0 <= j <= targets@.len(),
                forall|t: int|
                    0 <= t < j ==> exists_result(fs0, #[trigger] target_of(req.item@, paths[t]))
                        != Ok::<bool, ErrKind>(true),
            decreases targets@.len() - j,
        {
            let hit = match self.storages[idx].1.path_exists(targets[j].as_str()) {
                Ok(b) => b,
                Err(_) => false,
            };
            if hit {
                proof {
                    assert(exists_result(fs0, target_of(req.item@, paths[j as int])) == Ok::<
                        bool,
                        ErrKind,
                    >(true));
                }
                return Err(FinderError::ItemExists);
            }
            j += 1;
        }
        proof {
            assert(!move_collision(fs0, req.item@, paths));
        }
        // second pass: copy then delete, item by item, in order
        let mut k: usize = 0;
        proof {
            assert(paths.skip(0) =~= paths);
        }
        while k < req.items.len()
            invariant
                0 <= k <= req.items@.len(),
                self.wf(),
                Self::same_shape(*old(self), *self, idx as int),
                move_all(fs0, req.item@, paths) == move_all(
                    self.storages@[idx as int].1.fs(),
                    req.item@,
                    paths.skip(k as int),
                ),
            decreases req.items@.len() - k,
        {
            let ghost cur = self.storages@[idx as int].1.fs();
            proof {
                assert(paths.skip(k as int)[0] == paths[k as int]);
                assert(paths[k as int] == req.items@[k as int].path@);
                assert(paths.skip(k as int).skip(1) =~= paths.skip(k + 1));
                assert(targets@[k as int]@ == target_of(req.item@, paths[k as int]));
            }
            let contents = match self.storages[idx].1.read(req.items[k].path.as_str()) {
                Ok(d) => d,
                Err(se) => {
                    return Err(FinderError::Storage(se));
                },
            };
            match self.adapter_write(idx, targets[k].as_str(), contents) {
                Ok(_) => {},
                Err(se) => {
                    return Err(FinderError::Storage(se));
                },
            }
            match self.adapter_delete(idx, req.items[k].path.as_str()) {
                Ok(_) => {},
                Err(se) => {
                    return Err(FinderError::Storage(se));
                },
            }
            k += 1;
        }
        proof {
            assert(paths.skip(paths.len() as int).len() == 0);
        }
        self.list_nodes(idx, dirname.as_str())
    }

    /// Lists the file children of the request's directory whose lowercased
    /// names contain the lowercased filter.
    #[verifier::loop_isolation(false)]
    #[verifier::rlimit(60)]
    pub fn search(
        &self,
        adapter: Option<String>,
        path: Option<String>,
        filter: Option<String>,
    ) -> (r: Result<Vec<StorageItem>, FinderError>)
        requires
            self.wf(),
        ensures
            match r {
                Ok(items) => {
                    let idx = self.exact_index(adapter.deep_view());
                    let dirname = opt_str(path.deep_view());
                    &&& self.has_exact(adapter.deep_view())
                    &&& list_ok_at(self.storages@[idx].1.fs(), dirname)
                    &&& search_items_match(
                        self.storages@[idx].1.fs(),
                        self.storages@[idx].1.spec_name(),
                        resolve_spec(dirname)->Some_0,
                        opt_str(filter.deep_view()),
                        items@,
                    )
                },
                Err(FinderError::NoAdapter) => !self.has_exact(adapter.deep_view()),
                Err(FinderError::Storage(se)) => self.has_exact(adapter.deep_view()) && list_fail(
                    self.storages@[self.exact_index(adapter.deep_view())].1.fs(),
                    opt_str(path.deep_view()),
                    se.kind(),
                ),
                Err(_) => false,
            },
    {
        let idx = match self.exact_adapter_index(&adapter) {
            Some(i) => i,
            None => {
                return Err(FinderError::NoAdapter);
            },
        };
        let dirname: String = match path {
            Some(s) => s,
            None => String::new(),
        };
        let needle: String = match &filter {
            Some(f) => lowercase(f.as_str()),
            None => {
                let empty = String::new();
                let r = lowercase(empty.as_str());
                proof {
                    assert(empty@ =~= opt_str(filter.deep_view()));
                }
                r
            },
        };
        let items = match self.storages[idx].1.list_contents(dirname.as_str()) {
            Ok(v) => v,
            Err(se) => {
                return Err(FinderError::Storage(se));
            },
        };
        let ghost all = items@;
        let ghost fs = self.storages@[idx as int].1.fs();
        let ghost sname = self.storages@[idx as int].1.spec_name();
        let ghost parent = resolve_spec(dirname@)->Some_0;
        let ghost filt = opt_str(filter.deep_view());
        proof {
            assert(needle@ == lower_of(filt));
        }
        let mut out: Vec<StorageItem> = Vec::new();
        let mut i: usize = 0;
        while i < items.len()
            invariant
                0 <= i <= items@.len(),
                out@.len() <= i,
                forall|t2: int|
                    0 <= t2 < out@.len() ==> exists|t: int|
                        0 <= t < i && (#[trigger] out@[t2]) == all[t],
                forall|t2: int|
                    0 <= t2 < out@.len() ==> item_matches(fs, sname, parent, #[trigger] out@[t2])
                        && search_hit(out@[t2], filt),
                forall|t: int|
                    0 <= t < i && search_hit(#[trigger] all[t], filt) ==> exists|t2: int|
                        0 <= t2 < out@.len() && (#[trigger] out@[t2].basename@) == all[t].basename@,
                forall|t1: int, t2: int|
                    0 <= t1 < t2 < out@.len() ==> out@[t1].basename@ != out@[t2].basename@,
            decreases items@.len() - i,
        {
            proof {
                reveal_strlit("file");
            }
            let low = lowercase(items[i].basename.as_str());
            if str_eq(items[i].node_type.as_str(), "file") && str_contains_str(
                low.as_str(),
                needle.as_str(),
            ) {
                proof {
                    assert(search_hit(all[i as int], filt));
                }
                let copied = clone_item(&items[i]);
                let ghost prev = out@;
                out.push(copied);
                proof {
                    assert forall|t2: int| 0 <= t2 < out@.len() implies exists|t: int|
                        0 <= t < i + 1 && (#[trigger] out@[t2]) == all[t] by {
                        assert(out@[t2] == prev.push(copied)[t2]);
                        if t2 < prev.len() {
                            assert(out@[t2] == prev[t2]);
                            let t = choose|t: int| 0 <= t < i && (#[trigger] prev[t2]) == all[t];
                            assert(out@[t2] == all[t]);
                        } else {
                            assert(out@[t2] == all[i as int]);
                        }
                    }
                    assert forall|t: int|
                        0 <= t < i + 1 && search_hit(#[trigger] all[t], filt) implies exists|
                        t2: int|
                        0 <= t2 < out@.len() && (#[trigger] out@[t2].basename@)
                            == all[t].basename@ by {
                        if t < i {
                            let t2 = choose|t2: int|
                                0 <= t2 < prev.len() && (#[trigger] prev[t2].basename@)
                                    == all[t].basename@;
                            assert(out@[t2] == prev.push(copied)[t2]);
                            assert(out@[t2].basename@ == all[t].basename@);
                        } else {
                            assert(out@[out@.len() - 1] == copied);
                        }
                    }
                    assert forall|t1: int, t2: int| 0 <= t1 < t2 < out@.len() implies out@[t1].basename@
                        != out@[t2].basename@ by {
                        assert(out@[t1] == prev.push(copied)[t1]);
                        assert(out@[t2] == prev.push(copied)[t2]);
                        if t2 == out@.len() - 1 {
                            let ta = choose|t: int| 0 <= t < i && (#[trigger] prev[t1]) == all[t];
                            assert(all[ta].basename@ != all[i as int].basename@);
                        }
                    }
                }
            } else {
                proof {
                    assert(!search_hit(all[i as int], filt)) by {
                        if all[i as int].node_type@ == "file"@ {
                            assert(low@ == lower_of(all[i as int].basename@));
                        }
                    }
                }
            }
            i += 1;
        }
        proof {
            assert forall|c: Seq<Seq<char>>|
                #[trigger] is_child(fs, parent, c) && fs[c] is File && contains_sub(
                    lower_of(c[parent.len() as int]),
                    lower_of(filt),
                ) implies exists|t2: int|
                0 <= t2 < out@.len() && (#[trigger] out@[t2].basename@) == c[parent.len() as int] by {
                let t = choose|t: int|
                    0 <= t < all.len() && (#[trigger] all[t].basename@) == c[parent.len() as int];
                assert(item_matches(fs, sname, parent, all[t]));
                assert(parent.push(all[t].basename@) =~= c);
                assert(all[t].node_type@ == "file"@);
                assert(search_hit(all[t], filt));
            }
        }
        Ok(out)
    }
}

/// Every item's bytes can be read.
pub open spec fn reads_ok(fs: FsModel, items: Seq<Seq<char>>) -> bool {
    forall|i: int| 0 <= i < items.len() ==> read_result(fs, #[trigger] items[i]) is Ok
}

/// The archive entries a batch of items yields: each item flattened to its
/// base name, carrying its bytes.
pub open spec fn archive_entries(fs: FsModel, items: Seq<Seq<char>>) -> Seq<(Seq<char>, Seq<u8>)> {
    items.map_values(|it: Seq<char>| (basename_spec(it), read_result(fs, it)->Ok_0))
}

/// The entry fits the archive format: its name fits the format's 16-bit
/// name-length field, and its bytes stay a binary megabyte under the 32-bit
/// size field so the compressed form fits too.
pub open spec fn entry_fits(name: Seq<char>, data: Seq<u8>) -> bool {
    vstd::utf8::encode_utf8(name).len() <= 65535 && data.len() <= 0xFFF0_0000
}

/// Every readable item of the batch fits the archive format.
pub open spec fn zip_limits_ok(fs: FsModel, items: Seq<Seq<char>>) -> bool {
    forall|i: int|
        0 <= i < items.len() && read_result(fs, #[trigger] items[i]) is Ok ==> entry_fits(
            basename_spec(items[i]),
            read_result(fs, items[i])->Ok_0,
        )
}

/// What extracting one archive entry under `dst` does: an entry whose name
/// ends in a separator becomes a directory, any other entry is written as a
/// file, parents included.
pub open spec fn extract_one(fs: FsModel, dst: Seq<char>, entry: (Seq<char>, Seq<u8>)) -> Result<
    FsModel,
    ErrKind,
> {
    let outp = sub_path_spec(dst, entry.0);
    if entry.0.len() > 0 && entry.0.last() == '/' {
        create_dir_result(fs, outp)
    } else {
        write_result(fs, outp, entry.1)
    }
}

/// What extracting the entries in index order leaves behind; the first
/// failure stops the batch, already-extracted entries stay.
pub open spec fn extract_all(
    fs: FsModel,
    dst: Seq<char>,
    entries: Seq<(Seq<char>, Seq<u8>)>,
) -> (Result<FsModel, ErrKind>, FsModel)
    decreases entries.len(),
{
    if entries.len() == 0 {
        (Ok(fs), fs)
    } else {
        match extract_one(fs, dst, entries[0]) {
            Err(k) => (Err(k), fs),
            Ok(fs1) => extract_all(fs1, dst, entries.skip(1)),
        }
    }
}

/// The decoded entries of the stored bytes at `item`; meaningful where the
/// read succeeds and the bytes open.
pub open spec fn decoded_of(fs: FsModel, item: Seq<char>) -> Seq<(Seq<char>, Seq<u8>)> {
    zip_decode(read_result(fs, item)->Ok_0)->Some_0
}

/// The state holds a successfully extracted prefix of the entries, starting
/// from `fs2`.
pub open spec fn extracted_prefix(
    fs2: FsModel,
    dst: Seq<char>,
    es: Seq<(Seq<char>, Seq<u8>)>,
    fsf: FsModel,
) -> bool {
    exists|k: int|
        #![trigger es.take(k)]
        0 <= k <= es.len() && ({
            let pref = extract_all(fs2, dst, es.take(k));
            pref.0 is Ok && fsf == pref.1
        })
}

/// The whole decoded archive was extracted below `dst`.
pub open spec fn unarchive_complete(fs0: FsModel, item: Seq<char>, dst: Seq<char>, fsf: FsModel) -> bool {
    &&& zip_decode(read_result(fs0, item)->Ok_0) is Some
    &&& ({
        let eff = extract_all(create_dir_result(fs0, dst)->Ok_0, dst, decoded_of(fs0, item));
        eff.0 is Ok && fsf == eff.1
    })
}

/// An interrupted decoding left a successfully extracted prefix of the
/// decoded entries, and nothing outside the extraction directory moved.
pub open spec fn unarchive_partial(fs0: FsModel, item: Seq<char>, dst: Seq<char>, fsf: FsModel) -> bool {
    &&& zip_decode(read_result(fs0, item)->Ok_0) is Some
    &&& create_dir_result(fs0, dst) is Ok
    &&& extracted_prefix(create_dir_result(fs0, dst)->Ok_0, dst, decoded_of(fs0, item), fsf)
    &&& (scheme_safe(dst) ==> changed_only_below(
        create_dir_result(fs0, dst)->Ok_0,
        fsf,
        resolve_spec(dst)->Some_0,
    ))
}

/// An extraction step or the final relisting failed with kind `k`, leaving
/// exactly the state the extraction fold describes.
pub open spec fn unarchive_extract_outcome(
    fs0: FsModel,
    item: Seq<char>,
    dst: Seq<char>,
    dirname: Seq<char>,
    k: ErrKind,
    fsf: FsModel,
) -> bool {
    &&& zip_decode(read_result(fs0, item)->Ok_0) is Some
    &&& (scheme_safe(dst) ==> changed_only_below(
        create_dir_result(fs0, dst)->Ok_0,
        fsf,
        resolve_spec(dst)->Some_0,
    ))
    &&& ({
        let eff = extract_all(create_dir_result(fs0, dst)->Ok_0, dst, decoded_of(fs0, item));
        (eff.0 == Err::<FsModel, ErrKind>(k) && fsf == eff.1) || (eff.0 is Ok && fsf == eff.1
            && list_fail(eff.1, dirname, k))
    })
}

/// Extraction unrolls from the back: one more entry either extends a
/// successful fold or is never reached.
pub proof fn lemma_extract_all_push(
    fs: FsModel,
    dst: Seq<char>,
    entries: Seq<(Seq<char>, Seq<u8>)>,
    e: (Seq<char>, Seq<u8>),
)
    ensures
        extract_all(fs, dst, entries.push(e)) == ({
            let pre = extract_all(fs, dst, entries);
            match pre.0 {
                Err(k) => pre,
                Ok(_) => match extract_one(pre.1, dst, e) {
                    Err(k) => (Err::<FsModel, ErrKind>(k), pre.1),
                    Ok(f2) => (Ok::<FsModel, ErrKind>(f2), f2),
                },
            }
        }),
    decreases entries.len(),
{
    let pe = entries.push(e);
    if entries.len() == 0 {
        assert(pe[0] == e);
        assert(pe.skip(1) =~= Seq::<(Seq<char>, Seq<u8>)>::empty());
        match extract_one(fs, dst, e) {
            Err(_) => {},
            Ok(f2) => {
                assert(extract_all(f2, dst, pe.skip(1)) == (Ok::<FsModel, ErrKind>(f2), f2));
            },
        }
    } else {
        assert(pe[0] == entries[0]);
        assert(pe.skip(1) =~= entries.skip(1).push(e));
        match extract_one(fs, dst, entries[0]) {
            Err(_) => {},
            Ok(fs1) => {
                lemma_extract_all_push(fs1, dst, entries.skip(1), e);
                assert(extract_all(fs, dst, pe) == extract_all(fs1, dst, entries.skip(1).push(e)));
                assert(extract_all(fs, dst, entries) == extract_all(fs1, dst, entries.skip(1)));
            },
        }
    }
}

impl<A: StorageAdapter> VueFinder<A> {
    /// Packs the request's items into a fresh archive called `name.zip`
    /// under the request's path: every item is read first and flattened to
    /// its base name, the assembled archive reaches the backend as a single
    /// write, and an already existing archive aborts the request untouched.
    #[verifier::loop_isolation(false)]
    pub fn archive(
        &mut self,
        adapter: Option<String>,
        path: Option<String>,
        req: &ArchiveRequest,
    ) -> (r: Result<Vec<FileNode>, FinderError>)
        requires
            old(self).wf(),
        ensures
            final(self).wf(),
            match r {
                Ok(nodes) => {
                    let idx = old(self).exact_index(adapter.deep_view());
                    let dirname = Self::exact_dirname(adapter.deep_view(), path.deep_view());
                    let zp = sub_path_spec(opt_str(path.deep_view()), req.name@ + ".zip"@);
                    let paths = req.items@.map_values(|it: FileItem| it.path@);
                    let fs0 = old(self).storages@[idx].1.fs();
                    &&& old(self).has_exact(adapter.deep_view())
                    &&& exists_result(fs0, zp) != Ok::<bool, ErrKind>(true)
                    &&& reads_ok(fs0, paths)
                    &&& zip_limits_ok(fs0, paths)
                    &&& Self::same_shape(*old(self), *final(self), idx)
                    &&& write_result(fs0, zp, zip_encode(archive_entries(fs0, paths))) == Ok::<
                        FsModel,
                        ErrKind,
                    >(final(self).storages@[idx].1.fs())
                    &&& final(self).relist_ok(idx, dirname, nodes@)
                },
                Err(FinderError::NoAdapter) => !old(self).has_exact(adapter.deep_view())
                    && *final(self) == *old(self),
                Err(FinderError::ArchiveExists) => {
                    let idx = old(self).exact_index(adapter.deep_view());
                    let zp = sub_path_spec(opt_str(path.deep_view()), req.name@ + ".zip"@);
                    &&& old(self).has_exact(adapter.deep_view())
                    &&& exists_result(old(self).storages@[idx].1.fs(), zp) == Ok::<bool, ErrKind>(
                        true,
                    )
                    &&& *final(self) == *old(self)
                },
                Err(FinderError::Zip(_)) => {
                    let idx = old(self).exact_index(adapter.deep_view());
                    let zp = sub_path_spec(opt_str(path.deep_view()), req.name@ + ".zip"@);
                    let paths = req.items@.map_values(|it: FileItem| it.path@);
                    let fs0 = old(self).storages@[idx].1.fs();
                    &&& old(self).has_exact(adapter.deep_view())
                    &&& exists_result(fs0, zp) != Ok::<bool, ErrKind>(true)
                    &&& !zip_limits_ok(fs0, paths)
                    &&& *final(self) == *old(self)
                },
                Err(FinderError::Storage(se)) => {
                    let idx = old(self).exact_index(adapter.deep_view());
                    let dirname = Self::exact_dirname(adapter.deep_view(), path.deep_view());
                    let zp = sub_path_spec(opt_str(path.deep_view()), req.name@ + ".zip"@);
                    let paths = req.items@.map_values(|it: FileItem| it.path@);
                    let fs0 = old(self).storages@[idx].1.fs();
                    let fs1 = final(self).storages@[idx].1.fs();
                    &&& old(self).has_exact(adapter.deep_view())
                    &&& exists_result(fs0, zp) != Ok::<bool, ErrKind>(true)
                    &&& ((*final(self) == *old(self) && exists|i: int|
                        0 <= i < paths.len() && read_result(fs0, #[trigger] paths[i]) == Err::<
                            Seq<u8>,
                            ErrKind,
                        >(se.kind()) && (forall|j: int|
                            0 <= j < i ==> read_result(fs0, #[trigger] paths[j]) is Ok)) || (
                    reads_ok(fs0, paths) && Self::same_shape(*old(self), *final(self), idx) && ((
                    write_result(fs0, zp, zip_encode(archive_entries(fs0, paths))) == Err::<
                        FsModel,
                        ErrKind,
                    >(se.kind()) && fs1 == fs0) || (write_result(
                        fs0,
                        zp,
                        zip_encode(archive_entries(fs0, paths)),
                    ) == Ok::<FsModel, ErrKind>(fs1) && list_fail(fs1, dirname, se.kind())))))
                },
                Err(_) => false,
            },
    {
        let idx = match self.exact_adapter_index(&adapter) {
            Some(i) => i,
            None => {
                return Err(FinderError::NoAdapter);
            },
        };
        let dirname = Self::exact_dirname_string(&adapter, &path);
        let pathname: String = match path {
            Some(s) => s,
            None => String::new(),
        };
        let zipname = req.name.clone().concat(".zip");
        let zp = sub_path(pathname.as_str(), zipname.as_str());
        let hit: bool = match self.storages[idx].1.path_exists(zp.as_str()) {
            Ok(b) => b,
            Err(_) => false,
        };
        if hit {
            return Err(FinderError::ArchiveExists);
        }
        let ghost paths = req.items@.map_values(|it: FileItem| it.path@);
        let ghost fs0 = self.storages@[idx as int].1.fs();
        let mut zw = zip_writer_new();
        let mut i: usize = 0;
        proof {
            assert(zw_entries(zw) =~= archive_entries(fs0, paths.take(0)));
        }
        while i < req.items.len()
            invariant
                0 <= i <= req.items@.len(),
                zw_entries(zw) == archive_entries(fs0, paths.take(i as int)),
                forall|t: int|
                    0 <= t < i ==> read_result(fs0, #[trigger] paths[t]) is Ok && entry_fits(
                        basename_spec(paths[t]),
                        read_result(fs0, paths[t])->Ok_0,
                    ),
            decreases req.items@.len() - i,
        {
            let ghost it = paths[i as int];
            proof {
                assert(paths[i as int] == req.items@[i as int].path@);
            }
            let data = match self.storages[idx].1.read(req.items[i].path.as_str()) {
                Ok(d) => d,
                Err(se) => {
                    return Err(FinderError::Storage(se));
                },
            };
            let bn = crate::resolve::basename_of(req.items[i].path.as_str());
            // an entry outside the archive format's bounds aborts before
            // anything is written
            let name_bytes: usize = bn.as_str().as_bytes().len();
            if name_bytes > 65535 || data.len() > 0xFFF0_0000 {
                proof {
                    assert(name_bytes == vstd::utf8::encode_utf8(bn@).len());
                    assert(!entry_fits(basename_spec(it), read_result(fs0, it)->Ok_0));
                    assert(!zip_limits_ok(fs0, paths));
                }
                return Err(FinderError::Zip(String::from_str(
                    "an entry does not fit the archive format",
                )));
            }
            proof {
                assert(name_bytes == vstd::utf8::encode_utf8(bn@).len());
                assert(entry_fits(basename_spec(it), read_result(fs0, it)->Ok_0));
            }
            match zip_writer_add(&mut zw, bn.as_str(), &data) {
                Ok(_) => {},
                Err(e) => {
                    proof {
                        assert(false);
                    }
                    let m = zip_error_message(&e);
                    return Err(FinderError::Zip(m));
                },
            }
            proof {
                assert(archive_entries(fs0, paths.take(i + 1)) =~= archive_entries(
                    fs0,
                    paths.take(i as int),
                ).push((basename_spec(it), read_result(fs0, it)->Ok_0)));
            }
            i += 1;
        }
        proof {
            assert(paths.take(paths.len() as int) =~= paths);
        }
        let bytes = match zip_writer_finish(zw) {
            Ok(b) => b,
            Err(e) => {
                proof {
                    assert(false);
                }
                let m = zip_error_message(&e);
                return Err(FinderError::Zip(m));
            },
        };
        match self.adapter_write(idx, zp.as_str(), bytes) {
            Ok(_) => {},
            Err(se) => {
                return Err(FinderError::Storage(se));
            },
        }
        self.list_nodes(idx, dirname.as_str())
    }

    /// Unpacks one stored archive into a directory named after the archive's
    /// stem under the request's path: directory entries are created, file
    /// entries are written with their parents, in the archive's own order,
    /// stopping at the first failure. An entry that tries to escape the root
    /// is rejected by resolution like any other write.
    #[verifier::loop_isolation(false)]
    pub fn unarchive(
        &mut self,
        adapter: Option<String>,
        path: Option<String>,
        req: &UnarchiveRequest,
    ) -> (r: Result<Vec<FileNode>, FinderError>)
        requires
            old(self).wf(),
        ensures
            final(self).wf(),
            match r {
                Ok(nodes) => {
                    let idx = old(self).exact_index(adapter.deep_view());
                    let dirname = Self::exact_dirname(adapter.deep_view(), path.deep_view());
                    let dst = sub_path_spec(
                        opt_str(path.deep_view()),
                        stem_of(basename_spec(req.item@)),
                    );
                    let fs0 = old(self).storages@[idx].1.fs();
                    &&& old(self).has_exact(adapter.deep_view())
                    &&& Self::same_shape(*old(self), *final(self), idx)
                    &&& read_result(fs0, req.item@) is Ok
                    &&& create_dir_result(fs0, dst) is Ok
                    &&& unarchive_complete(fs0, req.item@, dst, final(self).storages@[idx].1.fs())
                    &&& (forall|es: Seq<(Seq<char>, Seq<u8>)>|
                        read_result(fs0, req.item@)->Ok_0 == #[trigger] zip_encode(es) ==> ({
                            let eff = extract_all(create_dir_result(fs0, dst)->Ok_0, dst, es);
                            eff.0 is Ok && final(self).storages@[idx].1.fs() == eff.1
                        }))
                    &&& (scheme_safe(dst) ==> changed_only_below(
                        create_dir_result(fs0, dst)->Ok_0,
                        final(self).storages@[idx].1.fs(),
                        resolve_spec(dst)->Some_0,
                    ))
                    &&& final(self).relist_ok(idx, dirname, nodes@)
                },
                Err(FinderError::NoAdapter) => !old(self).has_exact(adapter.deep_view())
                    && *final(self) == *old(self),
                Err(FinderError::Zip(_)) => {
                    let idx = old(self).exact_index(adapter.deep_view());
                    let dst = sub_path_spec(
                        opt_str(path.deep_view()),
                        stem_of(basename_spec(req.item@)),
                    );
                    let fs0 = old(self).storages@[idx].1.fs();
                    &&& old(self).has_exact(adapter.deep_view())
                    &&& Self::same_shape(*old(self), *final(self), idx)
                    &&& read_result(fs0, req.item@) is Ok
                    &&& (forall|es: Seq<(Seq<char>, Seq<u8>)>|
                        read_result(fs0, req.item@)->Ok_0 != #[trigger] zip_encode(es))
                    &&& ((zip_decode(read_result(fs0, req.item@)->Ok_0) is None && *final(self)
                        == *old(self)) || unarchive_partial(
                        fs0,
                        req.item@,
                        dst,
                        final(self).storages@[idx].1.fs(),
                    ))
                },
                Err(FinderError::Storage(se)) => {
                    let idx = old(self).exact_index(adapter.deep_view());
                    let dirname = Self::exact_dirname(adapter.deep_view(), path.deep_view());
                    let dst = sub_path_spec(
                        opt_str(path.deep_view()),
                        stem_of(basename_spec(req.item@)),
                    );
                    let fs0 = old(self).storages@[idx].1.fs();
                    let fs2 = final(self).storages@[idx].1.fs();
                    &&& old(self).has_exact(adapter.deep_view())
                    &&& Self::same_shape(*old(self), *final(self), idx)
                    &&& ((read_result(fs0, req.item@) == Err::<Seq<u8>, ErrKind>(se.kind())
                        && *final(self) == *old(self)) || (read_result(fs0, req.item@) is Ok && (
                    (create_dir_result(fs0, dst) == Err::<FsModel, ErrKind>(se.kind()) && fs2
                        == fs0) || (create_dir_result(fs0, dst) is Ok && unarchive_extract_outcome(
                        fs0,
                        req.item@,
                        dst,
                        dirname,
                        se.kind(),
                        fs2,
                    )))))
                },
                Err(_) => false,
            },
    {
        let idx = match self.exact_adapter_index(&adapter) {
            Some(i) => i,
            None => {
                return Err(FinderError::NoAdapter);
            },
        };
        let dirname = Self::exact_dirname_string(&adapter, &path);
        let pathname: String = match path {
            Some(s) => s,
            None => String::new(),
        };
        let ghost fs0 = self.storages@[idx as int].1.fs();
        let bytes = match self.storages[idx].1.read(req.item.as_str()) {
            Ok(d) => d,
            Err(se) => {
                return Err(FinderError::Storage(se));
            },
        };
        let ghost bv = bytes@;
        let mut za = match zip_open(bytes) {
            Ok(a) => a,
            Err(e) => {
                let m = zip_error_message(&e);
                proof {
                    self.lemma_same_shape(*old(self), idx as int);
                }
                return Err(FinderError::Zip(m));
            },
        };
        let bn = crate::resolve::basename_of(req.item.as_str());
        let stem = stem_of_name(bn.as_str());
        let dst = sub_path(pathname.as_str(), stem.as_str());
        match self.adapter_create_dir(idx, dst.as_str()) {
            Ok(_) => {},
            Err(se) => {
                return Err(FinderError::Storage(se));
            },
        }
        let ghost fs1 = self.storages@[idx as int].1.fs();
        let ghost ents = za_entries(za);
        let ghost wf0 = za_wf(za);
        let ghost d = resolve_spec(dst@)->Some_0;
        proof {
            assert(zip_decode(bv) is Some);
            assert(ents == zip_decode(bv)->Some_0);
            assert(extract_all(fs1, dst@, ents.take(0)) == (Ok::<FsModel, ErrKind>(fs1), fs1)) by {
                assert(ents.take(0) =~= Seq::<(Seq<char>, Seq<u8>)>::empty());
            }
        }
        proof {
            assert forall|t: int| 0 < t <= d.len() implies fs1.dom().contains(
                #[trigger] d.take(t),
            ) && fs1[d.take(t)] is Dir by {
                assert(d.take(t).len() == t);
                if fs0.dom().contains(d.take(t)) {
                    assert(fs1[d.take(t)] == fs0[d.take(t)]);
                }
            }
        }
        let n: usize = zip_len(&za);
        let mut i: usize = 0;
        proof {
            assert(ents.skip(0) =~= ents);
        }
        while i < n
            invariant
                0 <= i <= n,
                n as nat == ents.len(),
                za_entries(za) == ents,
                za_wf(za) == wf0,
                self.wf(),
                Self::same_shape(*old(self), *self, idx as int),
                extract_all(fs1, dst@, ents) == extract_all(
                    self.storages@[idx as int].1.fs(),
                    dst@,
                    ents.skip(i as int),
                ),
                extract_all(fs1, dst@, ents.take(i as int)) == (Ok::<FsModel, ErrKind>(
                    self.storages@[idx as int].1.fs(),
                ), self.storages@[idx as int].1.fs()),
                scheme_safe(dst@) ==> changed_only_below(
                    fs1,
                    self.storages@[idx as int].1.fs(),
                    d,
                ),
                scheme_safe(dst@) ==> (forall|t: int|
                    0 < t <= d.len() ==> self.storages@[idx as int].1.fs().dom().contains(
                        #[trigger] d.take(t),
                    ) && self.storages@[idx as int].1.fs()[d.take(t)] is Dir),
            decreases n - i,
        {
            let ghost cur = self.storages@[idx as int].1.fs();
            proof {
                assert(ents.skip(i as int)[0] == ents[i as int]);
                assert(ents.skip(i as int).skip(1) =~= ents.skip(i + 1));
            }
            let entry = match zip_entry(&mut za, i) {
                Ok(e) => e,
                Err(e) => {
                    proof {
                        // the decoder refuses only bytes this library's
                        // encoder never produced
                        assert(!wf0);
                        // the state so far is a successfully extracted prefix
                        assert(0 <= i as int <= ents.len() && ({
                            let pref = extract_all(fs1, dst@, ents.take(i as int));
                            pref.0 is Ok && self.storages@[idx as int].1.fs() == pref.1
                        }));
                    }
                    let m = zip_error_message(&e);
                    return Err(FinderError::Zip(m));
                },
            };
            let (name, data) = entry;
            proof {
                assert((name@, data@) == ents[i as int]);
                assert(name@ == ents[i as int].0);
                assert(data@ == ents[i as int].1);
            }
            let outp = sub_path(dst.as_str(), name.as_str());
            let nlen: usize = name.unicode_len();
            if nlen > 0 && name.get_char(nlen - 1) == '/' {
                proof {
                    assert(name@.last() == '/');
                }
                match self.adapter_create_dir(idx, outp.as_str()) {
                    Ok(_) => {
                        proof {
                            if scheme_safe(dst@) {
                                lemma_sub_path_stays_below(dst@, name@);
                                let q = resolve_spec(outp@)->Some_0;
                                lemma_create_below(cur, q, d);
                                crate::model::lemma_changed_only_below_trans(
                                    fs1,
                                    cur,
                                    self.storages@[idx as int].1.fs(),
                                    d,
                                );
                            }
                            lemma_extract_all_push(fs1, dst@, ents.take(i as int), ents[i as int]);
                            assert(ents.take(i as int).push(ents[i as int]) =~= ents.take(i + 1));
                            assert(extract_one(cur, dst@, ents[i as int]) == Ok::<FsModel, ErrKind>(
                                self.storages@[idx as int].1.fs(),
                            ));
                        }
                    },
                    Err(se) => {
                        return Err(FinderError::Storage(se));
                    },
                }
            } else {
                proof {
                    assert(!(name@.len() > 0 && name@.last() == '/'));
                }
                let ghost dv = data@;
                match self.adapter_write(idx, outp.as_str(), data) {
                    Ok(_) => {
                        proof {
                            if scheme_safe(dst@) {
                                lemma_sub_path_stays_below(dst@, name@);
                                let q = resolve_spec(outp@)->Some_0;
                                lemma_write_below(cur, q, dv, d);
                                crate::model::lemma_changed_only_below_trans(
                                    fs1,
                                    cur,
                                    self.storages@[idx as int].1.fs(),
                                    d,
                                );
                            }
                            lemma_extract_all_push(fs1, dst@, ents.take(i as int), ents[i as int]);
                            assert(ents.take(i as int).push(ents[i as int]) =~= ents.take(i + 1));
                            assert(extract_one(cur, dst@, ents[i as int]) == Ok::<FsModel, ErrKind>(
                                self.storages@[idx as int].1.fs(),
                            ));
                        }
                    },
                    Err(se) => {
                        return Err(FinderError::Storage(se));
                    },
                }
            }
            i += 1;
        }
        proof {
            assert(ents.skip(n as int).len() == 0);
            assert(ents.take(n as int) =~= ents);
        }
        self.list_nodes(idx, dirname.as_str())
    }
}

} // verus!
