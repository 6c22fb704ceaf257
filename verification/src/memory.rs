//! The in-memory backend: a verified implementation of the storage
//! capability interface over the modelled directory tree.
use vstd::prelude::*;
use vstd::seq_lib::*;
use crate::model::{
    ErrKind, FsModel, FsNode, ancestors_ok, create_allowed, create_dir_at, delete_at, fs_wf,
    is_child, lemma_write_wf, seg_ok, segs_ok, write_allowed, write_at,
};
use crate::resolve::resolve_segments;
use crate::storage::{
    StorageAdapter, StorageError, StorageItem, dir_exists, item_matches, list_matches,
};
use crate::strutil::{clone_bytes, clone_segs, eq_segs, extension_of, join_path, prefix_segs, segs_prefix};
use crate::mime::mime_of;

verus! {

/// A stored node: a directory, or a file with its bytes.
pub enum MemNode {
    Dir,
    File { data: Vec<u8> },
}

impl MemNode {
    pub open spec fn model(&self) -> FsNode {
        match self {
            MemNode::Dir => FsNode::Dir,
            MemNode::File { data } => FsNode::File { data: data@ },
        }
    }
}

/// One stored entry: a resolved segment path and the node kept there.
pub struct MemEntry {
    pub segs: Vec<String>,
    pub node: MemNode,
}

impl MemEntry {
    pub open spec fn path(&self) -> Seq<Seq<char>> {
        self.segs.deep_view()
    }
}

/// The map described by a sequence of entries; a later entry would win, but
/// the backend keeps paths unique.
pub open spec fn fs_of(s: Seq<MemEntry>) -> FsModel
    decreases s.len(),
{
    if s.len() == 0 {
        Map::empty()
    } else {
        fs_of(s.drop_last()).insert(s.last().path(), s.last().node.model())
    }
}

/// No two entries share a path.
pub open spec fn entries_unique(s: Seq<MemEntry>) -> bool {
    forall|i: int, j: int| 0 <= i < j < s.len() ==> s[i].path() != s[j].path()
}

pub proof fn lemma_fs_of_dom(s: Seq<MemEntry>, p: Seq<Seq<char>>)
    ensures
        fs_of(s).dom().contains(p) <==> exists|i: int| 0 <= i < s.len() && (#[trigger] s[i].path()) == p,
    decreases s.len(),
{
    if s.len() > 0 {
        lemma_fs_of_dom(s.drop_last(), p);
        if fs_of(s).dom().contains(p) {
            if s.last().path() == p {
                assert(s[s.len() - 1].path() == p);
            } else {
                let i = choose|i: int| 0 <= i < s.drop_last().len() && (#[trigger] s.drop_last()[i].path()) == p;
                assert(s[i].path() == p);
            }
        }
        if exists|i: int| 0 <= i < s.len() && (#[trigger] s[i].path()) == p {
            let i = choose|i: int| 0 <= i < s.len() && (#[trigger] s[i].path()) == p;
            if i < s.len() - 1 {
                assert(s.drop_last()[i].path() == p);
            }
        }
    }
}

pub proof fn lemma_fs_of_index(s: Seq<MemEntry>, i: int)
    requires
        entries_unique(s),
        0 <= i < s.len(),
    ensures
        fs_of(s).dom().contains(s[i].path()),
        fs_of(s)[s[i].path()] == s[i].node.model(),
    decreases s.len(),
{
    if s.len() > 0 {
        if i == s.len() - 1 {
        } else {
            assert(entries_unique(s.drop_last()));
            assert(s.drop_last()[i] == s[i]);
            lemma_fs_of_index(s.drop_last(), i);
            assert(s[i].path() != s[s.len() - 1].path());
        }
    }
}

pub proof fn lemma_fs_of_push(s: Seq<MemEntry>, e: MemEntry)
    ensures
        fs_of(s.push(e)) == fs_of(s).insert(e.path(), e.node.model()),
{
    assert(s.push(e).drop_last() =~= s);
    assert(s.push(e).last() == e);
}

pub proof fn lemma_fs_of_update(s: Seq<MemEntry>, i: int, e: MemEntry)
    requires
        entries_unique(s),
        0 <= i < s.len(),
        e.path() == s[i].path(),
    ensures
        fs_of(s.update(i, e)) == fs_of(s).insert(e.path(), e.node.model()),
    decreases s.len(),
{
    if i == s.len() - 1 {
        assert(s.update(i, e).drop_last() =~= s.drop_last());
        assert(s.update(i, e).last() == e);
        assert(fs_of(s.drop_last()).insert(s[i].path(), s[i].node.model()).insert(
            e.path(),
            e.node.model(),
        ) =~= fs_of(s.drop_last()).insert(e.path(), e.node.model()));
    } else {
        assert(entries_unique(s.drop_last()));
        assert(s.drop_last()[i] == s[i]);
        lemma_fs_of_update(s.drop_last(), i, e);
        assert(s.update(i, e).drop_last() =~= s.drop_last().update(i, e));
        assert(s.update(i, e).last() == s.last());
        assert(e.path() != s.last().path()) by {
            assert(s[i].path() != s[s.len() - 1].path());
        }
        assert(fs_of(s.drop_last()).insert(e.path(), e.node.model()).insert(
            s.last().path(),
            s.last().node.model(),
        ) =~= fs_of(s.drop_last()).insert(s.last().path(), s.last().node.model()).insert(
            e.path(),
            e.node.model(),
        ));
    }
}

/// The state of a backend while the missing ancestors of `p` up to length
/// `k` are being created.
pub open spec fn add_dirs(fs: FsModel, p: Seq<Seq<char>>, k: int) -> FsModel {
    Map::new(
        |q: Seq<Seq<char>>|
            fs.dom().contains(q) || (0 < q.len() <= k && q == p.take(q.len() as int)),
        |q: Seq<Seq<char>>| if fs.dom().contains(q) { fs[q] } else { FsNode::Dir },
    )
}

/// A deep copy of one entry, describing the same path and node.
fn clone_entry(e: &MemEntry) -> (r: MemEntry)
    ensures
        r.path() == e.path(),
        r.node.model() == e.node.model(),
{
    let segs = clone_segs(&e.segs);
    let node = match &e.node {
        MemNode::Dir => MemNode::Dir,
        MemNode::File { data } => MemNode::File { data: clone_bytes(data) },
    };
    MemEntry { segs, node }
}

/// The in-memory backend: a named registry of entries whose view is a
/// well-formed directory tree.
pub struct MemStorage {
    name: String,
    entries: Vec<MemEntry>,
}

impl MemStorage {
    /// A fresh, empty backend registered under `name`; the name also serves
    /// as the scheme of the virtual paths the backend reports.
    pub fn new(name: &str) -> (r: MemStorage)
        ensures
            r.inv(),
            r.fs() == Map::<Seq<Seq<char>>, FsNode>::empty(),
            r.spec_name() == name@,
    {
        let r = MemStorage { name: String::from_str(name), entries: Vec::new() };
        proof {
            assert(r.entries@.len() == 0);
            assert(fs_of(r.entries@) =~= Map::<Seq<Seq<char>>, FsNode>::empty());
        }
        r
    }

    /// Finds the entry stored at exactly the path `p`.
    fn find_entry(&self, p: &Vec<String>) -> (r: Option<usize>)
        requires
            self.inv(),
        ensures
            match r {
                Some(i) => i < self.entries@.len() && self.entries@[i as int].path() == p.deep_view()
                    && self.fs().dom().contains(p.deep_view())
                    && self.fs()[p.deep_view()] == self.entries@[i as int].node.model(),
                None => !self.fs().dom().contains(p.deep_view()),
            },
    {
        let ghost dv = p.deep_view();
        let mut i: usize = 0;
        while i < self.entries.len()
            invariant
                0 <= i <= self.entries@.len(),
                self.inv(),
                dv == p.deep_view(),
                forall|j: int| 0 <= j < i ==> (#[trigger] self.entries@[j].path()) != dv,
            decreases self.entries@.len() - i,
        {
            if eq_segs(&self.entries[i].segs, p) {
                proof {
                    lemma_fs_of_index(self.entries@, i as int);
                }
                return Some(i);
            }
            i += 1;
        }
        proof {
            lemma_fs_of_dom(self.entries@, dv);
        }
        None
    }

    /// Whether every ancestor of the path that already exists, up to length
    /// `upto`, is a directory.
    fn check_prefixes(&self, segs: &Vec<String>, upto: usize) -> (ok: bool)
        requires
            self.inv(),
            upto <= segs.len(),
        ensures
            ok == (forall|k: int|
                0 < k <= upto ==> (self.fs().dom().contains(
                    #[trigger] segs.deep_view().take(k),
                ) ==> self.fs()[segs.deep_view().take(k)] is Dir)),
    {
        let ghost p = segs.deep_view();
        proof {
            assert(p.len() == segs@.len());
        }
        let mut k: usize = 0;
        while k < upto
            invariant
                0 <= k <= upto,
                upto <= segs.len(),
                segs@.len() == p.len(),
                self.inv(),
                p == segs.deep_view(),
                forall|t: int|
                    0 < t <= k ==> (self.fs().dom().contains(#[trigger] p.take(t))
                        ==> self.fs()[p.take(t)] is Dir),
            decreases upto - k,
        {
            let pre = prefix_segs(segs, k + 1);
            match self.find_entry(&pre) {
                Some(i) => {
                    match &self.entries[i].node {
                        MemNode::File { .. } => {
                            proof {
                                assert(self.fs().dom().contains(p.take(k + 1)));
                                assert(!(self.fs()[p.take(k + 1)] is Dir));
                            }
                            return false;
                        },
                        MemNode::Dir => {},
                    }
                },
                None => {},
            }
            k += 1;
        }
        true
    }

    /// Creates every missing ancestor directory of the path, up to length
    /// `upto`, in ascending order.
    fn make_dirs(&mut self, segs: &Vec<String>, upto: usize)
        requires
            old(self).inv(),
            upto <= segs.len(),
            segs_ok(segs.deep_view()),
            forall|k: int|
                0 < k <= upto ==> (old(self).fs().dom().contains(
                    #[trigger] segs.deep_view().take(k),
                ) ==> old(self).fs()[segs.deep_view().take(k)] is Dir),
        ensures
            final(self).inv(),
            final(self).spec_name() == old(self).spec_name(),
            final(self).fs() == add_dirs(old(self).fs(), segs.deep_view(), upto as int),
            final(self).entries@.len() >= old(self).entries@.len(),
            forall|j: int|
                0 <= j < old(self).entries@.len() ==> final(self).entries@[j] == old(
                    self,
                ).entries@[j],
    {
        let ghost p = segs.deep_view();
        let ghost fs0 = old(self).fs();
        let ghost n0 = old(self).entries@.len();
        proof {
            assert(p.len() == segs@.len());
            assert(self.fs() =~= add_dirs(fs0, p, 0));
        }
        let mut k: usize = 0;
        while k < upto
            invariant
                0 <= k <= upto,
                upto <= segs.len(),
                segs@.len() == p.len(),
                self.inv(),
                p == segs.deep_view(),
                segs_ok(p),
                self.spec_name() == old(self).spec_name(),
                fs0 == old(self).fs(),
                n0 == old(self).entries@.len(),
                self.fs() == add_dirs(fs0, p, k as int),
                self.entries@.len() >= n0,
                forall|j: int| 0 <= j < n0 ==> self.entries@[j] == old(self).entries@[j],
                forall|t: int|
                    0 < t <= upto ==> (fs0.dom().contains(#[trigger] p.take(t)) ==> fs0[p.take(
                        t,
                    )] is Dir),
                forall|t: int|
                    0 < t <= k ==> self.fs().dom().contains(#[trigger] p.take(t)) && self.fs()[
                        p.take(t)
                    ] is Dir,
            decreases upto - k,
        {
            let ghost cur = self.fs();
            let pre = prefix_segs(segs, k + 1);
            proof {
                assert(pre.deep_view().len() == k + 1);
            }
            match self.find_entry(&pre) {
                Some(_) => {
                    proof {
                        assert(p.take(k + 1).len() == k + 1);
                        assert(cur.dom().contains(p.take(k + 1)));
                        assert(fs0.dom().contains(p.take(k + 1)));
                        assert(cur[p.take(k + 1)] == fs0[p.take(k + 1)]);
                        assert(cur[p.take(k + 1)] is Dir);
                        assert(cur =~= add_dirs(fs0, p, k + 1));
                    }
                },
                None => {
                    proof {
                        lemma_fs_of_dom(self.entries@, pre.deep_view());
                    }
                    let ghost prev = self.entries@;
                    self.entries.push(MemEntry { segs: pre, node: MemNode::Dir });
                    proof {
                        lemma_fs_of_push(prev, self.entries@.last());
                        assert(self.entries@.last().path() == p.take(k + 1));
                        assert(self.entries@.last().node.model() == FsNode::Dir);
                        assert(self.entries@.drop_last() =~= prev);
                        assert(self.fs() == cur.insert(p.take(k + 1), FsNode::Dir));
                        // the new state is exactly one more created ancestor
                        assert(self.fs() =~= add_dirs(fs0, p, k + 1)) by {
                            assert(!fs0.dom().contains(p.take(k + 1)));
                        }
                        // the entries stay unique and clean
                        assert(entries_unique(self.entries@)) by {
                            assert forall|i: int, j: int|
                                0 <= i < j < self.entries@.len() implies self.entries@[i].path()
                                != self.entries@[j].path() by {
                                if j == self.entries@.len() - 1 {
                                    assert(self.entries@[i] == prev[i]);
                                } else {
                                    assert(self.entries@[i] == prev[i]);
                                    assert(self.entries@[j] == prev[j]);
                                }
                            }
                        }
                        assert forall|i: int|
                            0 <= i < self.entries@.len() implies segs_ok(
                            #[trigger] self.entries@[i].path(),
                        ) && self.entries@[i].path().len() > 0 by {
                            if i == self.entries@.len() - 1 {
                                assert(self.entries@[i].path() == p.take(k + 1));
                                assert forall|t: int| 0 <= t < k + 1 implies seg_ok(
                                    #[trigger] p.take(k + 1)[t],
                                ) by {
                                    assert(p.take(k + 1)[t] == p[t]);
                                }
                            } else {
                                assert(self.entries@[i] == prev[i]);
                            }
                        }
                        // the tree stays well-formed
                        assert(fs_wf(self.fs())) by {
                            assert forall|q: Seq<Seq<char>>| #[trigger] self.fs().dom().contains(
                                q,
                            ) implies segs_ok(q) && q.len() > 0 by {
                                if q == p.take(k + 1) {
                                    assert forall|t: int| 0 <= t < q.len() implies seg_ok(
                                        #[trigger] q[t],
                                    ) by {
                                        assert(q[t] == p[t]);
                                    }
                                } else {
                                    assert(cur.dom().contains(q));
                                }
                            }
                            assert forall|q: Seq<Seq<char>>, t: int|
                                #![trigger self.fs().dom().contains(q), q.take(t)]
                                self.fs().dom().contains(q) && 0 < t < q.len() implies self.fs()
                                .dom().contains(q.take(t)) && self.fs()[q.take(t)] is Dir by {
                                if q == p.take(k + 1) {
                                    assert(q.take(t) =~= p.take(t));
                                    assert(cur.dom().contains(p.take(t)));
                                    assert(cur[p.take(t)] is Dir);
                                    assert(q.take(t) != p.take(k + 1)) by {
                                        assert(p.take(t).len() == t);
                                    }
                                    assert(self.fs()[q.take(t)] == cur[q.take(t)]);
                                } else {
                                    assert(cur.dom().contains(q));
                                    assert(cur.dom().contains(q.take(t)));
                                    assert(cur[q.take(t)] is Dir);
                                    assert(q.take(t) != p.take(k + 1)) by {
                                        if q.take(t) == p.take(k + 1) {
                                            assert(!fs0.dom().contains(q.take(t)));
                                            assert(cur.dom().contains(q.take(t)));
                                            assert(false);
                                        }
                                    }
                                    assert(self.fs()[q.take(t)] == cur[q.take(t)]);
                                }
                            }
                        }
                    }
                },
            }
            k += 1;
        }
        proof {
            assert(self.fs() == add_dirs(fs0, p, upto as int));
        }
    }
}

impl StorageAdapter for MemStorage {
    closed spec fn fs(&self) -> FsModel {
        fs_of(self.entries@)
    }

    closed spec fn inv(&self) -> bool {
        &&& entries_unique(self.entries@)
        &&& forall|i: int|
            0 <= i < self.entries@.len() ==> segs_ok(#[trigger] self.entries@[i].path())
                && self.entries@[i].path().len() > 0
        &&& fs_wf(fs_of(self.entries@))
    }

    closed spec fn spec_name(&self) -> Seq<char> {
        self.name@
    }

    fn name(&self) -> (r: String) {
        self.name.clone()
    }

    #[verifier::rlimit(80)]
    fn list_contents(&self, path: &str) -> (r: Result<Vec<StorageItem>, StorageError>) {
        let segs = match resolve_segments(path) {
            Ok(v) => v,
            Err(e) => {
                return Err(e);
            },
        };
        let ghost p = segs.deep_view();
        if segs.len() > 0 {
            match self.find_entry(&segs) {
                None => {
                    return Err(StorageError::NotFound(String::from_str(path)));
                },
                Some(i) => match &self.entries[i].node {
                    MemNode::File { .. } => {
                        return Err(StorageError::Io(String::from_str("not a directory")));
                    },
                    MemNode::Dir => {},
                },
            }
        }
        let mut items: Vec<StorageItem> = Vec::new();
        let mut i: usize = 0;
        while i < self.entries.len()
            invariant
                0 <= i <= self.entries@.len(),
                self.inv(),
                p == segs.deep_view(),
                dir_exists(self.fs(), p),
                forall|t: int|
                    0 <= t < items@.len() ==> item_matches(
                        self.fs(),
                        self.spec_name(),
                        p,
                        #[trigger] items@[t],
                    ),
                forall|t: int|
                    #![trigger items@[t]]
                    0 <= t < items@.len() ==> exists|j: int|
                        0 <= j < i && (#[trigger] self.entries@[j].path()) == p.push(
                            items@[t].basename@,
                        ),
                forall|j: int|
                    0 <= j < i && is_child(self.fs(), p, #[trigger] self.entries@[j].path())
                        ==> exists|t: int|
                        0 <= t < items@.len() && (#[trigger] items@[t].basename@)
                            == self.entries@[j].path()[p.len() as int],
                forall|t1: int, t2: int|
                    0 <= t1 < t2 < items@.len() ==> (#[trigger] items@[t1].basename@)
                        != (#[trigger] items@[t2].basename@),
            decreases self.entries@.len() - i,
        {
            let e = &self.entries[i];
            if e.segs.len() > segs.len() && e.segs.len() - 1 == segs.len() && segs_prefix(
                &segs,
                &e.segs,
            ) {
                let bn: String = e.segs[e.segs.len() - 1].clone();
                proof {
                    assert(e.path()[p.len() as int] == bn@);
                    assert(e.path() =~= p.push(bn@));
                    lemma_fs_of_index(self.entries@, i as int);
                }
                let mut full: String = self.name.clone();
                full.append("://");
                let joined = join_path(&e.segs);
                full.append(joined.as_str());
                let item = match &e.node {
                    MemNode::Dir => StorageItem {
                        node_type: String::from_str("dir"),
                        path: full,
                        basename: bn.clone(),
                        extension: extension_of(bn.as_str()),
                        mime_type: None,
                        last_modified: None,
                        size: None,
                    },
                    MemNode::File { data } => StorageItem {
                        node_type: String::from_str("file"),
                        path: full,
                        basename: bn.clone(),
                        extension: extension_of(bn.as_str()),
                        mime_type: Some(mime_of(bn.as_str())),
                        last_modified: None,
                        size: Some(data.len() as u64),
                    },
                };
                proof {
                    assert(item_matches(self.fs(), self.spec_name(), p, item));
                }
                let ghost prev = items@;
                items.push(item);
                proof {
                    assert forall|t: int| 0 <= t < items@.len() implies item_matches(
                        self.fs(),
                        self.spec_name(),
                        p,
                        #[trigger] items@[t],
                    ) by {
                        assert(items@[t] == prev.push(item)[t]);
                        if t < prev.len() {
                            assert(prev.push(item)[t] == prev[t]);
                        } else {
                            assert(prev.push(item)[t] == item);
                        }
                    }
                    assert forall|t: int| #![trigger items@[t]] 0 <= t < items@.len() implies exists|j: int|
                        0 <= j < i + 1 && (#[trigger] self.entries@[j].path()) == p.push(
                            items@[t].basename@,
                        ) by {
                        assert(items@[t] == prev.push(item)[t]);
                        if t < prev.len() {
                            assert(prev.push(item)[t] == prev[t]);
                            let j = choose|j: int|
                                0 <= j < i && (#[trigger] self.entries@[j].path()) == p.push(
                                    prev[t].basename@,
                                );
                            assert(self.entries@[j].path() == p.push(items@[t].basename@));
                        } else {
                            assert(prev.push(item)[t] == item);
                            assert(self.entries@[i as int].path() == p.push(item.basename@));
                        }
                    }
                    assert forall|j: int|
                        0 <= j < i + 1 && is_child(self.fs(), p, #[trigger] self.entries@[j].path())
                            implies exists|t: int|
                            0 <= t < items@.len() && (#[trigger] items@[t].basename@)
                                == self.entries@[j].path()[p.len() as int] by {
                        if j < i {
                            let t = choose|t: int|
                                0 <= t < prev.len() && (#[trigger] prev[t].basename@)
                                    == self.entries@[j].path()[p.len() as int];
                            assert(items@[t] == prev.push(item)[t]);
                            assert(prev.push(item)[t] == prev[t]);
                            assert(items@[t].basename@ == self.entries@[j].path()[p.len() as int]);
                        } else {
                            let t = items@.len() - 1;
                            assert(items@[t] == prev.push(item)[t]);
                            assert(items@[t] == item);
                            assert(item.basename@ == self.entries@[i as int].path()[p.len() as int]);
                        }
                    }
                    assert forall|t1: int, t2: int|
                        0 <= t1 < t2 < items@.len() implies (#[trigger] items@[t1].basename@)
                        != (#[trigger] items@[t2].basename@) by {
                        assert(items@[t1] == prev.push(item)[t1]);
                        assert(items@[t2] == prev.push(item)[t2]);
                        if t2 < prev.len() {
                            assert(items@[t1] == prev[t1]);
                            assert(items@[t2] == prev[t2]);
                        } else {
                            assert(items@[t1] == prev[t1]);
                            assert(items@[t2] == item);
                            if prev[t1].basename@ == item.basename@ {
                                let j = choose|j: int|
                                    0 <= j < i && (#[trigger] self.entries@[j].path()) == p.push(
                                        prev[t1].basename@,
                                    );
                                assert(self.entries@[j].path() == self.entries@[i as int].path());
                                assert(false);
                            }
                        }
                    }
                }
            } else {
                proof {
                    assert(!is_child(self.fs(), p, self.entries@[i as int].path())) by {
                        let q = self.entries@[i as int].path();
                        if is_child(self.fs(), p, q) {
                            assert(q.len() == p.len() + 1);
                            assert(p.is_prefix_of(q));
                            assert(p =~= q.subrange(0, p.len() as int));
                            assert(false);
                        }
                    }
                }
            }
            i += 1;
        }
        proof {
            assert forall|c: Seq<Seq<char>>| #[trigger] is_child(self.fs(), p, c) implies exists|t: int|
                0 <= t < items@.len() && (#[trigger] items@[t].basename@) == c[p.len() as int] by {
                lemma_fs_of_dom(self.entries@, c);
                let j = choose|j: int| 0 <= j < self.entries@.len() && (#[trigger] self.entries@[j].path()) == c;
                assert(is_child(self.fs(), p, self.entries@[j].path()));
            }
            assert(list_matches(self.fs(), self.spec_name(), p, items@));
        }
        Ok(items)
    }

    fn read(&self, path: &str) -> (r: Result<Vec<u8>, StorageError>) {
        let segs = match resolve_segments(path) {
            Ok(v) => v,
            Err(e) => {
                return Err(e);
            },
        };
        if segs.len() == 0 {
            return Err(StorageError::Io(String::from_str("is a directory")));
        }
        match self.find_entry(&segs) {
            None => Err(StorageError::NotFound(String::from_str(path))),
            Some(i) => match &self.entries[i].node {
                MemNode::Dir => Err(StorageError::Io(String::from_str("is a directory"))),
                MemNode::File { data } => Ok(clone_bytes(data)),
            },
        }
    }

    fn write(&mut self, path: &str, contents: Vec<u8>) -> (r: Result<(), StorageError>) {
        let segs = match resolve_segments(path) {
            Ok(v) => v,
            Err(e) => {
                return Err(e);
            },
        };
        let ghost p = segs.deep_view();
        let ghost fs0 = self.fs();
        proof {
            assert(p.len() == segs@.len());
        }
        if segs.len() == 0 {
            return Err(StorageError::Io(String::from_str("is a directory")));
        }
        if !self.check_prefixes(&segs, segs.len() - 1) {
            proof {
                assert(!ancestors_ok(fs0, p));
            }
            return Err(StorageError::Io(String::from_str("parent is not a directory")));
        }
        proof {
            assert(ancestors_ok(fs0, p)) by {
                assert forall|t: int|
                    0 < t < p.len() implies (fs0.dom().contains(#[trigger] p.take(t)) ==> fs0[
                    p.take(t)
                ] is Dir) by {
                    assert(0 < t <= p.len() - 1);
                }
            }
        }
        let mut overwrite: Option<usize> = None;
        match self.find_entry(&segs) {
            Some(i) => {
                match &self.entries[i].node {
                    MemNode::Dir => {
                        proof {
                            assert(!write_allowed(fs0, p));
                        }
                        return Err(StorageError::Io(String::from_str("is a directory")));
                    },
                    MemNode::File { .. } => {
                        overwrite = Some(i);
                    },
                }
            },
            None => {},
        }
        proof {
            assert(write_allowed(fs0, p));
            lemma_write_wf(fs0, p, contents@);
        }
        self.make_dirs(&segs, segs.len() - 1);
        let ghost cur = self.fs();
        match overwrite {
            Some(i) => {
                proof {
                    assert(self.entries@[i as int].path() == p);
                }
                let ghost prev = self.entries@;
                let e = &mut self.entries[i];
                e.node = MemNode::File { data: contents };
                proof {
                    assert(self.entries@ == prev.update(i as int, MemEntry {
                        segs: prev[i as int].segs,
                        node: MemNode::File { data: contents },
                    }));
                    lemma_fs_of_update(prev, i as int, self.entries@[i as int]);
                    assert(self.fs() == cur.insert(p, FsNode::File { data: contents@ }));
                    assert(entries_unique(self.entries@)) by {
                        assert forall|a: int, b: int|
                            0 <= a < b < self.entries@.len() implies self.entries@[a].path()
                            != self.entries@[b].path() by {
                            assert(self.entries@[a].path() == prev[a].path());
                            assert(self.entries@[b].path() == prev[b].path());
                        }
                    }
                    assert forall|a: int|
                        0 <= a < self.entries@.len() implies segs_ok(
                        #[trigger] self.entries@[a].path(),
                    ) && self.entries@[a].path().len() > 0 by {
                        assert(self.entries@[a].path() == prev[a].path());
                    }
                    assert(self.fs() =~= write_at(fs0, p, contents@)->Ok_0);
                }
            },
            None => {
                proof {
                    lemma_fs_of_dom(self.entries@, p);
                    assert(!cur.dom().contains(p)) by {
                        assert(p.len() > segs.len() - 1);
                    }
                }
                let ghost prev = self.entries@;
                self.entries.push(MemEntry { segs, node: MemNode::File { data: contents } });
                proof {
                    lemma_fs_of_push(prev, self.entries@.last());
                    assert(self.entries@.drop_last() =~= prev);
                    assert(self.entries@.last().path() == p);
                    assert(self.fs() == cur.insert(p, FsNode::File { data: contents@ }));
                    assert(entries_unique(self.entries@)) by {
                        lemma_fs_of_dom(prev, p);
                        assert forall|a: int, b: int|
                            0 <= a < b < self.entries@.len() implies self.entries@[a].path()
                            != self.entries@[b].path() by {
                            if b == self.entries@.len() - 1 {
                                assert(self.entries@[a] == prev[a]);
                            } else {
                                assert(self.entries@[a] == prev[a]);
                                assert(self.entries@[b] == prev[b]);
                            }
                        }
                    }
                    assert forall|a: int|
                        0 <= a < self.entries@.len() implies segs_ok(
                        #[trigger] self.entries@[a].path(),
                    ) && self.entries@[a].path().len() > 0 by {
                        if a < self.entries@.len() - 1 {
                            assert(self.entries@[a] == prev[a]);
                        } else {
                            assert(self.entries@[a].path() == p);
                        }
                    }
                    assert(self.fs() =~= write_at(fs0, p, contents@)->Ok_0);
                }
            },
        }
        Ok(())
    }

    fn delete(&mut self, path: &str) -> (r: Result<(), StorageError>) {
        let segs = match resolve_segments(path) {
            Ok(v) => v,
            Err(e) => {
                return Err(e);
            },
        };
        let ghost p = segs.deep_view();
        let ghost fs0 = self.fs();
        proof {
            assert(p.len() == segs@.len());
        }
        if segs.len() == 0 {
            self.entries = Vec::new();
            proof {
                assert(self.entries@.len() == 0);
                assert(self.fs() =~= Map::<Seq<Seq<char>>, FsNode>::empty());
            }
            return Ok(());
        }
        match self.find_entry(&segs) {
            None => {
                return Err(StorageError::NotFound(String::from_str(path)));
            },
            Some(_) => {},
        }
        let ghost sub = Map::new(
            |q: Seq<Seq<char>>| fs0.dom().contains(q) && !p.is_prefix_of(q),
            |q: Seq<Seq<char>>| fs0[q],
        );
        let n: usize = self.entries.len();
        let mut kept: Vec<MemEntry> = Vec::new();
        let mut i: usize = 0;
        proof {
            assert(fs_of(kept@) =~= Map::new(
                |q: Seq<Seq<char>>| fs_of(self.entries@.take(0)).dom().contains(q)
                    && !p.is_prefix_of(q),
                |q: Seq<Seq<char>>| fs_of(self.entries@.take(0))[q],
            ));
        }
        while i < n
            invariant
                0 <= i <= n,
                n == self.entries@.len(),
                self.inv(),
                fs0 == self.fs(),
                p == segs.deep_view(),
                p.len() > 0,
                forall|t: int|
                    0 <= t < kept@.len() ==> exists|j: int|
                        0 <= j < i && (#[trigger] kept@[t].path()) == self.entries@[j].path()
                            && kept@[t].node.model() == self.entries@[j].node.model(),
                entries_unique(kept@),
                forall|t: int|
                    0 <= t < kept@.len() ==> segs_ok(#[trigger] kept@[t].path()) && kept@[t].path().len() > 0,
                fs_of(kept@) == Map::new(
                    |q: Seq<Seq<char>>| fs_of(self.entries@.take(i as int)).dom().contains(q)
                        && !p.is_prefix_of(q),
                    |q: Seq<Seq<char>>| fs_of(self.entries@.take(i as int))[q],
                ),
            decreases n - i,
        {
            let e = &self.entries[i];
            let ghost cur = fs_of(self.entries@.take(i as int));
            proof {
                assert(self.entries@.take(i + 1).drop_last() =~= self.entries@.take(i as int));
                assert(self.entries@.take(i + 1).last() == self.entries@[i as int]);
                assert(fs_of(self.entries@.take(i + 1)) == cur.insert(
                    self.entries@[i as int].path(),
                    self.entries@[i as int].node.model(),
                ));
                assert(!cur.dom().contains(self.entries@[i as int].path())) by {
                    lemma_fs_of_dom(self.entries@.take(i as int), self.entries@[i as int].path());
                    if exists|j: int|
                        0 <= j < i && (#[trigger] self.entries@.take(i as int)[j].path())
                            == self.entries@[i as int].path() {
                        let j = choose|j: int|
                            0 <= j < i && (#[trigger] self.entries@.take(i as int)[j].path())
                                == self.entries@[i as int].path();
                        assert(self.entries@[j].path() == self.entries@[i as int].path());
                        assert(false);
                    }
                }
            }
            if !segs_prefix(&segs, &e.segs) {
                let ghost prevk = kept@;
                let copied = clone_entry(e);
                kept.push(copied);
                proof {
                    assert(kept@.drop_last() =~= prevk);
                    assert(kept@.last() == copied);
                    assert(fs_of(kept@) == fs_of(prevk).insert(copied.path(), copied.node.model()));
                    assert forall|t: int| 0 <= t < kept@.len() implies exists|j: int|
                        0 <= j < i + 1 && (#[trigger] kept@[t].path()) == self.entries@[j].path()
                            && kept@[t].node.model() == self.entries@[j].node.model() by {
                        if t < prevk.len() {
                            assert(kept@[t] == prevk[t]);
                            let j = choose|j: int|
                                0 <= j < i && (#[trigger] prevk[t].path())
                                    == self.entries@[j].path() && prevk[t].node.model()
                                    == self.entries@[j].node.model();
                            assert(kept@[t].path() == self.entries@[j].path());
                        } else {
                            assert(kept@[t] == copied);
                            assert(kept@[t].path() == self.entries@[i as int].path());
                        }
                    }
                    assert(entries_unique(kept@)) by {
                        assert forall|a: int, b: int|
                            0 <= a < b < kept@.len() implies kept@[a].path() != kept@[b].path() by {
                            if b == kept@.len() - 1 {
                                assert(kept@[a] == prevk[a]);
                                let j = choose|j: int|
                                    0 <= j < i && (#[trigger] prevk[a].path())
                                        == self.entries@[j].path() && prevk[a].node.model()
                                        == self.entries@[j].node.model();
                                assert(self.entries@[j].path() != self.entries@[i as int].path());
                            } else {
                                assert(kept@[a] == prevk[a]);
                                assert(kept@[b] == prevk[b]);
                            }
                        }
                    }
                    assert forall|t: int| 0 <= t < kept@.len() implies segs_ok(
                        #[trigger] kept@[t].path(),
                    ) && kept@[t].path().len() > 0 by {
                        if t < prevk.len() {
                            assert(kept@[t] == prevk[t]);
                        } else {
                            assert(kept@[t].path() == self.entries@[i as int].path());
                        }
                    }
                    assert(fs_of(kept@) =~= Map::new(
                        |q: Seq<Seq<char>>| fs_of(self.entries@.take(i + 1)).dom().contains(q)
                            && !p.is_prefix_of(q),
                        |q: Seq<Seq<char>>| fs_of(self.entries@.take(i + 1))[q],
                    ));
                }
            } else {
                proof {
                    assert(p.is_prefix_of(self.entries@[i as int].path()));
                    assert(fs_of(kept@) =~= Map::new(
                        |q: Seq<Seq<char>>| fs_of(self.entries@.take(i + 1)).dom().contains(q)
                            && !p.is_prefix_of(q),
                        |q: Seq<Seq<char>>| fs_of(self.entries@.take(i + 1))[q],
                    ));
                }
            }
            i += 1;
        }
        proof {
            assert(self.entries@.take(n as int) =~= self.entries@);
            assert(fs_of(kept@) =~= sub);
        }
        self.entries = kept;
        proof {
            crate::model::lemma_delete_wf(fs0, p);
            assert(delete_at(fs0, p) == Ok::<FsModel, ErrKind>(sub));
        }
        Ok(())
    }

    fn create_dir(&mut self, path: &str) -> (r: Result<(), StorageError>) {
        let segs = match resolve_segments(path) {
            Ok(v) => v,
            Err(e) => {
                return Err(e);
            },
        };
        let ghost p = segs.deep_view();
        let ghost fs0 = self.fs();
        proof {
            assert(p.len() == segs@.len());
        }
        if segs.len() == 0 {
            proof {
                assert(create_allowed(fs0, p));
                assert(create_dir_at(fs0, p)->Ok_0 =~= fs0);
            }
            return Ok(());
        }
        if !self.check_prefixes(&segs, segs.len()) {
            proof {
                assert(!create_allowed(fs0, p));
            }
            return Err(StorageError::Io(String::from_str("not a directory")));
        }
        proof {
            assert(create_allowed(fs0, p));
            crate::model::lemma_create_wf(fs0, p);
        }
        self.make_dirs(&segs, segs.len());
        proof {
            assert(self.fs() =~= create_dir_at(fs0, p)->Ok_0);
        }
        Ok(())
    }

    fn path_exists(&self, path: &str) -> (r: Result<bool, StorageError>) {
        let segs = match resolve_segments(path) {
            Ok(v) => v,
            Err(e) => {
                return Err(e);
            },
        };
        if segs.len() == 0 {
            return Ok(true);
        }
        match self.find_entry(&segs) {
            None => Ok(false),
            Some(_) => Ok(true),
        }
    }
}

} // verus!
