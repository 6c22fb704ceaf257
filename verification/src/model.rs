//! Mathematical model of one storage backend: a directory tree addressed by
//! resolved segment paths, and the effect of each primitive operation on it.
use vstd::prelude::*;

verus! {

/// A node of the modelled tree: a directory, or a file with its bytes.
pub enum FsNode {
    Dir,
    File { data: Seq<u8> },
}

/// The model of a backend's state: a map from the resolved segment path of
/// each stored entry to the node kept there. The backend root is implicit;
/// it is the empty path and never an entry of the map.
pub type FsModel = Map<Seq<Seq<char>>, FsNode>;

/// The failure kinds a primitive can report.
pub enum ErrKind {
    NotFound,
    InvalidPath,
    Io,
}

/// One segment as it may appear in a resolved path: non-empty, free of
/// separators, and not one of the special segments `.` and `..`.
pub open spec fn seg_ok(g: Seq<char>) -> bool {
    &&& g.len() > 0
    &&& g != seq!['.']
    &&& g != seq!['.', '.']
    &&& forall|i: int| 0 <= i < g.len() ==> g[i] != '/'
}

pub open spec fn segs_ok(p: Seq<Seq<char>>) -> bool {
    forall|i: int| 0 <= i < p.len() ==> seg_ok(#[trigger] p[i])
}

/// Every stored path is clean and every proper ancestor of a stored path is
/// itself stored as a directory, so the model always describes a tree.
pub open spec fn fs_wf(fs: FsModel) -> bool {
    &&& forall|p: Seq<Seq<char>>| #[trigger] fs.dom().contains(p) ==> segs_ok(p) && p.len() > 0
    &&& forall|p: Seq<Seq<char>>, k: int|
        #![trigger fs.dom().contains(p), p.take(k)]
        fs.dom().contains(p) && 0 < k < p.len() ==> fs.dom().contains(p.take(k)) && fs[p.take(k)] is Dir
}

/// Whether a path names an existing node; the root always exists.
pub open spec fn node_exists(fs: FsModel, p: Seq<Seq<char>>) -> bool {
    p.len() == 0 || fs.dom().contains(p)
}

/// What reading a path yields: the bytes of a file, `NotFound` for an absent
/// entry, and an I/O failure for the root or any other directory.
pub open spec fn read_at(fs: FsModel, p: Seq<Seq<char>>) -> Result<Seq<u8>, ErrKind> {
    if p.len() == 0 {
        Err(ErrKind::Io)
    } else if !fs.dom().contains(p) {
        Err(ErrKind::NotFound)
    } else {
        match fs[p] {
            FsNode::File { data } => Ok(data),
            FsNode::Dir => Err(ErrKind::Io),
        }
    }
}

/// No proper ancestor of `p` that already exists is a file.
pub open spec fn ancestors_ok(fs: FsModel, p: Seq<Seq<char>>) -> bool {
    forall|k: int|
        0 < k < p.len() ==> (#[trigger] fs.dom().contains(p.take(k)) ==> fs[p.take(k)] is Dir)
}

/// A file may be written at `p` when `p` is not the root, is not currently a
/// directory, and no existing ancestor is a file.
pub open spec fn write_allowed(fs: FsModel, p: Seq<Seq<char>>) -> bool {
    &&& p.len() > 0
    &&& !fs.dom().contains(p) || fs[p] is File
    &&& ancestors_ok(fs, p)
}

/// The state after a successful write: every missing proper ancestor of `p`
/// becomes a directory and `p` holds the new bytes; writes are otherwise
/// overwriting and report an I/O failure when `write_allowed` does not hold.
pub open spec fn write_at(fs: FsModel, p: Seq<Seq<char>>, data: Seq<u8>) -> Result<FsModel, ErrKind> {
    if write_allowed(fs, p) {
        Ok(
            Map::new(
                |q: Seq<Seq<char>>|
                    fs.dom().contains(q) || (0 < q.len() < p.len() && q == p.take(q.len() as int))
                        || q == p,
                |q: Seq<Seq<char>>|
                    if q == p {
                        FsNode::File { data }
                    } else if fs.dom().contains(q) {
                        fs[q]
                    } else {
                        FsNode::Dir
                    },
            ),
        )
    } else {
        Err(ErrKind::Io)
    }
}

/// A directory may be created at `p` when neither `p` nor any of its existing
/// ancestors is a file; creating an existing directory succeeds unchanged.
pub open spec fn create_allowed(fs: FsModel, p: Seq<Seq<char>>) -> bool {
    forall|k: int|
        0 < k <= p.len() ==> (#[trigger] fs.dom().contains(p.take(k)) ==> fs[p.take(k)] is Dir)
}

/// The state after creating a directory at `p` together with every missing
/// ancestor.
pub open spec fn create_dir_at(fs: FsModel, p: Seq<Seq<char>>) -> Result<FsModel, ErrKind> {
    if create_allowed(fs, p) {
        Ok(
            Map::new(
                |q: Seq<Seq<char>>|
                    fs.dom().contains(q) || (0 < q.len() <= p.len() && q == p.take(q.len() as int)),
                |q: Seq<Seq<char>>| if fs.dom().contains(q) { fs[q] } else { FsNode::Dir },
            ),
        )
    } else {
        Err(ErrKind::Io)
    }
}

/// The state after deleting `p`: a file disappears, a directory disappears
/// with its whole subtree, and deleting the root empties the backend.
pub open spec fn delete_at(fs: FsModel, p: Seq<Seq<char>>) -> Result<FsModel, ErrKind> {
    if p.len() == 0 {
        Ok(Map::<Seq<Seq<char>>, FsNode>::empty())
    } else if !fs.dom().contains(p) {
        Err(ErrKind::NotFound)
    } else {
        Ok(Map::new(|q: Seq<Seq<char>>| fs.dom().contains(q) && !p.is_prefix_of(q), |q: Seq<Seq<char>>| fs[q]))
    }
}

/// A successful write keeps the model well-formed.
pub proof fn lemma_write_wf(fs: FsModel, p: Seq<Seq<char>>, data: Seq<u8>)
    requires
        fs_wf(fs),
        segs_ok(p),
        write_allowed(fs, p),
    ensures
        write_at(fs, p, data) matches Ok(fs2) && fs_wf(fs2),
{
    let fs2 = match write_at(fs, p, data) {
        Ok(m) => m,
        Err(_) => fs,
    };
    assert forall|q: Seq<Seq<char>>| #[trigger] fs2.dom().contains(q) implies segs_ok(q) && q.len()
        > 0 by {
        if !fs.dom().contains(q) {
            assert(q.is_prefix_of(p) || q == p);
            assert forall|i: int| 0 <= i < q.len() implies seg_ok(#[trigger] q[i]) by {
                assert(q[i] == p[i]);
            }
        }
    }
    assert forall|q: Seq<Seq<char>>, k: int|
        #![trigger fs2.dom().contains(q), q.take(k)]
        fs2.dom().contains(q) && 0 < k < q.len() implies fs2.dom().contains(q.take(k))
        && fs2[q.take(k)] is Dir by {
        if fs.dom().contains(q) {
            assert(fs.dom().contains(q.take(k)));
            assert(fs[q.take(k)] is Dir);
            assert(fs2[q.take(k)] == fs[q.take(k)]) by {
                assert(q.take(k) != p) by {
                    if q.take(k) == p {
                        assert(fs[p] is Dir);
                        assert(!write_allowed(fs, p));
                    }
                }
            }
        } else {
            // q is p or one of its missing proper ancestors
            assert(q == p.take(q.len() as int));
            assert(q.take(k) =~= p.take(k));
            if fs.dom().contains(p.take(k)) {
                assert(fs[p.take(k)] is Dir);
                assert(fs2[p.take(k)] == fs[p.take(k)]);
            } else {
                assert(p.take(k) != p) by {
                    assert(p.take(k).len() == k < p.len());
                }
                assert(fs2[p.take(k)] is Dir);
            }
        }
    }
}

/// A successful directory creation keeps the model well-formed.
pub proof fn lemma_create_wf(fs: FsModel, p: Seq<Seq<char>>)
    requires
        fs_wf(fs),
        segs_ok(p),
        create_allowed(fs, p),
    ensures
        create_dir_at(fs, p) matches Ok(fs2) && fs_wf(fs2),
{
    let fs2 = match create_dir_at(fs, p) {
        Ok(m) => m,
        Err(_) => fs,
    };
    assert forall|q: Seq<Seq<char>>| #[trigger] fs2.dom().contains(q) implies segs_ok(q) && q.len()
        > 0 by {
        if !fs.dom().contains(q) {
            assert(q == p.take(q.len() as int));
            assert forall|i: int| 0 <= i < q.len() implies seg_ok(#[trigger] q[i]) by {
                assert(q[i] == p[i]);
            }
        }
    }
    assert forall|q: Seq<Seq<char>>, k: int|
        #![trigger fs2.dom().contains(q), q.take(k)]
        fs2.dom().contains(q) && 0 < k < q.len() implies fs2.dom().contains(q.take(k))
        && fs2[q.take(k)] is Dir by {
        if fs.dom().contains(q) {
            assert(fs.dom().contains(q.take(k)));
            assert(fs[q.take(k)] is Dir);
            assert(fs2[q.take(k)] == fs[q.take(k)]);
        } else {
            assert(q == p.take(q.len() as int));
            assert(q.take(k) =~= p.take(k));
            if fs.dom().contains(p.take(k)) {
                assert(fs[p.take(k)] is Dir);
                assert(fs2[p.take(k)] == fs[p.take(k)]);
            } else {
                assert(fs2[p.take(k)] is Dir);
            }
        }
    }
}

/// A successful deletion keeps the model well-formed.
pub proof fn lemma_delete_wf(fs: FsModel, p: Seq<Seq<char>>)
    requires
        fs_wf(fs),
    ensures
        delete_at(fs, p) matches Ok(fs2) ==> fs_wf(fs2),
{
    match delete_at(fs, p) {
        Ok(fs2) => {
            assert forall|q: Seq<Seq<char>>, k: int|
                #![trigger fs2.dom().contains(q), q.take(k)]
                fs2.dom().contains(q) && 0 < k < q.len() implies fs2.dom().contains(q.take(k))
                && fs2[q.take(k)] is Dir by {
                if p.len() > 0 {
                    assert(fs.dom().contains(q.take(k)));
                    assert(fs[q.take(k)] is Dir);
                    assert(!p.is_prefix_of(q.take(k))) by {
                        if p.is_prefix_of(q.take(k)) {
                            assert(p =~= q.take(k).take(p.len() as int));
                            assert(q.take(k).take(p.len() as int) =~= q.take(p.len() as int));
                            assert(p.is_prefix_of(q));
                        }
                    }
                }
            }
        },
        Err(_) => {},
    }
}


/// Between the two states, only the subtree below `d` differs: membership
/// and values outside it are untouched.
pub open spec fn changed_only_below(pre: FsModel, post: FsModel, d: Seq<Seq<char>>) -> bool {
    forall|q: Seq<Seq<char>>|
        #![trigger post.dom().contains(q)]
        #![trigger pre.dom().contains(q)]
        !d.is_prefix_of(q) ==> (post.dom().contains(q) == pre.dom().contains(q) && (
        pre.dom().contains(q) ==> post[q] == pre[q]))
}

/// A write below a directory whose ancestor chain stands touches nothing
/// outside that directory's subtree and keeps the chain.
pub proof fn lemma_write_below(fs: FsModel, q: Seq<Seq<char>>, data: Seq<u8>, d: Seq<Seq<char>>)
    requires
        d.is_prefix_of(q),
        forall|t: int|
            0 < t <= d.len() ==> fs.dom().contains(#[trigger] d.take(t)) && fs[d.take(t)] is Dir,
        write_at(fs, q, data) is Ok,
    ensures
        ({
            let fsn = write_at(fs, q, data)->Ok_0;
            &&& (forall|t: int|
                0 < t <= d.len() ==> fsn.dom().contains(#[trigger] d.take(t)) && fsn[d.take(
                    t,
                )] is Dir)
            &&& changed_only_below(fs, fsn, d)
        }),
{
    let fsn = write_at(fs, q, data)->Ok_0;
    assert(write_allowed(fs, q));
    assert(q != d || d.len() == 0) by {
        if q == d && d.len() > 0 {
            assert(d.take(d.len() as int) =~= d);
            assert(fs[d] is Dir);
            assert(!write_allowed(fs, q));
        }
    }
    assert forall|t: int|
        0 < t <= d.len() implies fsn.dom().contains(#[trigger] d.take(t)) && fsn[d.take(
        t,
    )] is Dir by {
        assert(d.take(t).len() == t);
        assert(d.take(t) != q) by {
            if d.take(t) == q {
                assert(q.len() == t <= d.len());
                assert(d =~= q);
            }
        }
        assert(fsn[d.take(t)] == fs[d.take(t)]);
    }
    assert forall|p: Seq<Seq<char>>|
        !d.is_prefix_of(p) implies (fsn.dom().contains(p) == fs.dom().contains(p) && (
    fs.dom().contains(p) ==> fsn[p] == fs[p])) by {
        assert(p != q) by {
            if p == q {
                assert(d.is_prefix_of(p));
            }
        }
        if !fs.dom().contains(p) && fsn.dom().contains(p) {
            assert(0 < p.len() < q.len() && p == q.take(p.len() as int));
            assert(p.len() < d.len()) by {
                if p.len() >= d.len() {
                    assert(d =~= p.subrange(0, d.len() as int));
                    assert(d.is_prefix_of(p));
                }
            }
            assert(p =~= d.take(p.len() as int));
            assert(fs.dom().contains(d.take(p.len() as int)));
            assert(false);
        }
        if fs.dom().contains(p) {
            assert(fsn.dom().contains(p));
            assert(fsn[p] == fs[p]);
        }
    }
}

/// A directory created below a directory whose ancestor chain stands touches
/// nothing outside that directory's subtree and keeps the chain.
pub proof fn lemma_create_below(fs: FsModel, q: Seq<Seq<char>>, d: Seq<Seq<char>>)
    requires
        d.is_prefix_of(q),
        forall|t: int|
            0 < t <= d.len() ==> fs.dom().contains(#[trigger] d.take(t)) && fs[d.take(t)] is Dir,
        create_dir_at(fs, q) is Ok,
    ensures
        ({
            let fsn = create_dir_at(fs, q)->Ok_0;
            &&& (forall|t: int|
                0 < t <= d.len() ==> fsn.dom().contains(#[trigger] d.take(t)) && fsn[d.take(
                    t,
                )] is Dir)
            &&& changed_only_below(fs, fsn, d)
        }),
{
    let fsn = create_dir_at(fs, q)->Ok_0;
    assert forall|t: int|
        0 < t <= d.len() implies fsn.dom().contains(#[trigger] d.take(t)) && fsn[d.take(
        t,
    )] is Dir by {
        assert(fsn[d.take(t)] == fs[d.take(t)]);
    }
    assert forall|p: Seq<Seq<char>>|
        !d.is_prefix_of(p) implies (fsn.dom().contains(p) == fs.dom().contains(p) && (
    fs.dom().contains(p) ==> fsn[p] == fs[p])) by {
        if !fs.dom().contains(p) && fsn.dom().contains(p) {
            assert(0 < p.len() <= q.len() && p == q.take(p.len() as int));
            assert(p.len() < d.len()) by {
                if p.len() >= d.len() {
                    assert(d =~= p.subrange(0, d.len() as int));
                    assert(d.is_prefix_of(p));
                }
            }
            assert(p =~= d.take(p.len() as int));
            assert(fs.dom().contains(d.take(p.len() as int)));
            assert(false);
        }
        if fs.dom().contains(p) {
            assert(fsn.dom().contains(p));
            assert(fsn[p] == fs[p]);
        }
    }
}

/// The outside-the-subtree frame composes across successive states.
pub proof fn lemma_changed_only_below_trans(a: FsModel, b: FsModel, c: FsModel, d: Seq<Seq<char>>)
    requires
        changed_only_below(a, b, d),
        changed_only_below(b, c, d),
    ensures
        changed_only_below(a, c, d),
{
    assert forall|q: Seq<Seq<char>>|
        !d.is_prefix_of(q) implies (c.dom().contains(q) == a.dom().contains(q) && (
    a.dom().contains(q) ==> c[q] == a[q])) by {
        assert(b.dom().contains(q) == a.dom().contains(q));
        assert(c.dom().contains(q) == b.dom().contains(q));
    }
}

/// The textual form of a segment path, with `/` between segments.
pub open spec fn join_segs(p: Seq<Seq<char>>) -> Seq<char>
    decreases p.len(),
{
    if p.len() == 0 {
        Seq::empty()
    } else if p.len() == 1 {
        p[0]
    } else {
        p[0] + seq!['/'] + join_segs(p.skip(1))
    }
}

pub proof fn lemma_join_segs_push(p: Seq<Seq<char>>, g: Seq<char>)
    ensures
        join_segs(p.push(g)) == if p.len() == 0 {
            g
        } else {
            join_segs(p) + seq!['/'] + g
        },
    decreases p.len(),
{
    if p.len() == 0 {
        assert(p.push(g)[0] == g);
    } else if p.len() == 1 {
        assert(p.push(g)[0] == p[0]);
        assert(p.push(g).skip(1) =~= seq![g]);
        assert(join_segs(seq![g]) == g);
    } else {
        assert(p.push(g)[0] == p[0]);
        assert(p.push(g).skip(1) =~= p.skip(1).push(g));
        lemma_join_segs_push(p.skip(1), g);
        assert(join_segs(p.push(g)) == p[0] + seq!['/'] + (join_segs(p.skip(1)) + seq!['/'] + g));
        assert(p[0] + seq!['/'] + (join_segs(p.skip(1)) + seq!['/'] + g) =~= (p[0] + seq!['/']
            + join_segs(p.skip(1))) + seq!['/'] + g);
    }
}

/// `c` is a direct child of the directory path `p` in `fs`.
pub open spec fn is_child(fs: FsModel, p: Seq<Seq<char>>, c: Seq<Seq<char>>) -> bool {
    &&& fs.dom().contains(c)
    &&& c.len() == p.len() + 1
    &&& p.is_prefix_of(c)
}

} // verus!
