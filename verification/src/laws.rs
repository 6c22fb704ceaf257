//! The library's laws: traversal rejection and root containment, agreement
//! of existence and read, idempotent directory creation, exact write-read
//! round trips, and the archive round trip.
use vstd::prelude::*;
use vstd::seq_lib::*;
use crate::model::{
    ErrKind, FsModel, FsNode, create_dir_at, create_allowed, fs_wf, join_segs, node_exists,
    seg_ok, segs_ok, write_allowed, write_at,
};
use crate::resolve::{
    basename_spec, keep_seg, lemma_has_slash, lemma_raw_append_any, lemma_raw_segments_split,
    lemma_raw_segments_whole, lemma_resolve_segs_ok, lemma_strip_scheme_append, no_dotdot,
    raw_segments, resolve_spec, scheme_safe, slash_at, strip_scheme,
};
use crate::storage::{
    create_dir_result, exists_result, read_result, write_result,
};
use crate::local::abs_path_of;
use crate::strutil::sub_path_spec;
use crate::finder::{archive_entries, extract_all, extract_one, reads_ok};
use crate::ziputil::zip_encode;

verus! {

/// A traversal segment stands at position `i` of a path body: `..` between
/// separators or the body's ends.
pub open spec fn dotdot_at(s: Seq<char>, i: int) -> bool {
    &&& 0 <= i
    &&& i + 2 <= s.len()
    &&& s[i] == '.'
    &&& s[i + 1] == '.'
    &&& (i == 0 || s[i - 1] == '/')
    &&& (i + 2 == s.len() || s[i + 2] == '/')
}

/// A body holding a traversal segment splits into raw segments one of which
/// is exactly `..`.
pub proof fn lemma_dotdot_in_raw(s: Seq<char>, i: int)
    requires
        dotdot_at(s, i),
    ensures
        exists|m: int|
            0 <= m < raw_segments(s).len() && (#[trigger] raw_segments(s)[m]) == seq!['.', '.'],
    decreases s.len(),
{
    if exists|k: int| slash_at(s, k) {
        let k = choose|k: int| slash_at(s, k);
        lemma_raw_segments_split(s, k);
        if k < i {
            let s2 = s.skip(k + 1);
            assert(dotdot_at(s2, i - k - 1)) by {
                assert(s2[i - k - 1] == s[i]);
                assert(s2[i - k] == s[i + 1]);
                if i - k - 1 > 0 {
                    assert(s2[i - k - 2] == s[i - 1]);
                }
                if i - k + 1 < s2.len() {
                    assert(s2[i - k + 1] == s[i + 2]);
                }
            }
            lemma_dotdot_in_raw(s2, i - k - 1);
            let m2 = choose|m: int|
                0 <= m < raw_segments(s2).len() && (#[trigger] raw_segments(s2)[m]) == seq![
                    '.',
                    '.',
                ];
            assert(raw_segments(s)[m2 + 1] == raw_segments(s2)[m2]);
        } else {
            // the first separator stands at or after the traversal segment,
            // so the head raw segment is exactly `..`
            assert(k != i && k != i + 1) by {
                assert(s[i] == '.');
                assert(s[i + 1] == '.');
            }
            assert(i == 0) by {
                if i > 0 {
                    assert(s[i - 1] != '/');
                }
            }
            assert(k >= i + 2);
            assert(k == i + 2) by {
                if i + 2 == s.len() {
                    assert(k < s.len());
                } else {
                    assert(s[i + 2] == '/');
                    if k > i + 2 {
                        assert(s[i + 2] != '/');
                    }
                }
            }
            assert(s.take(k) =~= seq!['.', '.']);
            assert(raw_segments(s)[0] == seq!['.', '.']);
        }
    } else {
        assert(i == 0) by {
            if i > 0 {
                lemma_has_slash(s, i - 1);
            }
        }
        assert(i + 2 == s.len()) by {
            if i + 2 < s.len() {
                lemma_has_slash(s, i + 2);
            }
        }
        lemma_raw_segments_whole(s);
        assert(s =~= seq!['.', '.']);
        assert(raw_segments(s)[0] == seq!['.', '.']);
    }
}

/// Any virtual path whose body carries a `..` segment is rejected by
/// resolution.
pub proof fn resolve_rejects_traversal(path: Seq<char>, i: int)
    requires
        dotdot_at(strip_scheme(path), i),
    ensures
        resolve_spec(path) is None,
{
    lemma_dotdot_in_raw(strip_scheme(path), i);
    let raw = raw_segments(strip_scheme(path));
    let m = choose|m: int| 0 <= m < raw.len() && (#[trigger] raw[m]) == seq!['.', '.'];
    assert(!no_dotdot(raw));
}

/// Whatever a path resolves to is a clean segment path, so the location it
/// names is the root itself or lies strictly below it.
pub proof fn resolve_stays_below_root(root: Seq<char>, path: Seq<char>)
    ensures
        resolve_spec(path) is Some ==> ({
            let p = resolve_spec(path)->Some_0;
            &&& segs_ok(p)
            &&& (p.len() == 0 ==> abs_path_of(root, p) == root)
            &&& (p.len() > 0 ==> (root + seq!['/']).is_prefix_of(abs_path_of(root, p)))
        }),
{
    lemma_resolve_segs_ok(path);
    match resolve_spec(path) {
        Option::Some(p) => {
            if p.len() > 0 {
                assert((root + seq!['/']).is_prefix_of(root + seq!['/'] + join_segs(p))) by {
                    assert((root + seq!['/'] + join_segs(p)).subrange(
                        0,
                        (root + seq!['/']).len() as int,
                    ) =~= root + seq!['/']);
                }
            }
        },
        Option::None => {},
    }
}

/// A path that names an existing file is seen the same way by the existence
/// test and by reading: the test says `true` and the read yields the bytes.
pub proof fn exists_and_read_agree(fs: FsModel, path: Seq<char>)
    requires
        fs_wf(fs),
        resolve_spec(path) matches Some(p) && fs.dom().contains(p) && fs[p] matches FsNode::File {
            data,
        },
    ensures
        exists_result(fs, path) == Ok::<bool, ErrKind>(true),
        read_result(fs, path) matches Ok(d) && fs[resolve_spec(path)->Some_0] == (FsNode::File {
            data: d,
        }),
{
    let p = resolve_spec(path)->Some_0;
    assert(node_exists(fs, p));
}

/// Creating a directory is idempotent: where the first creation succeeds,
/// the second succeeds too and changes nothing.
pub proof fn create_dir_idempotent(fs: FsModel, path: Seq<char>)
    requires
        create_dir_result(fs, path) is Ok,
    ensures
        create_dir_result(fs, path) matches Ok(fs1) && create_dir_result(fs1, path) == Ok::<
            FsModel,
            ErrKind,
        >(fs1),
{
    let p = resolve_spec(path)->Some_0;
    let fs1 = create_dir_result(fs, path)->Ok_0;
    assert(create_allowed(fs, p));
    assert(create_allowed(fs1, p)) by {
        assert forall|k: int|
            0 < k <= p.len() implies (#[trigger] fs1.dom().contains(p.take(k)) ==> fs1[p.take(
            k,
        )] is Dir) by {
            assert(p.take(k).len() == k);
            if fs.dom().contains(p.take(k)) {
                assert(fs1[p.take(k)] == fs[p.take(k)]);
            }
        }
    }
    assert(create_dir_at(fs1, p)->Ok_0 =~= fs1);
}

/// Writing bytes and reading the same path back yields exactly those bytes,
/// empty or not.
pub proof fn write_read_round_trip(fs: FsModel, path: Seq<char>, data: Seq<u8>)
    requires
        write_result(fs, path, data) is Ok,
    ensures
        write_result(fs, path, data) matches Ok(fs1) && read_result(fs1, path) == Ok::<
            Seq<u8>,
            ErrKind,
        >(data),
{
    let p = resolve_spec(path)->Some_0;
    let fs1 = write_result(fs, path, data)->Ok_0;
    assert(write_allowed(fs, p));
    assert(fs1.dom().contains(p));
    assert(fs1[p] == (FsNode::File { data }));
}

/// Resolution composes with joining: a clean entry name lands exactly one
/// segment below the directory it is joined onto.
pub proof fn lemma_resolve_sub_path(dir: Seq<char>, name: Seq<char>)
    requires
        resolve_spec(dir) is Some,
        seg_ok(name),
        scheme_safe(dir),
    ensures
        resolve_spec(sub_path_spec(dir, name)) == Some(resolve_spec(dir)->Some_0.push(name)),
{
    lemma_strip_scheme_append(dir, name);
    lemma_raw_append_any(strip_scheme(dir), name);
    assert forall|j: int| 0 <= j < name.len() implies name[j] != '/' by {
        assert(seg_ok(name));
    }
    lemma_raw_segments_whole(name);
    let raw = raw_segments(strip_scheme(dir));
    assert(raw + raw_segments(name) =~= raw.push(name));
    assert(no_dotdot(raw.push(name))) by {
        assert forall|i: int| 0 <= i < raw.push(name).len() implies raw.push(name)[i] != seq![
            '.',
            '.',
        ] by {
            if i < raw.len() {
                assert(raw.push(name)[i] == raw[i]);
            } else {
                assert(raw.push(name)[i] == name);
            }
        }
    }
    raw.lemma_filter_push(name, |g: Seq<char>| keep_seg(g));
    assert(keep_seg(name));
}

/// Extracting flat, distinct, clean file entries under a prepared directory
/// succeeds and leaves each entry's bytes in a file named after it; nothing
/// else moves.
pub proof fn lemma_extract_clean(fs: FsModel, dst: Seq<char>, entries: Seq<(Seq<char>, Seq<u8>)>)
    requires
        resolve_spec(dst) is Some,
        scheme_safe(dst),
        forall|i: int| 0 <= i < entries.len() ==> seg_ok((#[trigger] entries[i]).0),
        forall|i: int, j: int| 0 <= i < j < entries.len() ==> entries[i].0 != entries[j].0,
        ({
            let d = resolve_spec(dst)->Some_0;
            &&& (forall|k: int|
                0 < k <= d.len() ==> fs.dom().contains(#[trigger] d.take(k)) && fs[d.take(
                    k,
                )] is Dir)
            &&& (forall|i: int|
                0 <= i < entries.len() ==> !fs.dom().contains(d.push((#[trigger] entries[i]).0)))
        }),
    ensures
        ({
            let d = resolve_spec(dst)->Some_0;
            let eff = extract_all(fs, dst, entries);
            &&& eff.0 == Ok::<FsModel, ErrKind>(eff.1)
            &&& (forall|i: int|
                0 <= i < entries.len() ==> eff.1.dom().contains(d.push((#[trigger] entries[i]).0))
                    && eff.1[d.push(entries[i].0)] == (FsNode::File { data: entries[i].1 }))
            &&& (forall|q: Seq<Seq<char>>| #[trigger] fs.dom().contains(q) ==> eff.1.dom().contains(q))
            &&& (forall|q: Seq<Seq<char>>|
                #[trigger] fs.dom().contains(q) && (forall|i: int|
                    0 <= i < entries.len() ==> q != d.push((#[trigger] entries[i]).0))
                    ==> eff.1[q] == fs[q])
            &&& (forall|q: Seq<Seq<char>>|
                #[trigger] eff.1.dom().contains(q) ==> fs.dom().contains(q) || exists|i: int|
                    0 <= i < entries.len() && q == d.push((#[trigger] entries[i]).0))
        }),
    decreases entries.len(),
{
    let d = resolve_spec(dst)->Some_0;
    if entries.len() > 0 {
        let e0 = entries[0];
        lemma_resolve_sub_path(dst, e0.0);
        let tgt = d.push(e0.0);
        assert(!(e0.0.len() > 0 && e0.0.last() == '/')) by {
            assert(seg_ok(e0.0));
        }
        assert(write_allowed(fs, tgt)) by {
            assert(!fs.dom().contains(tgt));
            assert forall|k: int|
                0 < k < tgt.len() implies (#[trigger] fs.dom().contains(tgt.take(k)) ==> fs[
                tgt.take(k)
            ] is Dir) by {
                assert(tgt.take(k) =~= d.take(k));
            }
        }
        let fs1 = write_at(fs, tgt, e0.1)->Ok_0;
        assert(extract_one(fs, dst, e0) == Ok::<FsModel, ErrKind>(fs1));
        assert(fs1.dom() =~= fs.dom().insert(tgt)) by {
            assert forall|q: Seq<Seq<char>>| fs1.dom().contains(q) implies fs.dom().contains(q)
                || q == tgt by {
                if q != tgt && !fs.dom().contains(q) {
                    assert(0 < q.len() < tgt.len() && q == tgt.take(q.len() as int));
                    assert(q =~= d.take(q.len() as int));
                    assert(fs.dom().contains(d.take(q.len() as int)));
                }
            }
        }
        let rest = entries.skip(1);
        assert forall|i: int| 0 <= i < rest.len() implies seg_ok((#[trigger] rest[i]).0) by {
            assert(rest[i] == entries[i + 1]);
        }
        assert forall|i: int, j: int| 0 <= i < j < rest.len() implies rest[i].0 != rest[j].0 by {
            assert(rest[i] == entries[i + 1]);
            assert(rest[j] == entries[j + 1]);
        }
        assert forall|k: int|
            0 < k <= d.len() implies fs1.dom().contains(#[trigger] d.take(k)) && fs1[d.take(
            k,
        )] is Dir by {
            assert(d.take(k).len() == k);
            assert(d.take(k) != tgt);
            assert(fs1[d.take(k)] == fs[d.take(k)]);
        }
        assert forall|i: int|
            0 <= i < rest.len() implies !fs1.dom().contains(d.push((#[trigger] rest[i]).0)) by {
            assert(rest[i] == entries[i + 1]);
            assert(entries[i + 1].0 != e0.0);
            if d.push(entries[i + 1].0) == tgt {
                assert(d.push(entries[i + 1].0)[d.len() as int] == tgt[d.len() as int]);
                assert(false);
            }
        }
        lemma_extract_clean(fs1, dst, rest);
        let eff = extract_all(fs1, dst, rest);
        assert(extract_all(fs, dst, entries) == eff);
        // the first entry's file survives the remaining extraction
        assert(eff.1[tgt] == fs1[tgt]) by {
            assert(fs1.dom().contains(tgt));
            assert forall|i: int| 0 <= i < rest.len() implies tgt != d.push(
                (#[trigger] rest[i]).0,
            ) by {
                assert(rest[i] == entries[i + 1]);
                if d.push(entries[i + 1].0) == tgt {
                    assert(d.push(entries[i + 1].0)[d.len() as int] == tgt[d.len() as int]);
                    assert(false);
                }
            }
        }
        assert(fs1[tgt] == (FsNode::File { data: e0.1 }));
        assert forall|q: Seq<Seq<char>>| #[trigger] fs.dom().contains(q) implies eff.1.dom().contains(
            q,
        ) by {
            assert(fs1.dom().contains(q));
        }
        assert forall|i: int|
            0 <= i < entries.len() implies eff.1.dom().contains(d.push((#[trigger] entries[i]).0))
                && eff.1[d.push(entries[i].0)] == (FsNode::File { data: entries[i].1 }) by {
            if i > 0 {
                assert(rest[i - 1] == entries[i]);
                assert(eff.1.dom().contains(d.push(rest[i - 1].0)));
                assert(eff.1[d.push(rest[i - 1].0)] == (FsNode::File { data: rest[i - 1].1 }));
            } else {
                assert(d.push(entries[0].0) == tgt);
                assert(fs1.dom().contains(tgt));
                assert(eff.1.dom().contains(tgt));
                assert(eff.1[tgt] == (FsNode::File { data: e0.1 }));
            }
        }
        assert forall|q: Seq<Seq<char>>|
            #[trigger] fs.dom().contains(q) && (forall|i: int|
                0 <= i < entries.len() ==> q != d.push((#[trigger] entries[i]).0)) implies eff.1[q]
            == fs[q] by {
            assert(q != tgt);
            assert(fs1[q] == fs[q]);
            assert(fs1.dom().contains(q));
            assert forall|i: int| 0 <= i < rest.len() implies q != d.push(
                (#[trigger] rest[i]).0,
            ) by {
                assert(rest[i] == entries[i + 1]);
            }
        }
        assert forall|q: Seq<Seq<char>>|
            #[trigger] eff.1.dom().contains(q) implies fs.dom().contains(q) || exists|i: int|
                0 <= i < entries.len() && q == d.push((#[trigger] entries[i]).0) by {
            if !fs.dom().contains(q) {
                if fs1.dom().contains(q) {
                    assert(q == tgt);
                    assert(q == d.push(entries[0].0));
                } else {
                    let i = choose|i: int|
                        0 <= i < rest.len() && q == d.push((#[trigger] rest[i]).0);
                    assert(rest[i] == entries[i + 1]);
                    assert(q == d.push(entries[i + 1].0));
                }
            }
        }
    }
}

/// Archiving a batch of files and unpacking the archive into a fresh,
/// distinct directory reproduces every file's bytes under its base name.
pub proof fn archive_unarchive_round_trip(
    fs0: FsModel,
    zp: Seq<char>,
    paths: Seq<Seq<char>>,
    dst: Seq<char>,
)
    requires
        reads_ok(fs0, paths),
        forall|i: int, j: int|
            0 <= i < j < paths.len() ==> basename_spec(paths[i]) != basename_spec(paths[j]),
        write_result(fs0, zp, zip_encode(archive_entries(fs0, paths))) is Ok,
        resolve_spec(dst) is Some,
        scheme_safe(dst),
        ({
            let fs1 = write_result(fs0, zp, zip_encode(archive_entries(fs0, paths)))->Ok_0;
            &&& create_dir_result(fs1, dst) is Ok
            &&& (forall|q: Seq<Seq<char>>|
                #[trigger] fs1.dom().contains(q) ==> !resolve_spec(dst)->Some_0.is_prefix_of(q))
        }),
    ensures
        ({
            let entries = archive_entries(fs0, paths);
            let fs1 = write_result(fs0, zp, zip_encode(entries))->Ok_0;
            let fs2 = create_dir_result(fs1, dst)->Ok_0;
            let eff = extract_all(fs2, dst, entries);
            &&& read_result(fs1, zp) == Ok::<Seq<u8>, ErrKind>(zip_encode(entries))
            &&& eff.0 == Ok::<FsModel, ErrKind>(eff.1)
            &&& (forall|i: int|
                0 <= i < paths.len() ==> read_result(
                    eff.1,
                    sub_path_spec(dst, basename_spec(#[trigger] paths[i])),
                ) == Ok::<Seq<u8>, ErrKind>(read_result(fs0, paths[i])->Ok_0))
        }),
{
    let entries = archive_entries(fs0, paths);
    let fs1 = write_result(fs0, zp, zip_encode(entries))->Ok_0;
    let fs2 = create_dir_result(fs1, dst)->Ok_0;
    let d = resolve_spec(dst)->Some_0;
    write_read_round_trip(fs0, zp, zip_encode(entries));
    // each entry name is the clean final segment of its item's path
    assert forall|i: int| 0 <= i < entries.len() implies seg_ok((#[trigger] entries[i]).0) by {
        assert(entries[i].0 == basename_spec(paths[i]));
        assert(read_result(fs0, paths[i]) is Ok);
        lemma_resolve_segs_ok(paths[i]);
        let p = resolve_spec(paths[i])->Some_0;
        assert(p.len() > 0);
        assert(basename_spec(paths[i]) == p.last());
    }
    assert forall|i: int, j: int| 0 <= i < j < entries.len() implies entries[i].0
        != entries[j].0 by {
        assert(entries[i].0 == basename_spec(paths[i]));
        assert(entries[j].0 == basename_spec(paths[j]));
    }
    // the prepared directory and its ancestors are directories, and every
    // target is fresh
    assert(create_allowed(fs1, d));
    assert forall|k: int|
        0 < k <= d.len() implies fs2.dom().contains(#[trigger] d.take(k)) && fs2[d.take(
        k,
    )] is Dir by {
        if fs1.dom().contains(d.take(k)) {
            assert(fs2[d.take(k)] == fs1[d.take(k)]);
        }
    }
    assert forall|i: int|
        0 <= i < entries.len() implies !fs2.dom().contains(d.push((#[trigger] entries[i]).0)) by {
        let t = d.push(entries[i].0);
        assert(t.len() == d.len() + 1);
        if fs1.dom().contains(t) {
            assert(d.is_prefix_of(t)) by {
                assert(d =~= t.take(d.len() as int));
            }
            assert(false);
        }
        if 0 < t.len() <= d.len() {
            assert(false);
        }
    }
    lemma_extract_clean(fs2, dst, entries);
    let eff = extract_all(fs2, dst, entries);
    assert forall|i: int| 0 <= i < paths.len() implies read_result(
        eff.1,
        sub_path_spec(dst, basename_spec(#[trigger] paths[i])),
    ) == Ok::<Seq<u8>, ErrKind>(read_result(fs0, paths[i])->Ok_0) by {
        assert(entries[i].0 == basename_spec(paths[i]));
        assert(entries[i].1 == read_result(fs0, paths[i])->Ok_0);
        lemma_resolve_sub_path(dst, entries[i].0);
        assert(eff.1.dom().contains(d.push(entries[i].0)));
        assert(eff.1[d.push(entries[i].0)] == (FsNode::File { data: entries[i].1 }));
    }
}

} // verus!
