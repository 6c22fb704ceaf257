//! Lexical resolution of virtual paths: stripping the scheme prefix,
//! splitting into segments, and rejecting every traversal attempt.
//!
//! Resolution strips any one `<name>://` prefix, once, whatever the name;
//! the storage layer it replaces stripped only its own scheme, repeatedly.
//! The two differ only on paths that embed a second scheme prefix.
use vstd::prelude::*;
use vstd::seq_lib::*;
use crate::model::{seg_ok, segs_ok};
use crate::storage::StorageError;
use crate::strutil::sub_path_spec;

verus! {

/// The scheme prefix `<name>://` ends just after position `i + 2` when the
/// first `:` of the path stands at `i`, is followed by `//`, and no separator
/// precedes it.
pub open spec fn scheme_end_at(s: Seq<char>, i: int) -> bool {
    &&& 0 <= i
    &&& i + 3 <= s.len()
    &&& s[i] == ':'
    &&& s[i + 1] == '/'
    &&& s[i + 2] == '/'
    &&& forall|j: int| 0 <= j < i ==> s[j] != ':' && s[j] != '/'
}

pub open spec fn has_scheme(s: Seq<char>) -> bool {
    exists|i: int| scheme_end_at(s, i)
}

pub open spec fn scheme_end(s: Seq<char>) -> int {
    choose|i: int| scheme_end_at(s, i)
}

/// The virtual path with its `<scheme>://` prefix, if any, removed.
pub open spec fn strip_scheme(s: Seq<char>) -> Seq<char> {
    if has_scheme(s) {
        s.skip(scheme_end(s) + 3)
    } else {
        s
    }
}

pub proof fn lemma_scheme_end_unique(s: Seq<char>, i: int, j: int)
    requires
        scheme_end_at(s, i),
        scheme_end_at(s, j),
    ensures
        i == j,
{
    if i < j {
        assert(s[i] != ':');
        assert(false);
    }
    if j < i {
        assert(s[j] != ':');
        assert(false);
    }
}

/// The first separator of `s` stands at `k`.
pub open spec fn slash_at(s: Seq<char>, k: int) -> bool {
    &&& 0 <= k < s.len()
    &&& s[k] == '/'
    &&& forall|j: int| 0 <= j < k ==> s[j] != '/'
}

/// The raw segments of a path body: the pieces between separators, kept in
/// order, empty pieces included.
pub open spec fn raw_segments(s: Seq<char>) -> Seq<Seq<char>>
    decreases s.len(),
{
    if exists|k: int| slash_at(s, k) {
        let k = choose|k: int| slash_at(s, k);
        seq![s.take(k)] + raw_segments(s.skip(k + 1))
    } else {
        seq![s]
    }
}

pub proof fn lemma_slash_at_unique(s: Seq<char>, i: int, j: int)
    requires
        slash_at(s, i),
        slash_at(s, j),
    ensures
        i == j,
{
    if i < j {
        assert(s[i] != '/');
        assert(false);
    }
    if j < i {
        assert(s[j] != '/');
        assert(false);
    }
}

pub proof fn lemma_raw_segments_split(s: Seq<char>, k: int)
    requires
        slash_at(s, k),
    ensures
        raw_segments(s) == seq![s.take(k)] + raw_segments(s.skip(k + 1)),
{
    let k0 = choose|k0: int| slash_at(s, k0);
    lemma_slash_at_unique(s, k, k0);
}

/// Where some position holds a separator, a first separator exists.
pub proof fn lemma_has_slash(s: Seq<char>, j: int)
    requires
        0 <= j < s.len(),
        s[j] == '/',
    ensures
        exists|k: int| slash_at(s, k),
    decreases j,
{
    if forall|t: int| 0 <= t < j ==> s[t] != '/' {
        assert(slash_at(s, j));
    } else {
        let t = choose|t: int| 0 <= t < j && s[t] == '/';
        lemma_has_slash(s, t);
    }
}

pub proof fn lemma_raw_segments_whole(s: Seq<char>)
    requires
        forall|j: int| 0 <= j < s.len() ==> s[j] != '/',
    ensures
        raw_segments(s) == seq![s],
{
    if exists|k: int| slash_at(s, k) {
        let k = choose|k: int| slash_at(s, k);
        assert(s[k] != '/');
        assert(false);
    }
}

/// No raw segment contains a separator.
pub proof fn lemma_raw_segments_no_slash(s: Seq<char>)
    ensures
        forall|m: int, j: int|
            0 <= m < raw_segments(s).len() && 0 <= j < raw_segments(s)[m].len()
                ==> #[trigger] raw_segments(s)[m][j] != '/',
    decreases s.len(),
{
    if exists|k: int| slash_at(s, k) {
        let k = choose|k: int| slash_at(s, k);
        lemma_raw_segments_no_slash(s.skip(k + 1));
        assert forall|m: int, j: int|
            0 <= m < raw_segments(s).len() && 0 <= j < raw_segments(s)[m].len()
                implies #[trigger] raw_segments(s)[m][j] != '/' by {
            if m == 0 {
                assert(raw_segments(s)[0] == s.take(k));
                assert(s.take(k)[j] == s[j]);
            } else {
                assert(raw_segments(s)[m] == raw_segments(s.skip(k + 1))[m - 1]);
                assert(raw_segments(s.skip(k + 1))[m - 1][j] != '/');
            }
        }
    } else {
        assert forall|j: int| 0 <= j < s.len() implies s[j] != '/' by {
            if s[j] == '/' {
                lemma_has_slash(s, j);
                assert(false);
            }
        }
        assert(raw_segments(s) == seq![s]);
    }
}

/// The segments kept after cleaning: empty pieces and `.` drop out.
pub open spec fn keep_seg(g: Seq<char>) -> bool {
    g.len() > 0 && g != seq!['.']
}

pub open spec fn clean_segs(raw: Seq<Seq<char>>) -> Seq<Seq<char>> {
    raw.filter(|g: Seq<char>| keep_seg(g))
}

/// No raw segment is the traversal segment `..`.
pub open spec fn no_dotdot(raw: Seq<Seq<char>>) -> bool {
    forall|i: int| 0 <= i < raw.len() ==> raw[i] != seq!['.', '.']
}

/// What a virtual path resolves to: its cleaned segment path below the
/// backend root, or nothing when the path attempts a traversal.
pub open spec fn resolve_spec(path: Seq<char>) -> Option<Seq<Seq<char>>> {
    let raw = raw_segments(strip_scheme(path));
    if no_dotdot(raw) {
        Some(clean_segs(raw))
    } else {
        None
    }
}

/// Whatever a path resolves to is a clean segment path.
pub proof fn lemma_resolve_segs_ok(path: Seq<char>)
    ensures
        resolve_spec(path) matches Some(v) ==> segs_ok(v),
{
    let raw = raw_segments(strip_scheme(path));
    if no_dotdot(raw) {
        let v = clean_segs(raw);
        lemma_raw_segments_no_slash(strip_scheme(path));
        assert forall|i: int| 0 <= i < v.len() implies seg_ok(#[trigger] v[i]) by {
            raw.lemma_filter_pred(|g: Seq<char>| keep_seg(g), i);
            raw.lemma_filter_contains_rev(|g: Seq<char>| keep_seg(g), v[i]);
            let m = choose|m: int| 0 <= m < raw.len() && raw[m] == v[i];
            assert(forall|j: int| 0 <= j < raw[m].len() ==> #[trigger] raw[m][j] != '/');
            assert(raw[m] != seq!['.', '.']);
        }
    }
}

/// Resolves a virtual path to its segment path below the backend root,
/// rejecting any path that carries a `..` segment.
pub fn resolve_segments(path: &str) -> (r: Result<Vec<String>, StorageError>)
    ensures
        match r {
            Ok(v) => resolve_spec(path@) == Some(v.deep_view()) && segs_ok(v.deep_view()),
            Err(e) => resolve_spec(path@) is None && e is InvalidPath,
        },
{
    let n: usize = path.unicode_len();
    let start: usize = find_scheme_start(path);
    let ghost body = path@.skip(start as int);
    let mut segs: Vec<String> = Vec::new();
    let ghost mut raw_done: Seq<Seq<char>> = Seq::empty();
    let mut seg_start: usize = start;
    let mut i: usize = start;
    proof {
        assert(raw_segments(body) =~= raw_done + raw_segments(path@.skip(seg_start as int)));
        assert(segs.deep_view() =~= clean_segs(raw_done));
    }
    loop
        invariant
            start <= seg_start <= i <= n,
            n == path@.len(),
            body == path@.skip(start as int),
            strip_scheme(path@) == body,
            forall|t: int| seg_start <= t < i ==> path@[t] != '/',
            raw_segments(body) == raw_done + raw_segments(path@.skip(seg_start as int)),
            no_dotdot(raw_done),
            segs.deep_view() == clean_segs(raw_done),
        decreases n - i,
    {
        if i == n || path.get_char(i) == '/' {
            let ghost g = path@.subrange(seg_start as int, i as int);
            let ghost tail = path@.skip(seg_start as int);
            proof {
                if i < n {
                    assert(slash_at(tail, i - seg_start)) by {
                        assert(tail[i - seg_start] == path@[i as int]);
                        assert forall|j: int| 0 <= j < i - seg_start implies tail[j] != '/' by {
                            assert(tail[j] == path@[seg_start + j]);
                        }
                    }
                    lemma_raw_segments_split(tail, i - seg_start);
                    assert(tail.take(i - seg_start) =~= g);
                    assert(tail.skip(i - seg_start + 1) =~= path@.skip(i + 1));
                } else {
                    assert forall|j: int| 0 <= j < tail.len() implies tail[j] != '/' by {
                        assert(tail[j] == path@[seg_start + j]);
                    }
                    lemma_raw_segments_whole(tail);
                    assert(tail =~= g);
                }
            }
            let seg_len: usize = i - seg_start;
            if seg_len == 2 && path.get_char(seg_start) == '.' && path.get_char(seg_start + 1) == '.' {
                proof {
                    assert(g =~= seq!['.', '.']);
                    let raw = raw_segments(body);
                    assert(raw[raw_done.len() as int] == seq!['.', '.']);
                    assert(!no_dotdot(raw));
                }
                return Err(StorageError::InvalidPath(String::from_str(path)));
            }
            let keep: bool = seg_len > 0 && !(seg_len == 1 && path.get_char(seg_start) == '.');
            proof {
                if seg_len == 1 && g[0] != '.' {
                    assert(g != seq!['.']);
                }
                if seg_len != 1 {
                    assert(g != seq!['.']);
                }
                if keep {
                    assert(keep_seg(g));
                } else {
                    assert(!keep_seg(g)) by {
                        if seg_len == 1 {
                            assert(g =~= seq!['.']);
                        }
                    }
                }
            }
            if keep {
                let sub: &str = path.substring_char(seg_start, i);
                segs.push(String::from_str(sub));
            }
            proof {
                let ghost old_raw_done = raw_done;
                raw_done = raw_done.push(g);
                old_raw_done.lemma_filter_push(g, |q: Seq<char>| keep_seg(q));
                assert(raw_done + raw_segments(path@.skip(i + 1)) =~= old_raw_done + (seq![g]
                    + raw_segments(path@.skip(i + 1))));
                if i == n {
                    assert(raw_segments(body) =~= raw_done);
                }
                assert(segs.deep_view() =~= clean_segs(raw_done));
            }
            if i == n {
                proof {
                    assert(resolve_spec(path@) == Some(clean_segs(raw_done)));
                    lemma_resolve_segs_ok(path@);
                }
                return Ok(segs);
            }
            seg_start = i + 1;
            i = i + 1;
        } else {
            i = i + 1;
        }
    }
}


/// The first `:` of a separator-free front stands as the path's last
/// character, or just before a final `/`. Joining `/` and more text onto
/// such a path would fabricate a scheme prefix.
pub open spec fn colon_tail_at(dir: Seq<char>, i: int) -> bool {
    &&& 0 <= i < dir.len()
    &&& dir[i] == ':'
    &&& (i + 1 == dir.len() || (i + 2 == dir.len() && dir[i + 1] == '/'))
    &&& forall|j: int| 0 <= j < i ==> dir[j] != ':' && dir[j] != '/'
}

/// Joining an entry onto this directory string cannot move the scheme
/// prefix: either one is already there, or none can appear.
pub open spec fn scheme_safe(dir: Seq<char>) -> bool {
    has_scheme(dir) || !(exists|i: int| colon_tail_at(dir, i))
}

/// Joining anything onto a scheme-safe directory leaves the scheme prefix
/// where it was.
pub proof fn lemma_strip_scheme_append(dir: Seq<char>, name: Seq<char>)
    requires
        scheme_safe(dir),
    ensures
        strip_scheme(sub_path_spec(dir, name)) == strip_scheme(dir) + seq!['/'] + name,
{
    let comb = dir + seq!['/'] + name;
    if has_scheme(dir) {
        let i = scheme_end(dir);
        assert(scheme_end_at(dir, i));
        assert(scheme_end_at(comb, i)) by {
            assert(comb[i] == dir[i]);
            assert(comb[i + 1] == dir[i + 1]);
            assert(comb[i + 2] == dir[i + 2]);
            assert forall|j: int| 0 <= j < i implies comb[j] != ':' && comb[j] != '/' by {
                assert(comb[j] == dir[j]);
            }
        }
        assert(has_scheme(comb));
        lemma_scheme_end_unique(comb, scheme_end(comb), i);
        assert(comb.skip(i + 3) =~= dir.skip(i + 3) + seq!['/'] + name);
    } else {
        assert(!has_scheme(comb)) by {
            if has_scheme(comb) {
                let i = choose|i: int| scheme_end_at(comb, i);
                assert(comb[dir.len() as int] == '/');
                assert(i < dir.len()) by {
                    if i == dir.len() {
                        assert(comb[i] == ':');
                        assert(false);
                    }
                    if i > dir.len() {
                        assert(comb[dir.len() as int] != '/');
                        assert(false);
                    }
                }
                assert(dir[i] == comb[i]);
                assert forall|j: int| 0 <= j < i implies dir[j] != ':' && dir[j] != '/' by {
                    assert(dir[j] == comb[j]);
                }
                if i + 3 <= dir.len() {
                    assert(scheme_end_at(dir, i)) by {
                        assert(dir[i + 1] == comb[i + 1]);
                        assert(dir[i + 2] == comb[i + 2]);
                    }
                    assert(false);
                } else if i + 2 == dir.len() {
                    assert(dir[i + 1] == comb[i + 1]);
                    assert(colon_tail_at(dir, i));
                    assert(false);
                } else {
                    assert(i + 1 == dir.len());
                    assert(colon_tail_at(dir, i));
                    assert(false);
                }
            }
        }
    }
}

/// Joining a piece onto a body concatenates their raw segments.
pub proof fn lemma_raw_append_any(a: Seq<char>, b: Seq<char>)
    ensures
        raw_segments(a + seq!['/'] + b) == raw_segments(a) + raw_segments(b),
    decreases a.len(),
{
    let comb = a + seq!['/'] + b;
    if exists|k: int| slash_at(a, k) {
        let k = choose|k: int| slash_at(a, k);
        assert(slash_at(comb, k)) by {
            assert(comb[k] == a[k]);
            assert forall|j: int| 0 <= j < k implies comb[j] != '/' by {
                assert(comb[j] == a[j]);
            }
        }
        lemma_raw_segments_split(a, k);
        lemma_raw_segments_split(comb, k);
        assert(comb.take(k) =~= a.take(k));
        assert(comb.skip(k + 1) =~= a.skip(k + 1) + seq!['/'] + b);
        lemma_raw_append_any(a.skip(k + 1), b);
        assert(seq![a.take(k)] + (raw_segments(a.skip(k + 1)) + raw_segments(b)) =~= (seq![
            a.take(k),
        ] + raw_segments(a.skip(k + 1))) + raw_segments(b));
    } else {
        assert forall|j: int| 0 <= j < a.len() implies a[j] != '/' by {
            if a[j] == '/' {
                lemma_has_slash(a, j);
                assert(false);
            }
        }
        lemma_raw_segments_whole(a);
        assert(slash_at(comb, a.len() as int)) by {
            assert(comb[a.len() as int] == '/');
            assert forall|j: int| 0 <= j < a.len() implies comb[j] != '/' by {
                assert(comb[j] == a[j]);
            }
        }
        lemma_raw_segments_split(comb, a.len() as int);
        assert(comb.take(a.len() as int) =~= a);
        assert(comb.skip(a.len() as int + 1) =~= b);
    }
}

/// Whatever a joined path resolves to extends the directory's own
/// resolution: an entry name, however strange, stays below its directory.
pub proof fn lemma_sub_path_stays_below(dir: Seq<char>, name: Seq<char>)
    requires
        resolve_spec(dir) is Some,
        scheme_safe(dir),
    ensures
        resolve_spec(sub_path_spec(dir, name)) matches Some(q) ==> resolve_spec(
            dir,
        )->Some_0.is_prefix_of(q),
{
    lemma_strip_scheme_append(dir, name);
    lemma_raw_append_any(strip_scheme(dir), name);
    let rawd = raw_segments(strip_scheme(dir));
    let rawn = raw_segments(name);
    match resolve_spec(sub_path_spec(dir, name)) {
        Option::Some(q) => {
            assert(no_dotdot(rawd + rawn));
            Seq::<Seq<char>>::filter_distributes_over_add(rawd, rawn, |g: Seq<char>| keep_seg(g));
            let d = resolve_spec(dir)->Some_0;
            assert(q == d + clean_segs(rawn));
            assert(d =~= q.subrange(0, d.len() as int));
        },
        Option::None => {},
    }
}

/// The final segment a virtual path names; the empty name where the path
/// names the root or does not resolve.
pub open spec fn basename_spec(s: Seq<char>) -> Seq<char> {
    match resolve_spec(s) {
        Option::Some(p) => if p.len() > 0 {
            p.last()
        } else {
            Seq::empty()
        },
        Option::None => Seq::empty(),
    }
}

/// The final segment a virtual path names, as an owned string.
pub fn basename_of(path: &str) -> (r: String)
    ensures
        r@ == basename_spec(path@),
{
    match resolve_segments(path) {
        Ok(segs) => {
            if segs.len() > 0 {
                let r = segs[segs.len() - 1].clone();
                proof {
                    assert(segs.deep_view().last() == segs@[segs@.len() - 1]@);
                }
                r
            } else {
                proof {
                    assert(segs.deep_view().len() == 0);
                }
                String::new()
            }
        },
        Err(_) => String::new(),
    }
}

/// Finds where the path body begins: after the `<scheme>://` prefix when one
/// is present, else at the start.
fn find_scheme_start(path: &str) -> (start: usize)
    ensures
        start <= path@.len(),
        strip_scheme(path@) == path@.skip(start as int),
{
    let n: usize = path.unicode_len();
    let mut j: usize = 0;
    loop
        invariant
            0 <= j <= n,
            n == path@.len(),
            forall|t: int| 0 <= t < j ==> path@[t] != ':' && path@[t] != '/',
        decreases n - j,
    {
        if j == n {
            proof {
                assert(!has_scheme(path@)) by {
                    if has_scheme(path@) {
                        let k = choose|k: int| scheme_end_at(path@, k);
                        assert(path@[k] != ':');
                        assert(false);
                    }
                }
                assert(path@.skip(0) =~= path@);
            }
            return 0;
        }
        let c = path.get_char(j);
        if c == ':' {
            if n - j >= 3 && path.get_char(j + 1) == '/' && path.get_char(j + 2) == '/' {
                proof {
                    assert(scheme_end_at(path@, j as int));
                    lemma_scheme_end_unique(path@, j as int, scheme_end(path@));
                }
                return j + 3;
            } else {
                proof {
                    assert(!has_scheme(path@)) by {
                        if has_scheme(path@) {
                            let k = choose|k: int| scheme_end_at(path@, k);
                            if k < j {
                                assert(path@[k] != ':');
                                assert(false);
                            }
                            if k > j {
                                assert(path@[j as int] != ':');
                                assert(false);
                            }
                            assert(false);
                        }
                    }
                    assert(path@.skip(0) =~= path@);
                }
                return 0;
            }
        }
        if c == '/' {
            proof {
                assert(!has_scheme(path@)) by {
                    if has_scheme(path@) {
                        let k = choose|k: int| scheme_end_at(path@, k);
                        if k < j {
                            assert(path@[k] != ':');
                            assert(false);
                        }
                        assert(path@[j as int] != ':');
                        assert(path@[j as int] != '/');
                        assert(false);
                    }
                }
                assert(path@.skip(0) =~= path@);
            }
            return 0;
        }
        j += 1;
    }
}

} // verus!
