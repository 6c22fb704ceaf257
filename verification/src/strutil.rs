//! Executable helpers over strings and segment paths, each tied to the
//! specification functions the contracts speak of.
use vstd::prelude::*;
use crate::model::{join_segs, lemma_join_segs_push};

verus! {

/// Character-wise string equality.
pub fn str_eq(a: &str, b: &str) -> (r: bool)
    ensures
        r == (a@ == b@),
{
    let na: usize = a.unicode_len();
    let nb: usize = b.unicode_len();
    if na != nb {
        return false;
    }
    let mut i: usize = 0;
    while i < na
        invariant
            0 <= i <= na,
            na == a@.len(),
            na == b@.len(),
            forall|j: int| 0 <= j < i ==> a@[j] == b@[j],
        decreases na - i,
    {
        if a.get_char(i) != b.get_char(i) {
            return false;
        }
        i += 1;
    }
    proof {
        assert(a@ =~= b@);
    }
    true
}

/// Whether `p` is a prefix of `s`, character by character.
pub fn str_starts_with(s: &str, p: &str) -> (r: bool)
    ensures
        r == p@.is_prefix_of(s@),
{
    let np: usize = p.unicode_len();
    let ns: usize = s.unicode_len();
    if np > ns {
        return false;
    }
    let mut i: usize = 0;
    while i < np
        invariant
            0 <= i <= np <= ns,
            np == p@.len(),
            ns == s@.len(),
            forall|j: int| 0 <= j < i ==> s@[j] == p@[j],
        decreases np - i,
    {
        if s.get_char(i) != p.get_char(i) {
            proof {
                assert(s@.subrange(0, np as int)[i as int] != p@[i as int]);
            }
            return false;
        }
        i += 1;
    }
    proof {
        assert(p@ =~= s@.subrange(0, np as int));
    }
    true
}

/// `n` occurs in `h` starting at position `i`.
pub open spec fn match_at(h: Seq<char>, n: Seq<char>, i: int) -> bool {
    0 <= i && i + n.len() <= h.len() && h.subrange(i, i + n.len() as int) == n
}

/// `n` occurs somewhere in `h`.
pub open spec fn contains_sub(h: Seq<char>, n: Seq<char>) -> bool {
    exists|i: int| match_at(h, n, i)
}

/// Substring search, character by character.
pub fn str_contains_str(h: &str, n: &str) -> (r: bool)
    ensures
        r == contains_sub(h@, n@),
{
    let nh: usize = h.unicode_len();
    let nn: usize = n.unicode_len();
    if nn > nh {
        proof {
            assert(!contains_sub(h@, n@)) by {
                if contains_sub(h@, n@) {
                    let i = choose|i: int| match_at(h@, n@, i);
                    assert(false);
                }
            }
        }
        return false;
    }
    if nn == 0 {
        proof {
            assert(h@.subrange(0, 0) =~= n@);
            assert(match_at(h@, n@, 0));
        }
        return true;
    }
    let mut i: usize = 0;
    loop
        invariant
            0 <= i <= nh - nn + 1,
            1 <= nn <= nh,
            nh == h@.len(),
            nn == n@.len(),
            forall|t: int| 0 <= t < i ==> !match_at(h@, n@, t),
        decreases nh - i,
    {
        if i > nh - nn {
            proof {
                assert(!contains_sub(h@, n@)) by {
                    if contains_sub(h@, n@) {
                        let t = choose|t: int| match_at(h@, n@, t);
                        assert(!match_at(h@, n@, t));
                        assert(false);
                    }
                }
            }
            return false;
        }
        let piece: &str = h.substring_char(i, i + nn);
        if str_eq(piece, n) {
            proof {
                assert(match_at(h@, n@, i as int));
            }
            return true;
        }
        proof {
            assert(!match_at(h@, n@, i as int));
        }
        i += 1;
    }
}

/// The textual path of a segment path, with `/` between segments.
pub fn join_path(segs: &Vec<String>) -> (r: String)
    ensures
        r@ == join_segs(segs.deep_view()),
{
    let mut r = String::new();
    let mut i: usize = 0;
    proof {
        assert(segs.deep_view().take(0) =~= Seq::<Seq<char>>::empty());
    }
    while i < segs.len()
        invariant
            0 <= i <= segs.len(),
            segs.deep_view().len() == segs.len(),
            r@ == join_segs(segs.deep_view().take(i as int)),
        decreases segs.len() - i,
    {
        if i > 0 {
            r.append("/");
        }
        r.append(segs[i].as_str());
        proof {
            reveal_strlit("/");
            assert(("/")@ =~= seq!['/']);
            let dv = segs.deep_view();
            assert(dv.take(i as int).push(dv[i as int]) =~= dv.take(i + 1));
            lemma_join_segs_push(dv.take(i as int), dv[i as int]);
            assert(dv[i as int] == segs[i as int]@);
        }
        i += 1;
    }
    proof {
        assert(segs.deep_view().take(segs.len() as int) =~= segs.deep_view());
    }
    r
}

/// The last `.` of a name stands at `k`.
pub open spec fn last_dot_at(name: Seq<char>, k: int) -> bool {
    &&& 0 <= k < name.len()
    &&& name[k] == '.'
    &&& forall|j: int| k < j < name.len() ==> name[j] != '.'
}

/// The extension of a base name: what follows the last `.`, absent when the
/// name has no `.` past its first character.
pub open spec fn ext_of(name: Seq<char>) -> Option<Seq<char>> {
    if exists|k: int| last_dot_at(name, k) && k > 0 {
        Some(name.skip((choose|k: int| last_dot_at(name, k) && k > 0) + 1))
    } else {
        None
    }
}

pub proof fn lemma_last_dot_unique(name: Seq<char>, i: int, j: int)
    requires
        last_dot_at(name, i),
        last_dot_at(name, j),
    ensures
        i == j,
{
    if i < j {
        assert(name[j] != '.');
        assert(false);
    }
    if j < i {
        assert(name[i] != '.');
        assert(false);
    }
}

/// The extension of a base name, as an owned string.
pub fn extension_of(name: &str) -> (r: Option<String>)
    ensures
        match (r, ext_of(name@)) {
            (Some(e), Some(x)) => e@ == x,
            (None, None) => true,
            _ => false,
        },
{
    let n: usize = name.unicode_len();
    let mut k: usize = n;
    loop
        invariant
            0 <= k <= n,
            n == name@.len(),
            forall|j: int| k <= j < n ==> name@[j] != '.',
        decreases k,
    {
        if k == 0 {
            proof {
                assert(ext_of(name@) is None) by {
                    if ext_of(name@) is Some {
                        let t = choose|t: int| last_dot_at(name@, t) && t > 0;
                        assert(name@[t] != '.');
                        assert(false);
                    }
                }
            }
            return None;
        }
        let c = name.get_char(k - 1);
        if c == '.' {
            if k - 1 == 0 {
                proof {
                    assert(ext_of(name@) is None) by {
                        if ext_of(name@) is Some {
                            let t = choose|t: int| last_dot_at(name@, t) && t > 0;
                            lemma_last_dot_unique(name@, t, 0);
                            assert(false);
                        }
                    }
                }
                return None;
            }
            let e: &str = name.substring_char(k, n);
            proof {
                assert(last_dot_at(name@, k - 1));
                let t = choose|t: int| last_dot_at(name@, t) && t > 0;
                lemma_last_dot_unique(name@, t, k - 1);
                assert(e@ =~= name@.skip(k as int));
            }
            return Some(String::from_str(e));
        }
        k -= 1;
    }
}

/// The stem of a base name: what precedes the last `.`, or the whole name
/// where the name has no `.` past its first character.
pub open spec fn stem_of(name: Seq<char>) -> Seq<char> {
    if exists|k: int| last_dot_at(name, k) && k > 0 {
        name.take(choose|k: int| last_dot_at(name, k) && k > 0)
    } else {
        name
    }
}

/// The stem of a base name, as an owned string.
pub fn stem_of_name(name: &str) -> (r: String)
    ensures
        r@ == stem_of(name@),
{
    let n: usize = name.unicode_len();
    let mut k: usize = n;
    loop
        invariant
            0 <= k <= n,
            n == name@.len(),
            forall|j: int| k <= j < n ==> name@[j] != '.',
        decreases k,
    {
        if k == 0 {
            proof {
                assert(!(exists|t: int| last_dot_at(name@, t) && t > 0)) by {
                    if exists|t: int| last_dot_at(name@, t) && t > 0 {
                        let t = choose|t: int| last_dot_at(name@, t) && t > 0;
                        assert(name@[t] != '.');
                        assert(false);
                    }
                }
            }
            return String::from_str(name);
        }
        let c = name.get_char(k - 1);
        if c == '.' {
            if k - 1 == 0 {
                proof {
                    assert(!(exists|t: int| last_dot_at(name@, t) && t > 0)) by {
                        if exists|t: int| last_dot_at(name@, t) && t > 0 {
                            let t = choose|t: int| last_dot_at(name@, t) && t > 0;
                            lemma_last_dot_unique(name@, t, 0);
                            assert(false);
                        }
                    }
                }
                return String::from_str(name);
            }
            let e: &str = name.substring_char(0, k - 1);
            proof {
                assert(last_dot_at(name@, k - 1));
                let t = choose|t: int| last_dot_at(name@, t) && t > 0;
                lemma_last_dot_unique(name@, t, k - 1);
                assert(e@ =~= name@.take(k - 1));
            }
            return String::from_str(e);
        }
        k -= 1;
    }
}

/// A byte-for-byte copy of a byte vector.
pub fn clone_bytes(v: &Vec<u8>) -> (r: Vec<u8>)
    ensures
        r@ == v@,
{
    let mut r: Vec<u8> = Vec::new();
    let mut i: usize = 0;
    while i < v.len()
        invariant
            0 <= i <= v.len(),
            r@ == v@.take(i as int),
        decreases v.len() - i,
    {
        r.push(v[i]);
        proof {
            assert(v@.take(i as int).push(v@[i as int]) =~= v@.take(i + 1));
        }
        i += 1;
    }
    proof {
        assert(v@.take(v.len() as int) =~= v@);
    }
    r
}

/// The first `k` segments of a segment path, as owned strings.
pub fn prefix_segs(p: &Vec<String>, k: usize) -> (r: Vec<String>)
    requires
        k <= p.len(),
    ensures
        r.deep_view() == p.deep_view().take(k as int),
{
    let mut r: Vec<String> = Vec::new();
    let mut i: usize = 0;
    while i < k
        invariant
            0 <= i <= k <= p.len(),
            p.deep_view().len() == p.len(),
            r@.len() == i,
            forall|j: int| 0 <= j < i ==> (#[trigger] r@[j])@ == p.deep_view()[j],
        decreases k - i,
    {
        let s: String = p[i].clone();
        proof {
            assert(s@ == p.deep_view()[i as int]);
        }
        let ghost pv = r@;
        r.push(s);
        proof {
            assert forall|j: int| 0 <= j < i + 1 implies (#[trigger] r@[j])@ == p.deep_view()[j] by {
                assert(r@[j] == pv.push(s)[j]);
                if j < i {
                    assert(pv.push(s)[j] == pv[j]);
                } else {
                    assert(pv.push(s)[j] == s);
                }
            }
        }
        i += 1;
    }
    proof {
        assert(r.deep_view() =~= p.deep_view().take(k as int));
    }
    r
}

/// An owned copy of a segment path.
pub fn clone_segs(p: &Vec<String>) -> (r: Vec<String>)
    ensures
        r.deep_view() == p.deep_view(),
{
    let r = prefix_segs(p, p.len());
    proof {
        assert(p.deep_view().take(p.len() as int) =~= p.deep_view());
    }
    r
}

/// Segment-path equality.
pub fn eq_segs(a: &Vec<String>, b: &Vec<String>) -> (r: bool)
    ensures
        r == (a.deep_view() == b.deep_view()),
{
    if a.len() != b.len() {
        proof {
            assert(a.deep_view().len() == a.len());
            assert(b.deep_view().len() == b.len());
        }
        return false;
    }
    let mut i: usize = 0;
    while i < a.len()
        invariant
            0 <= i <= a.len(),
            a.len() == b.len(),
            a.deep_view().len() == a.len(),
            b.deep_view().len() == b.len(),
            forall|j: int| 0 <= j < i ==> a.deep_view()[j] == b.deep_view()[j],
        decreases a.len() - i,
    {
        if !a[i].eq(&b[i]) {
            proof {
                assert(a.deep_view()[i as int] == a[i as int]@);
                assert(b.deep_view()[i as int] == b[i as int]@);
            }
            return false;
        }
        proof {
            assert(a.deep_view()[i as int] == a[i as int]@);
            assert(b.deep_view()[i as int] == b[i as int]@);
        }
        i += 1;
    }
    proof {
        assert(a.deep_view() =~= b.deep_view());
    }
    true
}

/// Whether `a` is a prefix of the segment path `b`.
pub fn segs_prefix(a: &Vec<String>, b: &Vec<String>) -> (r: bool)
    ensures
        r == a.deep_view().is_prefix_of(b.deep_view()),
{
    if a.len() > b.len() {
        proof {
            assert(a.deep_view().len() == a.len());
            assert(b.deep_view().len() == b.len());
        }
        return false;
    }
    let mut i: usize = 0;
    while i < a.len()
        invariant
            0 <= i <= a.len() <= b.len(),
            a.deep_view().len() == a.len(),
            b.deep_view().len() == b.len(),
            forall|j: int| 0 <= j < i ==> a.deep_view()[j] == b.deep_view()[j],
        decreases a.len() - i,
    {
        if !a[i].eq(&b[i]) {
            proof {
                assert(a.deep_view()[i as int] == a[i as int]@);
                assert(b.deep_view()[i as int] == b[i as int]@);
                assert(b.deep_view().subrange(0, a.deep_view().len() as int)[i as int] == b.deep_view()[i as int]);
            }
            return false;
        }
        proof {
            assert(a.deep_view()[i as int] == a[i as int]@);
            assert(b.deep_view()[i as int] == b[i as int]@);
        }
        i += 1;
    }
    proof {
        assert(a.deep_view() =~= b.deep_view().subrange(0, a.deep_view().len() as int));
    }
    true
}

/// The path of an entry called `name` inside the directory `dir`.
pub open spec fn sub_path_spec(dir: Seq<char>, name: Seq<char>) -> Seq<char> {
    dir + seq!['/'] + name
}

/// Joins a directory path and an entry name with a separator.
pub fn sub_path(dir: &str, name: &str) -> (r: String)
    ensures
        r@ == sub_path_spec(dir@, name@),
{
    let mut r = String::from_str(dir);
    r.append("/");
    r.append(name);
    proof {
        reveal_strlit("/");
        assert(("/")@ =~= seq!['/']);
        assert(r@ =~= dir@ + seq!['/'] + name@);
    }
    r
}

/// What `str::to_lowercase` yields; a fixed function of the characters alone.
pub uninterp spec fn lower_of(s: Seq<char>) -> Seq<char>;

/// Relies on str::to_lowercase: the result depends on the characters alone.
#[verifier::external_body]
pub fn lowercase(s: &str) -> (r: String)
    ensures
        r@ == lower_of(s@),
{
    s.to_lowercase()
}

} // verus!
