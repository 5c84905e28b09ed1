//! Facts about MIME type names: the top-level category, the four structural
//! types, the types tried first, and alias resolution.
use vstd::prelude::*;
use vstd::string::StrSliceExecFns;
use crate::checker::owned;

verus! {

/// The part of a name before its first `/` (the whole name when it has none).
pub open spec fn top_level(m: Seq<char>) -> Seq<char>
    decreases m.len(),
{
    if m.len() == 0 || m[0] == '/' {
        Seq::empty()
    } else {
        seq![m[0]] + top_level(m.drop_first())
    }
}

proof fn lemma_top_level_prefix(m: Seq<char>, k: int)
    requires
        0 <= k <= m.len(),
        forall|j: int| 0 <= j < k ==> m[j] != '/',
        k == m.len() || m[k] == '/',
    ensures
        top_level(m) == m.take(k),
    decreases k,
{
    if k > 0 {
        let t = m.drop_first();
        assert forall|j: int| 0 <= j < k - 1 implies t[j] != '/' by {
            assert(t[j] == m[j + 1]);
        }
        lemma_top_level_prefix(t, k - 1);
        assert(m.take(k) =~= seq![m[0]] + t.take(k - 1));
    } else {
        assert(m.take(0) =~= Seq::<char>::empty());
    }
}

/// The root of every hierarchy.
pub open spec fn root_name() -> Seq<char> {
    "all/all"@
}

/// The four types the hierarchy is built around.
pub open spec fn is_structural(m: Seq<char>) -> bool {
    m == "text/plain"@ || m == "application/octet-stream"@ || m == "all/all"@ || m
        == "all/allfiles"@
}

/// The structural type a type without a declared parent is placed under.
pub open spec fn fallback_parent(m: Seq<char>) -> Seq<char> {
    if top_level(m) == "text"@ {
        "text/plain"@
    } else if top_level(m) == "inode"@ {
        "all/all"@
    } else {
        "application/octet-stream"@
    }
}

/// Types seen often enough that their subtrees are tried before their siblings.
pub open spec fn is_priority(m: Seq<char>) -> bool {
    m == "image/png"@ || m == "image/jpeg"@ || m == "image/gif"@ || m == "application/zip"@ || m
        == "application/x-msdos-executable"@ || m == "application/pdf"@
}

/// The canonical form of `m` under alias pairs `(alias, canonical)`: the
/// latest pair for `m` decides, and a name without a pair stands for itself.
pub open spec fn resolve(al: Seq<(Seq<char>, Seq<char>)>, m: Seq<char>) -> Seq<char>
    decreases al.len(),
{
    if al.len() == 0 {
        m
    } else if al.last().0 == m {
        al.last().1
    } else {
        resolve(al.drop_last(), m)
    }
}

/// The top-level category of `m`.
pub fn top_level_of(m: &String) -> (r: String)
    ensures
        r@ == top_level(m@),
{
    let s = m.as_str();
    let n = s.unicode_len();
    let mut k: usize = 0;
    while k < n && s.get_char(k) != '/'
        invariant
            n == s@.len(),
            s@ == m@,
            k <= n,
            forall|j: int| 0 <= j < k ==> s@[j] != '/',
        decreases n - k,
    {
        k += 1;
    }
    proof {
        lemma_top_level_prefix(m@, k as int);
    }
    let t = s.substring_char(0, k);
    assert(t@ =~= m@.take(k as int));
    owned(t)
}

/// The structural type that `m` is attached under when nothing else places it.
pub fn fallback_parent_of(m: &String) -> (r: String)
    ensures
        r@ == fallback_parent(m@),
{
    let top = top_level_of(m);
    if top == owned("text") {
        owned("text/plain")
    } else if top == owned("inode") {
        owned("all/all")
    } else {
        owned("application/octet-stream")
    }
}

/// Whether `m` is one of the four structural types.
pub fn structural(m: &String) -> (r: bool)
    ensures
        r == is_structural(m@),
{
    *m == owned("text/plain") || *m == owned("application/octet-stream") || *m == owned("all/all")
        || *m == owned("all/allfiles")
}

/// Whether `m` is one of the types tried first.
pub fn priority(m: &String) -> (r: bool)
    ensures
        r == is_priority(m@),
{
    *m == owned("image/png") || *m == owned("image/jpeg") || *m == owned("image/gif") || *m
        == owned("application/zip") || *m == owned("application/x-msdos-executable") || *m == owned(
        "application/pdf",
    )
}

/// Resolves `m` against the alias pairs `al`.
pub fn resolve_in(al: &Vec<(String, String)>, m: &String) -> (r: String)
    ensures
        r@ == resolve(crate::checker::pairs_view(al@), m@),
{
    let ghost v = crate::checker::pairs_view(al@);
    let mut i: usize = al.len();
    assert(v.take(i as int) =~= v);
    while i > 0
        invariant
            i <= al@.len(),
            v == crate::checker::pairs_view(al@),
            resolve(v, m@) == resolve(v.take(i as int), m@),
        decreases i,
    {
        let ghost t = v.take(i as int);
        assert(t.drop_last() =~= v.take(i - 1));
        assert(t.last() == v[i - 1]);
        if al[i - 1].0 == *m {
            return al[i - 1].1.clone();
        }
        i -= 1;
    }
    m.clone()
}

} // verus!
