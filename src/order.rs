//! Ascending order on type names (code point by code point, a proper prefix
//! first) and the sorted, duplicate-free list of names built by insertion.
use vstd::prelude::*;
use vstd::string::StrSliceExecFns;
use crate::typegraph::distinct;

verus! {

/// `a` comes before `b`: at the first position where they differ `a` holds
/// the smaller code point, or `a` is a proper prefix of `b`.
pub open spec fn name_lt(a: Seq<char>, b: Seq<char>) -> bool
    decreases a.len(),
{
    if a.len() == 0 {
        b.len() > 0
    } else if b.len() == 0 {
        false
    } else if a[0] != b[0] {
        (a[0] as int) < (b[0] as int)
    } else {
        name_lt(a.drop_first(), b.drop_first())
    }
}

/// Each name comes before the next.
pub open spec fn ascending(l: Seq<Seq<char>>) -> bool {
    forall|i: int| 0 <= i < l.len() - 1 ==> name_lt(#[trigger] l[i], l[i + 1])
}

/// `m` placed into `l` before the first name it comes before.
pub open spec fn insert_sorted(l: Seq<Seq<char>>, m: Seq<char>) -> Seq<Seq<char>>
    decreases l.len(),
{
    if l.len() == 0 {
        seq![m]
    } else if name_lt(m, l[0]) {
        seq![m] + l
    } else {
        seq![l[0]] + insert_sorted(l.drop_first(), m)
    }
}

/// The names of `s` without repetitions, in ascending order.
pub open spec fn sorted_dedup(s: Seq<Seq<char>>) -> Seq<Seq<char>>
    decreases s.len(),
{
    if s.len() == 0 {
        Seq::empty()
    } else {
        let l = sorted_dedup(s.drop_last());
        if l.contains(s.last()) {
            l
        } else {
            insert_sorted(l, s.last())
        }
    }
}

proof fn lemma_insert_at(l: Seq<Seq<char>>, m: Seq<char>, i: int)
    requires
        0 <= i <= l.len(),
        forall|j: int| 0 <= j < i ==> !name_lt(m, #[trigger] l[j]),
        i == l.len() || name_lt(m, l[i]),
    ensures
        insert_sorted(l, m) == l.insert(i, m),
    decreases i,
{
    if i == 0 {
        if l.len() == 0 {
            assert(l.insert(0, m) =~= seq![m]);
        } else {
            assert(l.insert(0, m) =~= seq![m] + l);
        }
    } else {
        let d = l.drop_first();
        assert(!name_lt(m, l[0]));
        assert forall|j: int| 0 <= j < i - 1 implies !name_lt(m, #[trigger] d[j]) by {
            assert(d[j] == l[j + 1]);
        }
        if i < l.len() {
            assert(d[i - 1] == l[i]);
        }
        lemma_insert_at(d, m, i - 1);
        assert(l.insert(i, m) =~= seq![l[0]] + d.insert(i - 1, m));
    }
}

proof fn lemma_lt_irreflexive(a: Seq<char>)
    ensures
        !name_lt(a, a),
    decreases a.len(),
{
    if a.len() > 0 {
        lemma_lt_irreflexive(a.drop_first());
    }
}

proof fn lemma_lt_total(a: Seq<char>, b: Seq<char>)
    ensures
        a == b || name_lt(a, b) || name_lt(b, a),
    decreases a.len(),
{
    if a.len() > 0 && b.len() > 0 && a[0] == b[0] {
        lemma_lt_total(a.drop_first(), b.drop_first());
        if a.drop_first() == b.drop_first() {
            assert(a =~= seq![a[0]] + a.drop_first());
            assert(b =~= seq![b[0]] + b.drop_first());
        }
    } else if a.len() > 0 && b.len() > 0 {
        assert((a[0] as int) != (b[0] as int));
    } else if a.len() == 0 && b.len() == 0 {
        assert(a =~= b);
    }
}

/// Inserting into an ascending list keeps it ascending.
proof fn lemma_insert_ascending(l: Seq<Seq<char>>, m: Seq<char>)
    requires
        ascending(l),
        !l.contains(m),
    ensures
        ascending(insert_sorted(l, m)),
        insert_sorted(l, m).len() == l.len() + 1,
        l.len() > 0 ==> insert_sorted(l, m)[0] == l[0] || insert_sorted(l, m)[0] == m,
    decreases l.len(),
{
    if l.len() > 0 && !name_lt(m, l[0]) {
        let d = l.drop_first();
        assert(ascending(d)) by {
            assert forall|i: int| 0 <= i < d.len() - 1 implies name_lt(#[trigger] d[i], d[i + 1]) by {
                assert(d[i] == l[i + 1] && d[i + 1] == l[i + 2]);
            }
        }
        assert(!d.contains(m)) by {
            if d.contains(m) {
                let k = choose|k: int| 0 <= k < d.len() && d[k] == m;
                assert(l[k + 1] == m);
            }
        }
        lemma_insert_ascending(d, m);
        let r = insert_sorted(d, m);
        let s = seq![l[0]] + r;
        assert(l[0] != m) by {
            assert(l[0] == l[0]);
        }
        lemma_lt_total(m, l[0]);
        assert forall|i: int| 0 <= i < s.len() - 1 implies name_lt(#[trigger] s[i], s[i + 1]) by {
            if i == 0 {
                assert(s[1] == r[0]);
                if d.len() > 0 && r[0] == d[0] {
                    assert(d[0] == l[1]);
                    assert(name_lt(l[0], l[1]));
                }
            } else {
                assert(s[i] == r[i - 1] && s[i + 1] == r[i]);
            }
        }
    } else if l.len() > 0 {
        let s = seq![m] + l;
        assert forall|i: int| 0 <= i < s.len() - 1 implies name_lt(#[trigger] s[i], s[i + 1]) by {
            if i > 0 {
                assert(s[i] == l[i - 1] && s[i + 1] == l[i]);
            }
        }
    }
}

/// The sorted list of distinct names is ascending.
pub proof fn lemma_sorted_dedup_ascending(s: Seq<Seq<char>>)
    ensures
        ascending(sorted_dedup(s)),
    decreases s.len(),
{
    if s.len() > 0 {
        lemma_sorted_dedup_ascending(s.drop_last());
        let l = sorted_dedup(s.drop_last());
        if !l.contains(s.last()) {
            lemma_insert_ascending(l, s.last());
        }
    }
}

/// The characters of `s`.
pub fn chars_of(s: &String) -> (r: Vec<char>)
    ensures
        r@ == s@,
{
    let t = s.as_str();
    let n = t.unicode_len();
    let mut r: Vec<char> = Vec::new();
    let mut k: usize = 0;
    while k < n
        invariant
            n == t@.len(),
            t@ == s@,
            k <= n,
            r@ == t@.take(k as int),
        decreases n - k,
    {
        r.push(t.get_char(k));
        k += 1;
        assert(r@ =~= t@.take(k as int));
    }
    assert(t@.take(k as int) =~= t@);
    r
}

/// Whether `a` comes before `b`.
pub fn name_less(a: &Vec<char>, b: &Vec<char>) -> (r: bool)
    ensures
        r == name_lt(a@, b@),
{
    let mut k: usize = 0;
    assert(a@.skip(0) =~= a@ && b@.skip(0) =~= b@);
    while k < a.len() && k < b.len() && a[k] == b[k]
        invariant
            k <= a@.len(),
            k <= b@.len(),
            name_lt(a@, b@) == name_lt(a@.skip(k as int), b@.skip(k as int)),
        decreases a.len() - k,
    {
        assert(a@.skip(k as int).drop_first() =~= a@.skip(k + 1));
        assert(b@.skip(k as int).drop_first() =~= b@.skip(k + 1));
        k += 1;
    }
    if k == a.len() {
        k < b.len()
    } else if k == b.len() {
        false
    } else {
        proof {
            assert(a@.skip(k as int)[0] == a@[k as int] && b@.skip(k as int)[0] == b@[k as int]);
        }
        a[k] < b[k]
    }
}

/// Places `m` into the ascending list `names`, whose characters `keys`
/// holds, unless it is there already.
pub fn insert_name(names: &mut Vec<String>, keys: &mut Vec<Vec<char>>, m: &String)
    requires
        old(keys)@.len() == old(names)@.len(),
        forall|k: int| 0 <= k < old(keys)@.len() ==> (#[trigger] old(keys)@[k])@ == old(names)@[k]@,
    ensures
        final(keys)@.len() == final(names)@.len(),
        forall|k: int| 0 <= k < final(keys)@.len() ==> (#[trigger] final(keys)@[k])@ == final(names)@[k]@,
        final(names)@.len() <= old(names)@.len() + 1,
        crate::checker::names_view(final(names)@) == if crate::checker::names_view(
            old(names)@,
        ).contains(m@) {
            crate::checker::names_view(old(names)@)
        } else {
            insert_sorted(crate::checker::names_view(old(names)@), m@)
        },
{
    let ghost l = crate::checker::names_view(names@);
    if crate::checker::contains_name(names, m) {
        return;
    }
    let key = chars_of(m);
    let mut i: usize = 0;
    while i < keys.len() && !name_less(&key, &keys[i])
        invariant
            i <= keys@.len(),
            keys@.len() == names@.len(),
            key@ == m@,
            l == crate::checker::names_view(names@),
            forall|k: int| 0 <= k < keys@.len() ==> (#[trigger] keys@[k])@ == names@[k]@,
            forall|j: int| 0 <= j < i ==> !name_lt(m@, #[trigger] l[j]),
        decreases keys.len() - i,
    {
        assert(keys@[i as int]@ == l[i as int]);
        i += 1;
    }
    proof {
        if i < keys@.len() {
            assert(keys@[i as int]@ == l[i as int]);
        }
        lemma_insert_at(l, m@, i as int);
    }
    names.insert(i, m.clone());
    keys.insert(i, key);
    proof {
        assert(crate::checker::names_view(names@) =~= l.insert(i as int, m@));
        assert forall|k: int| 0 <= k < keys@.len() implies (#[trigger] keys@[k])@ == names@[k]@ by {
            if k < i {
                assert(keys@[k] == old(keys)@[k] && names@[k] == old(names)@[k]);
            } else if k > i {
                assert(keys@[k] == old(keys)@[k - 1] && names@[k] == old(names)@[k - 1]);
            }
        }
    }
}


proof fn lemma_insert_sorted_contents(l: Seq<Seq<char>>, m: Seq<char>)
    ensures
        forall|x: Seq<char>| #[trigger] insert_sorted(l, m).contains(x) <==> (l.contains(x) || x == m),
        insert_sorted(l, m).len() == l.len() + 1,
        distinct(l) && !l.contains(m) ==> distinct(insert_sorted(l, m)),
    decreases l.len(),
{
    if l.len() == 0 {
        assert(seq![m][0] == m);
    } else if name_lt(m, l[0]) {
        let r = seq![m] + l;
        assert(r =~= l.insert(0, m));
        assert forall|x: Seq<char>| r.contains(x) <==> (l.contains(x) || x == m) by {
            if r.contains(x) {
                let k = choose|k: int| 0 <= k < r.len() && r[k] == x;
                if k > 0 {
                    assert(l[k - 1] == x);
                }
            }
            if l.contains(x) {
                let k = choose|k: int| 0 <= k < l.len() && l[k] == x;
                assert(r[k + 1] == x);
            }
            if x == m {
                assert(r[0] == x);
            }
        }
        if distinct(l) && !l.contains(m) {
            assert forall|a: int, b: int| 0 <= a < b < r.len() implies r[a] != r[b] by {
                if a == 0 {
                    assert(l[b - 1] == r[b]);
                } else {
                    assert(l[a - 1] == r[a] && l[b - 1] == r[b]);
                }
            }
        }
    } else {
        let d = l.drop_first();
        lemma_insert_sorted_contents(d, m);
        let t = insert_sorted(d, m);
        let r = seq![l[0]] + t;
        assert forall|x: Seq<char>| r.contains(x) <==> (l.contains(x) || x == m) by {
            if r.contains(x) {
                let k = choose|k: int| 0 <= k < r.len() && r[k] == x;
                if k > 0 {
                    assert(t[k - 1] == x);
                    assert(t.contains(x));
                    if d.contains(x) {
                        let k2 = choose|k2: int| 0 <= k2 < d.len() && d[k2] == x;
                        assert(l[k2 + 1] == x);
                    }
                } else {
                    assert(l[0] == x);
                }
            }
            if l.contains(x) {
                let k = choose|k: int| 0 <= k < l.len() && l[k] == x;
                if k == 0 {
                    assert(r[0] == x);
                } else {
                    assert(d[k - 1] == x);
                    assert(t.contains(x));
                    let w = choose|w: int| 0 <= w < t.len() && t[w] == x;
                    assert(r[w + 1] == x);
                }
            }
            if x == m {
                assert(t.contains(x));
                let w = choose|w: int| 0 <= w < t.len() && t[w] == x;
                assert(r[w + 1] == x);
            }
        }
        if distinct(l) && !l.contains(m) {
            assert(distinct(d)) by {
                assert forall|a: int, b: int| 0 <= a < b < d.len() implies d[a] != d[b] by {
                    assert(d[a] == l[a + 1] && d[b] == l[b + 1]);
                }
            }
            assert(!d.contains(m)) by {
                if d.contains(m) {
                    let k = choose|k: int| 0 <= k < d.len() && d[k] == m;
                    assert(l[k + 1] == m);
                }
            }
            assert(!t.contains(l[0])) by {
                if d.contains(l[0]) {
                    let k = choose|k: int| 0 <= k < d.len() && d[k] == l[0];
                    assert(l[k + 1] == l[0]);
                }
                assert(l[0] != m) by {
                    assert(l[0] == l[0]);
                }
            }
            assert forall|a: int, b: int| 0 <= a < b < r.len() implies r[a] != r[b] by {
                if a == 0 {
                    assert(t[b - 1] == r[b]);
                    assert(t.contains(r[b]));
                } else {
                    assert(t[a - 1] == r[a] && t[b - 1] == r[b]);
                }
            }
        }
    }
}

/// The sorted list holds the names of `s`, each once.
pub proof fn lemma_sorted_dedup_contents(s: Seq<Seq<char>>)
    ensures
        forall|x: Seq<char>| #[trigger] sorted_dedup(s).contains(x) <==> s.contains(x),
        distinct(sorted_dedup(s)),
        sorted_dedup(s).len() <= s.len(),
    decreases s.len(),
{
    if s.len() > 0 {
        let d = s.drop_last();
        lemma_sorted_dedup_contents(d);
        let l = sorted_dedup(d);
        lemma_insert_sorted_contents(l, s.last());
        assert(s =~= d.push(s.last()));
        assert forall|x: Seq<char>| s.contains(x) <==> (d.contains(x) || x == s.last()) by {
            if s.contains(x) {
                let k = choose|k: int| 0 <= k < s.len() && s[k] == x;
                if k < d.len() {
                    assert(d[k] == x);
                }
            }
            if d.contains(x) {
                let k = choose|k: int| 0 <= k < d.len() && d[k] == x;
                assert(s[k] == x);
            }
            if x == s.last() {
                assert(s[s.len() - 1] == x);
            }
        }
    } else {
        assert(sorted_dedup(s) =~= Seq::<Seq<char>>::empty());
    }
}

} // verus!
