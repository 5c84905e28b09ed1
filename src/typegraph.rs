//! Construction of the type graph: one node per declared type, an edge from
//! parent to child for each declared subclass pair, the four structural types,
//! and an edge to every remaining type without a parent from the structural
//! type of its category.
use vstd::prelude::*;
use crate::checker::{Checker, supported, subclasses, names_view, pairs_view};
use crate::mime::{is_structural, fallback_parent, root_name, structural, fallback_parent_of};
use crate::checker::owned;
use crate::order::{sorted_dedup, insert_name, lemma_sorted_dedup_contents};
use crate::pgraph::{
    MimeGraph, graph_nodes, graph_edges, adjacent, lemma_adjacent_contains, graph_new, graph_add_node,
    graph_add_edge, graph_has_edge, graph_neighbors, graph_weight,
};

verus! {

/// No name occurs twice.
pub open spec fn distinct(s: Seq<Seq<char>>) -> bool {
    forall|i: int, j: int| 0 <= i < j < s.len() ==> s[i] != s[j]
}

/// Every edge joins two of the `n` nodes.
pub open spec fn edges_in_range(e: Seq<(int, int)>, n: int) -> bool {
    forall|k: int| 0 <= k < e.len() ==> 0 <= #[trigger] e[k].0 < n && 0 <= e[k].1 < n
}

/// Some edge enters node `v`.
pub open spec fn has_parent(e: Seq<(int, int)>, v: int) -> bool {
    exists|k: int| 0 <= k < e.len() && #[trigger] e[k].1 == v
}

/// The number of types the checkers declare, counted with repetition.
pub open spec fn total_types(cs: Seq<Checker>) -> nat
    decreases cs.len(),
{
    if cs.len() == 0 {
        0
    } else {
        total_types(cs.drop_last()) + supported(cs.last()).len()
    }
}

/// The number of subclass pairs the checkers declare, counted with repetition.
pub open spec fn total_subclasses(cs: Seq<Checker>) -> nat
    decreases cs.len(),
{
    if cs.len() == 0 {
        0
    } else {
        total_subclasses(cs.drop_last()) + subclasses(cs.last()).len()
    }
}

/// A graph the classifier can walk: distinct names, edges between nodes, the
/// root named `all/all`, and a parent for every type but the structural ones.
pub open spec fn graph_wf(nodes: Seq<Seq<char>>, edges: Seq<(int, int)>, root: int) -> bool {
    &&& distinct(nodes)
    &&& nodes.len() < u32::MAX
    &&& edges_in_range(edges, nodes.len() as int)
    &&& 0 <= root < nodes.len()
    &&& nodes[root] == root_name()
    &&& forall|v: int|
        0 <= v < nodes.len() && !is_structural(#[trigger] nodes[v]) ==> has_parent(edges, v)
}

/// Some checker declares type `m`.
pub open spec fn declared(cs: Seq<Checker>, m: Seq<char>) -> bool {
    exists|i: int| 0 <= i < cs.len() && #[trigger] supported(cs[i]).contains(m)
}

/// An edge leads from the node named `p` to the node named `c`.
pub open spec fn linked(nodes: Seq<Seq<char>>, edges: Seq<(int, int)>, p: Seq<char>, c: Seq<char>) -> bool {
    exists|a: int, b: int|
        0 <= a < nodes.len() && 0 <= b < nodes.len() && nodes[a] == p && nodes[b] == c
            && #[trigger] edges.contains((a, b))
}

/// Each subclass pair `(child, parent)` that one of the first `upto` checkers
/// declares between two declared types is an edge from parent to child.
pub open spec fn pairs_linked(
    cs: Seq<Checker>,
    nodes: Seq<Seq<char>>,
    edges: Seq<(int, int)>,
    upto: int,
) -> bool {
    forall|i: int, k: int|
        0 <= i < upto && 0 <= k < subclasses(cs[i]).len() && declared(
            cs,
            #[trigger] subclasses(cs[i])[k].0,
        ) && declared(cs, subclasses(cs[i])[k].1) ==> linked(
            nodes,
            edges,
            subclasses(cs[i])[k].1,
            subclasses(cs[i])[k].0,
        )
}

/// No edge occurs twice.
pub open spec fn edges_distinct(e: Seq<(int, int)>) -> bool {
    forall|i: int, j: int| 0 <= i < j < e.len() ==> e[i] != e[j]
}

/// Edge `x` (parent, child) is a declared subclass pair, or attaches a
/// non-structural type under the structural type of its category.
pub open spec fn edge_justified(cs: Seq<Checker>, nodes: Seq<Seq<char>>, x: (int, int)) -> bool {
    ||| declared_pair(cs, nodes[x.1], nodes[x.0])
    ||| (!is_structural(nodes[x.1]) && nodes[x.0] == fallback_parent(nodes[x.1])
        && !has_declared_parent(cs, nodes[x.1]))
}

/// Some checker declares the subclass pair `(c, p)`, and both are declared types.
pub open spec fn declared_pair(cs: Seq<Checker>, c: Seq<char>, p: Seq<char>) -> bool {
    &&& declared(cs, c)
    &&& declared(cs, p)
    &&& exists|i: int, k: int|
        0 <= i < cs.len() && 0 <= k < subclasses(cs[i]).len() && #[trigger] subclasses(cs[i])[k]
            == (c, p)
}

/// Some declared pair between declared types has `m` as its child.
pub open spec fn has_declared_parent(cs: Seq<Checker>, m: Seq<char>) -> bool {
    exists|p: Seq<char>| #[trigger] declared_pair(cs, m, p)
}

/// All declared types, checker by checker, with repetitions.
pub open spec fn flat_types(cs: Seq<Checker>) -> Seq<Seq<char>>
    decreases cs.len(),
{
    if cs.len() == 0 {
        Seq::empty()
    } else {
        flat_types(cs.drop_last()) + supported(cs.last())
    }
}

/// `s` with `m` appended unless it already holds it.
pub open spec fn with_name(s: Seq<Seq<char>>, m: Seq<char>) -> Seq<Seq<char>> {
    if s.contains(m) {
        s
    } else {
        s.push(m)
    }
}

/// The node names of the graph built from `cs`, by index: the declared types
/// without repetitions in ascending order, then those of `text/plain`,
/// `application/octet-stream`, `all/all` and `all/allfiles` that are missing.
pub open spec fn node_names(cs: Seq<Checker>) -> Seq<Seq<char>> {
    with_name(
        with_name(
            with_name(with_name(sorted_dedup(flat_types(cs)), "text/plain"@), "application/octet-stream"@),
            "all/all"@,
        ),
        "all/allfiles"@,
    )
}

proof fn lemma_flat_length(cs: Seq<Checker>)
    ensures
        flat_types(cs).len() == total_types(cs),
    decreases cs.len(),
{
    if cs.len() > 0 {
        lemma_flat_length(cs.drop_last());
    }
}

proof fn lemma_flat_contains(cs: Seq<Checker>, m: Seq<char>)
    ensures
        flat_types(cs).contains(m) <==> declared(cs, m),
    decreases cs.len(),
{
    if cs.len() > 0 {
        let d = cs.drop_last();
        lemma_flat_contains(d, m);
        let f = flat_types(d);
        let g = supported(cs.last());
        let all = f + g;
        if all.contains(m) {
            let k = choose|k: int| 0 <= k < all.len() && all[k] == m;
            if k < f.len() {
                assert(f[k] == m);
                let i = choose|i: int| 0 <= i < d.len() && #[trigger] supported(d[i]).contains(m);
                assert(cs[i] == d[i]);
            } else {
                assert(g[k - f.len()] == m);
                assert(supported(cs[cs.len() - 1]).contains(m));
            }
        }
        if declared(cs, m) {
            let i = choose|i: int| 0 <= i < cs.len() && #[trigger] supported(cs[i]).contains(m);
            if i < d.len() {
                assert(d[i] == cs[i]);
                assert(f.contains(m));
                let k = choose|k: int| 0 <= k < f.len() && f[k] == m;
                assert(all[k] == m);
            } else {
                let k = choose|k: int| 0 <= k < g.len() && g[k] == m;
                assert(all[f.len() + k] == m);
            }
        }
    }
}

/// Every edge is justified.
pub open spec fn edges_justified(cs: Seq<Checker>, nodes: Seq<Seq<char>>, e: Seq<(int, int)>) -> bool {
    forall|k: int| 0 <= k < e.len() ==> edge_justified(cs, nodes, #[trigger] e[k])
}

proof fn lemma_push_distinct(e: Seq<(int, int)>, y: (int, int))
    requires
        edges_distinct(e),
        !e.contains(y),
    ensures
        edges_distinct(e.push(y)),
{
    let f = e.push(y);
    assert forall|i: int, j: int| 0 <= i < j < f.len() implies f[i] != f[j] by {
        if j == e.len() {
            assert(f[i] == e[i]);
        } else {
            assert(f[i] == e[i] && f[j] == e[j]);
        }
    }
}

proof fn lemma_justified_push(cs: Seq<Checker>, nodes: Seq<Seq<char>>, e: Seq<(int, int)>, y: (int, int))
    requires
        edges_justified(cs, nodes, e),
        edge_justified(cs, nodes, y),
    ensures
        edges_justified(cs, nodes, e.push(y)),
{
    assert forall|k: int| 0 <= k < e.push(y).len() implies edge_justified(cs, nodes, #[trigger] e.push(y)[k]) by {
        if k < e.len() {
            assert(e.push(y)[k] == e[k]);
        }
    }
}

proof fn lemma_push_contains(e: Seq<(int, int)>, y: (int, int))
    ensures
        forall|x: (int, int)| e.contains(x) ==> e.push(y).contains(x),
        e.push(y).contains(y),
{
    assert forall|x: (int, int)| e.contains(x) implies e.push(y).contains(x) by {
        let k = choose|k: int| 0 <= k < e.len() && e[k] == x;
        assert(e.push(y)[k] == x);
    }
    assert(e.push(y)[e.len() as int] == y);
}

proof fn lemma_linked_grows(
    n1: Seq<Seq<char>>,
    e1: Seq<(int, int)>,
    n2: Seq<Seq<char>>,
    e2: Seq<(int, int)>,
    p: Seq<char>,
    c: Seq<char>,
)
    requires
        n1.len() <= n2.len(),
        forall|k: int| 0 <= k < n1.len() ==> n2[k] == n1[k],
        forall|x: (int, int)| e1.contains(x) ==> e2.contains(x),
        linked(n1, e1, p, c),
    ensures
        linked(n2, e2, p, c),
{
    let (a, b) = choose|a: int, b: int|
        0 <= a < n1.len() && 0 <= b < n1.len() && n1[a] == p && n1[b] == c
            && #[trigger] e1.contains((a, b));
    assert(n2[a] == p && n2[b] == c && e2.contains((a, b)));
}

proof fn lemma_pairs_linked_grows(
    cs: Seq<Checker>,
    n1: Seq<Seq<char>>,
    e1: Seq<(int, int)>,
    n2: Seq<Seq<char>>,
    e2: Seq<(int, int)>,
    upto: int,
)
    requires
        n1.len() <= n2.len(),
        forall|k: int| 0 <= k < n1.len() ==> n2[k] == n1[k],
        forall|x: (int, int)| e1.contains(x) ==> e2.contains(x),
        pairs_linked(cs, n1, e1, upto),
    ensures
        pairs_linked(cs, n2, e2, upto),
{
    assert forall|i: int, k: int|
        0 <= i < upto && 0 <= k < subclasses(cs[i]).len() && declared(
            cs,
            #[trigger] subclasses(cs[i])[k].0,
        ) && declared(cs, subclasses(cs[i])[k].1) implies linked(
        n2,
        e2,
        subclasses(cs[i])[k].1,
        subclasses(cs[i])[k].0,
    ) by {
        lemma_linked_grows(n1, e1, n2, e2, subclasses(cs[i])[k].1, subclasses(cs[i])[k].0);
    }
}

fn find_node(g: &MimeGraph, n: usize, m: &String) -> (r: Option<usize>)
    requires
        n == graph_nodes(*g).len(),
    ensures
        match r {
            Some(i) => i < n && graph_nodes(*g)[i as int] == m@,
            None => !graph_nodes(*g).contains(m@),
        },
{
    let mut i: usize = 0;
    while i < n
        invariant
            n == graph_nodes(*g).len(),
            i <= n,
            forall|k: int| 0 <= k < i ==> graph_nodes(*g)[k] != m@,
        decreases n - i,
    {
        if *graph_weight(g, i) == *m {
            return Some(i);
        }
        i += 1;
    }
    None
}

fn add_unique(g: &mut MimeGraph, n: &mut usize, m: String) -> (r: usize)
    requires
        *old(n) == graph_nodes(*old(g)).len(),
        graph_nodes(*old(g)).len() + 1 < u32::MAX,
        distinct(graph_nodes(*old(g))),
    ensures
        *final(n) == graph_nodes(*final(g)).len(),
        distinct(graph_nodes(*final(g))),
        graph_edges(*final(g)) == graph_edges(*old(g)),
        graph_nodes(*final(g)) == with_name(graph_nodes(*old(g)), m@),
        r < graph_nodes(*final(g)).len(),
        graph_nodes(*final(g))[r as int] == m@,
{
    match find_node(g, *n, &m) {
        Some(i) => i,
        None => {
            let ghost v = m@;
            let i = graph_add_node(g, m);
            *n = *n + 1;
            proof {
                let s = graph_nodes(*final(g));
                assert forall|a: int, b: int| 0 <= a < b < s.len() implies s[a] != s[b] by {
                    if b == s.len() - 1 {
                        assert(graph_nodes(*old(g))[a] == s[a]);
                    }
                }
            }
            i
        },
    }
}

proof fn lemma_push_keeps_parent(e: Seq<(int, int)>, x: (int, int), v: int)
    requires
        has_parent(e, v),
    ensures
        has_parent(e.push(x), v),
{
    let k = choose|k: int| 0 <= k < e.len() && #[trigger] e[k].1 == v;
    assert(e.push(x)[k] == e[k]);
}

proof fn lemma_grown_keeps(s: Seq<Seq<char>>, t: Seq<Seq<char>>)
    requires
        s.len() <= t.len(),
        forall|k: int| 0 <= k < s.len() ==> t[k] == s[k],
    ensures
        forall|m: Seq<char>| s.contains(m) ==> t.contains(m),
{
    assert forall|m: Seq<char>| s.contains(m) implies t.contains(m) by {
        let w = choose|w: int| 0 <= w < s.len() && s[w] == m;
        assert(t[w] == m);
    }
}

proof fn lemma_totals_prefix(cs: Seq<Checker>, k: int)
    requires
        0 <= k <= cs.len(),
    ensures
        total_types(cs.take(k)) <= total_types(cs),
        total_subclasses(cs.take(k)) <= total_subclasses(cs),
        k > 0 ==> total_types(cs.take(k)) == total_types(cs.take(k - 1)) + supported(
            cs[k - 1],
        ).len(),
        k > 0 ==> total_subclasses(cs.take(k)) == total_subclasses(cs.take(k - 1))
            + subclasses(cs[k - 1]).len(),
    decreases cs.len() - k,
{
    if k > 0 {
        assert(cs.take(k).drop_last() =~= cs.take(k - 1));
    }
    if k < cs.len() {
        lemma_totals_prefix(cs, k + 1);
        assert(cs.take(k + 1).drop_last() =~= cs.take(k));
    } else {
        assert(cs.take(k) =~= cs);
    }
}

/// Builds the type graph from the checkers' declarations; returns the graph
/// with the index of its root and its node count.
pub fn graph_init(cs: &Vec<Checker>) -> (r: (MimeGraph, usize, usize))
    requires
        total_types(cs@) + total_subclasses(cs@) + 8 < u32::MAX,
    ensures
        graph_wf(graph_nodes(r.0), graph_edges(r.0), r.1 as int),
        r.2 == graph_nodes(r.0).len(),
        pairs_linked(cs@, graph_nodes(r.0), graph_edges(r.0), cs@.len() as int),
        edges_distinct(graph_edges(r.0)),
        edges_justified(cs@, graph_nodes(r.0), graph_edges(r.0)),
        graph_nodes(r.0) == node_names(cs@),
        graph_nodes(r.0).contains("text/plain"@),
        graph_nodes(r.0).contains("application/octet-stream"@),
        graph_nodes(r.0).contains("all/allfiles"@),
        graph_nodes(r.0).contains("all/all"@),
        forall|v: int|
            0 <= v < graph_nodes(r.0).len() ==> declared(cs@, #[trigger] graph_nodes(r.0)[v])
                || is_structural(graph_nodes(r.0)[v]),
        forall|i: int, m: Seq<char>|
            0 <= i < cs@.len() && #[trigger] supported(cs@[i]).contains(m) ==> graph_nodes(
                r.0,
            ).contains(m),
{
    // The declared types, without repetitions, in ascending order.
    let mut names: Vec<String> = Vec::new();
    let mut keys: Vec<Vec<char>> = Vec::new();
    let mut i: usize = 0;
    while i < cs.len()
        invariant
            i <= cs@.len(),
            keys@.len() == names@.len(),
            forall|k: int| 0 <= k < keys@.len() ==> (#[trigger] keys@[k])@ == names@[k]@,
            names_view(names@) == sorted_dedup(flat_types(cs@.take(i as int))),
        decreases cs.len() - i,
    {
        let sup = cs[i].get_supported();
        proof {
            assert(cs@.take(i + 1).drop_last() =~= cs@.take(i as int));
        }
        let mut j: usize = 0;
        assert(flat_types(cs@.take(i as int)) + names_view(sup@).take(0) =~= flat_types(
            cs@.take(i as int),
        ));
        while j < sup.len()
            invariant
                i < cs@.len(),
                j <= sup@.len(),
                names_view(sup@) == supported(cs@[i as int]),
                flat_types(cs@.take(i + 1)) == flat_types(cs@.take(i as int)) + names_view(sup@),
                keys@.len() == names@.len(),
                forall|k: int| 0 <= k < keys@.len() ==> (#[trigger] keys@[k])@ == names@[k]@,
                names_view(names@) == sorted_dedup(
                    flat_types(cs@.take(i as int)) + names_view(sup@).take(j as int),
                ),
            decreases sup.len() - j,
        {
            proof {
                let t = flat_types(cs@.take(i as int)) + names_view(sup@).take(j + 1);
                assert(t.drop_last() =~= flat_types(cs@.take(i as int)) + names_view(sup@).take(
                    j as int,
                ));
                assert(t.last() == sup@[j as int]@);
            }
            insert_name(&mut names, &mut keys, &sup[j]);
            j += 1;
        }
        assert(names_view(sup@).take(j as int) =~= names_view(sup@));
        i += 1;
    }
    assert(cs@.take(i as int) =~= cs@);
    proof {
        lemma_sorted_dedup_contents(flat_types(cs@));
        lemma_totals_prefix(cs@, cs@.len() as int);
        lemma_flat_length(cs@);
    }
    // One node per name, in that order.
    let mut g = graph_new();
    let mut n: usize = 0;
    while n < names.len()
        invariant
            n <= names@.len(),
            names@.len() <= total_types(cs@),
            total_types(cs@) + total_subclasses(cs@) + 8 < u32::MAX,
            graph_nodes(g) == names_view(names@).take(n as int),
            graph_edges(g) == Seq::<(int, int)>::empty(),
        decreases names.len() - n,
    {
        graph_add_node(&mut g, names[n].clone());
        n += 1;
        assert(graph_nodes(g) =~= names_view(names@).take(n as int));
    }
    assert(names_view(names@).take(n as int) =~= names_view(names@));
    proof {
        assert forall|v: int| 0 <= v < graph_nodes(g).len() implies declared(
            cs@,
            #[trigger] graph_nodes(g)[v],
        ) by {
            assert(flat_types(cs@).contains(graph_nodes(g)[v])) by {
                assert(sorted_dedup(flat_types(cs@)).contains(graph_nodes(g)[v]));
            }
            lemma_flat_contains(cs@, graph_nodes(g)[v]);
        }
        assert forall|i2: int, m: Seq<char>|
            0 <= i2 < cs@.len() && #[trigger] supported(cs@[i2]).contains(m) implies graph_nodes(
            g,
        ).contains(m) by {
            lemma_flat_contains(cs@, m);
            assert(sorted_dedup(flat_types(cs@)).contains(m));
        }
    }
    // An edge from parent to child for each declared pair between known types.
    let mut i: usize = 0;
    while i < cs.len()
        invariant
            i <= cs@.len(),
            total_types(cs@) + total_subclasses(cs@) + 8 < u32::MAX,
            n == graph_nodes(g).len(),
            n <= total_types(cs@),
            graph_edges(g).len() <= total_subclasses(cs@.take(i as int)),
            pairs_linked(cs@, graph_nodes(g), graph_edges(g), i as int),
            graph_nodes(g) == sorted_dedup(flat_types(cs@)),
            distinct(graph_nodes(g)),
            edges_distinct(graph_edges(g)),
            edges_justified(cs@, graph_nodes(g), graph_edges(g)),
            forall|v: int| 0 <= v < graph_nodes(g).len() ==> declared(cs@, #[trigger] graph_nodes(g)[v]),
            edges_in_range(graph_edges(g), n as int),
            forall|i2: int, m: Seq<char>|
                0 <= i2 < cs@.len() && #[trigger] supported(cs@[i2]).contains(m)
                    ==> graph_nodes(g).contains(m),
        decreases cs.len() - i,
    {
        let sub = cs[i].get_subclasses();
        proof {
            assert(cs@.take(i + 1).drop_last() =~= cs@.take(i as int));
            lemma_totals_prefix(cs@, i + 1);
        }
        let mut j: usize = 0;
        while j < sub.len()
            invariant
                i < cs@.len(),
                j <= sub@.len(),
                pairs_view(sub@) == subclasses(cs@[i as int]),
                total_subclasses(cs@.take(i + 1)) == total_subclasses(cs@.take(i as int))
                    + sub@.len(),
                total_subclasses(cs@.take(i + 1)) <= total_subclasses(cs@),
                total_types(cs@) + total_subclasses(cs@) + 8 < u32::MAX,
                n == graph_nodes(g).len(),
                n <= total_types(cs@),
                graph_edges(g).len() <= total_subclasses(cs@.take(i as int)) + j,
                pairs_linked(cs@, graph_nodes(g), graph_edges(g), i as int),
                forall|k: int|
                    0 <= k < j && declared(cs@, #[trigger] subclasses(cs@[i as int])[k].0)
                        && declared(cs@, subclasses(cs@[i as int])[k].1) ==> linked(
                        graph_nodes(g),
                        graph_edges(g),
                        subclasses(cs@[i as int])[k].1,
                        subclasses(cs@[i as int])[k].0,
                    ),
                graph_nodes(g) == sorted_dedup(flat_types(cs@)),
                distinct(graph_nodes(g)),
                edges_distinct(graph_edges(g)),
                edges_justified(cs@, graph_nodes(g), graph_edges(g)),
                forall|v: int| 0 <= v < graph_nodes(g).len() ==> declared(cs@, #[trigger] graph_nodes(g)[v]),
                edges_in_range(graph_edges(g), n as int),
                forall|i2: int, m: Seq<char>|
                    0 <= i2 < cs@.len() && #[trigger] supported(cs@[i2]).contains(m)
                        ==> graph_nodes(g).contains(m),
            decreases sub.len() - j,
        {
            let ghost nodes0 = graph_nodes(g);
            let ghost edges0 = graph_edges(g);
            let ghost pair = subclasses(cs@[i as int])[j as int];
            assert(pairs_view(sub@)[j as int] == pair);
            let child = find_node(&g, n, &sub[j].0);
            let parent = find_node(&g, n, &sub[j].1);
            proof {
                if declared(cs@, pair.0) && declared(cs@, pair.1) {
                    let i0 = choose|i0: int| 0 <= i0 < cs@.len() && #[trigger] supported(cs@[i0]).contains(pair.0);
                    let i1 = choose|i1: int| 0 <= i1 < cs@.len() && #[trigger] supported(cs@[i1]).contains(pair.1);
                    assert(graph_nodes(g).contains(pair.0));
                    assert(graph_nodes(g).contains(pair.1));
                }
            }
            match (parent, child) {
                (Some(p), Some(c)) => {
                    if !graph_has_edge(&g, p, c) {
                        let ghost before = graph_edges(g);
                        graph_add_edge(&mut g, p, c);
                        proof {
                            lemma_push_contains(before, (p as int, c as int));
                            lemma_push_distinct(before, (p as int, c as int));
                            assert(subclasses(cs@[i as int])[j as int] == (
                                graph_nodes(g)[c as int],
                                graph_nodes(g)[p as int],
                            ));
                            assert(declared(cs@, graph_nodes(g)[c as int]));
                            assert(declared(cs@, graph_nodes(g)[p as int]));
                            assert(declared_pair(cs@, graph_nodes(g)[c as int], graph_nodes(g)[p as int]));
                            lemma_justified_push(cs@, graph_nodes(g), before, (p as int, c as int));
                        }
                        assert(edges_in_range(graph_edges(g), n as int)) by {
                            assert forall|k: int| 0 <= k < graph_edges(g).len() implies 0
                                <= #[trigger] graph_edges(g)[k].0 < n && 0 <= graph_edges(g)[k].1
                                < n by {
                                if k < before.len() {
                                    assert(graph_edges(g)[k] == before[k]);
                                }
                            }
                        }
                    }
                },
                _ => {},
            }
            proof {
                lemma_pairs_linked_grows(cs@, nodes0, edges0, graph_nodes(g), graph_edges(g), i as int);
                assert forall|k: int|
                    0 <= k < j + 1 && declared(cs@, #[trigger] subclasses(cs@[i as int])[k].0)
                        && declared(cs@, subclasses(cs@[i as int])[k].1) implies linked(
                    graph_nodes(g),
                    graph_edges(g),
                    subclasses(cs@[i as int])[k].1,
                    subclasses(cs@[i as int])[k].0,
                ) by {
                    if k < j {
                        lemma_linked_grows(
                            nodes0,
                            edges0,
                            graph_nodes(g),
                            graph_edges(g),
                            subclasses(cs@[i as int])[k].1,
                            subclasses(cs@[i as int])[k].0,
                        );
                    } else {
                        let (p, c) = (parent.unwrap(), child.unwrap());
                        assert(graph_edges(g).contains((p as int, c as int)));
                    }
                }
            }
            j += 1;
        }
        proof {
            assert forall|i2: int, k: int|
                0 <= i2 < i + 1 && 0 <= k < subclasses(cs@[i2]).len() && declared(
                    cs@,
                    #[trigger] subclasses(cs@[i2])[k].0,
                ) && declared(cs@, subclasses(cs@[i2])[k].1) implies linked(
                graph_nodes(g),
                graph_edges(g),
                subclasses(cs@[i2])[k].1,
                subclasses(cs@[i2])[k].0,
            ) by {
                if i2 == i {
                    assert(subclasses(cs@[i as int])[k] == subclasses(cs@[i2])[k]);
                }
            }
        }
        i += 1;
    }
    // The structural types.
    let ghost declared_nodes = graph_nodes(g);
    let ghost declared_edges = graph_edges(g);
    let text = add_unique(&mut g, &mut n, owned("text/plain"));
    let octet = add_unique(&mut g, &mut n, owned("application/octet-stream"));
    let ghost mid = graph_nodes(g);
    let root = add_unique(&mut g, &mut n, owned("all/all"));
    let ghost mid2 = graph_nodes(g);
    let allfiles = add_unique(&mut g, &mut n, owned("all/allfiles"));
    proof {
        assert(graph_nodes(g)[root as int] == "all/all"@) by {
            assert(mid2[root as int] == graph_nodes(g)[root as int]);
        }
        assert(graph_nodes(g).contains("all/allfiles"@));
        assert forall|v: int| 0 <= v < graph_nodes(g).len() implies declared(
            cs@,
            #[trigger] graph_nodes(g)[v],
        ) || is_structural(graph_nodes(g)[v]) by {
            if v < declared_nodes.len() {
                assert(graph_nodes(g)[v] == declared_nodes[v]);
            }
        }
        assert forall|k: int| 0 <= k < graph_edges(g).len() implies edge_justified(
            cs@,
            graph_nodes(g),
            #[trigger] graph_edges(g)[k],
        ) by {
            let x = graph_edges(g)[k];
            assert(declared_edges[k] == x);
            assert(edge_justified(cs@, declared_nodes, x));
            assert(0 <= x.0 < declared_nodes.len() && 0 <= x.1 < declared_nodes.len());
            assert(graph_nodes(g)[x.0] == declared_nodes[x.0]);
            assert(graph_nodes(g)[x.1] == declared_nodes[x.1]);
        }
        lemma_grown_keeps(declared_nodes, graph_nodes(g));
        lemma_pairs_linked_grows(
            cs@,
            declared_nodes,
            declared_edges,
            graph_nodes(g),
            graph_edges(g),
            cs@.len() as int,
        );
        assert(graph_nodes(g)[text as int] == "text/plain"@) by {
            lemma_grown_keeps(mid, graph_nodes(g));
            assert(mid[text as int] == graph_nodes(g)[text as int]);
        }
        assert(graph_nodes(g)[octet as int] == "application/octet-stream"@) by {
            assert(mid[octet as int] == graph_nodes(g)[octet as int]);
        }
        assert(graph_nodes(g).contains("text/plain"@)) by {
            assert(graph_nodes(g)[text as int] == "text/plain"@);
        }
        assert(graph_nodes(g).contains("application/octet-stream"@)) by {
            assert(graph_nodes(g)[octet as int] == "application/octet-stream"@);
        }
        assert(graph_nodes(g).contains("all/all"@)) by {
            assert(graph_nodes(g)[root as int] == "all/all"@);
        }
    }
    // A parent for every non-structural type that has none.
    let mut v: usize = 0;
    while v < n
        invariant
            v <= n,
            n == graph_nodes(g).len(),
            n <= total_types(cs@) + 4,
            graph_edges(g).len() <= total_subclasses(cs@) + v,
            total_types(cs@) + total_subclasses(cs@) + 8 < u32::MAX,
            distinct(graph_nodes(g)),
            edges_in_range(graph_edges(g), n as int),
            root < n,
            graph_nodes(g)[root as int] == root_name(),
            graph_nodes(g).contains("text/plain"@),
            graph_nodes(g).contains("application/octet-stream"@),
            graph_nodes(g).contains("all/all"@),
            graph_nodes(g).contains("all/allfiles"@),
            graph_nodes(g) == node_names(cs@),
            pairs_linked(cs@, graph_nodes(g), graph_edges(g), cs@.len() as int),
            edges_distinct(graph_edges(g)),
            edges_justified(cs@, graph_nodes(g), graph_edges(g)),
            forall|u: int|
                0 <= u < graph_nodes(g).len() ==> declared(cs@, #[trigger] graph_nodes(g)[u])
                    || is_structural(graph_nodes(g)[u]),
            forall|i2: int, m: Seq<char>|
                0 <= i2 < cs@.len() && #[trigger] supported(cs@[i2]).contains(m)
                    ==> graph_nodes(g).contains(m),
            forall|u: int|
                0 <= u < v && !is_structural(#[trigger] graph_nodes(g)[u]) ==> has_parent(
                    graph_edges(g),
                    u,
                ),
        decreases n - v,
    {
        let name = graph_weight(&g, v);
        if !structural(name) {
            let parents = graph_neighbors(&g, v, true);
            if parents.len() == 0 {
                let pname = fallback_parent_of(name);
                assert(graph_nodes(g).contains(pname@));
                match find_node(&g, n, &pname) {
                    Some(p) => {
                        let ghost before = graph_edges(g);
                        graph_add_edge(&mut g, p, v);
                        proof {
                            lemma_push_contains(before, (p as int, v as int));
                            assert(!before.contains((p as int, v as int))) by {
                                lemma_adjacent_contains(before, v as int, true, p as int);
                            }
                            lemma_push_distinct(before, (p as int, v as int));
                            assert(!has_declared_parent(cs@, graph_nodes(g)[v as int])) by {
                                let m = graph_nodes(g)[v as int];
                                if has_declared_parent(cs@, m) {
                                    let q = choose|q: Seq<char>| #[trigger] declared_pair(cs@, m, q);
                                    let (i0, k0) = choose|i0: int, k0: int|
                                        0 <= i0 < cs@.len() && 0 <= k0 < subclasses(cs@[i0]).len()
                                            && #[trigger] subclasses(cs@[i0])[k0] == (m, q);
                                    assert(subclasses(cs@[i0])[k0].0 == m);
                                    assert(subclasses(cs@[i0])[k0].1 == q);
                                    assert(declared(cs@, m) && declared(cs@, q));
                                    assert(linked(graph_nodes(g), before, q, m));
                                    let (a, b) = choose|a: int, b: int|
                                        0 <= a < graph_nodes(g).len() && 0 <= b < graph_nodes(g).len()
                                            && graph_nodes(g)[a] == q && graph_nodes(g)[b] == m
                                            && #[trigger] before.contains((a, b));
                                    assert(b == v);
                                    lemma_adjacent_contains(before, v as int, true, a);
                                    assert(parents@.map_values(|x: usize| x as int).len() == 0);
                                    assert(false);
                                }
                            }
                            lemma_justified_push(cs@, graph_nodes(g), before, (p as int, v as int));
                            lemma_pairs_linked_grows(
                                cs@,
                                graph_nodes(g),
                                before,
                                graph_nodes(g),
                                graph_edges(g),
                                cs@.len() as int,
                            );
                            let e = graph_edges(g);
                            assert(e[before.len() as int].1 == v as int);
                            assert forall|u: int|
                                0 <= u < v && !is_structural(
                                    #[trigger] graph_nodes(g)[u],
                                ) implies has_parent(e, u) by {
                                lemma_push_keeps_parent(before, (p as int, v as int), u);
                            }
                            assert forall|k: int| 0 <= k < e.len() implies 0
                                <= #[trigger] e[k].0 < n && 0 <= e[k].1 < n by {
                                if k < before.len() {
                                    assert(e[k] == before[k]);
                                }
                            }
                        }
                    },
                    None => {},
                }
            } else {
                proof {
                    let a = adjacent(graph_edges(g), v as int, true);
                    assert(parents@.map_values(|x: usize| x as int)[0] == a[0]);
                    assert(a.contains(a[0]));
                    lemma_adjacent_contains(graph_edges(g), v as int, true, a[0]);
                    let k = choose|k: int|
                        0 <= k < graph_edges(g).len() && graph_edges(g)[k] == (a[0], v as int);
                    assert(graph_edges(g)[k].1 == v as int);
                }
            }
        }
        v += 1;
    }
    (g, root, n)
}

} // verus!
