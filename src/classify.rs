//! The classifier: the type graph, the checkers that own its types, and the
//! alias table, built once; and the walk that narrows an input down to the
//! most specific type it matches.
use vstd::prelude::*;
use crate::checker::{
    Checker, FileFacts, supported, subclasses, aliases, accepts_bytes, accepts_file, names_view,
    pairs_view, base_types, base_subclasses, owned, contains_name,
};
use crate::mime::{
    is_priority, is_structural, fallback_parent, priority, resolve, resolve_in, root_name,
};
use crate::typegraph::{
    graph_wf, graph_init, total_types, total_subclasses, edges_in_range, has_parent, pairs_linked,
    linked, declared, edges_distinct, edges_justified, node_names, edge_justified, declared_pair,
    has_declared_parent, distinct,
};
use crate::pgraph::{
    MimeGraph, graph_nodes, graph_edges, adjacent, lemma_adjacent_contains, graph_neighbors,
    graph_weight,
};

verus! {

/// What is being classified, as the contracts see it.
pub enum Input {
    Bytes(Seq<u8>),
    File(FileFacts),
}

/// What is being classified: content in memory, or facts about a path.
pub enum Probe<'a> {
    Bytes(&'a [u8]),
    File(&'a FileFacts),
}

impl<'a> Probe<'a> {
    /// The input as the contracts see it.
    pub open spec fn input(&self) -> Input {
        match self {
            Probe::Bytes(b) => Input::Bytes(b@),
            Probe::File(f) => Input::File(**f),
        }
    }
}

/// A checker's verdict on an input for type `m`.
pub open spec fn checker_accepts(c: Checker, m: Seq<char>, inp: Input) -> bool {
    match inp {
        Input::Bytes(b) => accepts_bytes(c, m, b),
        Input::File(f) => accepts_file(c, m, f),
    }
}

/// Checker `i` is the first one to declare type `m`: it alone tests `m`.
pub open spec fn is_owner(cs: Seq<Checker>, m: Seq<char>, i: int) -> bool {
    &&& 0 <= i < cs.len()
    &&& supported(cs[i]).contains(m)
    &&& forall|j: int| 0 <= j < i ==> !supported(#[trigger] cs[j]).contains(m)
}

/// The checker that owns `m` accepts the input; false when no checker declares `m`.
pub open spec fn owned_accepts(cs: Seq<Checker>, m: Seq<char>, inp: Input) -> bool {
    exists|i: int| is_owner(cs, m, i) && checker_accepts(cs[i], m, inp)
}

/// All alias pairs, checker by checker in order.
pub open spec fn all_aliases(cs: Seq<Checker>) -> Seq<(Seq<char>, Seq<char>)>
    decreases cs.len(),
{
    if cs.len() == 0 {
        Seq::empty()
    } else {
        all_aliases(cs.drop_last()) + aliases(cs.last())
    }
}

/// The priority children of `s`, in their order.
pub open spec fn front(nodes: Seq<Seq<char>>, s: Seq<int>) -> Seq<int>
    decreases s.len(),
{
    if s.len() == 0 {
        Seq::empty()
    } else if is_priority(nodes[s.last()]) {
        front(nodes, s.drop_last()).push(s.last())
    } else {
        front(nodes, s.drop_last())
    }
}

/// The other children of `s`, in their order.
pub open spec fn rest(nodes: Seq<Seq<char>>, s: Seq<int>) -> Seq<int>
    decreases s.len(),
{
    if s.len() == 0 {
        Seq::empty()
    } else if is_priority(nodes[s.last()]) {
        rest(nodes, s.drop_last())
    } else {
        rest(nodes, s.drop_last()).push(s.last())
    }
}

/// The order in which children are tried: the priority children first, then
/// the others, each group in its original order.
pub open spec fn try_order(nodes: Seq<Seq<char>>, s: Seq<int>) -> Seq<int> {
    front(nodes, s) + rest(nodes, s)
}

/// The type graph, its owners and its aliases, built once and then only read.
pub struct Classifier {
    graph: MimeGraph,
    root: usize,
    count: usize,
    checkers: Vec<Checker>,
    alias_list: Vec<(String, String)>,
}

impl Classifier {
    #[verifier::type_invariant]
    spec fn inv(&self) -> bool {
        self.valid()
    }

    /// The graph is well formed, the node count is recorded, and every
    /// declared type has a node.
    pub closed spec fn valid(&self) -> bool {
        &&& graph_wf(graph_nodes(self.graph), graph_edges(self.graph), self.root as int)
        &&& self.count == graph_nodes(self.graph).len()
        &&& graph_nodes(self.graph) == node_names(self.checkers@)
        &&& edges_justified(self.checkers@, graph_nodes(self.graph), graph_edges(self.graph))
        &&& pairs_linked(
            self.checkers@,
            graph_nodes(self.graph),
            graph_edges(self.graph),
            self.checkers@.len() as int,
        )
        &&& forall|i: int, m: Seq<char>|
            0 <= i < self.checkers@.len() && #[trigger] supported(self.checkers@[i]).contains(m)
                ==> graph_nodes(self.graph).contains(m)
    }

    /// The type names, by node.
    pub closed spec fn nodes(&self) -> Seq<Seq<char>> {
        graph_nodes(self.graph)
    }

    /// The subclass edges `(parent, child)`, in order of addition.
    pub closed spec fn edges(&self) -> Seq<(int, int)> {
        graph_edges(self.graph)
    }

    /// The node of `all/all`.
    pub closed spec fn root(&self) -> int {
        self.root as int
    }

    /// The checkers, in priority order.
    pub closed spec fn checker_list(&self) -> Seq<Checker> {
        self.checkers@
    }

    /// The alias pairs `(alias, canonical)`, latest last.
    pub closed spec fn alias_pairs(&self) -> Seq<(Seq<char>, Seq<char>)> {
        pairs_view(self.alias_list@)
    }

    /// The canonical form of `m`.
    pub open spec fn canonical(&self, m: Seq<char>) -> Seq<char> {
        resolve(self.alias_pairs(), m)
    }

    /// Whether `m`, after alias resolution, matches the input.
    pub open spec fn accepts(&self, m: Seq<char>, inp: Input) -> bool {
        owned_accepts(self.checker_list(), self.canonical(m), inp)
    }

    /// The children of node `n`, in the order they are tried: by priority,
    /// then in the order their edges were added.
    pub open spec fn children(&self, n: int) -> Seq<int> {
        try_order(self.nodes(), adjacent(self.edges(), n, false).reverse())
    }

    /// The most specific match below node `n`, descending at most `fuel` levels.
    /// The classifier passes the node count as `fuel`, which no path of an
    /// acyclic graph exceeds; with cyclic subclass declarations the walk still
    /// ends.
    pub open spec fn walk(&self, inp: Input, n: int, fuel: nat) -> Option<int>
        decreases fuel, 0nat,
    {
        if fuel == 0 {
            None
        } else {
            self.walk_list(inp, self.children(n), (fuel - 1) as nat)
        }
    }

    /// The first of `kids` that matches, narrowed to its most specific match.
    /// The walk commits to that child: when several siblings match, the
    /// subtrees of the later ones are not searched for a deeper match.
    pub open spec fn walk_list(&self, inp: Input, kids: Seq<int>, fuel: nat) -> Option<int>
        decreases fuel, kids.len() + 1,
    {
        if kids.len() == 0 {
            None
        } else {
            let c = kids[0];
            if 0 <= c < self.nodes().len() && owned_accepts(
                self.checker_list(),
                self.nodes()[c],
                inp,
            ) {
                match self.walk(inp, c, fuel) {
                    Some(x) => Some(x),
                    None => Some(c),
                }
            } else {
                self.walk_list(inp, kids.drop_first(), fuel)
            }
        }
    }

    /// The nodes whose type the walk below `n` tests, in order.
    pub open spec fn tested(&self, inp: Input, n: int, fuel: nat) -> Seq<int>
        decreases fuel, 0nat,
    {
        if fuel == 0 {
            Seq::empty()
        } else {
            self.tested_list(inp, self.children(n), (fuel - 1) as nat)
        }
    }

    /// The nodes whose type the walk over `kids` tests, in order.
    pub open spec fn tested_list(&self, inp: Input, kids: Seq<int>, fuel: nat) -> Seq<int>
        decreases fuel, kids.len() + 1,
    {
        if kids.len() == 0 {
            Seq::empty()
        } else {
            let c = kids[0];
            if 0 <= c < self.nodes().len() && owned_accepts(
                self.checker_list(),
                self.nodes()[c],
                inp,
            ) {
                seq![c] + self.tested(inp, c, fuel)
            } else {
                seq![c] + self.tested_list(inp, kids.drop_first(), fuel)
            }
        }
    }

    /// The most specific type below the root that the input matches.
    pub open spec fn found(&self, inp: Input) -> Option<int> {
        self.walk(inp, self.root(), self.nodes().len())
    }

    /// The type identified for content `b`: the most specific match, or the
    /// root when nothing below it matches.
    pub open spec fn identified(&self, b: Seq<u8>) -> Seq<char> {
        match self.found(Input::Bytes(b)) {
            Some(x) => self.nodes()[x],
            None => self.nodes()[self.root()],
        }
    }

    /// The type identified for a path: by its first bytes when it is a
    /// byte stream, else by walking with the path itself.
    pub open spec fn file_identified(&self, f: FileFacts) -> Option<Seq<char>> {
        if !self.accepts("application/octet-stream"@, Input::File(f)) {
            match self.found(Input::File(f)) {
                Some(x) => Some(self.nodes()[x]),
                None => None,
            }
        } else {
            match f.head {
                Some(h) => Some(self.identified(h@)),
                None => None,
            }
        }
    }

    /// Builds the classifier from checkers listed in priority order. Without
    /// a single declared type there is nothing to classify against: that is a
    /// configuration error, which callers must rule out.
    pub fn new(checkers: Vec<Checker>) -> (r: Classifier)
        requires
            total_types(checkers@) > 0,
            total_types(checkers@) + total_subclasses(checkers@) + 8 < u32::MAX,
        ensures
            r.valid(),
            r.checker_list() == checkers@,
            r.alias_pairs() == all_aliases(checkers@),
            graph_wf(r.nodes(), r.edges(), r.root()),
            forall|i: int, m: Seq<char>|
                0 <= i < checkers@.len() && #[trigger] supported(checkers@[i]).contains(m)
                    ==> r.nodes().contains(m),
            forall|v: int|
                0 <= v < r.nodes().len() ==> declared(checkers@, #[trigger] r.nodes()[v])
                    || is_structural(r.nodes()[v]),
            pairs_linked(checkers@, r.nodes(), r.edges(), checkers@.len() as int),
            edges_distinct(r.edges()),
            edges_justified(checkers@, r.nodes(), r.edges()),
            r.nodes() == node_names(checkers@),
            r.nodes().contains("text/plain"@),
            r.nodes().contains("application/octet-stream"@),
            r.nodes().contains("all/allfiles"@),
            r.nodes().contains("all/all"@),
    {
        let (graph, root, count) = graph_init(&checkers);
        let mut alias_list: Vec<(String, String)> = Vec::new();
        let mut i: usize = 0;
        while i < checkers.len()
            invariant
                i <= checkers@.len(),
                pairs_view(alias_list@) == all_aliases(checkers@.take(i as int)),
            decreases checkers.len() - i,
        {
            let mut more = checkers[i].get_aliaslist();
            let ghost before = alias_list@;
            let ghost extra = more@;
            alias_list.append(&mut more);
            proof {
                assert(checkers@.take(i + 1).drop_last() =~= checkers@.take(i as int));
                assert(pairs_view(alias_list@) =~= pairs_view(before) + pairs_view(extra));
            }
            i += 1;
        }
        assert(checkers@.take(i as int) =~= checkers@);
        Classifier { graph, root, count, checkers, alias_list }
    }
}


fn declares(c: &Checker, m: &String) -> (r: bool)
    ensures
        r == supported(*c).contains(m@),
{
    match c {
        Checker::BaseType => {
            let b = *m == owned("all/all") || *m == owned("all/allfiles") || *m == owned(
                "inode/directory",
            ) || *m == owned("text/plain") || *m == owned("application/octet-stream");
            proof {
                let s = base_types();
                if b {
                    if m@ == "all/all"@ {
                        assert(s[0] == m@);
                    } else if m@ == "all/allfiles"@ {
                        assert(s[1] == m@);
                    } else if m@ == "inode/directory"@ {
                        assert(s[2] == m@);
                    } else if m@ == "text/plain"@ {
                        assert(s[3] == m@);
                    } else {
                        assert(s[4] == m@);
                    }
                }
                if s.contains(m@) {
                    let k = choose|k: int| 0 <= k < s.len() && s[k] == m@;
                    assert(k == 0 || k == 1 || k == 2 || k == 3 || k == 4);
                }
            }
            b
        },
        Checker::Magic(t) => contains_name(&t.types, m),
    }
}

fn checker_test(c: &Checker, m: &String, p: &Probe) -> (r: bool)
    ensures
        r == checker_accepts(*c, m@, p.input()),
{
    match p {
        Probe::Bytes(b) => c.from_u8(b, m),
        Probe::File(f) => c.from_filepath(f, m),
    }
}

/// Whether the checker that owns `m` (the first to declare it) accepts the
/// input; false when no checker declares `m`.
fn owner_test(cs: &Vec<Checker>, m: &String, p: &Probe) -> (r: bool)
    ensures
        r == owned_accepts(cs@, m@, p.input()),
{
    let mut i: usize = 0;
    while i < cs.len()
        invariant
            i <= cs@.len(),
            forall|j: int| 0 <= j < i ==> !supported(#[trigger] cs@[j]).contains(m@),
        decreases cs.len() - i,
    {
        if declares(&cs[i], m) {
            let r = checker_test(&cs[i], m, p);
            proof {
                assert(is_owner(cs@, m@, i as int));
                assert forall|k: int| is_owner(cs@, m@, k) implies k == i by {
                    if k < i {
                        assert(!supported(cs@[k]).contains(m@));
                    } else if k > i {
                        assert(!supported(cs@[i as int]).contains(m@));
                    }
                }
            }
            return r;
        }
        i += 1;
    }
    false
}

impl Classifier {
    /// The canonical form of `m`.
    fn get_alias(&self, m: &String) -> (r: String)
        ensures
            r@ == self.canonical(m@),
    {
        resolve_in(&self.alias_list, m)
    }

    /// The children of node `n` in the order they are tried.
    fn prioritized(&self, n: usize) -> (r: Vec<usize>)
        requires
            n < self.nodes().len(),
        ensures
            r@.map_values(|x: usize| x as int) == self.children(n as int),
            forall|k: int| 0 <= k < r@.len() ==> #[trigger] r@[k] < self.nodes().len(),
    {
        proof {
            use_type_invariant(self);
        }
        let kids = graph_neighbors(&self.graph, n, false);
        let ghost ks = kids@.map_values(|x: usize| x as int);
        let ghost nodes = self.nodes();
        proof {
            assert forall|k: int| 0 <= k < kids@.len() implies #[trigger] kids@[k] < nodes.len() by {
                assert(ks[k] == kids@[k] as int);
                assert(adjacent(self.edges(), n as int, false).contains(ks[k]));
                lemma_adjacent_contains(self.edges(), n as int, false, ks[k]);
                let j = choose|j: int|
                    0 <= j < self.edges().len() && self.edges()[j] == (n as int, ks[k]);
                assert(edges_in_range(self.edges(), nodes.len() as int));
                assert(self.edges()[j].0 == n as int);
                assert(0 <= self.edges()[j].1 < nodes.len());
            }
        }
        let ghost rs = ks.reverse();
        let mut first: Vec<usize> = Vec::new();
        let mut others: Vec<usize> = Vec::new();
        let mut i: usize = 0;
        while i < kids.len()
            invariant
                i <= kids@.len(),
                ks == kids@.map_values(|x: usize| x as int),
                rs == ks.reverse(),
                nodes == self.nodes(),
                nodes == graph_nodes(self.graph),
                forall|k: int| 0 <= k < kids@.len() ==> #[trigger] kids@[k] < nodes.len(),
                first@.map_values(|x: usize| x as int) == front(nodes, rs.take(i as int)),
                others@.map_values(|x: usize| x as int) == rest(nodes, rs.take(i as int)),
                forall|k: int| 0 <= k < first@.len() ==> #[trigger] first@[k] < nodes.len(),
                forall|k: int| 0 <= k < others@.len() ==> #[trigger] others@[k] < nodes.len(),
            decreases kids.len() - i,
        {
            let c = kids[kids.len() - 1 - i];
            let ghost f0 = first@;
            let ghost o0 = others@;
            proof {
                assert(rs.take(i + 1).drop_last() =~= rs.take(i as int));
                assert(rs[i as int] == ks[ks.len() - 1 - i]);
                assert(rs.take(i + 1).last() == c as int);
            }
            if priority(graph_weight(&self.graph, c)) {
                first.push(c);
                assert(first@.map_values(|x: usize| x as int) =~= f0.map_values(
                    |x: usize| x as int,
                ).push(c as int));
            } else {
                others.push(c);
                assert(others@.map_values(|x: usize| x as int) =~= o0.map_values(
                    |x: usize| x as int,
                ).push(c as int));
            }
            i += 1;
        }
        let ghost f1 = first@;
        let ghost o1 = others@;
        first.append(&mut others);
        proof {
            assert(rs.take(i as int) =~= rs);
            assert(first@ == f1 + o1);
            assert(first@.map_values(|x: usize| x as int) =~= f1.map_values(|x: usize| x as int)
                + o1.map_values(|x: usize| x as int));
        }
        first
    }

    /// The most specific match below node `n`, with the nodes it tested.
    fn typegraph_walker(&self, p: &Probe, n: usize, fuel: usize) -> (r: (
        Option<usize>,
        Ghost<Seq<int>>,
    ))
        requires
            n < self.nodes().len(),
        ensures
            r.1@ == self.tested(p.input(), n as int, fuel as nat),
            match r.0 {
                Some(x) => x < self.nodes().len() && self.walk(p.input(), n as int, fuel as nat)
                    == Some(x as int),
                None => self.walk(p.input(), n as int, fuel as nat) == None::<int>,
            },
        decreases fuel,
    {
        proof {
            use_type_invariant(self);
        }
        if fuel == 0 {
            return (None, Ghost(Seq::empty()));
        }
        let kids = self.prioritized(n);
        let ghost ks = kids@.map_values(|x: usize| x as int);
        let ghost inp = p.input();
        let ghost f = (fuel - 1) as nat;
        let mut i: usize = 0;
        let ghost mut acc: Seq<int> = Seq::empty();
        assert(ks.skip(0) =~= ks);
        assert(acc + self.tested_list(inp, ks, f) =~= self.tested_list(inp, ks, f));
        while i < kids.len()
            invariant
                self.tested(inp, n as int, fuel as nat) == acc + self.tested_list(
                    inp,
                    ks.skip(i as int),
                    f,
                ),
                i <= kids@.len(),
                n < self.nodes().len(),
                fuel > 0,
                f == (fuel - 1) as nat,
                inp == p.input(),
                ks == kids@.map_values(|x: usize| x as int),
                ks == self.children(n as int),
                forall|k: int| 0 <= k < kids@.len() ==> #[trigger] kids@[k] < self.nodes().len(),
                self.walk(inp, n as int, fuel as nat) == self.walk_list(inp, ks.skip(i as int), f),
            decreases kids.len() - i,
        {
            let c = kids[i];
            proof {
                assert(ks.skip(i as int)[0] == c as int);
                assert(ks.skip(i as int).drop_first() =~= ks.skip(i + 1));
            }
            let name = graph_weight(&self.graph, c);
            if owner_test(&self.checkers, name, p) {
                let (found, sub) = self.typegraph_walker(p, c, fuel - 1);
                let ghost trace = acc + (seq![c as int] + sub@);
                assert(trace =~= acc + self.tested_list(inp, ks.skip(i as int), f));
                match found {
                    Some(x) => {
                        return (Some(x), Ghost(trace));
                    },
                    None => {
                        return (Some(c), Ghost(trace));
                    },
                }
            }
            proof {
                let t2 = self.tested_list(inp, ks.skip(i + 1), f);
                assert(acc + (seq![c as int] + t2) =~= acc.push(c as int) + t2);
                acc = acc.push(c as int);
            }
            i += 1;
        }
        assert(ks.skip(i as int) =~= Seq::<int>::empty());
        assert(acc + Seq::<int>::empty() =~= acc);
        (None, Ghost(acc))
    }

    fn root_name_of(&self) -> (r: String)
        ensures
            r@ == self.nodes()[self.root()],
    {
        proof {
            use_type_invariant(self);
        }
        graph_weight(&self.graph, self.root).clone()
    }

    fn from_u8_node(&self, n: usize, bytes: &[u8]) -> (r: Option<usize>)
        requires
            n < self.nodes().len(),
        ensures
            match r {
                Some(x) => x < self.nodes().len() && self.walk(Input::Bytes(bytes@), n as int, self.nodes().len()) == Some(x as int),
                None => self.walk(Input::Bytes(bytes@), n as int, self.nodes().len()) == None::<int>,
            },
    {
        proof {
            use_type_invariant(self);
        }
        self.typegraph_walker(&Probe::Bytes(bytes), n, self.count).0
    }

    fn from_filepath_node(&self, n: usize, facts: &FileFacts) -> (r: Option<usize>)
        requires
            n < self.nodes().len(),
        ensures
            match r {
                Some(x) => x < self.nodes().len() && self.walk(Input::File(*facts), n as int, self.nodes().len()) == Some(x as int),
                None => self.walk(Input::File(*facts), n as int, self.nodes().len()) == None::<int>,
            },
    {
        proof {
            use_type_invariant(self);
        }
        self.typegraph_walker(&Probe::File(facts), n, self.count).0
    }
}

/// Whether content `bytes` is of type `mimetype` (or of the type it is an
/// alias of); false for a type no checker declares.
pub fn match_u8(c: &Classifier, mimetype: &str, bytes: &[u8]) -> (r: bool)
    ensures
        r == c.accepts(mimetype@, Input::Bytes(bytes@)),
{
    let m = c.get_alias(&owned(mimetype));
    owner_test(&c.checkers, &m, &Probe::Bytes(bytes))
}

/// The most specific type of content `bytes`; `all/all` when no more specific
/// type matches.
pub fn from_u8(c: &Classifier, bytes: &[u8]) -> (r: String)
    ensures
        r@ == c.identified(bytes@),
{
    proof {
        use_type_invariant(c);
    }
    match c.from_u8_node(c.root, bytes) {
        Some(x) => graph_weight(&c.graph, x).clone(),
        None => c.root_name_of(),
    }
}

/// Whether the path described by `facts` is of type `mimetype` (or of the type
/// it is an alias of); false for a type no checker declares.
pub fn match_filepath(c: &Classifier, mimetype: &str, facts: &FileFacts) -> (r: bool)
    ensures
        r == c.accepts(mimetype@, Input::File(*facts)),
{
    let m = c.get_alias(&owned(mimetype));
    owner_test(&c.checkers, &m, &Probe::File(facts))
}

/// The most specific type of the path described by `facts`. A byte stream is
/// classified by its first bytes; anything else by walking with the path
/// facts. None when those bytes could not be read or nothing matches.
pub fn from_filepath(c: &Classifier, facts: &FileFacts) -> (r: Option<String>)
    ensures
        match r {
            Some(s) => c.file_identified(*facts) == Some(s@),
            None => c.file_identified(*facts) == None::<Seq<char>>,
        },
{
    proof {
        use_type_invariant(c);
    }
    if !match_filepath(c, "application/octet-stream", facts) {
        return match c.from_filepath_node(c.root, facts) {
            Some(x) => Some(graph_weight(&c.graph, x).clone()),
            None => None,
        };
    }
    match &facts.head {
        Some(h) => Some(from_u8(c, h.as_slice())),
        None => None,
    }
}


proof fn lemma_walk_sound(c: &Classifier, inp: Input, n: int, fuel: nat)
    ensures
        match c.walk(inp, n, fuel) {
            Some(x) => 0 <= x < c.nodes().len() && owned_accepts(c.checker_list(), c.nodes()[x], inp),
            None => true,
        },
    decreases fuel, 0nat,
{
    if fuel > 0 {
        lemma_walk_list_sound(c, inp, c.children(n), (fuel - 1) as nat);
    }
}

proof fn lemma_walk_list_sound(c: &Classifier, inp: Input, kids: Seq<int>, fuel: nat)
    ensures
        match c.walk_list(inp, kids, fuel) {
            Some(x) => 0 <= x < c.nodes().len() && owned_accepts(c.checker_list(), c.nodes()[x], inp),
            None => true,
        },
    decreases fuel, kids.len() + 1,
{
    if kids.len() > 0 {
        let k = kids[0];
        if 0 <= k < c.nodes().len() && owned_accepts(c.checker_list(), c.nodes()[k], inp) {
            lemma_walk_sound(c, inp, k, fuel);
        } else {
            lemma_walk_list_sound(c, inp, kids.drop_first(), fuel);
        }
    }
}

proof fn lemma_resolve_cases(al: Seq<(Seq<char>, Seq<char>)>, m: Seq<char>)
    ensures
        resolve(al, m) == m || exists|k: int|
            0 <= k < al.len() && al[k].0 == m && resolve(al, m) == #[trigger] al[k].1,
    decreases al.len(),
{
    if al.len() > 0 && al.last().0 != m {
        lemma_resolve_cases(al.drop_last(), m);
        if resolve(al, m) != m {
            let k = choose|k: int|
                0 <= k < al.drop_last().len() && al.drop_last()[k].0 == m && resolve(
                    al.drop_last(),
                    m,
                ) == #[trigger] al.drop_last()[k].1;
            assert(al[k] == al.drop_last()[k]);
        }
    } else if al.len() > 0 {
        assert(al[al.len() - 1].1 == resolve(al, m));
    }
}

proof fn lemma_resolve_unaliased(al: Seq<(Seq<char>, Seq<char>)>, m: Seq<char>)
    requires
        forall|k: int| 0 <= k < al.len() ==> (#[trigger] al[k]).0 != m,
    ensures
        resolve(al, m) == m,
    decreases al.len(),
{
    if al.len() > 0 {
        assert(al[al.len() - 1] == al.last());
        assert forall|k: int| 0 <= k < al.drop_last().len() implies (
        #[trigger] al.drop_last()[k]).0 != m by {
            assert(al.drop_last()[k] == al[k]);
        }
        lemma_resolve_unaliased(al.drop_last(), m);
    }
}

/// Every type a checker declares is a node of the graph, and unless it is one
/// of the four structural types it has a parent there: no declared type is
/// left outside the hierarchy.
pub proof fn lemma_no_orphans(c: &Classifier, i: int, m: Seq<char>)
    requires
        c.valid(),
        0 <= i < c.checker_list().len(),
        supported(c.checker_list()[i]).contains(m),
    ensures
        exists|v: int|
            0 <= v < c.nodes().len() && #[trigger] c.nodes()[v] == m && (is_structural(m)
                || has_parent(c.edges(), v)),
{
    assert(c.nodes().contains(m));
    let v = choose|v: int| 0 <= v < c.nodes().len() && c.nodes()[v] == m;
    assert(c.nodes()[v] == m);
}

/// The type identified for content matches that content, provided the root
/// type matches it (as `all/all` does for any content under the base types)
/// and the identified name is not itself an alias.
pub proof fn lemma_identified_matches(c: &Classifier, b: Seq<u8>)
    requires
        c.valid(),
        owned_accepts(c.checker_list(), root_name(), Input::Bytes(b)),
        c.canonical(c.identified(b)) == c.identified(b),
    ensures
        c.accepts(c.identified(b), Input::Bytes(b)),
{
    lemma_walk_sound(c, Input::Bytes(b), c.root(), c.nodes().len());
}

/// Resolving an alias twice gives what resolving it once gives, and a type
/// and its canonical form match the same inputs, provided no canonical name
/// is itself an alias.
pub proof fn lemma_alias_idempotent(c: &Classifier, m: Seq<char>, inp: Input)
    requires
        forall|i: int, j: int|
            0 <= i < c.alias_pairs().len() && 0 <= j < c.alias_pairs().len() ==> (
            #[trigger] c.alias_pairs()[i]).1 != (#[trigger] c.alias_pairs()[j]).0,
    ensures
        c.canonical(c.canonical(m)) == c.canonical(m),
        c.accepts(m, inp) == c.accepts(c.canonical(m), inp),
{
    let al = c.alias_pairs();
    lemma_resolve_cases(al, m);
    if resolve(al, m) != m {
        let k = choose|k: int| 0 <= k < al.len() && al[k].0 == m && resolve(al, m) == #[trigger] al[k].1;
        assert forall|j: int| 0 <= j < al.len() implies (#[trigger] al[j]).0 != resolve(al, m) by {
            assert(al[k].1 != al[j].0);
        }
        lemma_resolve_unaliased(al, resolve(al, m));
    }
}

/// Classification is a function of the content: equal content, equal type.
pub proof fn lemma_identify_deterministic(c: &Classifier, a: Seq<u8>, b: Seq<u8>)
    requires
        a == b,
    ensures
        c.identified(a) == c.identified(b),
{
}

/// Content that matches no type other than the structural ones is
/// identified as one of the structural types.
pub proof fn lemma_structural_fallback(c: &Classifier, b: Seq<u8>)
    requires
        c.valid(),
        forall|v: int|
            0 <= v < c.nodes().len() && !is_structural(#[trigger] c.nodes()[v]) ==> !owned_accepts(
                c.checker_list(),
                c.nodes()[v],
                Input::Bytes(b),
            ),
    ensures
        is_structural(c.identified(b)),
{
    lemma_walk_sound(c, Input::Bytes(b), c.root(), c.nodes().len());
}

/// The walk tests a node only when it is a child of the starting node or a
/// child of a tested node that matched: below a type that does not match,
/// nothing is tested on its account.
pub proof fn lemma_walk_prunes(c: &Classifier, inp: Input, n: int, fuel: nat, t: int)
    requires
        c.tested(inp, n, fuel).contains(t),
    ensures
        c.children(n).contains(t) || exists|p: int|
            c.tested(inp, n, fuel).contains(p) && 0 <= p < c.nodes().len() && owned_accepts(
                c.checker_list(),
                c.nodes()[p],
                inp,
            ) && #[trigger] c.children(p).contains(t),
    decreases fuel, 0nat,
{
    if fuel > 0 {
        lemma_list_prunes(c, inp, c.children(n), (fuel - 1) as nat, t);
    }
}

proof fn lemma_list_prunes(c: &Classifier, inp: Input, kids: Seq<int>, fuel: nat, t: int)
    requires
        c.tested_list(inp, kids, fuel).contains(t),
    ensures
        kids.contains(t) || exists|p: int|
            c.tested_list(inp, kids, fuel).contains(p) && 0 <= p < c.nodes().len()
                && owned_accepts(c.checker_list(), c.nodes()[p], inp)
                && #[trigger] c.children(p).contains(t),
    decreases fuel, kids.len() + 1,
{
    let k = kids[0];
    let all = c.tested_list(inp, kids, fuel);
    if t == k {
        assert(kids[0] == t);
    } else if 0 <= k < c.nodes().len() && owned_accepts(c.checker_list(), c.nodes()[k], inp) {
        let sub = c.tested(inp, k, fuel);
        assert(all == seq![k] + sub);
        let w = choose|w: int| 0 <= w < all.len() && all[w] == t;
        assert(sub[w - 1] == t);
        lemma_walk_prunes(c, inp, k, fuel, t);
        assert(all[0] == k);
        if !c.children(k).contains(t) {
            let p = choose|p: int|
                sub.contains(p) && 0 <= p < c.nodes().len() && owned_accepts(
                    c.checker_list(),
                    c.nodes()[p],
                    inp,
                ) && #[trigger] c.children(p).contains(t);
            let w2 = choose|w2: int| 0 <= w2 < sub.len() && sub[w2] == p;
            assert(all[w2 + 1] == p);
        }
    } else {
        let d = kids.drop_first();
        let sub = c.tested_list(inp, d, fuel);
        assert(all == seq![k] + sub);
        let w = choose|w: int| 0 <= w < all.len() && all[w] == t;
        assert(sub[w - 1] == t);
        lemma_list_prunes(c, inp, d, fuel, t);
        if d.contains(t) {
            let w3 = choose|w3: int| 0 <= w3 < d.len() && d[w3] == t;
            assert(kids[w3 + 1] == t);
        } else {
            let p = choose|p: int|
                sub.contains(p) && 0 <= p < c.nodes().len() && owned_accepts(
                    c.checker_list(),
                    c.nodes()[p],
                    inp,
                ) && #[trigger] c.children(p).contains(t);
            let w2 = choose|w2: int| 0 <= w2 < sub.len() && sub[w2] == p;
            assert(all[w2 + 1] == p);
        }
    }
}

/// A path whose content is a byte stream is identified exactly as its first
/// bytes are.
pub proof fn lemma_fast_path(c: &Classifier, f: FileFacts, h: Vec<u8>)
    requires
        c.accepts("application/octet-stream"@, Input::File(f)),
        f.head == Some(h),
    ensures
        c.file_identified(f) == Some(c.identified(h@)),
{
}


/// Node `v` reaches node `r` by following at most `fuel` edges from child to
/// parent.
pub open spec fn reaches(e: Seq<(int, int)>, v: int, r: int, fuel: nat) -> bool
    decreases fuel,
{
    v == r || (fuel > 0 && exists|k: int|
        0 <= k < e.len() && #[trigger] e[k].1 == v && reaches(e, e[k].0, r, (fuel - 1) as nat))
}

proof fn lemma_reaches_more(e: Seq<(int, int)>, v: int, r: int, f: nat, g: nat)
    requires
        f <= g,
        reaches(e, v, r, f),
    ensures
        reaches(e, v, r, g),
    decreases f,
{
    if v != r {
        let k = choose|k: int|
            0 <= k < e.len() && #[trigger] e[k].1 == v && reaches(e, e[k].0, r, (f - 1) as nat);
        lemma_reaches_more(e, e[k].0, r, (f - 1) as nat, (g - 1) as nat);
        assert(e[k].1 == v);
    }
}

proof fn lemma_reaches_step(e: Seq<(int, int)>, k: int, r: int, f: nat)
    requires
        0 <= k < e.len(),
        reaches(e, e[k].0, r, f),
    ensures
        reaches(e, e[k].1, r, f + 1),
{
    assert(e[k].1 == e[k].1);
}

/// The edge from the node named `p` to the node named `ch`, for a declared pair.
proof fn lemma_pair_edge(c: &Classifier, ch: Seq<char>, p: Seq<char>) -> (r: (int, int))
    requires
        c.valid(),
        declared_pair(c.checker_list(), ch, p),
    ensures
        0 <= r.0 < c.nodes().len(),
        0 <= r.1 < c.nodes().len(),
        c.nodes()[r.0] == p,
        c.nodes()[r.1] == ch,
        c.edges().contains(r),
{
    let cs = c.checker_list();
    let (i, k) = choose|i: int, k: int|
        0 <= i < cs.len() && 0 <= k < subclasses(cs[i]).len() && #[trigger] subclasses(cs[i])[k]
            == (ch, p);
    assert(subclasses(cs[i])[k].0 == ch);
    assert(linked(c.nodes(), c.edges(), p, ch));
    let (a, b) = choose|a: int, b: int|
        0 <= a < c.nodes().len() && 0 <= b < c.nodes().len() && c.nodes()[a] == p
            && c.nodes()[b] == ch && #[trigger] c.edges().contains((a, b));
    (a, b)
}

/// The base types declare the structural chain `text/plain` below
/// `application/octet-stream` below `all/allfiles` below `all/all`.
pub proof fn lemma_base_chain(c: &Classifier)
    requires
        c.checker_list().contains(Checker::BaseType),
    ensures
        declared_pair(c.checker_list(), "all/allfiles"@, "all/all"@),
        declared_pair(c.checker_list(), "application/octet-stream"@, "all/allfiles"@),
        declared_pair(c.checker_list(), "text/plain"@, "application/octet-stream"@),
{
    let cs = c.checker_list();
    let ib = choose|ib: int| 0 <= ib < cs.len() && cs[ib] == Checker::BaseType;
    assert(subclasses(cs[ib]) == base_subclasses());
    let s = base_types();
    assert(s[0] == "all/all"@ && s[1] == "all/allfiles"@ && s[2] == "inode/directory"@ && s[3]
        == "text/plain"@ && s[4] == "application/octet-stream"@);
    assert(supported(cs[ib]) == s);
    assert(declared(cs, "all/all"@) && declared(cs, "all/allfiles"@) && declared(
        cs,
        "application/octet-stream"@,
    ) && declared(cs, "text/plain"@)) by {
        assert(s.contains(s[0]) && s.contains(s[1]) && s.contains(s[3]) && s.contains(s[4]));
    }
    let bs = base_subclasses();
    assert(subclasses(cs[ib])[0] == bs[0]);
    assert(subclasses(cs[ib])[2] == bs[2]);
    assert(subclasses(cs[ib])[3] == bs[3]);
}

proof fn lemma_edge_reaches(c: &Classifier, x: (int, int), r: int, f: nat)
    requires
        c.edges().contains(x),
        reaches(c.edges(), x.0, r, f),
    ensures
        reaches(c.edges(), x.1, r, f + 1),
{
    let k = choose|k: int| 0 <= k < c.edges().len() && c.edges()[k] == x;
    lemma_reaches_step(c.edges(), k, r, f);
}

/// When the declared pairs place the structural chain below `all/all` (as the
/// base types do, see `lemma_base_chain`), and the subclass declarations are
/// free of cycles (witnessed by a rank that grows along every edge from parent
/// to child), every type in the graph reaches the root `all/all` through
/// subclass edges.
pub proof fn lemma_reaches_root(c: &Classifier, rank: spec_fn(int) -> nat, v: int)
    requires
        c.valid(),
        declared_pair(c.checker_list(), "all/allfiles"@, "all/all"@),
        declared_pair(c.checker_list(), "application/octet-stream"@, "all/allfiles"@),
        declared_pair(c.checker_list(), "text/plain"@, "application/octet-stream"@),
        ranked(c.edges(), rank),
        0 <= v < c.nodes().len(),
    ensures
        reaches(c.edges(), v, c.root(), rank(v) + 3),
    decreases rank(v),
{
    let nodes = c.nodes();
    let e = c.edges();
    let root = c.root();
    let x0 = lemma_pair_edge(c, "all/allfiles"@, "all/all"@);
    let x2 = lemma_pair_edge(c, "application/octet-stream"@, "all/allfiles"@);
    let x3 = lemma_pair_edge(c, "text/plain"@, "application/octet-stream"@);
    // The root and the structural chain below it.
    assert(x0.0 == root);
    assert(x2.0 == x0.1);
    assert(x3.0 == x2.1);
    assert(reaches(e, root, root, 0));
    lemma_edge_reaches(c, x0, root, 0);
    lemma_edge_reaches(c, x2, root, 1);
    lemma_edge_reaches(c, x3, root, 2);
    if v == root {
        lemma_reaches_more(e, v, root, 0, rank(v) + 3);
    } else if nodes[v] == "all/allfiles"@ {
        assert(v == x0.1);
        lemma_reaches_more(e, v, root, 1, rank(v) + 3);
    } else if nodes[v] == "application/octet-stream"@ {
        assert(v == x2.1);
        lemma_reaches_more(e, v, root, 2, rank(v) + 3);
    } else if nodes[v] == "text/plain"@ {
        assert(v == x3.1);
        lemma_reaches_more(e, v, root, 3, rank(v) + 3);
    } else if nodes[v] == "all/all"@ {
        assert(v == root);
        lemma_reaches_more(e, v, root, 0, rank(v) + 3);
    } else {
        assert(has_parent(e, v));
        let k = choose|k: int| 0 <= k < e.len() && #[trigger] e[k].1 == v;
        let p = e[k].0;
        assert(0 <= p < nodes.len());
        assert(rank(e[k].0) < rank(e[k].1));
        lemma_reaches_root(c, rank, p);
        lemma_reaches_more(e, p, root, rank(p) + 3, (rank(v) + 2) as nat);
        lemma_reaches_step(e, k, root, (rank(v) + 2) as nat);
    }
}


proof fn lemma_edges_included(c1: &Classifier, c2: &Classifier, x: (int, int))
    requires
        c1.valid(),
        c2.valid(),
        c1.checker_list() == c2.checker_list(),
        c1.edges().contains(x),
    ensures
        c2.edges().contains(x),
{
    let cs = c1.checker_list();
    let nodes = c1.nodes();
    let k1 = choose|k1: int| 0 <= k1 < c1.edges().len() && c1.edges()[k1] == x;
    assert(edge_justified(cs, nodes, c1.edges()[k1]));
    assert(edges_in_range(c1.edges(), nodes.len() as int));
    assert(0 <= c1.edges()[k1].0 < nodes.len() && 0 <= x.1 < nodes.len());
    assert(distinct(nodes));
    if declared_pair(cs, nodes[x.1], nodes[x.0]) {
        let (i, k) = choose|i: int, k: int|
            0 <= i < cs.len() && 0 <= k < subclasses(cs[i]).len() && #[trigger] subclasses(cs[i])[k]
                == (nodes[x.1], nodes[x.0]);
        assert(subclasses(cs[i])[k].0 == nodes[x.1]);
        assert(linked(nodes, c2.edges(), nodes[x.0], nodes[x.1]));
        let (a, b) = choose|a: int, b: int|
            0 <= a < nodes.len() && 0 <= b < nodes.len() && nodes[a] == nodes[x.0] && nodes[b]
                == nodes[x.1] && #[trigger] c2.edges().contains((a, b));
        assert(a == x.0 && b == x.1);
    } else {
        assert(!is_structural(nodes[x.1]));
        assert(has_parent(c2.edges(), x.1));
        let k = choose|k: int| 0 <= k < c2.edges().len() && #[trigger] c2.edges()[k].1 == x.1;
        let y = c2.edges()[k];
        assert(edge_justified(cs, nodes, y));
        assert(edges_in_range(c2.edges(), nodes.len() as int));
        assert(0 <= y.0 < nodes.len());
        if declared_pair(cs, nodes[x.1], nodes[y.0]) {
            assert(has_declared_parent(cs, nodes[x.1]));
        }
        assert(nodes[y.0] == nodes[x.0]);
        assert(y.0 == x.0);
        assert(c2.edges()[k] == x);
    }
}

/// Building twice from the same checkers gives the same graph: the same name
/// at each node and the same set of edges.
pub proof fn lemma_same_graph(c1: &Classifier, c2: &Classifier)
    requires
        c1.valid(),
        c2.valid(),
        c1.checker_list() == c2.checker_list(),
    ensures
        c1.nodes() == c2.nodes(),
        forall|x: (int, int)| c1.edges().contains(x) <==> c2.edges().contains(x),
{
    assert forall|x: (int, int)| c1.edges().contains(x) <==> c2.edges().contains(x) by {
        if c1.edges().contains(x) {
            lemma_edges_included(c1, c2, x);
        }
        if c2.edges().contains(x) {
            lemma_edges_included(c2, c1, x);
        }
    }
}


/// A type other than the structural ones with no declared parent hangs under
/// the structural type of its category.
pub proof fn lemma_fallback_edge(c: &Classifier, v: int)
    requires
        c.valid(),
        0 <= v < c.nodes().len(),
        !is_structural(c.nodes()[v]),
        !has_declared_parent(c.checker_list(), c.nodes()[v]),
    ensures
        exists|a: int|
            0 <= a < c.nodes().len() && c.nodes()[a] == fallback_parent(c.nodes()[v])
                && #[trigger] c.edges().contains((a, v)),
{
    let nodes = c.nodes();
    let cs = c.checker_list();
    assert(has_parent(c.edges(), v));
    let k = choose|k: int| 0 <= k < c.edges().len() && #[trigger] c.edges()[k].1 == v;
    let y = c.edges()[k];
    assert(edge_justified(cs, nodes, y));
    assert(edges_in_range(c.edges(), nodes.len() as int));
    assert(0 <= y.0 < nodes.len());
    if declared_pair(cs, nodes[v], nodes[y.0]) {
        assert(has_declared_parent(cs, nodes[v]));
    }
    assert(c.edges().contains((y.0, v)));
}


proof fn lemma_order_keeps(nodes: Seq<Seq<char>>, s: Seq<int>, x: int)
    requires
        front(nodes, s).contains(x) || rest(nodes, s).contains(x),
    ensures
        s.contains(x),
    decreases s.len(),
{
    let d = s.drop_last();
    if s.len() > 0 {
        if x == s.last() {
            assert(s[s.len() - 1] == x);
        } else {
            if front(nodes, s).contains(x) {
                if is_priority(nodes[s.last()]) {
                    let k = choose|k: int| 0 <= k < front(nodes, s).len() && front(nodes, s)[k] == x;
                    assert(front(nodes, d)[k] == x);
                }
            }
            if rest(nodes, s).contains(x) {
                if !is_priority(nodes[s.last()]) {
                    let k = choose|k: int| 0 <= k < rest(nodes, s).len() && rest(nodes, s)[k] == x;
                    assert(rest(nodes, d)[k] == x);
                }
            }
            lemma_order_keeps(nodes, d, x);
            let k = choose|k: int| 0 <= k < d.len() && d[k] == x;
            assert(s[k] == x);
        }
    }
}

/// A child in the walk's order is the target of an edge from its parent.
proof fn lemma_child_edge(c: &Classifier, p: int, t: int)
    requires
        c.children(p).contains(t),
    ensures
        c.edges().contains((p, t)),
{
    let a0 = adjacent(c.edges(), p, false);
    let a = a0.reverse();
    let o = try_order(c.nodes(), a);
    let k = choose|k: int| 0 <= k < o.len() && o[k] == t;
    let f = front(c.nodes(), a);
    if k < f.len() {
        assert(f[k] == t);
    } else {
        assert(rest(c.nodes(), a)[k - f.len()] == t);
    }
    lemma_order_keeps(c.nodes(), a, t);
    let w = choose|w: int| 0 <= w < a.len() && a[w] == t;
    assert(a0[a0.len() - 1 - w] == t);
    lemma_adjacent_contains(c.edges(), p, false, t);
}

/// Node `d` lies `len` edges below node `x`.
pub open spec fn below(e: Seq<(int, int)>, x: int, d: int, len: nat) -> bool
    decreases len,
{
    if len == 0 {
        x == d
    } else {
        exists|k: int|
            0 <= k < e.len() && #[trigger] e[k].1 == d && below(e, x, e[k].0, (len - 1) as nat)
    }
}

/// `rank` grows along every edge from parent to child.
pub open spec fn ranked(e: Seq<(int, int)>, rank: spec_fn(int) -> nat) -> bool {
    forall|k: int| 0 <= k < e.len() ==> rank((#[trigger] e[k]).0) < rank(e[k].1)
}

/// No node has two different parents.
pub open spec fn single_parent(e: Seq<(int, int)>) -> bool {
    forall|i: int, j: int|
        0 <= i < e.len() && 0 <= j < e.len() && #[trigger] e[i].1 == #[trigger] e[j].1 ==> e[i].0
            == e[j].0
}

proof fn lemma_below_rank(e: Seq<(int, int)>, rank: spec_fn(int) -> nat, x: int, d: int, len: nat)
    requires
        ranked(e, rank),
        below(e, x, d, len),
    ensures
        rank(x) <= rank(d),
    decreases len,
{
    if len > 0 {
        let k = choose|k: int|
            0 <= k < e.len() && #[trigger] e[k].1 == d && below(e, x, e[k].0, (len - 1) as nat);
        lemma_below_rank(e, rank, x, e[k].0, (len - 1) as nat);
        assert(rank(e[k].0) < rank(e[k].1));
    }
}

proof fn lemma_tested_rank(c: &Classifier, inp: Input, n: int, fuel: nat, rank: spec_fn(int) -> nat, t: int)
    requires
        ranked(c.edges(), rank),
        c.tested(inp, n, fuel).contains(t),
    ensures
        rank(n) < rank(t),
    decreases rank(t),
{
    lemma_walk_prunes(c, inp, n, fuel, t);
    if c.children(n).contains(t) {
        lemma_child_edge(c, n, t);
        let k = choose|k: int| 0 <= k < c.edges().len() && c.edges()[k] == (n, t);
        assert(rank(c.edges()[k].0) < rank(c.edges()[k].1));
    } else {
        let p = choose|p: int|
            c.tested(inp, n, fuel).contains(p) && 0 <= p < c.nodes().len() && owned_accepts(
                c.checker_list(),
                c.nodes()[p],
                inp,
            ) && #[trigger] c.children(p).contains(t);
        lemma_child_edge(c, p, t);
        let k = choose|k: int| 0 <= k < c.edges().len() && c.edges()[k] == (p, t);
        assert(rank(c.edges()[k].0) < rank(c.edges()[k].1));
        lemma_tested_rank(c, inp, n, fuel, rank, p);
    }
}

/// In a hierarchy where each type has one parent and no cycles (witnessed by
/// a rank that grows from parent to child), the walk tests no type below a
/// tested type that did not match.
pub proof fn lemma_no_descendant_tested(
    c: &Classifier,
    inp: Input,
    n: int,
    fuel: nat,
    rank: spec_fn(int) -> nat,
    x: int,
    d: int,
    len: nat,
)
    requires
        ranked(c.edges(), rank),
        single_parent(c.edges()),
        c.tested(inp, n, fuel).contains(x),
        0 <= x < c.nodes().len(),
        !owned_accepts(c.checker_list(), c.nodes()[x], inp),
        len > 0,
        below(c.edges(), x, d, len),
    ensures
        !c.tested(inp, n, fuel).contains(d),
    decreases len,
{
    let e = c.edges();
    if c.tested(inp, n, fuel).contains(d) {
        let k = choose|k: int|
            0 <= k < e.len() && #[trigger] e[k].1 == d && below(e, x, e[k].0, (len - 1) as nat);
        let q = e[k].0;
        lemma_walk_prunes(c, inp, n, fuel, d);
        if c.children(n).contains(d) {
            lemma_child_edge(c, n, d);
            let j = choose|j: int| 0 <= j < e.len() && e[j] == (n, d);
            assert(e[j].1 == e[k].1);
            assert(n == q);
            lemma_below_rank(e, rank, x, q, (len - 1) as nat);
            lemma_tested_rank(c, inp, n, fuel, rank, x);
        } else {
            let p = choose|p: int|
                c.tested(inp, n, fuel).contains(p) && 0 <= p < c.nodes().len() && owned_accepts(
                    c.checker_list(),
                    c.nodes()[p],
                    inp,
                ) && #[trigger] c.children(p).contains(d);
            lemma_child_edge(c, p, d);
            let j = choose|j: int| 0 <= j < e.len() && e[j] == (p, d);
            assert(e[j].1 == e[k].1);
            assert(p == q);
            if len == 1 {
                assert(q == x);
            } else {
                lemma_no_descendant_tested(c, inp, n, fuel, rank, x, q, (len - 1) as nat);
            }
        }
    }
}

} // verus!
