//! Checkers: the components that know how to test content against the MIME
//! types they declare. Two kinds exist: the structural base types (everything,
//! regular files, directories, binary streams, plain text) and a table of
//! magic signatures supplied by the caller.
use vstd::prelude::*;

verus! {

/// What a path names on disk, as far as classification cares.
#[derive(Clone, Copy, Debug, PartialEq, Eq, Structural)]
pub enum FileKind {
    /// Nothing could be found at the path.
    Missing,
    /// A regular file.
    Regular,
    /// A directory.
    Directory,
    /// Anything else that exists (a socket, a device, ...).
    Other,
}

/// Facts gathered about a path: its kind, and the first bytes of its content
/// when they could be read.
#[derive(Clone, Debug)]
pub struct FileFacts {
    pub kind: FileKind,
    pub head: Option<Vec<u8>>,
}

/// One signature: `pattern` occurs at byte `offset` of content of type `mime`.
#[derive(Clone, Debug)]
pub struct MagicRule {
    pub mime: String,
    pub offset: usize,
    pub pattern: Vec<u8>,
}

/// A table of magic signatures together with the types it declares, its
/// subclass pairs `(child, parent)` and its aliases `(alias, canonical)`.
#[derive(Clone, Debug)]
pub struct MagicTable {
    pub types: Vec<String>,
    pub rules: Vec<MagicRule>,
    pub subclasses: Vec<(String, String)>,
    pub aliases: Vec<(String, String)>,
}

/// A checker taking part in classification.
#[derive(Clone, Debug)]
pub enum Checker {
    /// The structural types `all/all`, `all/allfiles`, `inode/directory`,
    /// `text/plain` and `application/octet-stream`.
    BaseType,
    /// Content recognised by magic signatures.
    Magic(MagicTable),
}

/// The names of a list of strings.
pub open spec fn names_view(v: Seq<String>) -> Seq<Seq<char>> {
    v.map_values(|s: String| s@)
}

/// The names of a list of string pairs.
pub open spec fn pairs_view(v: Seq<(String, String)>) -> Seq<(Seq<char>, Seq<char>)> {
    v.map_values(|p: (String, String)| (p.0@, p.1@))
}

/// The types the base checker declares.
pub open spec fn base_types() -> Seq<Seq<char>> {
    seq!["all/all"@, "all/allfiles"@, "inode/directory"@, "text/plain"@, "application/octet-stream"@]
}

/// The subclass pairs `(child, parent)` the base checker declares.
pub open spec fn base_subclasses() -> Seq<(Seq<char>, Seq<char>)> {
    seq![
        ("all/allfiles"@, "all/all"@),
        ("inode/directory"@, "all/all"@),
        ("application/octet-stream"@, "all/allfiles"@),
        ("text/plain"@, "application/octet-stream"@),
    ]
}

/// The types a checker declares.
pub open spec fn supported(c: Checker) -> Seq<Seq<char>> {
    match c {
        Checker::BaseType => base_types(),
        Checker::Magic(t) => names_view(t.types@),
    }
}

/// The subclass pairs `(child, parent)` a checker declares.
pub open spec fn subclasses(c: Checker) -> Seq<(Seq<char>, Seq<char>)> {
    match c {
        Checker::BaseType => base_subclasses(),
        Checker::Magic(t) => pairs_view(t.subclasses@),
    }
}

/// The alias pairs `(alias, canonical)` a checker declares.
pub open spec fn aliases(c: Checker) -> Seq<(Seq<char>, Seq<char>)> {
    match c {
        Checker::BaseType => Seq::empty(),
        Checker::Magic(t) => pairs_view(t.aliases@),
    }
}

/// Content holds the rule's pattern at the rule's offset.
pub open spec fn rule_hits(r: MagicRule, b: Seq<u8>) -> bool {
    r.offset + r.pattern@.len() <= b.len() && b.subrange(
        r.offset as int,
        r.offset + r.pattern@.len(),
    ) == r.pattern@
}

/// Some rule of the table for `mime` hits the content.
pub open spec fn table_hits(t: MagicTable, mime: Seq<char>, b: Seq<u8>) -> bool {
    exists|i: int| 0 <= i < t.rules@.len() && t.rules@[i].mime@ == mime && rule_hits(t.rules@[i], b)
}

/// Content that is not empty and holds no zero byte is plain text.
pub open spec fn is_plain_text(b: Seq<u8>) -> bool {
    b.len() > 0 && !b.contains(0u8)
}

/// The checker's verdict on content `b` for type `mime`.
pub open spec fn accepts_bytes(c: Checker, mime: Seq<char>, b: Seq<u8>) -> bool {
    match c {
        Checker::BaseType => {
            if mime == "all/all"@ || mime == "all/allfiles"@ || mime == "application/octet-stream"@ {
                true
            } else if mime == "text/plain"@ {
                is_plain_text(b)
            } else {
                false
            }
        },
        Checker::Magic(t) => table_hits(t, mime, b),
    }
}

/// The checker's verdict on a path, described by `f`, for type `mime`.
pub open spec fn accepts_file(c: Checker, mime: Seq<char>, f: FileFacts) -> bool {
    match c {
        Checker::BaseType => {
            if mime == "all/all"@ {
                f.kind != FileKind::Missing
            } else if mime == "all/allfiles"@ || mime == "application/octet-stream"@ {
                f.kind == FileKind::Regular
            } else if mime == "inode/directory"@ {
                f.kind == FileKind::Directory
            } else if mime == "text/plain"@ {
                f.kind == FileKind::Regular && match f.head {
                    Some(h) => is_plain_text(h@),
                    None => false,
                }
            } else {
                false
            }
        },
        Checker::Magic(t) => match f.head {
            Some(h) => table_hits(t, mime, h@),
            None => false,
        },
    }
}

/// A copy of a string literal.
pub fn owned(s: &str) -> (r: String)
    ensures
        r@ == s@,
{
    s.to_owned()
}

fn copy_names(v: &Vec<String>) -> (r: Vec<String>)
    ensures
        names_view(r@) == names_view(v@),
{
    let mut r: Vec<String> = Vec::new();
    let mut i: usize = 0;
    while i < v.len()
        invariant
            i <= v.len(),
            r@.len() == i,
            forall|k: int| 0 <= k < i ==> r@[k]@ == v@[k]@,
        decreases v.len() - i,
    {
        let s = v[i].clone();
        r.push(s);
        i += 1;
    }
    assert(names_view(r@) =~= names_view(v@));
    r
}

fn copy_pairs(v: &Vec<(String, String)>) -> (r: Vec<(String, String)>)
    ensures
        pairs_view(r@) == pairs_view(v@),
{
    let mut r: Vec<(String, String)> = Vec::new();
    let mut i: usize = 0;
    while i < v.len()
        invariant
            i <= v.len(),
            r@.len() == i,
            forall|k: int| 0 <= k < i ==> r@[k].0@ == v@[k].0@ && r@[k].1@ == v@[k].1@,
        decreases v.len() - i,
    {
        let p = (v[i].0.clone(), v[i].1.clone());
        r.push(p);
        i += 1;
    }
    assert(pairs_view(r@) =~= pairs_view(v@));
    r
}

fn rule_matches(r: &MagicRule, b: &[u8]) -> (res: bool)
    ensures
        res == rule_hits(*r, b@),
{
    let n = r.pattern.len();
    if r.offset > b.len() || n > b.len() - r.offset {
        return false;
    }
    let mut j: usize = 0;
    while j < n
        invariant
            r.offset + n <= b@.len(),
            b@.len() == b.len(),
            n == r.pattern@.len(),
            j <= n,
            forall|k: int| 0 <= k < j ==> b@[r.offset + k] == r.pattern@[k],
        decreases n - j,
    {
        if b[r.offset + j] != r.pattern[j] {
            assert(b@.subrange(r.offset as int, r.offset + n)[j as int] != r.pattern@[j as int]);
            return false;
        }
        j += 1;
    }
    assert(b@.subrange(r.offset as int, r.offset + n) =~= r.pattern@);
    true
}

fn table_matches(t: &MagicTable, mime: &String, b: &[u8]) -> (res: bool)
    ensures
        res == table_hits(*t, mime@, b@),
{
    let mut i: usize = 0;
    while i < t.rules.len()
        invariant
            i <= t.rules@.len(),
            forall|k: int|
                0 <= k < i ==> !(t.rules@[k].mime@ == mime@ && rule_hits(t.rules@[k], b@)),
        decreases t.rules.len() - i,
    {
        if t.rules[i].mime == *mime && rule_matches(&t.rules[i], b) {
            return true;
        }
        i += 1;
    }
    false
}

fn plain_text(b: &[u8]) -> (res: bool)
    ensures
        res == is_plain_text(b@),
{
    if b.len() == 0 {
        return false;
    }
    let mut i: usize = 0;
    while i < b.len()
        invariant
            i <= b@.len(),
            forall|k: int| 0 <= k < i ==> b@[k] != 0u8,
        decreases b.len() - i,
    {
        if b[i] == 0u8 {
            assert(b@[i as int] == 0u8);
            return false;
        }
        i += 1;
    }
    true
}

/// Whether `v` holds a string with the characters of `m`.
pub(crate) fn contains_name(v: &Vec<String>, m: &String) -> (r: bool)
    ensures
        r == names_view(v@).contains(m@),
{
    let mut i: usize = 0;
    while i < v.len()
        invariant
            i <= v@.len(),
            forall|k: int| 0 <= k < i ==> v@[k]@ != m@,
        decreases v.len() - i,
    {
        if v[i] == *m {
            assert(names_view(v@)[i as int] == m@);
            return true;
        }
        i += 1;
    }
    proof {
        if names_view(v@).contains(m@) {
            let k = choose|k: int| 0 <= k < names_view(v@).len() && names_view(v@)[k] == m@;
            assert(v@[k]@ == m@);
        }
    }
    false
}

impl Checker {
    /// The types this checker declares.
    pub fn get_supported(&self) -> (r: Vec<String>)
        ensures
            names_view(r@) == supported(*self),
    {
        match self {
            Checker::BaseType => {
                let r = vec![
                    owned("all/all"),
                    owned("all/allfiles"),
                    owned("inode/directory"),
                    owned("text/plain"),
                    owned("application/octet-stream"),
                ];
                assert(names_view(r@) =~= base_types());
                r
            },
            Checker::Magic(t) => copy_names(&t.types),
        }
    }

    /// The subclass pairs `(child, parent)` this checker declares.
    pub fn get_subclasses(&self) -> (r: Vec<(String, String)>)
        ensures
            pairs_view(r@) == subclasses(*self),
    {
        match self {
            Checker::BaseType => {
                let r = vec![
                    (owned("all/allfiles"), owned("all/all")),
                    (owned("inode/directory"), owned("all/all")),
                    (owned("application/octet-stream"), owned("all/allfiles")),
                    (owned("text/plain"), owned("application/octet-stream")),
                ];
                assert(pairs_view(r@) =~= base_subclasses());
                r
            },
            Checker::Magic(t) => copy_pairs(&t.subclasses),
        }
    }

    /// The alias pairs `(alias, canonical)` this checker declares.
    pub fn get_aliaslist(&self) -> (r: Vec<(String, String)>)
        ensures
            pairs_view(r@) == aliases(*self),
    {
        match self {
            Checker::BaseType => {
                let r: Vec<(String, String)> = Vec::new();
                assert(pairs_view(r@) =~= Seq::<(Seq<char>, Seq<char>)>::empty());
                r
            },
            Checker::Magic(t) => copy_pairs(&t.aliases),
        }
    }

    /// Whether content `b` is of type `mime` according to this checker.
    pub fn from_u8(&self, b: &[u8], mime: &String) -> (r: bool)
        ensures
            r == accepts_bytes(*self, mime@, b@),
    {
        match self {
            Checker::BaseType => {
                if *mime == owned("all/all") || *mime == owned("all/allfiles") || *mime == owned(
                    "application/octet-stream",
                ) {
                    true
                } else if *mime == owned("text/plain") {
                    plain_text(b)
                } else {
                    false
                }
            },
            Checker::Magic(t) => table_matches(t, mime, b),
        }
    }

    /// Whether the path described by `f` is of type `mime` according to this
    /// checker.
    pub fn from_filepath(&self, f: &FileFacts, mime: &String) -> (r: bool)
        ensures
            r == accepts_file(*self, mime@, *f),
    {
        match self {
            Checker::BaseType => {
                if *mime == owned("all/all") {
                    f.kind != FileKind::Missing
                } else if *mime == owned("all/allfiles") || *mime == owned(
                    "application/octet-stream",
                ) {
                    f.kind == FileKind::Regular
                } else if *mime == owned("inode/directory") {
                    f.kind == FileKind::Directory
                } else if *mime == owned("text/plain") {
                    f.kind == FileKind::Regular && match &f.head {
                        Some(h) => plain_text(h.as_slice()),
                        None => false,
                    }
                } else {
                    false
                }
            },
            Checker::Magic(t) => match &f.head {
                Some(h) => table_matches(t, mime, h.as_slice()),
                None => false,
            },
        }
    }
}

} // verus!
